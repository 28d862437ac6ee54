use gnu_sort::adaptive_sort::{
    branchless_compare, simd_find_min_max, AdaptiveSort, DataPattern, DataType, SortAlgorithm,
};

#[test]
fn test_counting_sort() {
    let mut data = vec![5, 2, 8, 1, 9, 3, 7, 4, 6];
    AdaptiveSort::counting_sort(&mut data, 1, 9);
    assert_eq!(data, vec![1, 2, 3, 4, 5, 6, 7, 8, 9]);
}

#[test]
fn test_pattern_detection() {
    let sorted = vec![1, 2, 3, 4, 5, 6, 7, 8, 9, 10];
    assert!(matches!(
        AdaptiveSort::detect_patterns(&sorted),
        DataPattern::MostlySorted
    ));

    let reversed = vec![10, 9, 8, 7, 6, 5, 4, 3, 2, 1];
    assert!(matches!(
        AdaptiveSort::detect_patterns(&reversed),
        DataPattern::MostlyReversed
    ));
}

#[test]
fn pattern_of_duplicates_and_noise() {
    let dups = vec![4i64; 50];
    assert_eq!(AdaptiveSort::detect_patterns(&dups), DataPattern::ManyDuplicates);
    let noise = vec![1i64, 5, 2, 6, 3, 7, 1, 8, 2, 9];
    assert_eq!(AdaptiveSort::detect_patterns(&noise), DataPattern::Random);
    assert_eq!(AdaptiveSort::detect_patterns(&[]), DataPattern::Random);
}

#[test]
fn counting_sort_with_repeats_and_wide_range() {
    let mut data = vec![3, -1, 3, 0, -1];
    AdaptiveSort::counting_sort(&mut data, -1, 3);
    assert_eq!(data, vec![-1, -1, 0, 3, 3]);
    let mut wide = vec![2_000_000, -5, 7];
    AdaptiveSort::counting_sort(&mut wide, -5, 2_000_000);
    assert_eq!(wide, vec![-5, 7, 2_000_000]);
}

#[test]
fn algorithm_selection_rules() {
    assert_eq!(
        AdaptiveSort::select_optimal_algorithm(50, DataPattern::MostlySorted, DataType::String),
        SortAlgorithm::InsertionSort
    );
    assert_eq!(
        AdaptiveSort::select_optimal_algorithm(500, DataPattern::ManyDuplicates, DataType::String),
        SortAlgorithm::ThreeWayQuickSort
    );
    assert_eq!(
        AdaptiveSort::select_optimal_algorithm(5000, DataPattern::Random, DataType::Integer),
        SortAlgorithm::RadixSort
    );
    assert_eq!(
        AdaptiveSort::select_optimal_algorithm(5000, DataPattern::Random, DataType::String),
        SortAlgorithm::MergeSort
    );
}

#[test]
fn partition_around_pivot() {
    let mut data = vec![5i64, 1, 5, 9, 3, 5, 7];
    let (lt, gt) = AdaptiveSort::three_way_partition(&mut data, 0);
    assert_eq!((lt, gt), (2, 5));
    assert!(data[..lt].iter().all(|x| *x < 5));
    assert!(data[lt..gt].iter().all(|x| *x == 5));
    assert!(data[gt..].iter().all(|x| *x > 5));
}

#[test]
fn small_integer_helpers() {
    assert_eq!(branchless_compare(3, 1), 1);
    assert_eq!(branchless_compare(1, 3), -1);
    assert_eq!(branchless_compare(2, 2), 0);
    assert_eq!(simd_find_min_max(&[4, -2, 9, 0]), (-2, 9));
    assert_eq!(simd_find_min_max(&[]), (i32::MAX, i32::MIN));
    assert!(AdaptiveSort::new().enable_adaptive);
}
