use std::cmp::Ordering;

use gnu_sort::config::{SortConfig, SortKey, SortMode};
use gnu_sort::error::SortError;
use gnu_sort::adaptive_sort::DataPattern;
use gnu_sort::core_sort::{detect_record_pattern, insertion_order, parallel_sorted, sort_order};
use gnu_sort::external_sort::{external_sort_order, merge_emits, next_source, run_bounds, run_budget_mb};
use gnu_sort::keys::compare_records;
use gnu_sort::zero_copy::parse_lines;
use gnu_sort::{check_input, sort};

fn run(config: &SortConfig, input: &str) -> String {
    let out = sort(config, &vec![input.as_bytes().to_vec()]).expect("sort failed");
    String::from_utf8(out).unwrap()
}

#[test]
fn test_ultimate_sort_basic() {
    let config = SortConfig::default();
    assert_eq!(
        run(&config, "zebra\napple\nbanana\ncherry\n"),
        "apple\nbanana\ncherry\nzebra\n"
    );
}

#[test]
fn test_numeric_sort() {
    let config = SortConfig::default().with_mode(SortMode::Numeric);
    assert_eq!(run(&config, "100\n20\n3\n1000\n"), "3\n20\n100\n1000\n");
}

#[test]
fn test_external_sort_small_file() {
    let config = SortConfig::default().with_mode(SortMode::Numeric);
    assert_eq!(
        run(&config, "3\n1\n4\n1\n5\n9\n2\n6\n"),
        "1\n1\n2\n3\n4\n5\n6\n9\n"
    );
}

#[test]
fn unique_keeps_first_of_each_run() {
    let config = SortConfig::default().with_unique(true);
    assert_eq!(run(&config, "a\nb\na\nc\nb\n"), "a\nb\nc\n");
}

#[test]
fn key_based_numeric() {
    let key = SortKey::parse("2,2").unwrap();
    let config = SortConfig::default().with_mode(SortMode::Numeric).add_key(key);
    assert_eq!(run(&config, "x 3\ny 1\nz 2\n"), "y 1\nz 2\nx 3\n");
}

#[test]
fn check_reports_third_line() {
    let config = SortConfig::default().with_check(true);
    assert_eq!(check_input(&config, b"1\n3\n2\n"), Some(3));
    let r = sort(&config, &vec![b"1\n3\n2\n".to_vec()]);
    match r {
        Err(e) => {
            assert!(matches!(e, SortError::NotSorted { line: 3 }));
            assert_eq!(e.exit_code(), 1);
        }
        Ok(_) => panic!("check passed on unsorted input"),
    }
    assert_eq!(check_input(&config, b"1\n2\n3\n"), None);
    assert_eq!(sort(&config, &vec![b"1\n2\n2\n".to_vec()]).unwrap(), Vec::<u8>::new());
}

#[test]
fn empty_input_gives_empty_output() {
    let config = SortConfig::default();
    assert_eq!(run(&config, ""), "");
    assert_eq!(sort(&config, &vec![]).unwrap(), Vec::<u8>::new());
}

#[test]
fn single_record_gains_terminator() {
    let config = SortConfig::default();
    assert_eq!(run(&config, "alone"), "alone\n");
}

#[test]
fn separator_byte_inside_records_without_keys() {
    let config = SortConfig::default().with_field_separator(Some(','));
    assert_eq!(run(&config, "b,a\na,c\na,b\n"), "a,b\na,c\nb,a\n");
}

#[test]
fn zero_terminated_keeps_newlines_inside_records() {
    let config = SortConfig::default().with_zero_terminated(true);
    let out = sort(&config, &vec![b"b\nx\0a\ny\0".to_vec()]).unwrap();
    assert_eq!(out, b"a\ny\0b\nx\0".to_vec());
    assert_eq!(parse_lines(b"b\nx\0a", 0), vec![b"b\nx".to_vec(), b"a".to_vec()]);
}

#[test]
fn reverse_and_stable() {
    let config = SortConfig::default().with_reverse(true);
    assert_eq!(run(&config, "a\nc\nb\n"), "c\nb\na\n");
    let key = SortKey::parse("1,1").unwrap();
    let config = SortConfig::default().with_stable(true).add_key(key);
    assert_eq!(run(&config, "b 2\na 9\nb 1\na 3\n"), "a 9\na 3\nb 2\nb 1\n");
}

#[test]
fn last_resort_breaks_key_ties() {
    let key = SortKey::parse("1,1").unwrap();
    let config = SortConfig::default().add_key(key);
    assert_eq!(run(&config, "b 2\na 9\nb 1\na 3\n"), "a 3\na 9\nb 1\nb 2\n");
}

#[test]
fn merge_mode_interleaves_inputs() {
    let config = SortConfig::default().with_merge(true);
    let out = sort(&config, &vec![b"a\nc\ne\n".to_vec(), b"b\nd\n".to_vec()]).unwrap();
    assert_eq!(out, b"a\nb\nc\nd\ne\n".to_vec());
    let plain = SortConfig::default();
    let sorted = sort(&plain, &vec![b"a\nc\ne\n".to_vec(), b"b\nd\n".to_vec()]).unwrap();
    assert_eq!(out, sorted);
}

#[test]
fn other_modes() {
    let human = SortConfig::default().with_mode(SortMode::HumanNumeric);
    assert_eq!(run(&human, "2G\n10K\n1M\n3\n"), "3\n10K\n1M\n2G\n");
    let month = SortConfig::default().with_mode(SortMode::Month);
    assert_eq!(run(&month, "Mar\njan\nxyz\nFEB\n"), "xyz\njan\nFEB\nMar\n");
    let version = SortConfig::default().with_mode(SortMode::Version);
    assert_eq!(run(&version, "v1.10\nv1.2\nv1.9\n"), "v1.2\nv1.9\nv1.10\n");
    let mut folded = SortConfig::default();
    folded.ignore_case = true;
    folded.unique = true;
    assert_eq!(run(&folded, "b\nA\na\nB\n"), "A\nb\n");
    let mut dict = SortConfig::default();
    dict.dictionary_order = true;
    assert_eq!(run(&dict, "_b\na\n"), "a\n_b\n");
}

#[test]
fn random_mode_groups_equal_records() {
    let mut config = SortConfig::default().with_mode(SortMode::Random);
    config.random_salt = 12345;
    let out = run(&config, "x\ny\nx\nz\ny\nx\n");
    let lines: Vec<&str> = out.lines().collect();
    assert_eq!(lines.len(), 6);
    let mut groups = 1;
    for w in lines.windows(2) {
        if w[0] != w[1] {
            groups += 1;
        }
    }
    assert_eq!(groups, 3);
}

#[test]
fn comparator_flips_when_swapped() {
    let config = SortConfig::default().with_mode(SortMode::Numeric);
    assert_eq!(compare_records(&config, b"10", b"9"), Ordering::Greater);
    assert_eq!(compare_records(&config, b"9", b"10"), Ordering::Less);
    let r = SortConfig::default().with_reverse(true);
    assert_eq!(compare_records(&r, b"a", b"b"), Ordering::Greater);
}

#[test]
fn invalid_config_is_refused_by_sort() {
    let config = SortConfig::default().with_check(true).with_merge(true);
    assert!(matches!(
        sort(&config, &vec![b"a\n".to_vec()]),
        Err(SortError::ConflictingOptions { .. })
    ));
}

#[test]
fn external_runs_give_the_in_memory_order() {
    let data = b"pear\nfig\napple\nkiwi\nfig\nbanana\ncherry\ndate\nplum\n";
    let recs = parse_lines(data, b'\n');
    let config = SortConfig::default();
    let bounds = run_bounds(&recs, 12);
    assert_eq!(bounds[0], 0);
    assert_eq!(*bounds.last().unwrap(), recs.len());
    assert!(bounds.len() > 3);
    let small = external_sort_order(&config, &recs, 12);
    let whole = sort_order(&config, &recs);
    let pick = |o: &Vec<usize>| o.iter().map(|i| recs[*i].clone()).collect::<Vec<_>>();
    assert_eq!(pick(&small), pick(&whole));
}

#[test]
fn oversized_record_gets_its_own_run() {
    let recs = parse_lines(b"a\nthis-is-long\nb\n", b'\n');
    assert_eq!(run_bounds(&recs, 4), vec![0, 1, 2, 3]);
}

#[test]
fn run_budget_by_input_size() {
    assert_eq!(run_budget_mb(10, 4608), 1024);
    assert_eq!(run_budget_mb(300 * 1024 * 1024, 4608), 512);
    assert_eq!(run_budget_mb(2 * 1024 * 1024 * 1024, 4608), 409);
    assert_eq!(run_budget_mb(10, 100), 32);
}

#[test]
fn insertion_and_merge_orders_agree() {
    let text: String = (0..100).map(|i| format!("{}\n", (i * 37) % 101)).collect();
    let recs = parse_lines(text.as_bytes(), b'\n');
    let config = SortConfig::default().with_mode(SortMode::Numeric);
    let a = insertion_order(&config, &recs);
    let b = sort_order(&config, &recs);
    assert_eq!(a, b);
    assert_eq!(recs[a[0]], b"0".to_vec());
    assert_eq!(recs[a[99]], b"100".to_vec());
}

#[test]
fn output_is_a_permutation_of_input() {
    let config = SortConfig::default().with_mode(SortMode::Numeric);
    let input = "5\n-2\n5\n10\nx\n0\n-2\n";
    let out = run(&config, input);
    let mut a: Vec<&str> = input.lines().collect();
    let mut b: Vec<&str> = out.lines().collect();
    a.sort();
    b.sort();
    assert_eq!(a, b);
}

#[test]
fn output_passes_the_check() {
    let config = SortConfig::default().with_mode(SortMode::HumanNumeric);
    let out = run(&config, "3K\n-1\n2M\n7\n1K\n");
    assert_eq!(out, "-1\n7\n1K\n3K\n2M\n");
    assert_eq!(check_input(&config, out.as_bytes()), None);
}

#[test]
fn reverse_is_forward_read_backwards() {
    let forward = run(&SortConfig::default(), "delta\nalpha\ncharlie\nbravo\n");
    let backward = run(&SortConfig::default().with_reverse(true), "delta\nalpha\ncharlie\nbravo\n");
    let mut lines: Vec<&str> = forward.lines().collect();
    lines.reverse();
    let expected: String = lines.iter().map(|l| format!("{l}\n")).collect();
    assert_eq!(backward, expected);
}

#[test]
fn checked_input_is_kept_by_sort() {
    let config = SortConfig::default().with_stable(true).add_key(SortKey::parse("2,2n").unwrap());
    let input = "b 1\na 1\nc 2\n";
    assert_eq!(check_input(&config, input.as_bytes()), None);
    assert_eq!(run(&config, input), input);
}

#[test]
fn parallel_sort_of_many_records() {
    let text: String = (0..10000).map(|i| format!("{}\n", (i * 7919) % 10007)).collect();
    let recs = parse_lines(text.as_bytes(), b'\n');
    let config = SortConfig::default().with_mode(SortMode::Numeric);
    let order = parallel_sorted(&config, &recs);
    assert_eq!(order.len(), 10000);
    assert_ne!(order[1], 1);
    for w in order.windows(2) {
        let a: i64 = String::from_utf8(recs[w[0]].clone()).unwrap().parse().unwrap();
        let b: i64 = String::from_utf8(recs[w[1]].clone()).unwrap().parse().unwrap();
        assert!(a <= b);
    }
    let out = sort(&config, &vec![text.into_bytes()]).unwrap();
    assert!(out.starts_with(b"0\n1\n"));
}

#[test]
fn next_source_takes_smallest_front_and_earliest_tie() {
    let config = SortConfig::default().with_stable(true);
    let fronts = vec![b"m".to_vec(), b"c".to_vec(), b"a".to_vec(), b"a".to_vec()];
    assert_eq!(next_source(&config, &fronts, &vec![true, true, true, true]), Some(2));
    assert_eq!(next_source(&config, &fronts, &vec![true, true, false, true]), Some(3));
    assert_eq!(next_source(&config, &fronts, &vec![true, false, false, false]), Some(0));
    assert_eq!(next_source(&config, &fronts, &vec![false, false, false, false]), None);
}

#[test]
fn general_numeric_reads_exponents_infinities_and_nan() {
    let config = SortConfig::default().with_mode(SortMode::GeneralNumeric);
    assert_eq!(
        run(&config, "1e3\nnan\n-inf\n2.5\n-1E2\ninf\n0.01e2\nabc\n"),
        "-inf\nabc\n-1E2\n0.01e2\n2.5\n1e3\ninf\nnan\n"
    );
    assert_eq!(run(&config, "1.0\n1\n1e0\n"), "1\n1.0\n1e0\n");
    assert_eq!(run(&config, "1e-5\n1e5\n0\n-0\n"), "-0\n0\n1e-5\n1e5\n");
}

#[test]
fn merge_emits_skips_repeats_only_for_unique() {
    let plain = SortConfig::default();
    let unique = SortConfig::default().with_unique(true);
    let last = Some(b"a".to_vec());
    assert!(merge_emits(&plain, &last, b"a"));
    assert!(!merge_emits(&unique, &last, b"a"));
    assert!(merge_emits(&unique, &last, b"b"));
    assert!(merge_emits(&unique, &None, b"a"));
}

#[test]
fn runs_are_filled_up_to_the_budget() {
    let recs = parse_lines(b"aa\nbb\ncc\ndd\nee\n", b'\n');
    assert_eq!(run_bounds(&recs, 6), vec![0, 2, 4, 5]);
    assert_eq!(run_bounds(&recs, 100), vec![0, 5]);
}

#[test]
fn record_patterns_are_detected() {
    let config = SortConfig::default();
    let sorted: String = (0..200).map(|i| format!("{:04}\n", i)).collect();
    let recs = parse_lines(sorted.as_bytes(), b'\n');
    assert_eq!(detect_record_pattern(&config, &recs), DataPattern::MostlySorted);
    let reversed: String = (0..200).rev().map(|i| format!("{:04}\n", i)).collect();
    let recs = parse_lines(reversed.as_bytes(), b'\n');
    assert_eq!(detect_record_pattern(&config, &recs), DataPattern::MostlyReversed);
    let unique = SortConfig::default().with_unique(true);
    let dups: String = (0..200).map(|i| format!("{}\n", i % 3 / 3)).collect();
    let recs = parse_lines(dups.as_bytes(), b'\n');
    assert_eq!(detect_record_pattern(&unique, &recs), DataPattern::ManyDuplicates);
}

#[test]
fn reversed_stable_sort_matches_up_to_ties() {
    let key = SortKey::parse("1,1").unwrap();
    let forward = SortConfig::default().with_stable(true).add_key(key);
    let backward = SortConfig::default().with_stable(true).with_reverse(true).add_key(key);
    let input = "a 2\nb 1\na 1\n";
    assert_eq!(run(&forward, input), "a 2\na 1\nb 1\n");
    assert_eq!(run(&backward, input), "b 1\na 2\na 1\n");
}
