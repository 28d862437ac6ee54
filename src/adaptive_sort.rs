//! Choice of a sorting strategy from the shape of the data, and the integer sorts and
//! partitions that the choice leads to.
use vstd::prelude::*;

verus! {

broadcast use vstd::seq_lib::group_to_multiset_ensures, vstd::multiset::group_multiset_axioms;

/// Switches of the adaptive sorter.
pub struct AdaptiveSort {
    pub enable_simd: bool,
    pub enable_adaptive: bool,
    pub enable_pattern_detection: bool,
    pub enable_compression: bool,
}

#[derive(Debug, Clone, Copy, PartialEq, Eq, Structural)]
pub enum DataPattern {
    MostlySorted,
    MostlyReversed,
    ManyDuplicates,
    Random,
}

#[derive(Debug, Clone, Copy, PartialEq, Eq, Structural)]
pub enum DataType {
    Integer,
    Float,
    String,
    Mixed,
}

#[derive(Debug, Clone, Copy, PartialEq, Eq, Structural)]
pub enum SortAlgorithm {
    InsertionSort,
    QuickSort,
    MergeSort,
    HeapSort,
    IntroSort,
    TimSort,
    ReverseTimSort,
    RadixSort,
    MSDRadixSort,
    FloatRadixSort,
    CountingSort,
    ThreeWayQuickSort,
}

/// How many positions the pattern detection samples: a hundredth of the data, at
/// least 10 and at most 1000.
pub open spec fn sample_size(n: int) -> int {
    let s = n / 100;
    if s > 1000 {
        1000
    } else if s < 10 {
        10
    } else {
        s
    }
}

/// Counts of ascending, descending and equal pairs `(data[p], data[p + 1])` over the
/// first `k` sampled positions `p = i * (n / sample_size(n))`.
pub open spec fn sample_counts(data: Seq<i64>, k: int) -> (int, int, int)
    decreases k,
{
    if k <= 0 {
        (0, 0, 0)
    } else {
        let (a, d, e) = sample_counts(data, k - 1);
        let n = data.len() as int;
        let p = (k - 1) * (n / sample_size(n));
        if p + 1 < n {
            if data[p] < data[p + 1] {
                (a + 1, d, e)
            } else if data[p] > data[p + 1] {
                (a, d + 1, e)
            } else {
                (a, d, e + 1)
            }
        } else {
            (a, d, e)
        }
    }
}

/// The pattern that the sampled pairs show: at least 80% ascending, at least 80%
/// descending, at least 50% equal, or none of these.
pub open spec fn pattern_of(data: Seq<i64>) -> DataPattern {
    let (a, d, e) = sample_counts(data, sample_size(data.len() as int));
    let t = a + d + e;
    if t > 0 && 5 * a >= 4 * t {
        DataPattern::MostlySorted
    } else if t > 0 && 5 * d >= 4 * t {
        DataPattern::MostlyReversed
    } else if t > 0 && 2 * e >= t {
        DataPattern::ManyDuplicates
    } else {
        DataPattern::Random
    }
}

/// The algorithm for data of a length, pattern and type.
pub open spec fn algorithm_for(n: int, p: DataPattern, t: DataType) -> SortAlgorithm {
    match p {
        DataPattern::MostlySorted => if n < 100000 {
            SortAlgorithm::InsertionSort
        } else {
            SortAlgorithm::MergeSort
        },
        DataPattern::MostlyReversed => SortAlgorithm::ReverseTimSort,
        DataPattern::ManyDuplicates => if t == DataType::Integer && n >= 1000 {
            SortAlgorithm::RadixSort
        } else if t != DataType::Integer {
            SortAlgorithm::ThreeWayQuickSort
        } else {
            SortAlgorithm::MergeSort
        },
        DataPattern::Random => if t == DataType::Integer && n >= 1000 {
            SortAlgorithm::RadixSort
        } else {
            SortAlgorithm::MergeSort
        },
    }
}

pub open spec fn sorted_i32(s: Seq<i32>) -> bool {
    forall|i: int, j: int| 0 <= i < j < s.len() ==> s[i] <= s[j]
}

/// Relies on `slice::sort_unstable`: the slice ends in ascending order, holding the
/// same elements.
#[verifier::external_body]
fn sort_unstable_i32(data: &mut Vec<i32>)
    ensures
        sorted_i32(final(data)@),
        final(data)@.to_multiset() == old(data)@.to_multiset(),
{
    data.sort_unstable();
}

impl AdaptiveSort {
    /// All strategies on; the vector path is a speed-up only and stays off.
    pub fn new() -> (r: Self)
        ensures
            !r.enable_simd && r.enable_adaptive && r.enable_pattern_detection && r.enable_compression,
    {
        AdaptiveSort {
            enable_simd: false,
            enable_adaptive: true,
            enable_pattern_detection: true,
            enable_compression: true,
        }
    }

    /// Samples the data and says how ordered it looks.
    pub fn detect_patterns(data: &[i64]) -> (r: DataPattern)
        ensures
            r == pattern_of(data@),
    {
        let n = data.len();
        let s0 = n / 100;
        let sample: usize = if s0 > 1000 {
            1000
        } else if s0 < 10 {
            10
        } else {
            s0
        };
        let step = n / sample;
        let mut ascending: usize = 0;
        let mut descending: usize = 0;
        let mut equal: usize = 0;
        let mut i: usize = 0;
        while i < sample
            invariant
                n == data@.len(),
                sample == sample_size(n as int),
                step == n / sample,
                i <= sample,
                (ascending as int, descending as int, equal as int) == sample_counts(data@, i as int),
                ascending + descending + equal <= i,
            decreases sample - i,
        {
            proof {
                assert(i * step <= n) by (nonlinear_arith)
                    requires
                        i < sample,
                        step == n / sample,
                        sample > 0,
                ;
            }
            let p = i * step;
            if n > 0 && p < n - 1 {
                if data[p] < data[p + 1] {
                    ascending = ascending + 1;
                } else if data[p] > data[p + 1] {
                    descending = descending + 1;
                } else {
                    equal = equal + 1;
                }
            }
            i = i + 1;
        }
        let t = ascending + descending + equal;
        if t > 0 && 5 * ascending >= 4 * t {
            DataPattern::MostlySorted
        } else if t > 0 && 5 * descending >= 4 * t {
            DataPattern::MostlyReversed
        } else if t > 0 && 2 * equal >= t {
            DataPattern::ManyDuplicates
        } else {
            DataPattern::Random
        }
    }

    /// The algorithm for data of a length, pattern and type.
    pub fn select_optimal_algorithm(data_len: usize, pattern: DataPattern, data_type: DataType) -> (r: SortAlgorithm)
        ensures
            r == algorithm_for(data_len as int, pattern, data_type),
    {
        let integer = matches!(data_type, DataType::Integer);
        match pattern {
            DataPattern::MostlySorted => if data_len < 100000 {
                SortAlgorithm::InsertionSort
            } else {
                SortAlgorithm::MergeSort
            },
            DataPattern::MostlyReversed => SortAlgorithm::ReverseTimSort,
            DataPattern::ManyDuplicates => if integer && data_len >= 1000 {
                SortAlgorithm::RadixSort
            } else if !integer {
                SortAlgorithm::ThreeWayQuickSort
            } else {
                SortAlgorithm::MergeSort
            },
            DataPattern::Random => if integer && data_len >= 1000 {
                SortAlgorithm::RadixSort
            } else {
                SortAlgorithm::MergeSort
            },
        }
    }

    /// Sorts integers that lie in `[min, max]` by counting each value; ranges wider than
    /// a million values go to a comparison sort.
    pub fn counting_sort(data: &mut Vec<i32>, min: i32, max: i32)
        requires
            min <= max,
            forall|i: int| 0 <= i < old(data)@.len() ==> min <= #[trigger] old(data)@[i] <= max,
        ensures
            sorted_i32(final(data)@),
            final(data)@.to_multiset() == old(data)@.to_multiset(),
    {
        let range: u64 = (max as i64 - min as i64 + 1) as u64;
        if range > 1000000 {
            sort_unstable_i32(data);
            return;
        }
        let ghost input = data@;
        let r = range as usize;
        let mut counts: Vec<usize> = Vec::new();
        let mut b: usize = 0;
        while b < r
            invariant
                b <= r,
                counts@.len() == b,
                forall|k: int| 0 <= k < b ==> #[trigger] counts@[k] == 0,
            decreases r - b,
        {
            counts.push(0);
            b = b + 1;
        }
        let mut i: usize = 0;
        while i < data.len()
            invariant
                data@ == input,
                r == max - min + 1,
                r <= 1000000,
                counts@.len() == r,
                i <= input.len(),
                forall|k: int| 0 <= k < input.len() ==> min <= #[trigger] input[k] <= max,
                forall|k: int|
                    0 <= k < r ==> #[trigger] counts@[k] == input.subrange(0, i as int).to_multiset().count(
                        (min + k) as i32,
                    ),
                forall|k: int| 0 <= k < r ==> #[trigger] counts@[k] <= i,
            decreases input.len() - i,
        {
            let v = data[i];
            let slot = (v as i64 - min as i64) as usize;
            proof {
                assert(input.subrange(0, i + 1) =~= input.subrange(0, i as int).push(v));
            }
            counts.set(slot, counts[slot] + 1);
            i = i + 1;
            proof {
                assert forall|k: int| 0 <= k < r implies #[trigger] counts@[k] == input.subrange(
                    0,
                    i as int,
                ).to_multiset().count((min + k) as i32) by {
                    if k != slot {
                        assert((min + k) as i32 != v);
                    }
                }
            }
        }
        assert(input.subrange(0, input.len() as int) =~= input);
        let mut out: Vec<i32> = Vec::new();
        let mut b: usize = 0;
        while b < r
            invariant
                r == max - min + 1,
                r <= 1000000,
                b <= r,
                counts@.len() == r,
                forall|k: int| 0 <= k < input.len() ==> min <= #[trigger] input[k] <= max,
                forall|k: int| 0 <= k < r ==> #[trigger] counts@[k] == input.to_multiset().count((min + k) as i32),
                forall|v: i32| #[trigger] out@.to_multiset().count(v) == if v < min + b {
                    input.to_multiset().count(v)
                } else {
                    0
                },
                forall|k: int| 0 <= k < out@.len() ==> min <= #[trigger] out@[k] < min + b,
                sorted_i32(out@),
            decreases r - b,
        {
            let v: i32 = (min as i64 + b as i64) as i32;
            let c = counts[b];
            let mut j: usize = 0;
            while j < c
                invariant
                    j <= c,
                    v == min + b,
                    b < r,
                    r == max - min + 1,
                    forall|w: i32| #[trigger] out@.to_multiset().count(w) == if w < v {
                        input.to_multiset().count(w)
                    } else if w == v {
                        j as nat
                    } else {
                        0
                    },
                    forall|k: int| 0 <= k < out@.len() ==> min <= #[trigger] out@[k] <= v,
                    sorted_i32(out@),
                decreases c - j,
            {
                let ghost before = out@;
                out.push(v);
                proof {
                    assert(out@ == before.push(v));
                    before.to_multiset_ensures();
                }
                j = j + 1;
            }
            b = b + 1;
        }
        proof {
            assert forall|v: i32| #[trigger] out@.to_multiset().count(v) == input.to_multiset().count(v) by {
                if v < min || v > max {
                    if input.to_multiset().count(v) > 0 {
                        assert(input.contains(v));
                        let k = choose|k: int| 0 <= k < input.len() && input[k] == v;
                        assert(min <= input[k] <= max);
                    }
                }
            }
            assert(out@.to_multiset() =~= input.to_multiset());
        }
        *data = out;
    }

    /// Puts the elements below the pivot first, then those equal to it, then those
    /// above; returns where the equal run begins and ends.
    pub fn three_way_partition(data: &mut Vec<i64>, pivot_idx: usize) -> (r: (usize, usize))
        requires
            pivot_idx < old(data)@.len(),
        ensures
            ({
                let s = final(data)@;
                let p = old(data)@[pivot_idx as int];
                &&& s.len() == old(data)@.len()
                &&& s.to_multiset() == old(data)@.to_multiset()
                &&& r.0 <= r.1 <= s.len()
                &&& forall|k: int| 0 <= k < r.0 ==> #[trigger] s[k] < p
                &&& forall|k: int| r.0 <= k < r.1 ==> #[trigger] s[k] == p
                &&& forall|k: int| r.1 <= k < s.len() ==> #[trigger] s[k] > p
            }),
    {
        let ghost orig = data@;
        swap_at(data, 0, pivot_idx);
        let pivot = data[0];
        let n = data.len();
        let mut lt: usize = 0;
        let mut i: usize = 1;
        let mut gt: usize = n;
        while i < gt
            invariant
                data@.len() == n,
                data@.to_multiset() == orig.to_multiset(),
                pivot == orig[pivot_idx as int],
                lt < i <= gt <= n,
                forall|k: int| 0 <= k < lt ==> #[trigger] data@[k] < pivot,
                forall|k: int| lt <= k < i ==> #[trigger] data@[k] == pivot,
                forall|k: int| gt <= k < n ==> #[trigger] data@[k] > pivot,
            decreases gt - i,
        {
            let x = data[i];
            if x < pivot {
                swap_at(data, i, lt);
                lt = lt + 1;
                i = i + 1;
            } else if x > pivot {
                gt = gt - 1;
                swap_at(data, i, gt);
            } else {
                i = i + 1;
            }
        }
        (lt, gt)
    }
}

/// The strings of `interned` are distinct, and `indices` names for each input string
/// the one equal to it.
/// Some input string among the first `n` is named by copy `j`.
pub open spec fn used_before(indices: Seq<usize>, j: int, n: int) -> bool {
    exists|i: int| 0 <= i < n && indices[i] == j
}

/// The strings of `interned` are distinct, `indices` names for each input string the
/// one equal to it, every copy is named by some input string, and a copy is named only
/// after every earlier copy was: copies come in the order of first appearance.
pub open spec fn interning_of(strings: Seq<String>, indices: Seq<usize>, interned: Seq<String>) -> bool {
    &&& indices.len() == strings.len()
    &&& forall|i: int| 0 <= i < indices.len() ==> #[trigger] indices[i] < interned.len()
    &&& forall|i: int| 0 <= i < indices.len() ==> interned[#[trigger] indices[i] as int]@ == strings[i]@
    &&& forall|j: int, k: int| 0 <= j < k < interned.len() ==> interned[j]@ != interned[k]@
    &&& forall|j: int| 0 <= j < interned.len() ==> #[trigger] used_before(indices, j, indices.len() as int)
    &&& forall|i: int, j: int|
        0 <= i < indices.len() && 0 <= j < indices[i] ==> #[trigger] used_before(indices, j, i)
}

impl AdaptiveSort {
    /// Keeps one copy of each distinct string and names, for each input string, its copy;
    /// copies come in the order of first appearance.
    pub fn intern_strings(strings: Vec<String>) -> (r: (Vec<usize>, Vec<String>))
        ensures
            interning_of(strings@, r.0@, r.1@),
    {
        let mut indices: Vec<usize> = Vec::with_capacity(strings.len());
        let mut interned: Vec<String> = Vec::new();
        let mut i: usize = 0;
        while i < strings.len()
            invariant
                i <= strings@.len(),
                interning_of(strings@.subrange(0, i as int), indices@, interned@),
            decreases strings@.len() - i,
        {
            let s = &strings[i];
            let mut k: usize = 0;
            let mut found = false;
            while k < interned.len() && !found
                invariant
                    k <= interned@.len(),
                    found ==> k < interned@.len() && interned@[k as int]@ == s@,
                    forall|m: int| 0 <= m < k ==> interned@[m]@ != s@,
                decreases interned@.len() - k + (if found { 0int } else { 1int }),
            {
                if interned[k] == *s {
                    found = true;
                } else {
                    k = k + 1;
                }
            }
            let ghost old_interned = interned@;
            let ghost old_indices = indices@;
            if !found {
                interned.push(s.clone());
                k = interned.len() - 1;
            }
            indices.push(k);
            proof {
                let t = strings@.subrange(0, i + 1);
                assert(t.subrange(0, i as int) =~= strings@.subrange(0, i as int));
                assert(interned@[k as int]@ == s@);
                assert forall|j: int, m: int| 0 <= j < m < interned@.len() implies interned@[j]@ != interned@[m]@ by {
                    if m == old_interned.len() {
                        assert(interned@[j] == old_interned[j]);
                    } else {
                        assert(interned@[j] == old_interned[j] && interned@[m] == old_interned[m]);
                    }
                }
                assert forall|j: int| 0 <= j < interned@.len() implies #[trigger] used_before(indices@, j, indices@.len() as int) by {
                    if j < old_interned.len() {
                        assert(used_before(old_indices, j, old_indices.len() as int));
                        let w = choose|w: int| 0 <= w < old_indices.len() && old_indices[w] == j;
                        assert(indices@[w] == j);
                    } else {
                        assert(indices@[i as int] == j);
                    }
                }
                assert forall|a: int, j: int| 0 <= a < indices@.len() && 0 <= j < indices@[a] implies #[trigger] used_before(indices@, j, a) by {
                    if a < i {
                        assert(indices@[a] == old_indices[a]);
                        assert(used_before(old_indices, j, a));
                        let w = choose|w: int| 0 <= w < a && old_indices[w] == j;
                        assert(indices@[w] == j);
                    } else {
                        assert(j < old_interned.len());
                        assert(used_before(old_indices, j, old_indices.len() as int));
                        let w = choose|w: int| 0 <= w < old_indices.len() && old_indices[w] == j;
                        assert(indices@[w] == j);
                    }
                }
                assert forall|j: int| 0 <= j < indices@.len() implies interned@[#[trigger] indices@[j] as int]@ == t[j]@ by {
                    if j < i {
                        assert(t[j] == strings@.subrange(0, i as int)[j]);
                        assert(interned@[indices@[j] as int] == old_interned[indices@[j] as int]);
                    }
                }
            }
            i = i + 1;
        }
        assert(strings@.subrange(0, i as int) =~= strings@);
        (indices, interned)
    }
}

/// Exchanges two elements.
fn swap_at(data: &mut Vec<i64>, i: usize, j: usize)
    requires
        i < old(data)@.len(),
        j < old(data)@.len(),
    ensures
        final(data)@ == old(data)@.update(i as int, old(data)@[j as int]).update(j as int, old(data)@[i as int]),
        final(data)@.to_multiset() == old(data)@.to_multiset(),
{
    let ghost s = data@;
    let a = data[i];
    let b = data[j];
    data.set(i, b);
    data.set(j, a);
    proof {
        let t = s.update(i as int, b);
        assert(t.to_multiset() =~= s.to_multiset().remove(a).insert(b));
        assert(t.update(j as int, a).to_multiset() =~= t.to_multiset().remove(t[j as int]).insert(a));
        if i == j {
            assert(data@ =~= s);
        } else {
            assert(t[j as int] == b);
        }
        assert(data@.to_multiset() =~= s.to_multiset());
    }
}

/// The sign of `a - b`: -1, 0 or 1.
pub fn branchless_compare(a: i32, b: i32) -> (r: i32)
    ensures
        r == if a > b {
            1i32
        } else if a < b {
            -1i32
        } else {
            0i32
        },
{
    (if a > b {
        1i32
    } else {
        0i32
    }) - (if a < b {
        1i32
    } else {
        0i32
    })
}

/// The smallest and the largest element; `(i32::MAX, i32::MIN)` for no elements.
pub fn simd_find_min_max(data: &[i32]) -> (r: (i32, i32))
    ensures
        forall|k: int| 0 <= k < data@.len() ==> r.0 <= #[trigger] data@[k] <= r.1,
        data@.len() == 0 ==> r == (i32::MAX, i32::MIN),
        data@.len() > 0 ==> data@.contains(r.0) && data@.contains(r.1),
{
    if data.len() == 0 {
        return (i32::MAX, i32::MIN);
    }
    let mut lo = data[0];
    let mut hi = data[0];
    let mut i: usize = 1;
    while i < data.len()
        invariant
            1 <= i <= data@.len(),
            forall|k: int| 0 <= k < i ==> lo <= #[trigger] data@[k] <= hi,
            data@.contains(lo),
            data@.contains(hi),
        decreases data@.len() - i,
    {
        if data[i] < lo {
            lo = data[i];
        }
        if data[i] > hi {
            hi = data[i];
        }
        i = i + 1;
    }
    (lo, hi)
}

} // verus!
