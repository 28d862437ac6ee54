//! The sort engine: a stable merge sort of record positions, dropping of equal
//! neighbours, the order check, and the merge of already sorted inputs.
use vstd::prelude::*;
use std::cmp::Ordering;
use crate::adaptive_sort::{sample_size, AdaptiveSort, DataPattern, DataType, SortAlgorithm};
use crate::config::{SortConfig, SortMode};
use crate::keys::{compare_records, lemma_record_cmp_antisym, record_cmp};
use crate::simd_compare::flip;
use crate::total_order::{le, lemma_record_cmp_preorder};
use crate::zero_copy::{copy_bytes, parse_lines, split_records, views};
use vstd::string::StringSliceAdditionalSpecFns;
use rayon::slice::ParallelSliceMut;

verus! {

/// The positions `lo, lo + 1, ..., hi - 1`.
pub open spec fn range_seq(lo: int, hi: int) -> Seq<usize> {
    Seq::new((hi - lo) as nat, |k: int| (lo + k) as usize)
}

/// `ord` names each position `0..n` exactly once.
pub open spec fn is_perm(ord: Seq<usize>, n: nat) -> bool {
    ord.to_multiset() == range_seq(0, n as int).to_multiset()
}

/// Every position in `ord` names a record of `rs`.
pub open spec fn in_bounds(rs: Seq<Seq<u8>>, ord: Seq<usize>) -> bool {
    forall|k: int| 0 <= k < ord.len() ==> #[trigger] ord[k] < rs.len()
}

/// Taken in the order `ord`, no record is greater than the next.
pub open spec fn ordered(c: SortConfig, rs: Seq<Seq<u8>>, ord: Seq<usize>) -> bool {
    forall|k: int|
        0 <= k < ord.len() - 1 ==> !(#[trigger] record_cmp(c, rs[ord[k] as int], rs[ord[k + 1] as int]) is Greater)
}

/// Neighbours that are equal keep their input order.
pub open spec fn stable_ties(c: SortConfig, rs: Seq<Seq<u8>>, ord: Seq<usize>) -> bool {
    forall|k: int|
        0 <= k < ord.len() - 1 ==> (#[trigger] record_cmp(c, rs[ord[k] as int], rs[ord[k + 1] as int]) is Equal
            ==> ord[k] < ord[k + 1])
}

/// No two neighbours are equal.
pub open spec fn no_equal_neighbours(c: SortConfig, rs: Seq<Seq<u8>>, ord: Seq<usize>) -> bool {
    forall|k: int|
        0 <= k < ord.len() - 1 ==> !(#[trigger] record_cmp(c, rs[ord[k] as int], rs[ord[k + 1] as int]) is Equal)
}

/// The records of `rs`, in input order, are already sorted.
pub open spec fn records_sorted(c: SortConfig, rs: Seq<Seq<u8>>) -> bool {
    forall|k: int| 0 <= k < rs.len() - 1 ==> !(#[trigger] record_cmp(c, rs[k], rs[k + 1]) is Greater)
}

/// A sorted order of the records: a permutation, non-decreasing, and stable among
/// equals where stable or unique output is asked for (otherwise only identical
/// records compare equal, see `lemma_equal_means_identical`).
pub open spec fn sorted_order(c: SortConfig, rs: Seq<Seq<u8>>, ord: Seq<usize>) -> bool {
    &&& is_perm(ord, rs.len())
    &&& in_bounds(rs, ord)
    &&& ordered(c, rs, ord)
    &&& (c.stable || c.unique ==> stable_ties(c, rs, ord))
}

/// The positions of `ord` with every one that equals the last kept one left out.
pub open spec fn dedup_prefix(c: SortConfig, rs: Seq<Seq<u8>>, ord: Seq<usize>, n: int) -> Seq<usize>
    decreases n,
{
    if n <= 0 {
        Seq::empty()
    } else {
        let p = dedup_prefix(c, rs, ord, n - 1);
        if p.len() > 0 && record_cmp(c, rs[p.last() as int], rs[ord[n - 1] as int]) is Equal {
            p
        } else {
            p.push(ord[n - 1])
        }
    }
}

pub open spec fn dedup(c: SortConfig, rs: Seq<Seq<u8>>, ord: Seq<usize>) -> Seq<usize> {
    dedup_prefix(c, rs, ord, ord.len() as int)
}

fn compare_at(cfg: &SortConfig, recs: &Vec<Vec<u8>>, i: usize, j: usize) -> (r: Ordering)
    requires
        i < recs@.len(),
        j < recs@.len(),
    ensures
        r == record_cmp(*cfg, views(recs@)[i as int], views(recs@)[j as int]),
{
    compare_records(cfg, recs[i].as_slice(), recs[j].as_slice())
}

/// Merges two sorted orders; on ties the left one goes first. All positions of
/// `left` lie below those of `right`.
fn merge(
    cfg: &SortConfig,
    recs: &Vec<Vec<u8>>,
    left: Vec<usize>,
    right: Vec<usize>,
    Ghost(lo): Ghost<int>,
    Ghost(mid): Ghost<int>,
    Ghost(hi): Ghost<int>,
) -> (out: Vec<usize>)
    requires
        0 <= lo <= mid <= hi <= recs@.len(),
        forall|k: int| 0 <= k < left@.len() ==> lo <= #[trigger] left@[k] < mid,
        forall|k: int| 0 <= k < right@.len() ==> mid <= #[trigger] right@[k] < hi,
        ordered(*cfg, views(recs@), left@),
        ordered(*cfg, views(recs@), right@),
        stable_ties(*cfg, views(recs@), left@),
        stable_ties(*cfg, views(recs@), right@),
    ensures
        out@.to_multiset() == left@.to_multiset().add(right@.to_multiset()),
        out@.len() == left@.len() + right@.len(),
        forall|k: int| 0 <= k < out@.len() ==> lo <= #[trigger] out@[k] < hi,
        ordered(*cfg, views(recs@), out@),
        stable_ties(*cfg, views(recs@), out@),
{
    broadcast use vstd::seq_lib::group_to_multiset_ensures, vstd::multiset::group_multiset_axioms;

    let ghost rs = views(recs@);
    let ghost c = *cfg;
    let mut out: Vec<usize> = Vec::new();
    let mut i: usize = 0;
    let mut j: usize = 0;
    while i < left.len() || j < right.len()
        invariant
            rs == views(recs@),
            c == *cfg,
            0 <= lo <= mid <= hi <= recs@.len(),
            i <= left@.len(),
            j <= right@.len(),
            forall|k: int| 0 <= k < left@.len() ==> lo <= #[trigger] left@[k] < mid,
            forall|k: int| 0 <= k < right@.len() ==> mid <= #[trigger] right@[k] < hi,
            ordered(c, rs, left@),
            ordered(c, rs, right@),
            stable_ties(c, rs, left@),
            stable_ties(c, rs, right@),
            out@.len() == i + j,
            out@.to_multiset() == left@.subrange(0, i as int).to_multiset().add(
                right@.subrange(0, j as int).to_multiset(),
            ),
            forall|k: int| 0 <= k < out@.len() ==> lo <= #[trigger] out@[k] < hi,
            ordered(c, rs, out@),
            stable_ties(c, rs, out@),
            out@.len() > 0 && i < left@.len() ==> !(record_cmp(c, rs[out@.last() as int], rs[left@[i as int] as int]) is Greater)
                && (record_cmp(c, rs[out@.last() as int], rs[left@[i as int] as int]) is Equal ==> out@.last() < left@[i as int]),
            out@.len() > 0 && j < right@.len() ==> !(record_cmp(c, rs[out@.last() as int], rs[right@[j as int] as int]) is Greater)
                && (record_cmp(c, rs[out@.last() as int], rs[right@[j as int] as int]) is Equal ==> out@.last() < right@[j as int]),
        decreases left@.len() + right@.len() - i - j,
    {
        let take_left = if j >= right.len() {
            true
        } else if i >= left.len() {
            false
        } else {
            match compare_at(cfg, recs, left[i], right[j]) {
                Ordering::Greater => false,
                _ => true,
            }
        };
        let ghost old_out = out@;
        if take_left {
            let x = left[i];
            out.push(x);
            proof {
                assert(left@.subrange(0, i + 1) =~= left@.subrange(0, i as int).push(x));
                assert(out@ == old_out.push(x));
                let ma = left@.subrange(0, i as int).to_multiset();
                let mb = right@.subrange(0, j as int).to_multiset();
                old_out.to_multiset_ensures();
                left@.subrange(0, i as int).to_multiset_ensures();
                assert(old_out.push(x).to_multiset() =~= old_out.to_multiset().insert(x));
                assert(left@.subrange(0, i as int).push(x).to_multiset() =~= ma.insert(x));
                assert(ma.insert(x).add(mb) =~= ma.add(mb).insert(x));
                assert(out@.to_multiset() =~= left@.subrange(0, i + 1).to_multiset().add(mb));
                assert forall|k: int| 0 <= k < out@.len() - 1 implies !(#[trigger] record_cmp(
                    c,
                    rs[out@[k] as int],
                    rs[out@[k + 1] as int],
                ) is Greater) && (record_cmp(c, rs[out@[k] as int], rs[out@[k + 1] as int]) is Equal
                    ==> out@[k] < out@[k + 1]) by {
                    if k < old_out.len() - 1 {
                        assert(out@[k] == old_out[k] && out@[k + 1] == old_out[k + 1]);
                    } else {
                        assert(out@[k] == old_out.last());
                    }
                }
                if i + 1 < left@.len() {
                    assert(left@[i as int] == x);
                }
            }
            i = i + 1;
        } else {
            let y = right[j];
            out.push(y);
            proof {
                assert(right@.subrange(0, j + 1) =~= right@.subrange(0, j as int).push(y));
                assert(out@ == old_out.push(y));
                let ma = left@.subrange(0, i as int).to_multiset();
                let mb = right@.subrange(0, j as int).to_multiset();
                old_out.to_multiset_ensures();
                right@.subrange(0, j as int).to_multiset_ensures();
                assert(old_out.push(y).to_multiset() =~= old_out.to_multiset().insert(y));
                assert(right@.subrange(0, j as int).push(y).to_multiset() =~= mb.insert(y));
                assert(ma.add(mb.insert(y)) =~= ma.add(mb).insert(y));
                assert(out@.to_multiset() =~= ma.add(right@.subrange(0, j + 1).to_multiset()));
                assert forall|k: int| 0 <= k < out@.len() - 1 implies !(#[trigger] record_cmp(
                    c,
                    rs[out@[k] as int],
                    rs[out@[k + 1] as int],
                ) is Greater) && (record_cmp(c, rs[out@[k] as int], rs[out@[k + 1] as int]) is Equal
                    ==> out@[k] < out@[k + 1]) by {
                    if k < old_out.len() - 1 {
                        assert(out@[k] == old_out[k] && out@[k + 1] == old_out[k + 1]);
                    } else {
                        assert(out@[k] == old_out.last());
                    }
                }
                if i < left@.len() {
                    lemma_record_cmp_antisym(c, rs[left@[i as int] as int], rs[y as int]);
                }
            }
            j = j + 1;
        }
    }
    proof {
        assert(left@.subrange(0, i as int) =~= left@);
        assert(right@.subrange(0, j as int) =~= right@);
    }
    out
}

proof fn lemma_range_split(lo: int, mid: int, hi: int)
    requires
        0 <= lo <= mid <= hi,
    ensures
        range_seq(lo, hi).to_multiset() == range_seq(lo, mid).to_multiset().add(
            range_seq(mid, hi).to_multiset(),
        ),
{
    assert(range_seq(lo, hi) =~= range_seq(lo, mid) + range_seq(mid, hi));
    vstd::seq_lib::lemma_multiset_commutative(range_seq(lo, mid), range_seq(mid, hi));
}

/// Sorts the positions `lo..hi` of the records, stably.
fn merge_sort(cfg: &SortConfig, recs: &Vec<Vec<u8>>, lo: usize, hi: usize) -> (out: Vec<usize>)
    requires
        lo <= hi <= recs@.len(),
    ensures
        out@.to_multiset() == range_seq(lo as int, hi as int).to_multiset(),
        out@.len() == hi - lo,
        forall|k: int| 0 <= k < out@.len() ==> lo <= #[trigger] out@[k] < hi,
        ordered(*cfg, views(recs@), out@),
        stable_ties(*cfg, views(recs@), out@),
    decreases hi - lo,
{
    if hi - lo <= 1 {
        let mut v: Vec<usize> = Vec::new();
        if hi > lo {
            v.push(lo);
        }
        proof {
            assert(v@ =~= range_seq(lo as int, hi as int));
        }
        return v;
    }
    let mid = lo + (hi - lo) / 2;
    let left = merge_sort(cfg, recs, lo, mid);
    let right = merge_sort(cfg, recs, mid, hi);
    let out = merge(cfg, recs, left, right, Ghost(lo as int), Ghost(mid as int), Ghost(hi as int));
    proof {
        lemma_range_split(lo as int, mid as int, hi as int);
    }
    out
}

/// The position of the first record that is smaller than the one before it, if any.
pub fn first_disorder(cfg: &SortConfig, recs: &Vec<Vec<u8>>) -> (r: Option<usize>)
    ensures
        r is None <==> records_sorted(*cfg, views(recs@)),
        r matches Some(k) ==> 1 <= k < recs@.len() && record_cmp(
            *cfg,
            views(recs@)[k - 1],
            views(recs@)[k as int],
        ) is Greater && forall|m: int|
            0 <= m < k - 1 ==> !(#[trigger] record_cmp(*cfg, views(recs@)[m], views(recs@)[m + 1]) is Greater),
{
    let ghost rs = views(recs@);
    let mut i: usize = 1;
    while i < recs.len()
        invariant
            rs == views(recs@),
            1 <= i,
            forall|m: int| 0 <= m < i - 1 && m < recs@.len() - 1 ==> !(#[trigger] record_cmp(*cfg, rs[m], rs[m + 1]) is Greater),
        decreases recs@.len() - i,
    {
        match compare_at(cfg, recs, i - 1, i) {
            Ordering::Greater => {
                proof {
                    let k = i - 1;
                    assert(record_cmp(*cfg, rs[k], rs[k + 1]) is Greater);
                }
                return Some(i);
            },
            _ => {},
        }
        i = i + 1;
    }
    None
}

/// Positions `0..n` in input order.
fn identity_order(n: usize) -> (r: Vec<usize>)
    ensures
        r@ == range_seq(0, n as int),
{
    let mut v: Vec<usize> = Vec::with_capacity(n);
    let mut i: usize = 0;
    while i < n
        invariant
            i <= n,
            v@ == range_seq(0, i as int),
        decreases n - i,
    {
        v.push(i);
        i = i + 1;
        assert(v@ =~= range_seq(0, i as int));
    }
    v
}

/// A sorted order of the records. Input that is already sorted keeps its order;
/// otherwise the algorithm follows the pattern of sampled neighbours: insertion for
/// mostly sorted input, three-way quicksort for many duplicates (where ties need not
/// keep input order), and the merge sort, in parallel for large inputs, otherwise.
pub fn sort_order(cfg: &SortConfig, recs: &Vec<Vec<u8>>) -> (r: Vec<usize>)
    ensures
        sorted_order(*cfg, views(recs@), r@),
        records_sorted(*cfg, views(recs@)) ==> r@ == range_seq(0, recs@.len() as int),
{
    let ghost rs = views(recs@);
    match first_disorder(cfg, recs) {
        None => {
            let r = identity_order(recs.len());
            proof {
                assert forall|k: int| 0 <= k < r@.len() - 1 implies !(#[trigger] record_cmp(
                    *cfg,
                    rs[r@[k] as int],
                    rs[r@[k + 1] as int],
                ) is Greater) && (record_cmp(*cfg, rs[r@[k] as int], rs[r@[k + 1] as int]) is Equal
                    ==> r@[k] < r@[k + 1]) by {
                    assert(r@[k] == k && r@[k + 1] == k + 1);
                }
            }
            r
        },
        Some(_) => {
            let n = recs.len();
            if n <= INSERTION_LIMIT {
                return insertion_order(cfg, recs);
            }
            let data_type = if matches!(cfg.mode, SortMode::Numeric) && cfg.keys.len() == 0 {
                DataType::Integer
            } else {
                DataType::String
            };
            let pattern = detect_record_pattern(cfg, recs);
            match AdaptiveSort::select_optimal_algorithm(n, pattern, data_type) {
                SortAlgorithm::InsertionSort => insertion_order(cfg, recs),
                SortAlgorithm::ThreeWayQuickSort if !cfg.stable && !cfg.unique => three_way_order(cfg, recs),
                _ => if n >= PARALLEL_THRESHOLD {
                    parallel_sorted(cfg, recs)
                } else {
                    merge_sort(cfg, recs, 0, n)
                },
            }
        },
    }
}

/// Counts of ascending, descending and equal pairs of neighbouring records over the
/// first `k` sampled positions `p = i * (n / sample_size(n))`.
pub open spec fn record_sample_counts(c: SortConfig, rs: Seq<Seq<u8>>, k: int) -> (int, int, int)
    decreases k,
{
    if k <= 0 {
        (0, 0, 0)
    } else {
        let (a, d, e) = record_sample_counts(c, rs, k - 1);
        let n = rs.len() as int;
        let p = (k - 1) * (n / sample_size(n));
        if p + 1 < n {
            match record_cmp(c, rs[p], rs[p + 1]) {
                Ordering::Less => (a + 1, d, e),
                Ordering::Greater => (a, d + 1, e),
                Ordering::Equal => (a, d, e + 1),
            }
        } else {
            (a, d, e)
        }
    }
}

/// The pattern that sampled neighbouring records show under the comparator: at least
/// 80% ascending, at least 80% descending, at least 50% equal, or none of these.
pub open spec fn record_pattern_of(c: SortConfig, rs: Seq<Seq<u8>>) -> DataPattern {
    let (a, d, e) = record_sample_counts(c, rs, sample_size(rs.len() as int));
    let t = a + d + e;
    if t > 0 && 5 * a >= 4 * t {
        DataPattern::MostlySorted
    } else if t > 0 && 5 * d >= 4 * t {
        DataPattern::MostlyReversed
    } else if t > 0 && 2 * e >= t {
        DataPattern::ManyDuplicates
    } else {
        DataPattern::Random
    }
}

/// Samples up to a thousand pairs of neighbouring records and says how ordered they
/// look.
pub fn detect_record_pattern(cfg: &SortConfig, recs: &Vec<Vec<u8>>) -> (r: DataPattern)
    ensures
        r == record_pattern_of(*cfg, views(recs@)),
{
    let ghost rs = views(recs@);
    let n = recs.len();
    let s0 = n / 100;
    let sample: usize = if s0 > 1000 {
        1000
    } else if s0 < 10 {
        10
    } else {
        s0
    };
    let step = n / sample;
    let mut ascending: usize = 0;
    let mut descending: usize = 0;
    let mut equal: usize = 0;
    let mut i: usize = 0;
    while i < sample
        invariant
            rs == views(recs@),
            n == recs@.len(),
            sample == sample_size(n as int),
            step == n / sample,
            i <= sample,
            (ascending as int, descending as int, equal as int) == record_sample_counts(*cfg, rs, i as int),
            ascending + descending + equal <= i,
        decreases sample - i,
    {
        proof {
            assert(i * step <= n) by (nonlinear_arith)
                requires
                    i < sample,
                    step == n / sample,
                    sample > 0,
            ;
        }
        let p = i * step;
        if n > 0 && p < n - 1 {
            match compare_at(cfg, recs, p, p + 1) {
                Ordering::Less => {
                    ascending = ascending + 1;
                },
                Ordering::Greater => {
                    descending = descending + 1;
                },
                Ordering::Equal => {
                    equal = equal + 1;
                },
            }
        }
        i = i + 1;
    }
    let t = ascending + descending + equal;
    if t > 0 && 5 * ascending >= 4 * t {
        DataPattern::MostlySorted
    } else if t > 0 && 5 * descending >= 4 * t {
        DataPattern::MostlyReversed
    } else if t > 0 && 2 * equal >= t {
        DataPattern::ManyDuplicates
    } else {
        DataPattern::Random
    }
}

/// Inputs up to this many records are sorted by insertion.
pub const INSERTION_LIMIT: usize = 32;

/// Inputs of at least this many records are sorted in parallel.
pub const PARALLEL_THRESHOLD: usize = 8192;

/// The order with each record that equals the one kept before it left out.
pub fn dedup_order(cfg: &SortConfig, recs: &Vec<Vec<u8>>, ord: &Vec<usize>) -> (r: Vec<usize>)
    requires
        in_bounds(views(recs@), ord@),
    ensures
        r@ == dedup(*cfg, views(recs@), ord@),
        no_equal_neighbours(*cfg, views(recs@), r@),
        in_bounds(views(recs@), r@),
{
    let ghost rs = views(recs@);
    let mut out: Vec<usize> = Vec::new();
    let mut i: usize = 0;
    while i < ord.len()
        invariant
            rs == views(recs@),
            in_bounds(rs, ord@),
            i <= ord@.len(),
            out@ == dedup_prefix(*cfg, rs, ord@, i as int),
            no_equal_neighbours(*cfg, rs, out@),
            in_bounds(rs, out@),
        decreases ord@.len() - i,
    {
        let x = ord[i];
        let keep = if out.len() == 0 {
            true
        } else {
            match compare_at(cfg, recs, out[out.len() - 1], x) {
                Ordering::Equal => false,
                _ => true,
            }
        };
        if keep {
            let ghost old_out = out@;
            out.push(x);
            proof {
                assert forall|k: int| 0 <= k < out@.len() - 1 implies !(#[trigger] record_cmp(
                    *cfg,
                    rs[out@[k] as int],
                    rs[out@[k + 1] as int],
                ) is Equal) by {
                    if k < old_out.len() - 1 {
                        assert(out@[k] == old_out[k] && out@[k + 1] == old_out[k + 1]);
                    } else {
                        assert(out@[k] == old_out.last());
                    }
                }
            }
        }
        i = i + 1;
    }
    out
}


/// The records of `lo..hi` are sorted in input order.
fn range_sorted(cfg: &SortConfig, recs: &Vec<Vec<u8>>, lo: usize, hi: usize) -> (r: bool)
    requires
        lo <= hi <= recs@.len(),
    ensures
        r == forall|k: int| lo <= k < hi - 1 ==> !(#[trigger] record_cmp(*cfg, views(recs@)[k], views(recs@)[k + 1]) is Greater),
{
    let ghost rs = views(recs@);
    if hi - lo <= 1 {
        return true;
    }
    let mut i: usize = lo + 1;
    while i < hi
        invariant
            rs == views(recs@),
            lo < i <= hi <= recs@.len(),
            forall|k: int| lo <= k < i - 1 ==> !(#[trigger] record_cmp(*cfg, rs[k], rs[k + 1]) is Greater),
        decreases hi - i,
    {
        match compare_at(cfg, recs, i - 1, i) {
            Ordering::Greater => {
                proof {
                    let k = i - 1;
                    assert(record_cmp(*cfg, rs[k], rs[k + 1]) is Greater);
                }
                return false;
            },
            _ => {},
        }
        i = i + 1;
    }
    true
}

/// Positions `lo..hi` in input order.
fn range_identity(lo: usize, hi: usize) -> (r: Vec<usize>)
    requires
        lo <= hi,
    ensures
        r@ == range_seq(lo as int, hi as int),
{
    let mut v: Vec<usize> = Vec::new();
    let mut i: usize = lo;
    while i < hi
        invariant
            lo <= i <= hi,
            v@ == range_seq(lo as int, i as int),
        decreases hi - i,
    {
        v.push(i);
        i = i + 1;
        assert(v@ =~= range_seq(lo as int, i as int));
    }
    v
}

/// A sorted order of the positions `lo..hi`: kept as they are where already sorted.
fn range_order(cfg: &SortConfig, recs: &Vec<Vec<u8>>, lo: usize, hi: usize) -> (out: Vec<usize>)
    requires
        lo <= hi <= recs@.len(),
    ensures
        out@.to_multiset() == range_seq(lo as int, hi as int).to_multiset(),
        forall|k: int| 0 <= k < out@.len() ==> lo <= #[trigger] out@[k] < hi,
        ordered(*cfg, views(recs@), out@),
        stable_ties(*cfg, views(recs@), out@),
{
    let ghost rs = views(recs@);
    if range_sorted(cfg, recs, lo, hi) {
        let r = range_identity(lo, hi);
        proof {
            assert forall|k: int| 0 <= k < r@.len() - 1 implies !(#[trigger] record_cmp(
                *cfg,
                rs[r@[k] as int],
                rs[r@[k + 1] as int],
            ) is Greater) && (record_cmp(*cfg, rs[r@[k] as int], rs[r@[k + 1] as int]) is Equal
                ==> r@[k] < r@[k + 1]) by {
                assert(r@[k] == lo + k && r@[k + 1] == lo + k + 1);
                let m = lo + k;
                assert(!(record_cmp(*cfg, rs[m], rs[m + 1]) is Greater));
            }
        }
        r
    } else {
        merge_sort(cfg, recs, lo, hi)
    }
}

/// `bounds` cuts the records into consecutive inputs: input `s` holds the positions
/// `bounds[s]..bounds[s + 1]`.
pub open spec fn valid_bounds(bounds: Seq<usize>, n: int) -> bool {
    &&& bounds.len() >= 1
    &&& bounds[0] == 0
    &&& bounds.last() == n
    &&& forall|s: int| 0 <= s < bounds.len() - 1 ==> #[trigger] bounds[s] <= bounds[s + 1]
}

/// Merges the inputs that `bounds` delimits, each sorted first where it is not;
/// on ties the earlier input goes first.
pub fn merge_order(cfg: &SortConfig, recs: &Vec<Vec<u8>>, bounds: &Vec<usize>) -> (out: Vec<usize>)
    requires
        valid_bounds(bounds@, recs@.len() as int),
    ensures
        sorted_order(*cfg, views(recs@), out@),
        records_sorted(*cfg, views(recs@)) ==> out@ == range_seq(0, recs@.len() as int),
{
    broadcast use vstd::multiset::group_multiset_axioms;

    let ghost rs = views(recs@);
    if let None = first_disorder(cfg, recs) {
        return sort_order(cfg, recs);
    }
    let mut acc: Vec<usize> = Vec::new();
    let mut s: usize = 0;
    proof {
        assert(acc@ =~= range_seq(0, 0));
    }
    while s < bounds.len() - 1
        invariant
            rs == views(recs@),
            valid_bounds(bounds@, recs@.len() as int),
            s < bounds@.len(),
            acc@.to_multiset() == range_seq(0, bounds@[s as int] as int).to_multiset(),
            forall|k: int| 0 <= k < acc@.len() ==> 0 <= #[trigger] acc@[k] < bounds@[s as int],
            ordered(*cfg, rs, acc@),
            stable_ties(*cfg, rs, acc@),
        decreases bounds@.len() - s,
    {
        let lo = bounds[s];
        let hi = bounds[s + 1];
        proof {
            assert(bounds@[s as int] <= bounds@[s + 1]);
            lemma_bounds_le_len(bounds@, recs@.len() as int, s + 1);
        }
        let part = range_order(cfg, recs, lo, hi);
        acc = merge(cfg, recs, acc, part, Ghost(0), Ghost(lo as int), Ghost(hi as int));
        proof {
            lemma_range_split(0, lo as int, hi as int);
        }
        s = s + 1;
    }
    proof {
        assert(bounds@[s as int] == bounds@.last());
    }
    acc
}

proof fn lemma_bounds_le_len(bounds: Seq<usize>, n: int, s: int)
    requires
        valid_bounds(bounds, n),
        0 <= s < bounds.len(),
    ensures
        bounds[s] <= n,
    decreases bounds.len() - s,
{
    if s < bounds.len() - 1 {
        assert(bounds[s] <= bounds[s + 1]);
        lemma_bounds_le_len(bounds, n, s + 1);
    }
}

/// The records of all inputs, one input after the other.
pub open spec fn input_records(inputs: Seq<Seq<u8>>, t: u8) -> Seq<Seq<u8>>
    decreases inputs.len(),
{
    if inputs.len() == 0 {
        Seq::empty()
    } else {
        input_records(inputs.drop_last(), t) + split_records(inputs.last(), t)
    }
}

/// Splits every input into records and notes where each input's records begin.
pub fn gather_records(inputs: &Vec<Vec<u8>>, t: u8) -> (r: (Vec<Vec<u8>>, Vec<usize>))
    ensures
        views(r.0@) == input_records(views(inputs@), t),
        valid_bounds(r.1@, r.0@.len() as int),
        r.1@.len() == inputs@.len() + 1,
{
    let mut recs: Vec<Vec<u8>> = Vec::new();
    let mut bounds: Vec<usize> = Vec::new();
    bounds.push(0);
    let mut i: usize = 0;
    while i < inputs.len()
        invariant
            i <= inputs@.len(),
            views(recs@) == input_records(views(inputs@).subrange(0, i as int), t),
            valid_bounds(bounds@, recs@.len() as int),
            bounds@.len() == i + 1,
        decreases inputs@.len() - i,
    {
        let part = parse_lines(inputs[i].as_slice(), t);
        let ghost before = views(recs@);
        let ghost old_bounds = bounds@;
        let mut k: usize = 0;
        while k < part.len()
            invariant
                k <= part@.len(),
                views(recs@) == before + views(part@).subrange(0, k as int),
            decreases part@.len() - k,
        {
            let ghost vr = views(recs@);
            let rec = copy_bytes(part[k].as_slice());
            recs.push(rec);
            assert(views(recs@) =~= vr.push(part@[k as int]@));
            assert(views(part@).subrange(0, k + 1) =~= views(part@).subrange(0, k as int).push(part@[k as int]@));
            k = k + 1;
            assert(views(recs@) =~= before + views(part@).subrange(0, k as int));
        }
        bounds.push(recs.len());
        proof {
            let ins = views(inputs@);
            assert(ins.subrange(0, i + 1).drop_last() =~= ins.subrange(0, i as int));
            assert(ins.subrange(0, i + 1).last() == inputs@[i as int]@);
            assert(views(part@).subrange(0, k as int) =~= views(part@));
            assert forall|s: int| 0 <= s < bounds@.len() - 1 implies #[trigger] bounds@[s] <= bounds@[s + 1] by {
                if s < old_bounds.len() - 1 {
                    assert(bounds@[s] == old_bounds[s] && bounds@[s + 1] == old_bounds[s + 1]);
                } else {
                    assert(bounds@[s] == old_bounds.last());
                }
            }
        }
        i = i + 1;
    }
    assert(views(inputs@).subrange(0, i as int) =~= views(inputs@));
    (recs, bounds)
}


/// The records at two positions of `ord` are in order and, where equal, in input order.
pub open spec fn fits(c: SortConfig, rs: Seq<Seq<u8>>, x: usize, y: usize) -> bool {
    !(record_cmp(c, rs[x as int], rs[y as int]) is Greater) && (record_cmp(c, rs[x as int], rs[y as int]) is Equal ==> x < y)
}

fn swap_positions(v: &mut Vec<usize>, i: usize, j: usize)
    requires
        i < old(v)@.len(),
        j < old(v)@.len(),
    ensures
        final(v)@ == old(v)@.update(i as int, old(v)@[j as int]).update(j as int, old(v)@[i as int]),
        final(v)@.to_multiset() == old(v)@.to_multiset(),
{
    broadcast use vstd::seq_lib::group_to_multiset_ensures, vstd::multiset::group_multiset_axioms;

    let ghost s = v@;
    let a = v[i];
    let b = v[j];
    v.set(i, b);
    v.set(j, a);
    proof {
        let t = s.update(i as int, b);
        assert(t.to_multiset() =~= s.to_multiset().remove(a).insert(b));
        assert(t.update(j as int, a).to_multiset() =~= t.to_multiset().remove(t[j as int]).insert(a));
        if i == j {
            assert(v@ =~= s);
        } else {
            assert(t[j as int] == b);
        }
        assert(v@.to_multiset() =~= s.to_multiset());
    }
}

/// Sorts the records by insertion, stably: quick on input that is nearly sorted.
pub fn insertion_order(cfg: &SortConfig, recs: &Vec<Vec<u8>>) -> (r: Vec<usize>)
    ensures
        sorted_order(*cfg, views(recs@), r@),
{
    let ghost rs = views(recs@);
    let ghost c = *cfg;
    let n = recs.len();
    let mut ord = identity_order(n);
    let mut i: usize = 1;
    if n == 0 {
        assert(ord@ =~= Seq::<usize>::empty());
        return ord;
    }
    while i < n
        invariant
            rs == views(recs@),
            c == *cfg,
            n == recs@.len(),
            1 <= i <= n,
            ord@.len() == n,
            ord@.to_multiset() == range_seq(0, n as int).to_multiset(),
            forall|k: int| 0 <= k < i ==> #[trigger] ord@[k] < i,
            forall|k: int| i <= k < n ==> #[trigger] ord@[k] == k,
            forall|k: int| 0 <= k < i - 1 ==> fits(c, rs, #[trigger] ord@[k], ord@[k + 1]),
        decreases n - i,
    {
        let x = ord[i];
        let mut j: usize = i;
        while j > 0 && matches!(compare_at(cfg, recs, ord[j - 1], x), Ordering::Greater)
            invariant
                rs == views(recs@),
                c == *cfg,
                n == recs@.len(),
                1 <= i < n,
                j <= i,
                x == i,
                ord@.len() == n,
                ord@[j as int] == x,
                ord@.to_multiset() == range_seq(0, n as int).to_multiset(),
                forall|k: int| 0 <= k <= i && k != j ==> #[trigger] ord@[k] < i,
                forall|k: int| i < k < n ==> #[trigger] ord@[k] == k,
                forall|k: int| 0 <= k < j - 1 ==> fits(c, rs, #[trigger] ord@[k], ord@[k + 1]),
                forall|k: int| j + 1 <= k < i ==> fits(c, rs, #[trigger] ord@[k], ord@[k + 1]),
                j < i ==> record_cmp(c, rs[ord@[j + 1] as int], rs[x as int]) is Greater,
                j < i && j > 0 ==> fits(c, rs, ord@[j - 1], ord@[j + 1]),
            decreases j,
        {
            let ghost before = ord@;
            swap_positions(&mut ord, j - 1, j);
            proof {
                assert forall|k: int| j <= k < i implies fits(c, rs, #[trigger] ord@[k], ord@[k + 1]) by {
                    if k == j {
                        assert(ord@[k] == before[j - 1]);
                        if j < i {
                            assert(ord@[k + 1] == before[j + 1]);
                        }
                    } else {
                        assert(ord@[k] == before[k] && ord@[k + 1] == before[k + 1]);
                    }
                }
                assert forall|k: int| 0 <= k < j - 2 implies fits(c, rs, #[trigger] ord@[k], ord@[k + 1]) by {
                    assert(ord@[k] == before[k] && ord@[k + 1] == before[k + 1]);
                }
                if j >= 2 {
                    assert(ord@[j - 2] == before[j - 2]);
                    assert(fits(c, rs, before[j - 2], before[j - 1]));
                }
            }
            j = j - 1;
        }
        proof {
            if j < i {
                lemma_record_cmp_antisym(c, rs[x as int], rs[ord@[j + 1] as int]);
                assert(fits(c, rs, x, ord@[j + 1]));
            }
            if j > 0 {
                assert(ord@[j - 1] < i);
                assert(fits(c, rs, ord@[j - 1], x));
            }
            assert forall|k: int| 0 <= k < i implies fits(c, rs, #[trigger] ord@[k], ord@[k + 1]) by {
                if k == j - 1 {
                    assert(fits(c, rs, ord@[j - 1], x));
                }
            }
        }
        i = i + 1;
    }
    ord
}


/// The median of the records at `a`, `b` and `c` under the comparator, as a pivot.
pub open spec fn median_spec(cmp_ab: Ordering, cmp_bc: Ordering, cmp_ac: Ordering, a: usize, b: usize, c: usize) -> usize {
    if !(cmp_ab is Greater) {
        if !(cmp_bc is Greater) {
            b
        } else if !(cmp_ac is Greater) {
            c
        } else {
            a
        }
    } else if cmp_bc is Greater {
        b
    } else if !(cmp_ac is Greater) {
        a
    } else {
        c
    }
}

/// The sort engine of a run: its command-line options and configuration.
pub struct CoreSort {
    pub args: crate::args::SortArgs,
    pub config: SortConfig,
}

impl CoreSort {
    pub fn new(args: crate::args::SortArgs, config: SortConfig) -> (r: Self)
        ensures
            r.args == args,
            r.config == config,
    {
        CoreSort { args, config }
    }

    /// The comparator of the run applied to two records.
    pub fn compare_lines_direct(&self, a: &[u8], b: &[u8]) -> (r: Ordering)
        ensures
            r == record_cmp(self.config, a@, b@),
    {
        compare_records(&self.config, a, b)
    }

    /// The first record is not greater than the second.
    pub fn is_lines_in_order(&self, a: &[u8], b: &[u8]) -> (r: bool)
        ensures
            r == !(record_cmp(self.config, a@, b@) is Greater),
    {
        match compare_records(&self.config, a, b) {
            Ordering::Greater => false,
            _ => true,
        }
    }

    /// Whether the input is sorted, and otherwise the number (from 1) of the first line
    /// that is smaller than the line before it.
    pub fn check_file_sorted_with_line(&self, data: &[u8]) -> (r: Result<(), usize>)
        ensures
            r is Ok <==> records_sorted(self.config, split_records(data@, crate::terminator(self.config))),
            r matches Err(line) ==> crate::disorder_at(self.config, data@, line as int),
    {
        match crate::check_input(&self.config, data) {
            None => Ok(()),
            Some(line) => Err(line),
        }
    }

    /// Whether the input is sorted.
    pub fn check_file_sorted(&self, data: &[u8]) -> (r: bool)
        ensures
            r == records_sorted(self.config, split_records(data@, crate::terminator(self.config))),
    {
        match self.check_file_sorted_with_line(data) {
            Ok(()) => true,
            Err(_) => false,
        }
    }

    /// The pivot among three positions: the median of their records.
    pub fn median_of_three(&self, recs: &Vec<Vec<u8>>, a: usize, b: usize, c: usize) -> (r: usize)
        requires
            a < recs@.len(),
            b < recs@.len(),
            c < recs@.len(),
        ensures
            r == median_spec(
                record_cmp(self.config, views(recs@)[a as int], views(recs@)[b as int]),
                record_cmp(self.config, views(recs@)[b as int], views(recs@)[c as int]),
                record_cmp(self.config, views(recs@)[a as int], views(recs@)[c as int]),
                a,
                b,
                c,
            ),
            r == a || r == b || r == c,
    {
        let ab = !matches!(compare_at(&self.config, recs, a, b), Ordering::Greater);
        let bc = !matches!(compare_at(&self.config, recs, b, c), Ordering::Greater);
        let ac = !matches!(compare_at(&self.config, recs, a, c), Ordering::Greater);
        if ab {
            if bc {
                b
            } else if ac {
                c
            } else {
                a
            }
        } else if !bc {
            b
        } else if ac {
            a
        } else {
            c
        }
    }

    /// A non-decreasing order of the records by three-way quicksort, for inputs with
    /// many equal records.
    pub fn three_way_quicksort_lines(&self, recs: &Vec<Vec<u8>>) -> (r: Vec<usize>)
        ensures
            is_perm(r@, recs@.len()),
            ordered(self.config, views(recs@), r@),
    {
        three_way_order(&self.config, recs)
    }

    /// Whether two lines of text are in order.
    pub fn is_in_order(&self, a: &str, b: &str) -> (r: bool)
        ensures
            r == !(record_cmp(self.config, a.spec_bytes(), b.spec_bytes()) is Greater),
    {
        self.is_lines_in_order(a.as_bytes(), b.as_bytes())
    }

    /// A sorted order of the records under the run's configuration.
    pub fn sort_lines(&self, recs: &Vec<Vec<u8>>) -> (r: Vec<usize>)
        ensures
            sorted_order(self.config, views(recs@), r@),
    {
        sort_order(&self.config, recs)
    }

    /// A stable order of the records by insertion.
    pub fn insertion_sort_lines(&self, recs: &Vec<Vec<u8>>) -> (r: Vec<usize>)
        ensures
            sorted_order(self.config, views(recs@), r@),
    {
        insertion_order(&self.config, recs)
    }

    /// Runs the configured operation on the bytes of each input, as `crate::sort` does:
    /// the validation error, the first disordered line in check mode, or the sorted
    /// records.
    pub fn sort(&self, inputs: &Vec<Vec<u8>>) -> (r: crate::error::SortResult<Vec<u8>>)
        ensures
            crate::config::config_fault(self.config) is Some ==> r is Err && crate::config::fault_matches(
                crate::config::config_fault(self.config)->0,
                r->Err_0,
            ),
            crate::config::config_fault(self.config) is None && self.config.check ==> {
                &&& (r is Ok <==> crate::inputs_sorted(self.config, views(inputs@)))
                &&& r is Ok ==> r->Ok_0@.len() == 0
                &&& r is Err ==> (r->Err_0 matches crate::error::SortError::NotSorted { line } && exists|i: int|
                    0 <= i < inputs@.len() && crate::disorder_at(self.config, inputs@[i]@, line as int)
                        && forall|j: int|
                        0 <= j < i ==> records_sorted(
                            self.config,
                            #[trigger] split_records(inputs@[j]@, crate::terminator(self.config)),
                        ))
            },
            crate::config::config_fault(self.config) is None && !self.config.check ==> {
                let rs = input_records(views(inputs@), crate::terminator(self.config));
                &&& r is Ok
                &&& crate::is_sort_output(self.config, rs, r->Ok_0@)
                &&& records_sorted(self.config, rs) && !self.config.unique ==> r->Ok_0@ == crate::zero_copy::render(
                    rs,
                    crate::terminator(self.config),
                )
            },
    {
        crate::sort(&self.config, inputs)
    }
}


/// `x` is one of `old[lo..hi]`.
pub open spec fn occurs_in(x: usize, old: Seq<usize>, lo: int, hi: int) -> bool {
    exists|m: int| lo <= m < hi && old[m] == x
}

/// Every position of `new[lo..hi]` is one of `old[lo..hi]`.
pub open spec fn drawn_from(new: Seq<usize>, old: Seq<usize>, lo: int, hi: int) -> bool {
    forall|k: int| lo <= k < hi ==> occurs_in(#[trigger] new[k], old, lo, hi)
}

/// The records at positions `lo..hi` of `ord` are non-decreasing.
pub open spec fn ordered_range(c: SortConfig, rs: Seq<Seq<u8>>, ord: Seq<usize>, lo: int, hi: int) -> bool {
    forall|k: int| lo <= k < hi - 1 ==> !(#[trigger] record_cmp(c, rs[ord[k] as int], rs[ord[k + 1] as int]) is Greater)
}

proof fn lemma_drawn_refl(s: Seq<usize>, lo: int, hi: int)
    requires
        0 <= lo <= hi <= s.len(),
    ensures
        drawn_from(s, s, lo, hi),
{
    assert forall|k: int| lo <= k < hi implies occurs_in(#[trigger] s[k], s, lo, hi) by {
        assert(s[k] == s[k]);
    }
}

proof fn lemma_swap_drawn(s: Seq<usize>, start: Seq<usize>, lo: int, hi: int, i: int, j: int)
    requires
        0 <= lo <= i < hi,
        lo <= j < hi,
        hi <= s.len(),
        drawn_from(s, start, lo, hi),
    ensures
        drawn_from(s.update(i, s[j]).update(j, s[i]), start, lo, hi),
{
    let t = s.update(i, s[j]).update(j, s[i]);
    assert forall|k: int| lo <= k < hi implies occurs_in(#[trigger] t[k], start, lo, hi) by {
        let src = if k == j { i } else if k == i { j } else { k };
        assert(t[k] == s[src]);
        assert(occurs_in(s[src], start, lo, hi));
    }
}

/// The parts of a three-way partition, each sorted on its own, make a sorted range.
proof fn lemma_partition_glue(
    c: SortConfig,
    rs: Seq<Seq<u8>>,
    parted: Seq<usize>,
    first: Seq<usize>,
    fin: Seq<usize>,
    left: int,
    lt: int,
    gt: int,
    right: int,
    pivot: usize,
)
    requires
        0 <= left <= lt < gt <= right <= parted.len(),
        first.len() == parted.len(),
        fin.len() == parted.len(),
        forall|k: int| left <= k < lt ==> #[trigger] record_cmp(c, rs[parted[k] as int], rs[pivot as int]) is Less,
        forall|k: int| lt <= k < gt ==> #[trigger] record_cmp(c, rs[parted[k] as int], rs[pivot as int]) is Equal,
        forall|k: int| gt <= k < right ==> #[trigger] record_cmp(c, rs[parted[k] as int], rs[pivot as int]) is Greater,
        forall|k: int| 0 <= k < first.len() && !(left <= k < lt) ==> #[trigger] first[k] == parted[k],
        forall|k: int| 0 <= k < fin.len() && !(gt <= k < right) ==> #[trigger] fin[k] == first[k],
        drawn_from(first, parted, left, lt),
        drawn_from(fin, first, gt, right),
        ordered_range(c, rs, first, left, lt),
        ordered_range(c, rs, fin, gt, right),
    ensures
        ordered_range(c, rs, fin, left, right),
{
    assert forall|k: int| left <= k < lt implies #[trigger] record_cmp(c, rs[fin[k] as int], rs[pivot as int]) is Less by {
        assert(fin[k] == first[k]);
        assert(occurs_in(first[k], parted, left, lt));
        let m = choose|m: int| left <= m < lt && parted[m] == first[k];
        assert(record_cmp(c, rs[parted[m] as int], rs[pivot as int]) is Less);
    }
    assert forall|k: int| gt <= k < right implies #[trigger] record_cmp(c, rs[fin[k] as int], rs[pivot as int]) is Greater by {
        assert(occurs_in(fin[k], first, gt, right));
        let m = choose|m: int| gt <= m < right && first[m] == fin[k];
        assert(first[m] == parted[m]);
        assert(record_cmp(c, rs[parted[m] as int], rs[pivot as int]) is Greater);
    }
    assert forall|k: int| lt <= k < gt implies #[trigger] record_cmp(c, rs[fin[k] as int], rs[pivot as int]) is Equal by {
        assert(fin[k] == first[k] && first[k] == parted[k]);
    }
    assert forall|k: int| left <= k < right - 1 implies !(#[trigger] record_cmp(c, rs[fin[k] as int], rs[fin[k + 1] as int]) is Greater) by {
        let (x, y, p) = (rs[fin[k] as int], rs[fin[k + 1] as int], rs[pivot as int]);
        lemma_record_cmp_preorder(c, x, p, y);
        lemma_record_cmp_antisym(c, y, p);
        lemma_record_cmp_antisym(c, x, p);
        if k + 1 < lt {
            assert(fin[k] == first[k] && fin[k + 1] == first[k + 1]);
            assert(!(record_cmp(c, rs[first[k] as int], rs[first[k + 1] as int]) is Greater));
        } else if k >= gt {
            assert(!(record_cmp(c, rs[fin[k] as int], rs[fin[k + 1] as int]) is Greater));
        } else if k < lt {
            assert(record_cmp(c, x, p) is Less);
        } else {
            assert(record_cmp(c, x, p) is Equal);
        }
    }
}

/// Positions drawn from positions drawn from a range are drawn from that range.
proof fn lemma_drawn_chain(
    start: Seq<usize>,
    parted: Seq<usize>,
    first: Seq<usize>,
    fin: Seq<usize>,
    left: int,
    lt: int,
    gt: int,
    right: int,
)
    requires
        0 <= left <= lt <= gt <= right <= parted.len(),
        first.len() == parted.len(),
        fin.len() == parted.len(),
        drawn_from(parted, start, left, right),
        forall|k: int| 0 <= k < first.len() && !(left <= k < lt) ==> #[trigger] first[k] == parted[k],
        forall|k: int| 0 <= k < fin.len() && !(gt <= k < right) ==> #[trigger] fin[k] == first[k],
        drawn_from(first, parted, left, lt),
        drawn_from(fin, first, gt, right),
    ensures
        drawn_from(fin, start, left, right),
{
    assert forall|k: int| left <= k < right implies occurs_in(#[trigger] fin[k], start, left, right) by {
        if k < lt {
            assert(fin[k] == first[k]);
            assert(occurs_in(first[k], parted, left, lt));
            let m = choose|m: int| left <= m < lt && parted[m] == first[k];
            assert(occurs_in(parted[m], start, left, right));
        } else if k >= gt {
            assert(occurs_in(fin[k], first, gt, right));
            let m = choose|m: int| gt <= m < right && first[m] == fin[k];
            assert(first[m] == parted[m]);
            assert(occurs_in(parted[m], start, left, right));
        } else {
            assert(fin[k] == first[k] && first[k] == parted[k]);
            assert(occurs_in(parted[k], start, left, right));
        }
    }
}

/// Sorts `ord[left..right]` by three-way partitioning around a median-of-three pivot:
/// smaller records first, then those equal to the pivot, then larger ones, and the
/// same for the smaller and larger parts. Only that range changes, and only by order.
#[verifier::rlimit(60)]
fn three_way_quicksort(cfg: &SortConfig, recs: &Vec<Vec<u8>>, ord: &mut Vec<usize>, left: usize, right: usize)
    requires
        left <= right <= old(ord)@.len(),
        forall|k: int| 0 <= k < old(ord)@.len() ==> #[trigger] old(ord)@[k] < recs@.len(),
    ensures
        final(ord)@.len() == old(ord)@.len(),
        final(ord)@.to_multiset() == old(ord)@.to_multiset(),
        forall|k: int| 0 <= k < final(ord)@.len() ==> #[trigger] final(ord)@[k] < recs@.len(),
        forall|k: int| 0 <= k < final(ord)@.len() && !(left <= k < right) ==> #[trigger] final(ord)@[k] == old(ord)@[k],
        drawn_from(final(ord)@, old(ord)@, left as int, right as int),
        ordered_range(*cfg, views(recs@), final(ord)@, left as int, right as int),
    decreases right - left,
{
    let ghost rs = views(recs@);
    let ghost c = *cfg;
    let ghost start = ord@;
    if right - left <= 1 {
        proof {
            lemma_drawn_refl(start, left as int, right as int);
        }
        return;
    }
    let mid = left + (right - left) / 2;
    let last = right - 1;
    let ab = !matches!(compare_at(cfg, recs, ord[left], ord[mid]), Ordering::Greater);
    let bc = !matches!(compare_at(cfg, recs, ord[mid], ord[last]), Ordering::Greater);
    let ac = !matches!(compare_at(cfg, recs, ord[left], ord[last]), Ordering::Greater);
    let slot = if ab {
        if bc {
            mid
        } else if ac {
            last
        } else {
            left
        }
    } else if !bc {
        mid
    } else if ac {
        left
    } else {
        last
    };
    proof {
        lemma_drawn_refl(start, left as int, right as int);
        lemma_swap_drawn(start, start, left as int, right as int, left as int, slot as int);
    }
    swap_positions(ord, left, slot);
    let pivot = ord[left];
    proof {
        lemma_record_cmp_antisym(c, rs[pivot as int], rs[pivot as int]);
    }
    let mut lt: usize = left;
    let mut i: usize = left + 1;
    let mut gt: usize = right;
    while i < gt
        invariant
            rs == views(recs@),
            c == *cfg,
            left <= lt < i <= gt <= right <= ord@.len(),
            ord@.len() == start.len(),
            ord@.to_multiset() == start.to_multiset(),
            forall|k: int| 0 <= k < ord@.len() ==> #[trigger] ord@[k] < recs@.len(),
            forall|k: int| 0 <= k < ord@.len() && !(left <= k < right) ==> #[trigger] ord@[k] == start[k],
            drawn_from(ord@, start, left as int, right as int),
            pivot < recs@.len(),
            forall|k: int| left <= k < lt ==> #[trigger] record_cmp(c, rs[ord@[k] as int], rs[pivot as int]) is Less,
            forall|k: int| lt <= k < i ==> #[trigger] record_cmp(c, rs[ord@[k] as int], rs[pivot as int]) is Equal,
            forall|k: int| gt <= k < right ==> #[trigger] record_cmp(c, rs[ord@[k] as int], rs[pivot as int]) is Greater,
        decreases gt - i,
    {
        let ghost before = ord@;
        match compare_at(cfg, recs, ord[i], pivot) {
            Ordering::Less => {
                proof {
                    lemma_swap_drawn(before, start, left as int, right as int, i as int, lt as int);
                }
                swap_positions(ord, i, lt);
                proof {
                    assert(ord@[lt as int] == before[i as int]);
                    assert(ord@[i as int] == before[lt as int]);
                }
                lt = lt + 1;
                i = i + 1;
            },
            Ordering::Greater => {
                gt = gt - 1;
                proof {
                    lemma_swap_drawn(before, start, left as int, right as int, i as int, gt as int);
                }
                swap_positions(ord, i, gt);
                proof {
                    assert(ord@[gt as int] == before[i as int]);
                }
            },
            Ordering::Equal => {
                i = i + 1;
            },
        }
    }
    let ghost parted = ord@;
    three_way_quicksort(cfg, recs, ord, left, lt);
    let ghost first = ord@;
    three_way_quicksort(cfg, recs, ord, gt, right);
    proof {
        lemma_partition_glue(c, rs, parted, first, ord@, left as int, lt as int, gt as int, right as int, pivot);
        lemma_drawn_chain(start, parted, first, ord@, left as int, lt as int, gt as int, right as int);
    }
}

/// A non-decreasing order by three-way quicksort. It does not keep ties in input
/// order, so the engine uses it only where neither stable nor unique output is asked
/// for.
pub fn three_way_order(cfg: &SortConfig, recs: &Vec<Vec<u8>>) -> (r: Vec<usize>)
    ensures
        is_perm(r@, recs@.len()),
        in_bounds(views(recs@), r@),
        ordered(*cfg, views(recs@), r@),
{
    let n = recs.len();
    let mut ord = identity_order(n);
    three_way_quicksort(cfg, recs, &mut ord, 0, n);
    ord
}


/// The comparator of the configuration is a total preorder on byte strings: it flips
/// when its arguments are swapped and is transitive (`lemma_record_cmp_preorder`).
pub open spec fn comparator_total(c: SortConfig) -> bool {
    forall|a: Seq<u8>, b: Seq<u8>, d: Seq<u8>|
        (#[trigger] record_cmp(c, a, b) == flip(record_cmp(c, b, a))) && (le(record_cmp(c, a, b))
            && le(#[trigger] record_cmp(c, b, d)) ==> le(record_cmp(c, a, d)))
}

/// Relies on rayon's `ParallelSliceMut::par_sort_by`: it reorders the positions in
/// parallel, keeping each of them; with a comparator that is a total order (here
/// `compare_records`) the result is in order, and the sort is stable, so positions
/// that start ascending stay ascending among equal records.
#[verifier::external_body]
fn par_sort_positions(cfg: &SortConfig, recs: &Vec<Vec<u8>>, ord: &mut Vec<usize>)
    requires
        in_bounds(views(recs@), old(ord)@),
        comparator_total(*cfg),
    ensures
        final(ord)@.to_multiset() == old(ord)@.to_multiset(),
        ordered(*cfg, views(recs@), final(ord)@),
        old(ord)@ == range_seq(0, recs@.len() as int) ==> stable_ties(*cfg, views(recs@), final(ord)@),
{
    ord.par_sort_by(|a, b| compare_records(cfg, recs[*a].as_slice(), recs[*b].as_slice()));
}

/// A stable sorted order of the records, reached in parallel.
pub fn parallel_sorted(cfg: &SortConfig, recs: &Vec<Vec<u8>>) -> (r: Vec<usize>)
    ensures
        sorted_order(*cfg, views(recs@), r@),
        stable_ties(*cfg, views(recs@), r@),
{
    let n = recs.len();
    let mut ord = identity_order(n);
    proof {
        assert forall|k: int| 0 <= k < ord@.len() implies #[trigger] ord@[k] < views(recs@).len() by {
        }
        assert forall|a: Seq<u8>, b: Seq<u8>, d: Seq<u8>|
            (#[trigger] record_cmp(*cfg, a, b) == flip(record_cmp(*cfg, b, a))) && (le(record_cmp(*cfg, a, b))
                && le(#[trigger] record_cmp(*cfg, b, d)) ==> le(record_cmp(*cfg, a, d))) by {
            lemma_record_cmp_preorder(*cfg, a, b, d);
        }
    }
    par_sort_positions(cfg, recs, &mut ord);
    proof {
        assert forall|k: int| 0 <= k < ord@.len() implies #[trigger] ord@[k] < recs@.len() by {
            lemma_in_range(ord@, n as nat, k);
        }
    }
    ord
}

/// A position named in a permutation of `0..n` lies below `n`.
proof fn lemma_in_range(ord: Seq<usize>, n: nat, k: int)
    requires
        is_perm(ord, n),
        0 <= k < ord.len(),
        n <= usize::MAX,
    ensures
        ord[k] < n,
{
    broadcast use vstd::seq_lib::group_to_multiset_ensures;

    let x = ord[k];
    assert(ord.contains(x));
    assert(range_seq(0, n as int).to_multiset().count(x) > 0);
    assert(range_seq(0, n as int).contains(x));
    let j = choose|j: int| 0 <= j < n && range_seq(0, n as int)[j] == x;
}

} // verus!
