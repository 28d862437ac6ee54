//! Sorting in runs of bounded size: the records are cut into runs that fit a byte
//! budget, each run is sorted, and the runs are merged.
use vstd::prelude::*;
use crate::config::SortConfig;
use crate::core_sort::{merge_order, sorted_order, valid_bounds};
use std::cmp::Ordering;
use crate::keys::{compare_records, lemma_record_cmp_antisym, record_cmp};
use crate::laws::lemma_sorted_orders_agree;
use crate::total_order::{le, lemma_record_cmp_preorder};
use crate::zero_copy::{pick, views};

verus! {

/// Memory (MiB) left to the system before a run's budget is taken.
pub const RESERVED_MB: usize = 512;

/// The memory budget of one run, in MiB: a tenth of the safe memory for inputs over
/// 1 GiB (at least 100), an eighth for inputs over 200 MiB (at least 64), and a quarter
/// otherwise (at least 32); safe memory is what is available beyond 512 MiB.
pub open spec fn run_budget_spec(input_bytes: u64, available_mb: usize) -> int {
    let safe: int = if available_mb >= RESERVED_MB { available_mb - RESERVED_MB } else { 0 };
    if input_bytes > 1073741824 {
        if safe / 10 > 100 { safe / 10 } else { 100 }
    } else if input_bytes > 209715200 {
        if safe / 8 > 64 { safe / 8 } else { 64 }
    } else {
        if safe / 4 > 32 { safe / 4 } else { 32 }
    }
}

pub fn run_budget_mb(input_bytes: u64, available_mb: usize) -> (r: usize)
    ensures
        r == run_budget_spec(input_bytes, available_mb),
{
    let safe = if available_mb >= RESERVED_MB {
        available_mb - RESERVED_MB
    } else {
        0
    };
    if input_bytes > 1073741824 {
        if safe / 10 > 100 {
            safe / 10
        } else {
            100
        }
    } else if input_bytes > 209715200 {
        if safe / 8 > 64 {
            safe / 8
        } else {
            64
        }
    } else {
        if safe / 4 > 32 {
            safe / 4
        } else {
            32
        }
    }
}

/// Bytes that the records `rs[lo..hi]` take when written, terminators included.
pub open spec fn run_bytes(rs: Seq<Seq<u8>>, lo: int, hi: int) -> int
    decreases hi - lo,
{
    if hi <= lo {
        0
    } else {
        run_bytes(rs, lo, hi - 1) + rs[hi - 1].len() + 1
    }
}

/// Each run holds at least one record and fits the budget, unless it is one record.
pub open spec fn runs_fit(rs: Seq<Seq<u8>>, bounds: Seq<usize>, budget: int) -> bool {
    forall|s: int|
        0 <= s < bounds.len() - 1 ==> #[trigger] bounds[s] < bounds[s + 1] && (run_bytes(
            rs,
            bounds[s] as int,
            bounds[s + 1] as int,
        ) <= budget || bounds[s + 1] == bounds[s] + 1)
}

/// Every run but the last was closed because the record after it would not fit: it
/// is filled up to the budget.
pub open spec fn runs_filled(rs: Seq<Seq<u8>>, bounds: Seq<usize>, budget: int) -> bool {
    forall|s: int|
        0 <= s < bounds.len() - 2 ==> #[trigger] run_bytes(rs, bounds[s] as int, bounds[s + 1] + 1) > budget
}

/// The run that was closed last would not have taken the record after it.
pub open spec fn last_closed_full(rs: Seq<Seq<u8>>, bounds: Seq<usize>, budget: int) -> bool {
    bounds.len() >= 2 ==> run_bytes(rs, bounds[bounds.len() - 2] as int, bounds.last() + 1) > budget
}

proof fn lemma_push_filled(rs: Seq<Seq<u8>>, bounds: Seq<usize>, i: usize, budget: int)
    requires
        bounds.len() >= 1,
        runs_filled(rs, bounds, budget),
        last_closed_full(rs, bounds, budget),
    ensures
        runs_filled(rs, bounds.push(i), budget),
{
    let b = bounds.push(i);
    assert forall|s: int| 0 <= s < b.len() - 2 implies #[trigger] run_bytes(rs, b[s] as int, b[s + 1] + 1) > budget by {
        assert(b[s] == bounds[s] && b[s + 1] == bounds[s + 1]);
        if s < bounds.len() - 2 {
            assert(run_bytes(rs, bounds[s] as int, bounds[s + 1] + 1) > budget);
        }
    }
}

/// Closing the run `start..i` keeps the runs ordered and fitting.
proof fn lemma_push_bound(rs: Seq<Seq<u8>>, bounds: Seq<usize>, start: int, i: int, budget: int)
    requires
        bounds.len() >= 1,
        bounds.last() == start,
        start < i <= usize::MAX,
        forall|s: int| 0 <= s < bounds.len() - 1 ==> #[trigger] bounds[s] <= bounds[s + 1],
        runs_fit(rs, bounds, budget),
        run_bytes(rs, start, i) <= budget || i == start + 1,
    ensures
        forall|s: int|
            0 <= s < bounds.push(i as usize).len() - 1 ==> #[trigger] bounds.push(i as usize)[s]
                <= bounds.push(i as usize)[s + 1],
        runs_fit(rs, bounds.push(i as usize), budget),
{
    let b = bounds.push(i as usize);
    assert forall|s: int| 0 <= s < b.len() - 1 implies #[trigger] b[s] < b[s + 1] && (run_bytes(
        rs,
        b[s] as int,
        b[s + 1] as int,
    ) <= budget || b[s + 1] == b[s] + 1) by {
        if s < bounds.len() - 1 {
            assert(b[s] == bounds[s] && b[s + 1] == bounds[s + 1]);
        } else {
            assert(b[s] == start);
        }
    }
    assert forall|s: int| 0 <= s < b.len() - 1 implies #[trigger] b[s] <= b[s + 1] by {
        if s < bounds.len() - 1 {
            assert(b[s] == bounds[s] && b[s + 1] == bounds[s + 1]);
        } else {
            assert(b[s] == start);
        }
    }
}

/// Cuts the records into consecutive runs that fit `budget` bytes each; a record
/// larger than the budget makes a run of its own.
#[verifier::rlimit(50)]
pub fn run_bounds(recs: &Vec<Vec<u8>>, budget: usize) -> (r: Vec<usize>)
    ensures
        valid_bounds(r@, recs@.len() as int),
        runs_fit(views(recs@), r@, budget as int),
        runs_filled(views(recs@), r@, budget as int),
{
    let ghost rs = views(recs@);
    let n = recs.len();
    let mut bounds: Vec<usize> = Vec::new();
    bounds.push(0);
    let mut start: usize = 0;
    let mut size: usize = 0;
    let mut over = false;
    let mut i: usize = 0;
    while i < n
        invariant
            rs == views(recs@),
            n == recs@.len(),
            start <= i <= n,
            bounds@.len() >= 1,
            bounds@[0] == 0,
            bounds@.last() == start,
            forall|s: int| 0 <= s < bounds@.len() - 1 ==> #[trigger] bounds@[s] <= bounds@[s + 1],
            runs_fit(rs, bounds@, budget as int),
            runs_filled(rs, bounds@, budget as int),
            last_closed_full(rs, bounds@, budget as int),
            over == (run_bytes(rs, start as int, i as int) > budget),
            !over ==> size == run_bytes(rs, start as int, i as int),
            over ==> i == start + 1,
            size <= budget,
        decreases n - i,
    {
        let len = recs[i].len();
        assert(rs[i as int].len() == len);
        let joins = i > start && !over && len < budget - size;
        if i > start && !joins {
            let ghost old_bounds = bounds@;
            bounds.push(i);
            proof {
                lemma_push_bound(rs, old_bounds, start as int, i as int, budget as int);
                lemma_push_filled(rs, old_bounds, i, budget as int);
                assert(run_bytes(rs, start as int, i + 1) == run_bytes(rs, start as int, i as int) + len + 1);
                assert(bounds@[bounds@.len() - 2] == start);
            }
            start = i;
            size = 0;
            over = false;
        }
        proof {
            assert(run_bytes(rs, start as int, i + 1) == run_bytes(rs, start as int, i as int) + len + 1);
        }
        if joins {
            size = size + len + 1;
        } else if len < budget {
            size = len + 1;
            over = false;
        } else {
            size = 0;
            over = true;
        }
        i = i + 1;
    }
    if n > start {
        let ghost old_bounds = bounds@;
        bounds.push(n);
        proof {
            lemma_push_bound(rs, old_bounds, start as int, n as int, budget as int);
            lemma_push_filled(rs, old_bounds, n, budget as int);
        }
    }
    bounds
}

/// A sorted order of the records reached by sorting runs of at most `budget` bytes
/// and merging them. Whatever the budget, it gives the records in the same sequence as
/// any other sorted order, such as the one sorted in memory at once.
pub fn external_sort_order(cfg: &SortConfig, recs: &Vec<Vec<u8>>, budget: usize) -> (r: Vec<usize>)
    ensures
        sorted_order(*cfg, views(recs@), r@),
        forall|o: Seq<usize>|
            sorted_order(*cfg, views(recs@), o) ==> pick(views(recs@), r@) == pick(views(recs@), o)
                && (cfg.stable || cfg.unique ==> r@ == o),
{
    let bounds = run_bounds(recs, budget);
    let r = merge_order(cfg, recs, &bounds);
    proof {
        assert forall|o: Seq<usize>| sorted_order(*cfg, views(recs@), o) implies pick(views(recs@), r@)
            == pick(views(recs@), o) && (cfg.stable || cfg.unique ==> r@ == o) by {
            lemma_sorted_orders_agree(*cfg, views(recs@), r@, o);
        }
    }
    r
}


/// `r` is the source whose front record comes next in a merge: among the sources that
/// are not exhausted it has the smallest front, and every earlier source's front is
/// greater (ties go to the earliest source).
pub open spec fn is_next_source(c: SortConfig, fronts: Seq<Seq<u8>>, live: Seq<bool>, r: int) -> bool {
    &&& 0 <= r < fronts.len()
    &&& live[r]
    &&& forall|j: int| 0 <= j < fronts.len() && live[j] ==> le(#[trigger] record_cmp(c, fronts[r], fronts[j]))
    &&& forall|j: int| 0 <= j < r && live[j] ==> #[trigger] record_cmp(c, fronts[j], fronts[r]) is Greater
}

/// The source to take the next record from when merging sorted sources: `fronts[s]`
/// is the first unread record of source `s`, and `live[s]` says whether it has one.
/// `None` once every source is exhausted.
pub fn next_source(cfg: &SortConfig, fronts: &Vec<Vec<u8>>, live: &Vec<bool>) -> (r: Option<usize>)
    requires
        fronts@.len() == live@.len(),
    ensures
        r is None <==> forall|j: int| 0 <= j < live@.len() ==> !live@[j],
        r matches Some(s) ==> is_next_source(*cfg, views(fronts@), live@, s as int),
{
    let ghost fs = views(fronts@);
    let ghost c = *cfg;
    let mut best: Option<usize> = None;
    let mut i: usize = 0;
    while i < fronts.len()
        invariant
            fs == views(fronts@),
            c == *cfg,
            fronts@.len() == live@.len(),
            i <= fronts@.len(),
            best is None <==> forall|j: int| 0 <= j < i ==> !live@[j],
            best matches Some(b) ==> {
                &&& b < i
                &&& live@[b as int]
                &&& forall|j: int| 0 <= j < i && live@[j] ==> le(#[trigger] record_cmp(c, fs[b as int], fs[j]))
                &&& forall|j: int| 0 <= j < b && live@[j] ==> #[trigger] record_cmp(c, fs[j], fs[b as int]) is Greater
            },
        decreases fronts@.len() - i,
    {
        if live[i] {
            match best {
                None => {
                    proof {
                        lemma_record_cmp_antisym(c, fs[i as int], fs[i as int]);
                    }
                    best = Some(i);
                },
                Some(b) => {
                    let o = compare_records(cfg, fronts[i].as_slice(), fronts[b].as_slice());
                    proof {
                        assert(fs[i as int] == fronts@[i as int]@ && fs[b as int] == fronts@[b as int]@);
                        lemma_record_cmp_antisym(c, fs[i as int], fs[b as int]);
                    }
                    if matches!(o, Ordering::Less) {
                        proof {
                            assert forall|j: int| 0 <= j <= i && live@[j] implies le(#[trigger] record_cmp(c, fs[i as int], fs[j])) by {
                                lemma_record_cmp_preorder(c, fs[i as int], fs[b as int], fs[j]);
                                lemma_record_cmp_antisym(c, fs[i as int], fs[i as int]);
                            }
                            assert forall|j: int| 0 <= j < i && live@[j] implies #[trigger] record_cmp(c, fs[j], fs[i as int]) is Greater by {
                                lemma_record_cmp_preorder(c, fs[i as int], fs[b as int], fs[j]);
                                lemma_record_cmp_antisym(c, fs[j], fs[i as int]);
                                lemma_record_cmp_antisym(c, fs[b as int], fs[j]);
                            }
                        }
                        best = Some(i);
                    }
                },
            }
        }
        i = i + 1;
    }
    best
}

/// Whether a merge emits `rec` after `last`, the record it emitted before (if any):
/// always, unless unique output is asked for and `rec` equals `last`.
pub fn merge_emits(cfg: &SortConfig, last: &Option<Vec<u8>>, rec: &[u8]) -> (r: bool)
    ensures
        r == (!cfg.unique || last is None || !(record_cmp(*cfg, last->0@, rec@) is Equal)),
{
    if !cfg.unique {
        return true;
    }
    match last {
        None => true,
        Some(l) => !matches!(compare_records(cfg, l.as_slice(), rec), Ordering::Equal),
    }
}

} // verus!
