//! A line-sorting library: records split from input bytes are ordered by configurable
//! keys and modes, optionally with equal neighbours dropped, and written back with
//! their terminators.
use vstd::prelude::*;

pub mod adaptive_sort;
pub mod args;
pub mod config;
pub mod core_sort;
pub mod error;
pub mod external_sort;
pub mod general_numeric;
pub mod keys;
pub mod laws;
pub mod locale;
pub mod presets;
pub mod simd_compare;
pub mod total_order;
pub mod zero_copy;

pub use config::{SortConfig, SortMode, SortOrder};
pub use error::{SortError, SortResult};
use config::config_fault;
use core_sort::{
    dedup, dedup_order, first_disorder, gather_records, input_records, merge_order, range_seq,
    records_sorted, sort_order, sorted_order,
};
use zero_copy::{parse_lines, pick, render, split_records, views, write_records};

verus! {

/// Exit status of a successful run.
pub const EXIT_SUCCESS: i32 = 0;

/// Exit status when a check or a validation fails.
pub const EXIT_FAILURE: i32 = 1;

/// Exit status of an I/O or internal failure.
pub const SORT_FAILURE: i32 = 2;

/// The byte that ends each record: NUL with `zero_terminated`, newline otherwise.
pub open spec fn terminator(c: SortConfig) -> u8 {
    if c.zero_terminated {
        0
    } else {
        10
    }
}

/// `out` is the records `rs` in a sorted order (see `sorted_order`), with every record
/// equal to the one kept before it dropped where unique output is asked for, each
/// followed by the terminator.
pub open spec fn is_sort_output(c: SortConfig, rs: Seq<Seq<u8>>, out: Seq<u8>) -> bool {
    exists|ord: Seq<usize>|
        sorted_order(c, rs, ord) && out == render(
            pick(rs, if c.unique { dedup(c, rs, ord) } else { ord }),
            terminator(c),
        )
}

/// Every input is sorted on its own.
pub open spec fn inputs_sorted(c: SortConfig, inputs: Seq<Seq<u8>>) -> bool {
    forall|i: int| 0 <= i < inputs.len() ==> records_sorted(c, #[trigger] split_records(inputs[i], terminator(c)))
}

/// Line `line` (from 1) of `data` is the first that is smaller than the line before it.
pub open spec fn disorder_at(c: SortConfig, data: Seq<u8>, line: int) -> bool {
    let rs = split_records(data, terminator(c));
    &&& 2 <= line <= rs.len()
    &&& record_cmp_greater(c, rs[line - 2], rs[line - 1])
    &&& forall|m: int| 0 <= m < line - 2 ==> !record_cmp_greater(c, rs[m], #[trigger] rs[m + 1])
}

pub open spec fn record_cmp_greater(c: SortConfig, a: Seq<u8>, b: Seq<u8>) -> bool {
    keys::record_cmp(c, a, b) is Greater
}

/// Checks one input: the number (from 1) of the first line that is smaller than the
/// line before it, or `None` where the input is sorted.
pub fn check_input(config: &SortConfig, data: &[u8]) -> (r: Option<usize>)
    ensures
        r is None <==> records_sorted(*config, split_records(data@, terminator(*config))),
        r matches Some(line) ==> disorder_at(*config, data@, line as int),
{
    let t: u8 = if config.zero_terminated {
        0
    } else {
        10
    };
    let recs = parse_lines(data, t);
    let n = recs.len();
    match first_disorder(config, &recs) {
        None => None,
        Some(k) => {
            proof {
                let rs = views(recs@);
                assert forall|m: int| 0 <= m < k - 1 implies !record_cmp_greater(
                    *config,
                    rs[m],
                    #[trigger] rs[m + 1],
                ) by {
                    assert(!(keys::record_cmp(*config, rs[m], rs[m + 1]) is Greater));
                }
            }
            assert(k < n);
            Some(k + 1)
        },
    }
}

/// Runs the configured operation on the inputs (the bytes of each input in turn):
/// - an invalid configuration gives its error;
/// - a check gives `NotSorted` with the first disordered line of the first input that
///   is not sorted, and otherwise no output;
/// - sorting and merging give the records of all inputs in a sorted order.
pub fn sort(config: &SortConfig, inputs: &Vec<Vec<u8>>) -> (r: SortResult<Vec<u8>>)
    ensures
        config_fault(*config) is Some ==> r is Err && config::fault_matches(
            config_fault(*config)->0,
            r->Err_0,
        ),
        config_fault(*config) is None && config.check ==> {
            &&& (r is Ok <==> inputs_sorted(*config, views(inputs@)))
            &&& r is Ok ==> r->Ok_0@.len() == 0
            &&& r is Err ==> (r->Err_0 matches SortError::NotSorted { line } && exists|i: int|
                0 <= i < inputs@.len() && disorder_at(*config, inputs@[i]@, line as int) && forall|j: int|
                    0 <= j < i ==> records_sorted(
                        *config,
                        #[trigger] split_records(inputs@[j]@, terminator(*config)),
                    ))
        },
        config_fault(*config) is None && !config.check ==> {
            let rs = input_records(views(inputs@), terminator(*config));
            &&& r is Ok
            &&& is_sort_output(*config, rs, r->Ok_0@)
            &&& records_sorted(*config, rs) && !config.unique ==> r->Ok_0@ == render(rs, terminator(*config))
        },
{
    match config.validate() {
        Ok(()) => {},
        Err(e) => {
            return Err(e);
        },
    }
    let t: u8 = if config.zero_terminated {
        0
    } else {
        10
    };
    if config.check {
        let mut i: usize = 0;
        while i < inputs.len()
            invariant
                i <= inputs@.len(),
                t == terminator(*config),
                config_fault(*config) is None,
                config.check,
                forall|j: int|
                    0 <= j < i ==> records_sorted(
                        *config,
                        #[trigger] split_records(inputs@[j]@, terminator(*config)),
                    ),
            decreases inputs@.len() - i,
        {
            match check_input(config, inputs[i].as_slice()) {
                Some(line) => {
                    proof {
                        assert(0 <= i < inputs@.len() && disorder_at(*config, inputs@[i as int]@, line as int));
                        assert(views(inputs@)[i as int] == inputs@[i as int]@);
                        assert(!records_sorted(*config, split_records(views(inputs@)[i as int], terminator(*config))));
                        assert(!inputs_sorted(*config, views(inputs@)));
                    }
                    return Err(SortError::not_sorted(line));
                },
                None => {},
            }
            i = i + 1;
        }
        proof {
            assert forall|j: int| 0 <= j < views(inputs@).len() implies records_sorted(
                *config,
                #[trigger] split_records(views(inputs@)[j], terminator(*config)),
            ) by {
                assert(views(inputs@)[j] == inputs@[j]@);
                assert(records_sorted(*config, split_records(inputs@[j]@, terminator(*config))));
            }
        }
        return Ok(Vec::new());
    }
    let (recs, bounds) = gather_records(inputs, t);
    let ghost rs = views(recs@);
    let order = if config.merge {
        merge_order(config, &recs, &bounds)
    } else {
        sort_order(config, &recs)
    };
    let chosen = if config.unique {
        dedup_order(config, &recs, &order)
    } else {
        order
    };
    let out = write_records(&recs, &chosen, t);
    proof {
        if records_sorted(*config, rs) && !config.unique {
            assert(pick(rs, range_seq(0, rs.len() as int)) =~= rs);
        }
    }
    Ok(out)
}

} // verus!
