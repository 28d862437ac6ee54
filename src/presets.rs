//! Ready-made configurations for common runs.
use vstd::prelude::*;
use crate::config::{is_default_config, SortConfig, SortMode};

verus! {

/// Numeric sorting.
pub fn numeric() -> (r: SortConfig)
    ensures
        r.mode == SortMode::Numeric,
        is_default_config(SortConfig { mode: SortMode::Lexicographic, ..r }),
{
    SortConfig::new().with_mode(SortMode::Numeric)
}

/// Version sorting.
pub fn version() -> (r: SortConfig)
    ensures
        r.mode == SortMode::Version,
        is_default_config(SortConfig { mode: SortMode::Lexicographic, ..r }),
{
    SortConfig::new().with_mode(SortMode::Version)
}

/// Sorting of sizes with suffixes (`2K`, `1G`).
pub fn human_numeric() -> (r: SortConfig)
    ensures
        r.mode == SortMode::HumanNumeric,
        is_default_config(SortConfig { mode: SortMode::Lexicographic, ..r }),
{
    SortConfig::new().with_mode(SortMode::HumanNumeric)
}

/// Sorting that ignores the case of letters.
pub fn case_insensitive() -> (r: SortConfig)
    ensures
        r.ignore_case == true,
        is_default_config(SortConfig { ignore_case: false, ..r }),
{
    let mut c = SortConfig::new();
    c.ignore_case = true;
    c
}

/// Sorting that keeps one line of each equal run.
pub fn unique() -> (r: SortConfig)
    ensures
        r.unique == true,
        is_default_config(SortConfig { unique: false, ..r }),
{
    SortConfig::new().with_unique(true)
}

/// Sorting in descending order.
pub fn reverse() -> (r: SortConfig)
    ensures
        r.reverse == true,
        is_default_config(SortConfig { reverse: false, ..r }),
{
    SortConfig::new().with_reverse(true)
}

/// Sorting that keeps input order among equal lines.
pub fn stable() -> (r: SortConfig)
    ensures
        r.stable == true,
        is_default_config(SortConfig { stable: false, ..r }),
{
    SortConfig::new().with_stable(true)
}

/// Merging of already sorted inputs.
pub fn merge() -> (r: SortConfig)
    ensures
        r.merge == true,
        is_default_config(SortConfig { merge: false, ..r }),
{
    SortConfig::new().with_merge(true)
}

/// Checking that the input is sorted.
pub fn check() -> (r: SortConfig)
    ensures
        r.check == true,
        is_default_config(SortConfig { check: false, ..r }),
{
    SortConfig::new().with_check(true)
}

} // verus!
