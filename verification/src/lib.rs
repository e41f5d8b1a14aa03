//! Character-sequence frequency statistics over text corpora: occurrence
//! counting of n-grams, skip-grams and words, character-class transforms,
//! and weighted multi-source report aggregation.

pub mod analysis;
pub mod codec;
pub mod corpus;
pub mod countable;
pub mod digest;
pub mod export;
pub mod counting;
pub mod occurrence;
pub mod report;
pub mod scaled;
pub mod transforms;

use vstd::prelude::*;

verus! {

/// Saturating addition on `u64`, the additive operation of every count map.
pub open spec fn sat_add64(a: u64, b: u64) -> u64 {
    if a + b > u64::MAX {
        u64::MAX
    } else {
        (a + b) as u64
    }
}

/// Exec counterpart of `sat_add64`.
pub fn add_counts(a: u64, b: u64) -> (r: u64)
    ensures
        r == sat_add64(a, b),
{
    a.saturating_add(b)
}

} // verus!
