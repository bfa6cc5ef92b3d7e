//! Counters of cache hits, cache misses and origin fetches, owned by the
//! coordinator instead of living in process-wide state.
use vstd::prelude::*;

verus! {

/// One more, except at the top of the range, where a counter stays put.
pub open spec fn bumped(x: u64) -> u64 {
    if x < u64::MAX {
        (x + 1) as u64
    } else {
        x
    }
}

pub fn bump(x: u64) -> (r: u64)
    ensures
        r == bumped(x),
{
    if x < u64::MAX {
        x + 1
    } else {
        x
    }
}

#[derive(Debug, Clone, Copy, PartialEq, Eq, Structural)]
pub struct Metrics {
    pub hits: u64,
    pub misses: u64,
    pub origin_fetches: u64,
}

impl Metrics {
    pub fn new() -> (r: Metrics)
        ensures
            r.hits == 0 && r.misses == 0 && r.origin_fetches == 0,
    {
        Metrics { hits: 0, misses: 0, origin_fetches: 0 }
    }

}

} // verus!
