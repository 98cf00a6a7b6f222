use vstd::prelude::*;
use crate::store::Epoch;

verus! {

pub const HOUR: u64 = 3600;

pub const DAY: u64 = 86400;

pub const WEEK: u64 = 604800;

/// A score counts quarters of a weight: a score of `4 * w` stands for the
/// rank that weight `w` stands for.
pub const QUARTERS_PER_RANK: u128 = 4;

/// Seconds since the last access; a last access in the future counts as now.
pub open spec fn elapsed(now: Epoch, last_accessed: Epoch) -> u64 {
    if now >= last_accessed {
        (now - last_accessed) as u64
    } else {
        0
    }
}

/// The recency weight in quarters: x4 within an hour, x2 within a day, x0.5
/// within a week, x0.25 after that.
pub open spec fn recency_quarters(elapsed: u64) -> u128 {
    if elapsed < HOUR {
        16
    } else if elapsed < DAY {
        8
    } else if elapsed < WEEK {
        2
    } else {
        1
    }
}

/// The frecency score of an entry, in quarters of its weight.
pub open spec fn frecency(weight: u64, last_accessed: Epoch, now: Epoch) -> int {
    weight * recency_quarters(elapsed(now, last_accessed))
}

/// The recency weight, in quarters, of an entry last accessed `elapsed`
/// seconds ago.
pub fn recency_weight(elapsed: u64) -> (r: u128)
    ensures
        r == recency_quarters(elapsed),
{
    if elapsed < HOUR {
        16
    } else if elapsed < DAY {
        8
    } else if elapsed < WEEK {
        2
    } else {
        1
    }
}

/// Scores an entry by weight and recency, in quarters of its weight. All
/// entries of a store share one scale, so scores order entries as their
/// ranks scored the same way would.
pub fn score(weight: u64, last_accessed: Epoch, now: Epoch) -> (r: u128)
    ensures
        r == frecency(weight, last_accessed, now),
{
    let elapsed = now.saturating_sub(last_accessed);
    let w = recency_weight(elapsed);
    assert(weight * w <= u64::MAX * 16) by (nonlinear_arith)
        requires weight <= u64::MAX, w <= 16;
    weight as u128 * w
}

} // verus!
