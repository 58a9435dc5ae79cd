//! Points awarded for a rank.
//!
//! A pure function of the 1-based rank alone: the best rank earns a fixed
//! maximum and the value never increases as the rank grows. The exact decay
//! curve is a configuration detail of the board; the one here divides the
//! maximum by the rank.

use vstd::arithmetic::div_mod::lemma_div_is_ordered_by_denominator;
use vstd::prelude::*;

verus! {

/// Points earned by the best rank.
pub const MAX_POINTS: u64 = 200;

/// Points for a 1-based rank: the configured decay curve.
pub open spec fn points_spec(rank: nat) -> nat {
    (MAX_POINTS as nat) / rank
}

/// Points for a 1-based rank.
pub fn points_for_rank(rank: usize) -> (p: u64)
    requires
        rank >= 1,
    ensures
        p == points_spec(rank as nat),
{
    MAX_POINTS / (rank as u64)
}

/// The best rank earns exactly the fixed maximum.
pub proof fn lemma_points_at_best_rank()
    ensures
        points_spec(1) == MAX_POINTS,
{
}

/// Points never increase as the rank grows.
pub proof fn lemma_points_non_increasing(r1: nat, r2: nat)
    requires
        1 <= r1 <= r2,
    ensures
        points_spec(r1) >= points_spec(r2),
{
    lemma_div_is_ordered_by_denominator(MAX_POINTS as int, r1 as int, r2 as int);
}

} // verus!
