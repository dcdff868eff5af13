//! Representable ranges for the planner's exact integer arithmetic.
//!
//! The engine scores goals in fixed point: `scale` and `weight` are given in
//! thousandths, so a discontentment value is an integer count of millionths
//! (a thousandth times a thousandth). All search arithmetic is carried out
//! exactly in `i128`. The configuration loader owns validation; the core
//! assumes inputs inside the ranges below, which are chosen so that every
//! intermediate value of the search provably fits its machine integer.

use vstd::prelude::*;

verus! {

/// Largest `scale`, in thousandths (a scale of up to 100.0).
pub const SCALE_LIMIT: i64 = 100_000;

/// Largest `weight`, in thousandths (a weight of up to 100.0).
pub const WEIGHT_LIMIT: i64 = 100_000;

/// Largest magnitude of a goal's target value.
pub const TARGET_LIMIT: i64 = 10_000_000;

/// Largest magnitude of a property value in a state handed to the planner.
pub const START_VALUE_LIMIT: i64 = 10_000_000;

/// Largest magnitude of a single action delta.
pub const DELTA_LIMIT: i64 = 10_000;

/// Largest duration of a single action.
pub const DURATION_LIMIT: i64 = 10_000;

/// Largest search depth a planner may be configured with.
pub const DEPTH_LIMIT: usize = 10_000;

/// Largest number of goals a model may carry.
pub const GOAL_COUNT_LIMIT: usize = 1_000;

/// Largest magnitude a property value can reach during a search:
/// `START_VALUE_LIMIT + DEPTH_LIMIT * DELTA_LIMIT`.
pub const VALUE_LIMIT: i64 = 110_000_000;

/// Largest discontentment a single goal can report against a reachable
/// state: `SCALE_LIMIT * WEIGHT_LIMIT * (TARGET_LIMIT + VALUE_LIMIT)`,
/// in millionths.
pub const GOAL_DISC_LIMIT: i128 = 1_200_000_000_000_000_000;

/// Largest total discontentment of a model against a reachable state:
/// `GOAL_COUNT_LIMIT * GOAL_DISC_LIMIT`, in millionths.
pub const TOTAL_DISC_LIMIT: i128 = 1_200_000_000_000_000_000_000;

/// Largest total time of a plan: `DEPTH_LIMIT * DURATION_LIMIT`.
pub const TIME_LIMIT: i64 = 100_000_000;

/// The scaling of a reciprocal taken in millionths of a whole unit:
/// a million millionths.
pub const MICRO_SQUARED: i128 = 1_000_000_000_000;

/// Stand-in for an infinite cost: the reciprocal of a zero efficiency.
/// Larger than any finite cost term the search can produce.
pub const INFINITE_COST: i128 = 1_000_000_000_000_000_000_000_000_000;

/// How many frontier nodes a single heuristic search may take out and
/// examine before it gives up and falls back to the do-nothing plan.
pub const SEARCH_BUDGET: usize = 1_000_000_000;

} // verus!
