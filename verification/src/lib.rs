//! A goal-oriented action planner.
//!
//! A world is a set of named integer properties. Weighted goals score how far
//! the world is from a desired condition, and actions move properties by
//! fixed deltas at a fixed time cost. The planner searches for an ordered
//! sequence of actions that drives the total "discontentment" of the goal set
//! down while accounting for time spent.

use vstd::prelude::*;

mod action;
mod best;
mod fast;
mod goal;
mod kvseq;
mod limits;
mod model;
mod planner;
mod search;
mod state;

pub use action::{action_applies, action_view_wf, apply_deltas, Action, ActionView};
pub use best::{
    best_plan_spec, lemma_best_efficient_no_worse, lemma_best_empty_goals,
    lemma_best_plan_from_library, lemma_best_props, lemma_best_traditional_depth_monotone,
    lemma_best_traditional_no_worse,
};
pub use fast::{fast_plan_ok, fast_run, fast_search_spec, lemma_fast_empty_goals, NodeView};
pub use goal::{
    goal_delta, goal_disc, goal_satisfied, goal_view_wf, goal_views_wf, goals_view, goals_wf,
    lemma_goal_disc_monotone, lemma_goal_disc_nonneg, lemma_goal_disc_zero_iff_satisfied,
    DiscontentmentKind, Goal,
    GoalView,
};
pub use limits::{
    DELTA_LIMIT, DEPTH_LIMIT, DURATION_LIMIT, GOAL_COUNT_LIMIT, SCALE_LIMIT, START_VALUE_LIMIT,
    TARGET_LIMIT, WEIGHT_LIMIT,
};
pub use model::{
    acts_view, lemma_total_disc_zero_iff_all_satisfied, total_disc, Model, ModelView,
};
pub use planner::{Algorithm, Plan, PlanView, Planner, PlannerView, Solution};
pub use search::{plan_acts_wf, replay_ok, replay_state, replay_time};
pub use state::{
    lemma_apply_never_negative, lemma_state_hash_is_content_hash, State,
};

verus! {

/// A property absent from a map of named values reads as zero.
pub open spec fn lookup0(m: Map<Seq<char>, int>, k: Seq<char>) -> int {
    if m.dom().contains(k) {
        m[k]
    } else {
        0
    }
}

/// Every property value of the map lies within `b` of zero.
pub open spec fn map_bounded(m: Map<Seq<char>, int>, b: int) -> bool {
    forall|k: Seq<char>| m.dom().contains(k) ==> -b <= #[trigger] m[k] <= b
}

} // verus!
