//! The planner: an action library, a depth bound, and a search
//! configuration, producing plans from models.

use vstd::prelude::*;

use crate::action::{Action, ActionView};
use crate::best::best_plan_spec;
use crate::fast::fast_plan_ok;
use crate::limits::{DELTA_LIMIT, DEPTH_LIMIT, START_VALUE_LIMIT, VALUE_LIMIT};
use crate::map_bounded;
use crate::model::{acts_view, clone_labelled_actions, Model};
use crate::search::plan_acts_wf;
use crate::state::State;

verus! {

/// Which cost metric the search minimizes.
#[derive(Clone, Copy, Debug, PartialEq, Eq, Structural)]
pub enum Algorithm {
    /// Minimize the resulting discontentment, then the time spent.
    Traditional,
    /// Favor discontentment lowered per unit of time.
    Efficient,
    /// Discontentment at shallow depth or poor efficiency, efficiency
    /// otherwise.
    Hybrid,
}

/// How much of the search space to pay for.
#[derive(Clone, Copy, Debug, PartialEq, Eq, Structural)]
pub enum Solution {
    /// Heuristic best-first search: the first terminal node found wins.
    Fast,
    /// Exhaustive bounded-depth search with memoization.
    Best,
}

/// Ghost image of a plan.
#[verifier::ext_equal]
pub struct PlanView {
    pub disc: int,
    pub time: int,
    pub actions: Seq<(Seq<char>, ActionView)>,
}

/// An ordered sequence of labelled actions, with the total discontentment
/// (in millionths) and total time the search credited to it.
pub struct Plan {
    /// The discontentment the search credited to the plan, in millionths.
    pub total_discontentment: i128,
    /// The summed duration of the plan's actions.
    pub total_time: i64,
    /// The actions to take, in order, each with its label.
    pub actions: Vec<(String, Action)>,
}

impl View for Plan {
    type V = PlanView;

    open spec fn view(&self) -> PlanView {
        PlanView {
            disc: self.total_discontentment as int,
            time: self.total_time as int,
            actions: acts_view(self.actions@),
        }
    }
}

impl Clone for Plan {
    /// An exact copy of the plan.
    fn clone(&self) -> (res: Self)
        ensures
            res@ == self@,
            plan_acts_wf(res.actions@) == plan_acts_wf(self.actions@),
    {
        let actions = clone_labelled_actions(&self.actions);
        proof {
            assert forall|i: int| 0 <= i < self.actions@.len() implies ((#[trigger] self.actions@[
            i]).1.wf() == actions@[i].1.wf()) by {}
            assert(plan_acts_wf(actions@) == plan_acts_wf(self.actions@)) by {
                if plan_acts_wf(self.actions@) {
                    assert forall|i: int| 0 <= i < actions@.len() implies (
                    #[trigger] actions@[i]).1.wf() by {
                        assert(self.actions@[i].1.wf());
                    }
                }
                if plan_acts_wf(actions@) {
                    assert forall|i: int| 0 <= i < self.actions@.len() implies (
                    #[trigger] self.actions@[i]).1.wf() by {
                        assert(actions@[i].1.wf());
                    }
                }
            }
        }
        Plan {
            total_discontentment: self.total_discontentment,
            total_time: self.total_time,
            actions,
        }
    }
}

/// Ghost image of a planner.
#[verifier::ext_equal]
pub struct PlannerView {
    pub algorithm: Algorithm,
    pub solution: Solution,
    pub max_depth: int,
    pub actions: Seq<(Seq<char>, ActionView)>,
}

/// The search engine: owns the closed action library, iterated in its given
/// order during every search, a depth bound, and the configured strategy.
pub struct Planner {
    /// Which cost metric to minimize.
    pub algorithm: Algorithm,
    /// Heuristic first hit, or exhaustive best.
    pub solution: Solution,
    /// The bound on plan length.
    pub max_depth: usize,
    /// The labelled action library, in iteration order.
    pub actions: Vec<(String, Action)>,
}

impl View for Planner {
    type V = PlannerView;

    open spec fn view(&self) -> PlannerView {
        PlannerView {
            algorithm: self.algorithm,
            solution: self.solution,
            max_depth: self.max_depth as int,
            actions: acts_view(self.actions@),
        }
    }
}

impl Planner {
    /// A usable planner: the depth bound and every action of the library
    /// inside the representable range.
    pub open spec fn wf(&self) -> bool {
        &&& self.max_depth <= DEPTH_LIMIT
        &&& plan_acts_wf(self.actions@)
    }

    /// Construct a new planner instance.
    pub fn new(
        algorithm: Algorithm,
        solution: Solution,
        max_depth: usize,
        actions: Vec<(String, Action)>,
    ) -> (p: Planner)
        ensures
            p.algorithm == algorithm,
            p.solution == solution,
            p.max_depth == max_depth,
            p.actions@ == actions@,
            p@.actions == acts_view(actions@),
    {
        Planner { algorithm, solution, max_depth, actions }
    }

    /// Produce a plan for the model under the configured strategy. Under
    /// a "best" solution the result is exactly the ghost exhaustive
    /// search's answer; under a "fast" solution it is exactly the ghost
    /// frontier search's answer, a valid plan as `fast_plan_ok` states.
    pub fn plan(&self, model: &Model) -> (r: Plan)
        requires
            self.wf(),
            model.wf(),
            map_bounded(model@.state, START_VALUE_LIMIT as int),
        ensures
            self.solution == Solution::Best ==> r@ == best_plan_spec(
                self@.algorithm,
                self@.actions,
                model@.goals,
                model@.state,
                self@.max_depth as nat,
            ),
            self.solution == Solution::Fast ==> fast_plan_ok(
                model@.goals,
                model@.state,
                self@.max_depth,
                r@,
            ) && r@ == crate::fast::fast_search_spec(
                self@.algorithm,
                self@.actions,
                model@.goals,
                self@.max_depth as int,
                model@.state,
            ),
            forall|k: int|
                0 <= k < r@.actions.len() ==> self@.actions.contains(#[trigger] r@.actions[k]),
            plan_acts_wf(r.actions@),
    {
        match (self.algorithm, self.solution) {
            (Algorithm::Traditional, Solution::Fast) => self.fast_total_plan(model),
            (Algorithm::Efficient, Solution::Fast) => self.fast_efficiency_plan(model),
            (Algorithm::Hybrid, Solution::Fast) => self.fast_hybrid_plan(model),
            (alg, Solution::Best) => {
                let mut memo: Vec<(State, usize, Plan)> = Vec::new();
                proof {
                    assert(self.max_depth * DELTA_LIMIT <= DEPTH_LIMIT * DELTA_LIMIT);
                    assert(map_bounded(
                        model@.state,
                        VALUE_LIMIT - self.max_depth * DELTA_LIMIT,
                    ));
                }
                let r = self.best_plan_search(
                    alg,
                    &model.goals,
                    &model.state,
                    self.max_depth,
                    &mut memo,
                );
                proof {
                    crate::best::lemma_best_plan_from_library(
                        alg,
                        self@.actions,
                        model@.goals,
                        model@.state,
                        self.max_depth as nat,
                    );
                }
                r
            },
        }
    }

    /// Heuristic best-first plan focusing on lowering discontentment.
    pub fn fast_total_plan(&self, start_model: &Model) -> (r: Plan)
        requires
            self.wf(),
            start_model.wf(),
            map_bounded(start_model@.state, START_VALUE_LIMIT as int),
        ensures
            fast_plan_ok(start_model@.goals, start_model@.state, self@.max_depth, r@),
            r@ == crate::fast::fast_search_spec(
                Algorithm::Traditional,
                self@.actions,
                start_model@.goals,
                self@.max_depth as int,
                start_model@.state,
            ),
            forall|k: int|
                0 <= k < r@.actions.len() ==> self@.actions.contains(#[trigger] r@.actions[k]),
            plan_acts_wf(r.actions@),
    {
        self.fast_plan_search(Algorithm::Traditional, start_model)
    }

    /// Heuristic best-first plan optimizing efficiency: discontentment
    /// lowered per unit of time, accumulated as a reciprocal cost.
    pub fn fast_efficiency_plan(&self, start_model: &Model) -> (r: Plan)
        requires
            self.wf(),
            start_model.wf(),
            map_bounded(start_model@.state, START_VALUE_LIMIT as int),
        ensures
            fast_plan_ok(start_model@.goals, start_model@.state, self@.max_depth, r@),
            r@ == crate::fast::fast_search_spec(
                Algorithm::Efficient,
                self@.actions,
                start_model@.goals,
                self@.max_depth as int,
                start_model@.state,
            ),
            forall|k: int|
                0 <= k < r@.actions.len() ==> self@.actions.contains(#[trigger] r@.actions[k]),
            plan_acts_wf(r.actions@),
    {
        self.fast_plan_search(Algorithm::Efficient, start_model)
    }

    /// Heuristic best-first plan mixing raw discontentment and efficiency.
    pub fn fast_hybrid_plan(&self, start_model: &Model) -> (r: Plan)
        requires
            self.wf(),
            start_model.wf(),
            map_bounded(start_model@.state, START_VALUE_LIMIT as int),
        ensures
            fast_plan_ok(start_model@.goals, start_model@.state, self@.max_depth, r@),
            r@ == crate::fast::fast_search_spec(
                Algorithm::Hybrid,
                self@.actions,
                start_model@.goals,
                self@.max_depth as int,
                start_model@.state,
            ),
            forall|k: int|
                0 <= k < r@.actions.len() ==> self@.actions.contains(#[trigger] r@.actions[k]),
            plan_acts_wf(r.actions@),
    {
        self.fast_plan_search(Algorithm::Hybrid, start_model)
    }
}

} // verus!
