//! The model: a state, the active goals, and the history that led here.

use vstd::prelude::*;

use crate::action::{action_applies, apply_deltas, Action, ActionView};
use crate::goal::{goal_disc, goals_view, goals_wf, Goal, GoalView};
use crate::limits::{GOAL_DISC_LIMIT, TOTAL_DISC_LIMIT, VALUE_LIMIT};
use crate::state::State;
use crate::{lookup0, map_bounded};

verus! {

/// Ghost image of a model.
#[verifier::ext_equal]
pub struct ModelView {
    pub time: int,
    pub state: Map<Seq<char>, int>,
    pub goals: Seq<GoalView>,
    pub applied: Seq<(Seq<char>, ActionView)>,
}

/// The view of a history or plan: each entry a label and an action.
pub open spec fn acts_view(v: Seq<(String, Action)>) -> Seq<(Seq<char>, ActionView)> {
    v.map_values(|p: (String, Action)| (p.0@, p.1@))
}

/// A state paired with the active goal set and the actions applied to reach
/// it. Models are immutable: applying an action yields a fresh model, so
/// sibling search branches never observe each other's changes.
pub struct Model {
    /// Total time spent: the sum of the applied actions' durations.
    pub time: i64,
    /// The current world state.
    pub state: State,
    /// The active goals.
    pub goals: Vec<Goal>,
    /// The actions applied so far, oldest first.
    pub action_history: Vec<(String, Action)>,
}

impl View for Model {
    type V = ModelView;

    open spec fn view(&self) -> ModelView {
        ModelView {
            time: self.time as int,
            state: self.state@,
            goals: goals_view(self.goals@),
            applied: acts_view(self.action_history@),
        }
    }
}

/// The sum of every goal's discontentment against the state, in millionths.
pub open spec fn total_disc(goals: Seq<GoalView>, s: Map<Seq<char>, int>) -> int
    decreases goals.len(),
{
    if goals.len() == 0 {
        0
    } else {
        total_disc(goals.drop_last(), s) + goal_disc(
            goals.last(),
            lookup0(s, goals.last().property),
        )
    }
}

/// Against a reachable state, the total discontentment of a well-formed
/// goal set is non-negative and inside the representable range.
pub proof fn lemma_total_disc_bounds(goals: Seq<GoalView>, s: Map<Seq<char>, int>)
    requires
        forall|i: int| 0 <= i < goals.len() ==> crate::goal::goal_view_wf(#[trigger] goals[i]),
        map_bounded(s, VALUE_LIMIT as int),
    ensures
        0 <= total_disc(goals, s) <= goals.len() * GOAL_DISC_LIMIT,
    decreases goals.len(),
{
    if goals.len() > 0 {
        lemma_total_disc_bounds(goals.drop_last(), s);
        let v = lookup0(s, goals.last().property);
        assert(-VALUE_LIMIT <= v <= VALUE_LIMIT);
        crate::goal::lemma_goal_disc_bounds(goals.last(), v);
        assert((goals.len() - 1) * GOAL_DISC_LIMIT + GOAL_DISC_LIMIT == goals.len()
            * GOAL_DISC_LIMIT) by (nonlinear_arith);
    }
}

/// Law (aggregate satisfaction): against goals with positive scale and
/// weight, the total discontentment is zero exactly when every goal's
/// condition already holds in the state.
pub proof fn lemma_total_disc_zero_iff_all_satisfied(goals: Seq<GoalView>, s: Map<Seq<char>, int>)
    requires
        forall|i: int|
            0 <= i < goals.len() ==> (#[trigger] goals[i]).scale > 0 && goals[i].weight > 0,
    ensures
        total_disc(goals, s) == 0 <==> forall|i: int|
            0 <= i < goals.len() ==> crate::goal::goal_satisfied(
                (#[trigger] goals[i]).kind,
                goals[i].target,
                lookup0(s, goals[i].property),
            ),
    decreases goals.len(),
{
    if goals.len() > 0 {
        lemma_total_disc_zero_iff_all_satisfied(goals.drop_last(), s);
        let last = goals.last();
        let v = lookup0(s, last.property);
        crate::goal::lemma_goal_disc_zero_iff_satisfied(last, v);
        crate::goal::lemma_goal_disc_nonneg(last, v);
        assert forall|i: int| 0 <= i < goals.drop_last().len() implies goal_disc(
            #[trigger] goals.drop_last()[i],
            lookup0(s, goals.drop_last()[i].property),
        ) >= 0 by {
            crate::goal::lemma_goal_disc_nonneg(
                goals.drop_last()[i],
                lookup0(s, goals.drop_last()[i].property),
            );
        }
        lemma_total_disc_nonneg(goals.drop_last(), s);
        assert(forall|i: int|
            0 <= i < goals.drop_last().len() ==> goals.drop_last()[i] == goals[i]);
    }
}

/// The total discontentment of goals that each score non-negatively is
/// non-negative.
pub proof fn lemma_total_disc_nonneg(goals: Seq<GoalView>, s: Map<Seq<char>, int>)
    requires
        forall|i: int|
            0 <= i < goals.len() ==> goal_disc(
                #[trigger] goals[i],
                lookup0(s, goals[i].property),
            ) >= 0,
    ensures
        total_disc(goals, s) >= 0,
    decreases goals.len(),
{
    if goals.len() > 0 {
        assert(forall|i: int|
            0 <= i < goals.drop_last().len() ==> goals.drop_last()[i] == goals[i]);
        lemma_total_disc_nonneg(goals.drop_last(), s);
    }
}

/// Against a reachable state, the total discontentment of a well-formed
/// goal set lies between zero and the representable limit.
pub proof fn lemma_total_disc_in_range(goals: Seq<GoalView>, s: Map<Seq<char>, int>)
    requires
        crate::goal::goal_views_wf(goals),
        map_bounded(s, VALUE_LIMIT as int),
    ensures
        0 <= total_disc(goals, s) <= TOTAL_DISC_LIMIT,
{
    lemma_total_disc_bounds(goals, s);
    assert(goals.len() * GOAL_DISC_LIMIT <= TOTAL_DISC_LIMIT) by (nonlinear_arith)
        requires
            0 <= goals.len() <= 1000,
            GOAL_DISC_LIMIT == 1_200_000_000_000_000_000i128,
            TOTAL_DISC_LIMIT == 1_200_000_000_000_000_000_000i128,
    {}
}

/// The total discontentment of the goals of `goals` against `state`,
/// computed exactly in millionths.
pub(crate) fn discontentment_of(goals: &Vec<Goal>, state: &State) -> (r: i128)
    requires
        goals_wf(goals@),
        map_bounded(state@, VALUE_LIMIT as int),
    ensures
        r == total_disc(goals_view(goals@), state@),
        0 <= r <= TOTAL_DISC_LIMIT,
{
    let ghost gv = goals_view(goals@);
    let mut acc: i128 = 0;
    let mut i: usize = 0;
    while i < goals.len()
        invariant
            0 <= i <= goals@.len(),
            goals_wf(goals@),
            map_bounded(state@, VALUE_LIMIT as int),
            gv == goals_view(goals@),
            acc == total_disc(gv.take(i as int), state@),
            0 <= acc <= i as int * GOAL_DISC_LIMIT,
        decreases goals@.len() - i,
    {
        let goal = &goals[i];
        let value: i64 = match state.get(goal.property.as_str()) {
            Some(v) => v,
            None => 0,
        };
        proof {
            assert(value as int == lookup0(state@, goal.property@));
        }
        let d = goal.discontentment(value);
        proof {
            assert(gv.take(i as int + 1).drop_last() =~= gv.take(i as int));
            assert(gv.take(i as int + 1).last() == goals@[i as int]@);
            assert((i as int) * GOAL_DISC_LIMIT + GOAL_DISC_LIMIT == (i as int + 1)
                * GOAL_DISC_LIMIT) by (nonlinear_arith);
            assert((i as int + 1) * GOAL_DISC_LIMIT <= 1000 * GOAL_DISC_LIMIT) by (nonlinear_arith)
                requires
                    i as int + 1 <= 1000,
            {}
        }
        acc = acc + d;
        i = i + 1;
    }
    proof {
        assert(gv.take(goals@.len() as int) =~= gv);
        assert(goals@.len() as int * GOAL_DISC_LIMIT <= TOTAL_DISC_LIMIT) by (nonlinear_arith)
            requires
                0 <= goals@.len() <= 1000,
        {}
    }
    acc
}

impl Model {
    /// Everything the search needs of a model: a well-formed state and
    /// well-formed goals.
    pub open spec fn wf(&self) -> bool {
        &&& self.state.wf()
        &&& goals_wf(self.goals@)
    }

    /// Create a new model with the given state and goals: no time spent,
    /// nothing applied yet.
    pub fn new(state: State, goals: Vec<Goal>) -> (m: Model)
        ensures
            m@.time == 0,
            m@.state == state@,
            m@.goals == goals_view(goals@),
            m@.applied == Seq::<(Seq<char>, ActionView)>::empty(),
            state.wf() && goals_wf(goals@) ==> m.wf(),
    {
        let m = Model { time: 0, state, goals, action_history: Vec::new() };
        proof {
            assert(m@.applied =~= Seq::<(Seq<char>, ActionView)>::empty());
        }
        m
    }

    /// Apply an action: on success the state moves by the action's deltas,
    /// the time grows by its duration and the history is extended by the
    /// labelled action; an action that would drive a property negative
    /// yields nothing.
    pub fn apply(&self, label: String, action: &Action) -> (r: Option<Model>)
        requires
            self.state.wf(),
            action.wf(),
            self.time + action.duration <= i64::MAX,
        ensures
            match r {
                Some(m2) => {
                    &&& action_applies(self@.state, action@.deltas)
                    &&& m2@.state == apply_deltas(self@.state, action@.deltas)
                    &&& m2@.time == self@.time + action@.duration
                    &&& m2@.goals == self@.goals
                    &&& m2@.applied == self@.applied.push((label@, action@))
                    &&& m2.state.wf()
                    &&& m2.goals@ == self.goals@
                },
                None => !action_applies(self@.state, action@.deltas),
            },
    {
        match self.state.apply(action) {
            Some(next_state) => {
                let mut updated_history = clone_labelled_actions(&self.action_history);
                updated_history.push((label, action.clone()));
                let m2 = Model {
                    time: self.time + action.duration,
                    state: next_state,
                    goals: self.goals.clone(),
                    action_history: updated_history,
                };
                proof {
                    assert(m2.goals@ =~= self.goals@) by {
                        assert(forall|i: int|
                            0 <= i < self.goals@.len() ==> vstd::pervasive::cloned::<Goal>(
                                self.goals@[i],
                                #[trigger] m2.goals@[i],
                            ));
                        assert forall|i: int| 0 <= i < self.goals@.len() implies m2.goals@[i]
                            == self.goals@[i] by {
                            let a = self.goals@[i];
                            let b = m2.goals@[i];
                            if vstd::pervasive::strictly_cloned::<Goal>(a, b) {
                                assert(b == a);
                            }
                        }
                    }
                    assert(m2@.goals == self@.goals);
                    assert(m2@.applied =~= self@.applied.push((label@, action@)));
                }
                Some(m2)
            },
            None => None,
        }
    }

    /// The sum of every goal's discontentment against the current state,
    /// in millionths of a unit; zero exactly when every goal is satisfied.
    pub fn calculate_discontentment(&self) -> (r: i128)
        requires
            self.wf(),
            map_bounded(self@.state, VALUE_LIMIT as int),
        ensures
            r == total_disc(self@.goals, self@.state),
            0 <= r <= TOTAL_DISC_LIMIT,
    {
        discontentment_of(&self.goals, &self.state)
    }
}

/// An exact copy of a labelled action list, entry by entry.
pub(crate) fn clone_labelled_actions(v: &Vec<(String, Action)>) -> (r: Vec<(String, Action)>)
    ensures
        r@.len() == v@.len(),
        forall|i: int|
            0 <= i < v@.len() ==> (#[trigger] r@[i]).0@ == v@[i].0@ && r@[i].1@ == v@[i].1@
                && r@[i].1.wf() == v@[i].1.wf(),
        acts_view(r@) == acts_view(v@),
{
    let mut r: Vec<(String, Action)> = Vec::new();
    let mut i: usize = 0;
    while i < v.len()
        invariant
            0 <= i <= v@.len(),
            r@.len() == i as int,
            forall|j: int|
                0 <= j < i as int ==> (#[trigger] r@[j]).0@ == v@[j].0@ && r@[j].1@ == v@[j].1@
                    && r@[j].1.wf() == v@[j].1.wf(),
        decreases v@.len() - i,
    {
        let pair = &v[i];
        r.push((pair.0.clone(), pair.1.clone()));
        i = i + 1;
    }
    proof {
        assert(acts_view(r@) =~= acts_view(v@));
    }
    r
}

} // verus!
