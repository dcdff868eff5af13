//! Goals: weighted scoring of how far a state is from a desired condition.

use vstd::prelude::*;

use crate::limits::{GOAL_DISC_LIMIT, SCALE_LIMIT, TARGET_LIMIT, VALUE_LIMIT, WEIGHT_LIMIT};

verus! {

/// The direction a goal pulls its property in.
#[derive(Clone, Copy, Debug, PartialEq, Eq, Structural)]
pub enum DiscontentmentKind {
    /// Satisfied when the property is at or above the target.
    GreaterThanOrEqualTo,
    /// Satisfied when the property is at or below the target.
    LessThanOrEqualTo,
    /// Satisfied when the property equals the target.
    EqualTo,
}

/// Ghost image of a goal.
#[verifier::ext_equal]
pub struct GoalView {
    pub property: Seq<char>,
    pub target: int,
    pub scale: int,
    pub weight: int,
    pub kind: DiscontentmentKind,
}

/// A single weighted goal over one property. `scale` and `weight` are given
/// in thousandths, so one unit of violation of a goal with `scale_milli ==
/// 1000` and `weight_milli == 1000` scores one million millionths: exactly
/// one whole unit of discontentment.
pub struct Goal {
    /// The property the goal watches.
    pub property: String,
    /// The value the property is pulled toward.
    pub target: i64,
    /// Discontentment per unit of violation, in thousandths.
    pub scale_milli: i64,
    /// Overall weighting of the goal, in thousandths.
    pub weight_milli: i64,
    /// The direction of the pull.
    pub kind: DiscontentmentKind,
}

impl View for Goal {
    type V = GoalView;

    open spec fn view(&self) -> GoalView {
        GoalView {
            property: self.property@,
            target: self.target as int,
            scale: self.scale_milli as int,
            weight: self.weight_milli as int,
            kind: self.kind,
        }
    }
}

/// A goal inside the representable range.
pub open spec fn goal_view_wf(g: GoalView) -> bool {
    &&& 0 <= g.scale <= SCALE_LIMIT
    &&& 0 <= g.weight <= WEIGHT_LIMIT
    &&& -TARGET_LIMIT <= g.target <= TARGET_LIMIT
}

/// How far the value violates the goal's condition; zero when satisfied.
pub open spec fn goal_delta(kind: DiscontentmentKind, target: int, value: int) -> int {
    match kind {
        DiscontentmentKind::GreaterThanOrEqualTo => if target - value > 0 {
            target - value
        } else {
            0
        },
        DiscontentmentKind::LessThanOrEqualTo => if value - target > 0 {
            value - target
        } else {
            0
        },
        DiscontentmentKind::EqualTo => if target - value >= 0 {
            target - value
        } else {
            value - target
        },
    }
}

/// Does the value already satisfy the goal's condition?
pub open spec fn goal_satisfied(kind: DiscontentmentKind, target: int, value: int) -> bool {
    match kind {
        DiscontentmentKind::GreaterThanOrEqualTo => value >= target,
        DiscontentmentKind::LessThanOrEqualTo => value <= target,
        DiscontentmentKind::EqualTo => value == target,
    }
}

/// The goal's discontentment against a property value, in millionths:
/// `scale * weight * violation`.
pub open spec fn goal_disc(g: GoalView, value: int) -> int {
    g.scale * g.weight * goal_delta(g.kind, g.target, value)
}

/// A goal's discontentment against a reachable value is non-negative and
/// inside the representable range.
pub proof fn lemma_goal_disc_bounds(g: GoalView, value: int)
    requires
        goal_view_wf(g),
        -VALUE_LIMIT <= value <= VALUE_LIMIT,
    ensures
        0 <= goal_disc(g, value) <= GOAL_DISC_LIMIT,
{
    let d = goal_delta(g.kind, g.target, value);
    assert(0 <= d <= 120_000_000);
    assert(0 <= g.scale * g.weight * d <= 1_200_000_000_000_000_000) by (nonlinear_arith)
        requires
            0 <= g.scale <= 100_000,
            0 <= g.weight <= 100_000,
            0 <= d <= 120_000_000,
    {}
}

impl Goal {
    /// A well-formed goal: scale, weight and target inside the
    /// representable range.
    pub open spec fn wf(&self) -> bool {
        goal_view_wf(self@)
    }

    /// The discontentment this goal contributes when its property reads
    /// `current_value`, in millionths of a unit.
    pub fn discontentment(&self, current_value: i64) -> (r: i128)
        requires
            self.wf(),
            -VALUE_LIMIT <= current_value <= VALUE_LIMIT,
        ensures
            r == goal_disc(self@, current_value as int),
            0 <= r <= GOAL_DISC_LIMIT,
    {
        let d: i64 = match self.kind {
            DiscontentmentKind::GreaterThanOrEqualTo => {
                let d = self.target - current_value;
                if d > 0 {
                    d
                } else {
                    0
                }
            },
            DiscontentmentKind::LessThanOrEqualTo => {
                let d = current_value - self.target;
                if d > 0 {
                    d
                } else {
                    0
                }
            },
            DiscontentmentKind::EqualTo => {
                let d = self.target - current_value;
                if d >= 0 {
                    d
                } else {
                    -d
                }
            },
        };
        proof {
            lemma_goal_disc_bounds(self@, current_value as int);
            assert(0 <= (self.scale_milli as int) * (self.weight_milli as int)
                <= 10_000_000_000) by (nonlinear_arith)
                requires
                    0 <= self.scale_milli <= 100_000,
                    0 <= self.weight_milli <= 100_000,
            {}
        }
        let r: i128 = (self.scale_milli as i128) * (self.weight_milli as i128);
        proof {
            assert(0 <= (r as int) * (d as int) <= 1_200_000_000_000_000_000) by (nonlinear_arith)
                requires
                    0 <= r <= 10_000_000_000,
                    0 <= d <= 120_000_000,
            {}
        }
        let out: i128 = r * (d as i128);
        proof {
            assert(out == goal_disc(self@, current_value as int)) by (nonlinear_arith)
                requires
                    out == (self@.scale * self@.weight) * goal_delta(
                        self@.kind,
                        self@.target,
                        current_value as int,
                    ),
                    goal_disc(self@, current_value as int) == self@.scale * self@.weight
                        * goal_delta(self@.kind, self@.target, current_value as int),
            {}
        }
        out
    }
}

impl Clone for Goal {
    /// An exact copy of the goal.
    fn clone(&self) -> (res: Self)
        ensures
            res == self,
    {
        Goal {
            property: self.property.clone(),
            target: self.target,
            scale_milli: self.scale_milli,
            weight_milli: self.weight_milli,
            kind: self.kind,
        }
    }
}

/// A goal with non-negative scale and weight never scores negatively.
pub proof fn lemma_goal_disc_nonneg(g: GoalView, value: int)
    requires
        g.scale >= 0,
        g.weight >= 0,
    ensures
        goal_disc(g, value) >= 0,
{
    let d = goal_delta(g.kind, g.target, value);
    assert(g.scale * g.weight * d >= 0) by (nonlinear_arith)
        requires
            g.scale >= 0,
            g.weight >= 0,
            d >= 0,
    {}
}

/// A goal with positive scale and weight scores zero exactly on states that
/// already satisfy its condition.
pub proof fn lemma_goal_disc_zero_iff_satisfied(g: GoalView, value: int)
    requires
        g.scale > 0,
        g.weight > 0,
    ensures
        goal_disc(g, value) == 0 <==> goal_satisfied(g.kind, g.target, value),
{
    let d = goal_delta(g.kind, g.target, value);
    assert(d == 0 <==> goal_satisfied(g.kind, g.target, value));
    assert(g.scale * g.weight * d == 0 <==> d == 0) by (nonlinear_arith)
        requires
            g.scale > 0,
            g.weight > 0,
            d >= 0,
    {}
}

/// A goal's discontentment never decreases as the magnitude of violation
/// grows.
pub proof fn lemma_goal_disc_monotone(g: GoalView, v1: int, v2: int)
    requires
        g.scale >= 0,
        g.weight >= 0,
        goal_delta(g.kind, g.target, v1) <= goal_delta(g.kind, g.target, v2),
    ensures
        goal_disc(g, v1) <= goal_disc(g, v2),
{
    let d1 = goal_delta(g.kind, g.target, v1);
    let d2 = goal_delta(g.kind, g.target, v2);
    assert(g.scale * g.weight * d1 <= g.scale * g.weight * d2) by (nonlinear_arith)
        requires
            g.scale >= 0,
            g.weight >= 0,
            d1 <= d2,
    {}
}

/// The view of a sequence of goals.
pub open spec fn goals_view(goals: Seq<Goal>) -> Seq<GoalView> {
    goals.map_values(|g: Goal| g@)
}

/// Every goal of the sequence is well formed, and there are not too many.
pub open spec fn goals_wf(goals: Seq<Goal>) -> bool {
    &&& goals.len() <= crate::limits::GOAL_COUNT_LIMIT
    &&& forall|i: int| 0 <= i < goals.len() ==> (#[trigger] goals[i]).wf()
}

/// The ghost-level counterpart of `goals_wf`.
pub open spec fn goal_views_wf(goals: Seq<GoalView>) -> bool {
    &&& goals.len() <= crate::limits::GOAL_COUNT_LIMIT
    &&& forall|i: int| 0 <= i < goals.len() ==> goal_view_wf(#[trigger] goals[i])
}

/// A well-formed goal list has a well-formed ghost image.
pub proof fn lemma_goals_wf_views(goals: Seq<Goal>)
    requires
        goals_wf(goals),
    ensures
        goal_views_wf(goals_view(goals)),
{
    assert forall|i: int| 0 <= i < goals_view(goals).len() implies goal_view_wf(
        #[trigger] goals_view(goals)[i],
    ) by {
        assert(goals[i].wf());
    }
}

} // verus!
