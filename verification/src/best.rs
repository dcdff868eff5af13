//! Exhaustive bounded-depth search with memoization: the "best" solution
//! mode of all three algorithms.
//!
//! The search is defined first as a ghost recursion (`best_plan_spec`):
//! at depth zero the result is the do-nothing plan; otherwise the actions
//! are folded over in library order, each applicable action is solved
//! recursively one level shallower, and the best candidate according to the
//! algorithm's comparison rule replaces the running best, with the
//! do-nothing score always the starting candidate. The executable engine
//! returns exactly that ghost value, using a memo table keyed by state and
//! remaining depth.

use vstd::prelude::*;

use crate::action::{action_applies, action_view_wf, apply_deltas, Action, ActionView};
use crate::goal::{goal_views_wf, goals_view, goals_wf, Goal, GoalView};
use crate::limits::{
    DELTA_LIMIT, DEPTH_LIMIT, DURATION_LIMIT, INFINITE_COST, MICRO_SQUARED, TIME_LIMIT,
    TOTAL_DISC_LIMIT, VALUE_LIMIT,
};
use crate::model::{acts_view, lemma_total_disc_in_range, total_disc};
use crate::planner::{Algorithm, Plan, PlanView, Planner};
use crate::search::{
    acts_view_wf, plan_acts_wf, ratio_floor, replay_ok, replay_state, replay_time,
};
use crate::state::State;
use crate::{lookup0, map_bounded};

verus! {

/// The running best candidate while folding over the action library.
/// `disc`, `time` and `plan` describe the best plan found so far; `has`
/// and the `eff` pair carry the efficiency comparison state; `metric`
/// carries the hybrid comparison state.
#[verifier::ext_equal]
pub struct BestAcc {
    pub has: bool,
    pub metric: int,
    pub eff_num: int,
    pub eff_den: int,
    pub disc: int,
    pub time: int,
    pub plan: Seq<(Seq<char>, ActionView)>,
}

/// The do-nothing candidate every fold starts from: the current
/// discontentment, no time spent, no actions. It enters the comparison
/// on equal terms: under the efficiency rule as a realized efficiency of
/// zero over zero time, under the hybrid rule as a metric of the current
/// discontentment, so a candidate with no benefit cannot displace it.
pub open spec fn best_init(cur: int) -> BestAcc {
    BestAcc {
        has: false,
        metric: cur,
        eff_num: 0,
        eff_den: 1,
        disc: cur,
        time: 0,
        plan: Seq::empty(),
    }
}

/// One fold step: weigh the candidate that takes action `a` (label
/// `label`) and then follows the recursively best continuation `sub`
/// against the running best, under the algorithm's comparison rule.
pub open spec fn best_step(
    alg: Algorithm,
    goals: Seq<GoalView>,
    cur: int,
    depth: nat,
    label: Seq<char>,
    a: ActionView,
    child: Map<Seq<char>, int>,
    sub: PlanView,
    acc: BestAcc,
) -> BestAcc {
    match alg {
        Algorithm::Traditional => {
            // Lower resulting discontentment wins, then strictly shorter time.
            if sub.disc < acc.disc || (sub.disc == acc.disc && sub.time + a.duration
                < acc.time) {
                BestAcc {
                    has: true,
                    metric: acc.metric,
                    eff_num: acc.eff_num,
                    eff_den: acc.eff_den,
                    disc: sub.disc,
                    time: sub.time + a.duration,
                    plan: seq![(label, a)] + sub.actions,
                }
            } else {
                acc
            }
        },
        Algorithm::Efficient => {
            // Higher realized efficiency (discontentment lowered per unit
            // time) wins, then strictly shorter time; compared exactly as
            // fractions.
            let delta = cur - sub.disc;
            let t = sub.time + a.duration;
            let t1 = if t < 1 {
                1
            } else {
                t
            };
            if delta * acc.eff_den > acc.eff_num * t1 || (delta * acc.eff_den
                == acc.eff_num * t1 && t < acc.time) {
                BestAcc {
                    has: true,
                    metric: acc.metric,
                    eff_num: delta,
                    eff_den: t1,
                    disc: sub.disc,
                    time: t,
                    plan: seq![(label, a)] + sub.actions,
                }
            } else {
                acc
            }
        },
        Algorithm::Hybrid => {
            // Deep enough and locally efficient enough: weigh the inverse
            // of the one-step efficiency; otherwise weigh the resulting
            // discontentment. Lower metric wins, then shorter time.
            let child_disc = total_disc(goals, child);
            let delta1 = cur - child_disc;
            let dur1 = if a.duration < 1 {
                1
            } else {
                a.duration
            };
            let use_eff = depth > 2 && delta1 > 100_000 * dur1;
            let metric = if use_eff {
                ratio_floor(MICRO_SQUARED as int * dur1, delta1 + dur1)
            } else {
                child_disc
            };
            if metric < acc.metric || (metric == acc.metric && sub.time + a.duration
                < acc.time) {
                BestAcc {
                    has: true,
                    metric,
                    eff_num: acc.eff_num,
                    eff_den: acc.eff_den,
                    disc: acc.disc,
                    time: sub.time + a.duration,
                    plan: seq![(label, a)] + sub.actions,
                }
            } else {
                acc
            }
        },
    }
}

/// Turn the final accumulator into the node's plan. Under the hybrid
/// rule, when some candidate won, the reported discontentment is
/// reconstructed algebraically from the winning metric (the current score
/// less the metric's reciprocal), not read off the final state.
pub open spec fn best_finish(alg: Algorithm, cur: int, acc: BestAcc) -> PlanView {
    match alg {
        Algorithm::Hybrid => PlanView {
            disc: if acc.has {
                cur - ratio_floor(MICRO_SQUARED as int, acc.metric)
            } else {
                cur
            },
            time: acc.time,
            actions: acc.plan,
        },
        _ => PlanView { disc: acc.disc, time: acc.time, actions: acc.plan },
    }
}

/// The best plan from state `s` with `depth` actions of budget, searching
/// the action library exhaustively under the algorithm's comparison rule.
pub open spec fn best_plan_spec(
    alg: Algorithm,
    acts: Seq<(Seq<char>, ActionView)>,
    goals: Seq<GoalView>,
    s: Map<Seq<char>, int>,
    depth: nat,
) -> PlanView
    decreases depth, 1int, 0int,
{
    let cur = total_disc(goals, s);
    if depth == 0 {
        PlanView { disc: cur, time: 0, actions: Seq::empty() }
    } else {
        best_finish(alg, cur, best_fold(alg, acts, goals, s, depth, 0, best_init(cur)))
    }
}

/// Fold the actions from index `i` on over the running best `acc`.
/// An action that does not apply contributes nothing.
pub open spec fn best_fold(
    alg: Algorithm,
    acts: Seq<(Seq<char>, ActionView)>,
    goals: Seq<GoalView>,
    s: Map<Seq<char>, int>,
    depth: nat,
    i: int,
    acc: BestAcc,
) -> BestAcc
    decreases depth, 0int, acts.len() - i,
{
    if depth == 0 || i < 0 || i >= acts.len() {
        acc
    } else {
        let label = acts[i].0;
        let a = acts[i].1;
        let acc2 = if action_applies(s, a.deltas) {
            let child = apply_deltas(s, a.deltas);
            let sub = best_plan_spec(alg, acts, goals, child, (depth - 1) as nat);
            best_step(alg, goals, total_disc(goals, s), depth, label, a, child, sub, acc)
        } else {
            acc
        };
        best_fold(alg, acts, goals, s, depth, i + 1, acc2)
    }
}

/// What holds of the running best throughout a fold at state `s`: it is a
/// valid plan whose bookkeeping is exact, and the algorithm's comparison
/// state is inside the representable range.
pub open spec fn best_acc_ok(
    alg: Algorithm,
    goals: Seq<GoalView>,
    s: Map<Seq<char>, int>,
    depth: nat,
    acc: BestAcc,
) -> bool {
    &&& acc.plan.len() <= depth
    &&& replay_ok(s, acc.plan)
    &&& acc.time == replay_time(acc.plan)
    &&& 0 <= acc.time <= depth * DURATION_LIMIT
    &&& (alg != Algorithm::Hybrid ==> {
        &&& acc.disc == total_disc(goals, replay_state(s, acc.plan))
        &&& 0 <= acc.disc <= TOTAL_DISC_LIMIT
    })
    &&& (alg == Algorithm::Efficient ==> {
        &&& -TOTAL_DISC_LIMIT <= acc.eff_num <= TOTAL_DISC_LIMIT
        &&& 1 <= acc.eff_den <= TIME_LIMIT
    })
    &&& (alg == Algorithm::Hybrid ==> 0 <= acc.metric <= TOTAL_DISC_LIMIT)
}

/// Every memo entry is exactly the ghost search's answer for its state
/// and remaining depth, with well-formed actions.
pub open spec fn memo_ok(
    m: Seq<(State, usize, Plan)>,
    alg: Algorithm,
    acts: Seq<(Seq<char>, ActionView)>,
    goals: Seq<GoalView>,
) -> bool {
    forall|j: int|
        0 <= j < m.len() ==> {
            &&& (#[trigger] m[j]).2@ == best_plan_spec(alg, acts, goals, m[j].0@, m[j].1 as nat)
            &&& plan_acts_wf(m[j].2.actions@)
        }
}

impl Planner {
    /// Exhaustive best plan from `state` with `depth` actions of budget,
    /// memoized by state and remaining depth: returns exactly the ghost
    /// search's answer.
    pub(crate) fn best_plan_search(
        &self,
        alg: Algorithm,
        goals: &Vec<Goal>,
        state: &State,
        depth: usize,
        memo: &mut Vec<(State, usize, Plan)>,
    ) -> (r: Plan)
        requires
            self.wf(),
            goals_wf(goals@),
            state.wf(),
            depth <= DEPTH_LIMIT,
            map_bounded(state@, VALUE_LIMIT - depth * DELTA_LIMIT),
            memo_ok(old(memo)@, alg, self@.actions, goals_view(goals@)),
        ensures
            memo_ok(final(memo)@, alg, self@.actions, goals_view(goals@)),
            old(memo)@.len() <= final(memo)@.len(),
            forall|j: int| 0 <= j < old(memo)@.len() ==> final(memo)@[j] == old(memo)@[j],
            exists|j: int|
                0 <= j < final(memo)@.len() && (#[trigger] final(memo)@[j]).0@ == state@
                    && final(memo)@[j].1 == depth,
            r@ == best_plan_spec(alg, self@.actions, goals_view(goals@), state@, depth as nat),
            plan_acts_wf(r.actions@),
        decreases depth,
    {
        let ghost acts = self@.actions;
        let ghost gv = goals_view(goals@);
        proof {
            crate::goal::lemma_goals_wf_views(goals@);
            crate::search::lemma_plan_acts_wf_views(self.actions@);
        }
        let mut mi: usize = 0;
        while mi < memo.len()
            invariant
                0 <= mi <= memo@.len(),
                acts == self@.actions,
                gv == goals_view(goals@),
                memo_ok(memo@, alg, acts, gv),
            decreases memo@.len() - mi,
        {
            let hit: bool = memo[mi].1 == depth && memo[mi].0 == *state;
            if hit {
                let res = memo[mi].2.clone();
                proof {
                    assert(memo@[mi as int].0@ == state@ && memo@[mi as int].1 == depth);
                    assert(res@ == best_plan_spec(alg, acts, gv, state@, depth as nat));
                }
                return res;
            }
            mi = mi + 1;
        }
        proof {
            assert(map_bounded(state@, VALUE_LIMIT as int));
        }
        let cur = crate::model::discontentment_of(goals, state);
        if depth == 0 {
            let res = Plan {
                total_discontentment: cur,
                total_time: 0,
                actions: Vec::new(),
            };
            proof {
                assert(acts_view(res.actions@) =~= Seq::<(Seq<char>, ActionView)>::empty());
                assert(res@ =~= best_plan_spec(alg, acts, gv, state@, depth as nat));
            }
            let keep = res.clone();
            memo.push((state.clone(), depth, keep));
            proof {
                assert(memo@[memo@.len() - 1].0@ == state@ && memo@[memo@.len() - 1].1
                    == depth);
            }
            return res;
        }
        let ghost depth_n = depth as nat;
        let ghost init = best_init(cur as int);
        let mut has: bool = false;
        let mut best_metric: i128 = cur;
        let mut eff_num: i128 = 0;
        let mut eff_den: i64 = 1;
        let mut best_disc: i128 = cur;
        let mut best_time: i64 = 0;
        let mut best_actions: Vec<(String, Action)> = Vec::new();
        proof {
            assert(acts_view(best_actions@) =~= Seq::<(Seq<char>, ActionView)>::empty());
            assert(BestAcc {
                has,
                metric: best_metric as int,
                eff_num: eff_num as int,
                eff_den: eff_den as int,
                disc: best_disc as int,
                time: best_time as int,
                plan: acts_view(best_actions@),
            } =~= init);
            assert(replay_time(init.plan) == 0);
            assert(replay_state(state@, init.plan) == state@);
            assert(best_acc_ok(alg, gv, state@, depth_n, init));
        }
        let mut i: usize = 0;
        while i < self.actions.len()
            invariant
                0 <= i <= self.actions@.len(),
                self.wf(),
                goals_wf(goals@),
                state.wf(),
                1 <= depth <= DEPTH_LIMIT,
                depth_n == depth as nat,
                map_bounded(state@, VALUE_LIMIT - depth * DELTA_LIMIT),
                acts == self@.actions,
                gv == goals_view(goals@),
                goal_views_wf(gv),
                acts_view_wf(acts),
                init == best_init(cur as int),
                cur as int == total_disc(gv, state@),
                0 <= cur <= TOTAL_DISC_LIMIT,
                memo_ok(memo@, alg, acts, gv),
                old(memo)@.len() <= memo@.len(),
                forall|j: int| 0 <= j < old(memo)@.len() ==> memo@[j] == old(memo)@[j],
                plan_acts_wf(best_actions@),
                best_acc_ok(
                    alg,
                    gv,
                    state@,
                    depth_n,
                    BestAcc {
                        has,
                        metric: best_metric as int,
                        eff_num: eff_num as int,
                        eff_den: eff_den as int,
                        disc: best_disc as int,
                        time: best_time as int,
                        plan: acts_view(best_actions@),
                    },
                ),
                best_fold(
                    alg,
                    acts,
                    gv,
                    state@,
                    depth_n,
                    i as int,
                    BestAcc {
                        has,
                        metric: best_metric as int,
                        eff_num: eff_num as int,
                        eff_den: eff_den as int,
                        disc: best_disc as int,
                        time: best_time as int,
                        plan: acts_view(best_actions@),
                    },
                ) == best_fold(alg, acts, gv, state@, depth_n, 0, init),
            decreases self.actions@.len() - i,
        {
            let ghost acc_before = BestAcc {
                has,
                metric: best_metric as int,
                eff_num: eff_num as int,
                eff_den: eff_den as int,
                disc: best_disc as int,
                time: best_time as int,
                plan: acts_view(best_actions@),
            };
            let pair = &self.actions[i];
            proof {
                assert(pair.1.wf());
                assert(acts[i as int] == (pair.0@, pair.1@));
                crate::action::lemma_action_wf_view(self.actions@[i as int].1);
            }
            let ghost label = pair.0@;
            let ghost av = pair.1@;
            match state.apply(&pair.1) {
                Some(child) => {
                    proof {
                        crate::search::lemma_apply_preserves_bound(
                            state@,
                            av.deltas,
                            VALUE_LIMIT - depth * DELTA_LIMIT,
                        );
                        assert(map_bounded(child@, VALUE_LIMIT - (depth - 1) * DELTA_LIMIT));
                    }
                    let sub = self.best_plan_search(alg, goals, &child, depth - 1, memo);
                    let ghost subv = sub@;
                    let ghost sub_acts = sub.actions@;
                    proof {
                        lemma_best_props(alg, acts, gv, child@, (depth - 1) as nat);
                        assert(map_bounded(child@, VALUE_LIMIT as int));
                        lemma_total_disc_in_range(gv, child@);
                        assert(subv.time <= (depth - 1) * DURATION_LIMIT);
                        assert(depth * DURATION_LIMIT <= TIME_LIMIT);
                    }
                    let dur = pair.1.duration;
                    let cand_time: i64 = sub.total_time + dur;
                    let ghost stepped = best_step(
                        alg,
                        gv,
                        cur as int,
                        depth_n,
                        label,
                        av,
                        child@,
                        subv,
                        acc_before,
                    );
                    proof {
                        lemma_best_step_ok(
                            alg,
                            gv,
                            state@,
                            depth_n,
                            label,
                            av,
                            child@,
                            subv,
                            acc_before,
                        );
                    }
                    match alg {
                        Algorithm::Traditional => {
                            if sub.total_discontentment < best_disc || (sub.total_discontentment
                                == best_disc && cand_time < best_time) {
                                best_disc = sub.total_discontentment;
                                best_time = cand_time;
                                let mut na = sub.actions;
                                na.insert(0, (pair.0.clone(), pair.1.clone()));
                                best_actions = na;
                                has = true;
                                proof {
                                    assert(acts_view(best_actions@) =~= seq![(label, av)]
                                        + acts_view(sub_acts));
                                }
                            }
                        },
                        Algorithm::Efficient => {
                            let delta: i128 = cur - sub.total_discontentment;
                            let t1: i64 = if cand_time < 1 {
                                1
                            } else {
                                cand_time
                            };
                            proof {
                                assert(-120_000_000_000_000_000_000_000_000_000
                                    <= delta * (eff_den as int)
                                    <= 120_000_000_000_000_000_000_000_000_000)
                                    by (nonlinear_arith)
                                    requires
                                        -1_200_000_000_000_000_000_000 <= delta
                                            <= 1_200_000_000_000_000_000_000,
                                        1 <= eff_den <= 100_000_000,
                                {}
                                assert(-120_000_000_000_000_000_000_000_000_000
                                    <= eff_num * (t1 as int)
                                    <= 120_000_000_000_000_000_000_000_000_000)
                                    by (nonlinear_arith)
                                    requires
                                        -1_200_000_000_000_000_000_000 <= eff_num
                                            <= 1_200_000_000_000_000_000_000,
                                        1 <= t1 <= 100_000_000,
                                {}
                            }
                            let lhs: i128 = delta * (eff_den as i128);
                            let rhs: i128 = eff_num * (t1 as i128);
                            if lhs > rhs || (lhs == rhs && cand_time < best_time) {
                                eff_num = delta;
                                eff_den = t1;
                                best_disc = sub.total_discontentment;
                                best_time = cand_time;
                                let mut na = sub.actions;
                                na.insert(0, (pair.0.clone(), pair.1.clone()));
                                best_actions = na;
                                has = true;
                                proof {
                                    assert(acts_view(best_actions@) =~= seq![(label, av)]
                                        + acts_view(sub_acts));
                                }
                            }
                        },
                        Algorithm::Hybrid => {
                            let child_disc = crate::model::discontentment_of(goals, &child);
                            let delta1: i128 = cur - child_disc;
                            let dur1: i64 = if dur < 1 {
                                1
                            } else {
                                dur
                            };
                            let use_eff: bool = depth > 2 && delta1 > 100_000i128 * (
                            dur1 as i128);
                            let metric: i128 = if use_eff {
                                crate::search::ratio_floor_exec(
                                    MICRO_SQUARED * (dur1 as i128),
                                    delta1 + (dur1 as i128),
                                )
                            } else {
                                child_disc
                            };
                            if metric < best_metric || (metric == best_metric && cand_time
                                < best_time) {
                                best_metric = metric;
                                best_time = cand_time;
                                let mut na = sub.actions;
                                na.insert(0, (pair.0.clone(), pair.1.clone()));
                                best_actions = na;
                                has = true;
                                proof {
                                    assert(acts_view(best_actions@) =~= seq![(label, av)]
                                        + acts_view(sub_acts));
                                }
                            }
                        },
                    }
                    proof {
                        assert(BestAcc {
                            has,
                            metric: best_metric as int,
                            eff_num: eff_num as int,
                            eff_den: eff_den as int,
                            disc: best_disc as int,
                            time: best_time as int,
                            plan: acts_view(best_actions@),
                        } =~= stepped);
                        assert(best_fold(alg, acts, gv, state@, depth_n, i as int, acc_before)
                            == best_fold(alg, acts, gv, state@, depth_n, i as int + 1, stepped));
                    }
                },
                None => {
                    proof {
                        assert(best_fold(alg, acts, gv, state@, depth_n, i as int, acc_before)
                            == best_fold(
                            alg,
                            acts,
                            gv,
                            state@,
                            depth_n,
                            i as int + 1,
                            acc_before,
                        ));
                    }
                },
            }
            i = i + 1;
        }
        let ghost acc_final = BestAcc {
            has,
            metric: best_metric as int,
            eff_num: eff_num as int,
            eff_den: eff_den as int,
            disc: best_disc as int,
            time: best_time as int,
            plan: acts_view(best_actions@),
        };
        proof {
            assert(best_fold(alg, acts, gv, state@, depth_n, acts.len() as int, acc_final)
                == acc_final);
            assert(acc_final == best_fold(alg, acts, gv, state@, depth_n, 0, init));
        }
        let final_disc: i128 = match alg {
            Algorithm::Hybrid => {
                if has {
                    let recip = crate::search::ratio_floor_exec(MICRO_SQUARED, best_metric);
                    cur - recip
                } else {
                    cur
                }
            },
            _ => best_disc,
        };
        let res = Plan {
            total_discontentment: final_disc,
            total_time: best_time,
            actions: best_actions,
        };
        proof {
            assert(res@ =~= best_finish(alg, cur as int, acc_final));
            assert(res@ == best_plan_spec(alg, acts, gv, state@, depth_n));
        }
        let keep = res.clone();
        memo.push((state.clone(), depth, keep));
        proof {
            assert(memo@[memo@.len() - 1].0@ == state@ && memo@[memo@.len() - 1].1 == depth);
        }
        res
    }
}

/// A fold whose running best is drawn from the library keeps that: a
/// winning candidate prepends the current library entry to a recursively
/// library-drawn continuation.
proof fn lemma_best_fold_from_library(
    alg: Algorithm,
    acts: Seq<(Seq<char>, ActionView)>,
    goals: Seq<GoalView>,
    s: Map<Seq<char>, int>,
    depth: nat,
    i: int,
    acc: BestAcc,
)
    requires
        1 <= depth,
        forall|k: int| 0 <= k < acc.plan.len() ==> acts.contains(#[trigger] acc.plan[k]),
    ensures
        ({
            let r = best_fold(alg, acts, goals, s, depth, i, acc);
            forall|k: int| 0 <= k < r.plan.len() ==> acts.contains(#[trigger] r.plan[k])
        }),
    decreases depth, 0int, acts.len() - i,
{
    if i < 0 || i >= acts.len() {
    } else {
        let label = acts[i].0;
        let a = acts[i].1;
        let acc2 = if action_applies(s, a.deltas) {
            let child = apply_deltas(s, a.deltas);
            lemma_best_plan_from_library(alg, acts, goals, child, (depth - 1) as nat);
            let sub = best_plan_spec(alg, acts, goals, child, (depth - 1) as nat);
            let stepped = best_step(alg, goals, total_disc(goals, s), depth, label, a, child, sub, acc);
            assert forall|k: int| 0 <= k < stepped.plan.len() implies acts.contains(
                #[trigger] stepped.plan[k],
            ) by {
                if stepped != acc {
                    assert(stepped.plan == seq![(label, a)] + sub.actions);
                    if k == 0 {
                        assert(stepped.plan[0] == acts[i]);
                    } else {
                        assert(stepped.plan[k] == sub.actions[k - 1]);
                    }
                }
            }
            stepped
        } else {
            acc
        };
        assert(best_fold(alg, acts, goals, s, depth, i, acc) == best_fold(
            alg,
            acts,
            goals,
            s,
            depth,
            i + 1,
            acc2,
        ));
        lemma_best_fold_from_library(alg, acts, goals, s, depth, i + 1, acc2);
    }
}

/// Law (plans come from the library): every labelled action of an
/// exhaustive search's plan is an entry of the action library.
pub proof fn lemma_best_plan_from_library(
    alg: Algorithm,
    acts: Seq<(Seq<char>, ActionView)>,
    goals: Seq<GoalView>,
    s: Map<Seq<char>, int>,
    depth: nat,
)
    ensures
        ({
            let r = best_plan_spec(alg, acts, goals, s, depth);
            forall|k: int| 0 <= k < r.actions.len() ==> acts.contains(#[trigger] r.actions[k])
        }),
    decreases depth, 1int, 0int,
{
    if depth == 0 {
    } else {
        let cur = total_disc(goals, s);
        lemma_best_fold_from_library(alg, acts, goals, s, depth, 0, best_init(cur));
        let fr = best_fold(alg, acts, goals, s, depth, 0, best_init(cur));
        let r = best_plan_spec(alg, acts, goals, s, depth);
        assert(r.actions == fr.plan);
        assert forall|k: int| 0 <= k < r.actions.len() implies acts.contains(
            #[trigger] r.actions[k],
        ) by {
            assert(acts.contains(fr.plan[k]));
        }
    }
}

/// Under the efficiency rule the fold only ever accepts a candidate of
/// non-negative realized efficiency, so the running best never scores
/// worse than the node's own discontentment.
proof fn lemma_eff_fold_le(
    acts: Seq<(Seq<char>, ActionView)>,
    goals: Seq<GoalView>,
    s: Map<Seq<char>, int>,
    depth: nat,
    i: int,
    acc: BestAcc,
)
    requires
        1 <= depth,
        acc.eff_num >= 0,
        acc.eff_den >= 1,
        acc.disc <= total_disc(goals, s),
    ensures
        ({
            let r = best_fold(Algorithm::Efficient, acts, goals, s, depth, i, acc);
            r.eff_num >= 0 && r.eff_den >= 1 && r.disc <= total_disc(goals, s)
        }),
    decreases acts.len() - i,
{
    if i < 0 || i >= acts.len() {
    } else {
        let a = acts[i].1;
        let cur = total_disc(goals, s);
        let acc2 = if action_applies(s, a.deltas) {
            let child = apply_deltas(s, a.deltas);
            let sub = best_plan_spec(Algorithm::Efficient, acts, goals, child, (depth
                - 1) as nat);
            let stepped = best_step(
                Algorithm::Efficient,
                goals,
                cur,
                depth,
                acts[i].0,
                a,
                child,
                sub,
                acc,
            );
            if stepped != acc {
                let delta = cur - sub.disc;
                let t = sub.time + a.duration;
                let t1 = if t < 1 {
                    1int
                } else {
                    t
                };
                assert(delta >= 0) by (nonlinear_arith)
                    requires
                        delta * acc.eff_den > acc.eff_num * t1 || delta * acc.eff_den
                            == acc.eff_num * t1,
                        acc.eff_num >= 0,
                        acc.eff_den >= 1,
                        t1 >= 1,
                {}
            }
            stepped
        } else {
            acc
        };
        lemma_eff_fold_le(acts, goals, s, depth, i + 1, acc2);
    }
}

/// Law (do-nothing baseline, efficiency rule): with the do-nothing plan
/// as the starting candidate, a candidate can win only with non-negative
/// realized efficiency, so the efficiency search never returns a plan
/// whose discontentment is worse than the start state's own.
pub proof fn lemma_best_efficient_no_worse(
    acts: Seq<(Seq<char>, ActionView)>,
    goals: Seq<GoalView>,
    s: Map<Seq<char>, int>,
    depth: nat,
)
    ensures
        best_plan_spec(Algorithm::Efficient, acts, goals, s, depth).disc <= total_disc(
            goals,
            s,
        ),
{
    if depth == 0 {
    } else {
        let cur = total_disc(goals, s);
        lemma_eff_fold_le(acts, goals, s, depth, 0, best_init(cur));
    }
}

/// With no goals every state scores zero, so no candidate strictly beats
/// the do-nothing baseline and the fold keeps it.
proof fn lemma_best_empty_fold(
    alg: Algorithm,
    acts: Seq<(Seq<char>, ActionView)>,
    goals: Seq<GoalView>,
    s: Map<Seq<char>, int>,
    depth: nat,
    i: int,
)
    requires
        goals.len() == 0,
        forall|k: int| 0 <= k < acts.len() ==> (#[trigger] acts[k]).1.duration >= 0,
        1 <= depth,
    ensures
        best_fold(alg, acts, goals, s, depth, i, best_init(0)) == best_init(0),
    decreases depth, 0int, acts.len() - i,
{
    if i < 0 || i >= acts.len() {
    } else {
        let a = acts[i].1;
        if action_applies(s, a.deltas) {
            let child = apply_deltas(s, a.deltas);
            lemma_best_empty_goals(alg, acts, goals, child, (depth - 1) as nat);
            let sub = best_plan_spec(alg, acts, goals, child, (depth - 1) as nat);
            assert(best_step(alg, goals, 0, depth, acts[i].0, a, child, sub, best_init(0))
                == best_init(0));
        }
        lemma_best_empty_fold(alg, acts, goals, s, depth, i + 1);
    }
}

/// Law (empty goal set): with no goals the discontentment is identically
/// zero, so under every comparison rule the exhaustive search returns the
/// empty plan: no actions, zero discontentment, zero time.
pub proof fn lemma_best_empty_goals(
    alg: Algorithm,
    acts: Seq<(Seq<char>, ActionView)>,
    goals: Seq<GoalView>,
    s: Map<Seq<char>, int>,
    depth: nat,
)
    requires
        goals.len() == 0,
        forall|k: int| 0 <= k < acts.len() ==> (#[trigger] acts[k]).1.duration >= 0,
    ensures
        best_plan_spec(alg, acts, goals, s, depth) == (PlanView {
            disc: 0,
            time: 0,
            actions: Seq::<(Seq<char>, ActionView)>::empty(),
        }),
    decreases depth, 1int, 0int,
{
    assert(total_disc(goals, s) == 0);
    if depth == 0 {
        assert(best_plan_spec(alg, acts, goals, s, depth) =~= PlanView {
            disc: 0,
            time: 0,
            actions: Seq::<(Seq<char>, ActionView)>::empty(),
        });
    } else {
        lemma_best_empty_fold(alg, acts, goals, s, depth, 0);
        assert(best_finish(alg, 0, best_init(0)) =~= PlanView {
            disc: 0,
            time: 0,
            actions: Seq::<(Seq<char>, ActionView)>::empty(),
        });
    }
}

/// Under the traditional rule, the fold never worsens the discontentment
/// of the running best.
proof fn lemma_trad_fold_le(
    acts: Seq<(Seq<char>, ActionView)>,
    goals: Seq<GoalView>,
    s: Map<Seq<char>, int>,
    depth: nat,
    i: int,
    acc: BestAcc,
)
    ensures
        best_fold(Algorithm::Traditional, acts, goals, s, depth, i, acc).disc <= acc.disc,
    decreases acts.len() - i,
{
    if depth == 0 || i < 0 || i >= acts.len() {
    } else {
        let a = acts[i].1;
        let acc2 = if action_applies(s, a.deltas) {
            let child = apply_deltas(s, a.deltas);
            let sub = best_plan_spec(Algorithm::Traditional, acts, goals, child, (depth
                - 1) as nat);
            best_step(
                Algorithm::Traditional,
                goals,
                total_disc(goals, s),
                depth,
                acts[i].0,
                a,
                child,
                sub,
                acc,
            )
        } else {
            acc
        };
        assert(acc2.disc <= acc.disc);
        lemma_trad_fold_le(acts, goals, s, depth, i + 1, acc2);
    }
}

/// Law (do-nothing baseline): under the traditional rule, the best search
/// never returns a plan whose discontentment is worse than the start
/// state's own, because doing nothing is always an available candidate.
pub proof fn lemma_best_traditional_no_worse(
    acts: Seq<(Seq<char>, ActionView)>,
    goals: Seq<GoalView>,
    s: Map<Seq<char>, int>,
    depth: nat,
)
    ensures
        best_plan_spec(Algorithm::Traditional, acts, goals, s, depth).disc <= total_disc(
            goals,
            s,
        ),
{
    let cur = total_disc(goals, s);
    if depth == 0 {
    } else {
        lemma_trad_fold_le(acts, goals, s, depth, 0, best_init(cur));
    }
}

/// Under the traditional rule, the fold's result is the running best or
/// one of the applicable actions' recursive answers, and it is no worse
/// than any of them.
proof fn lemma_trad_fold_char(
    acts: Seq<(Seq<char>, ActionView)>,
    goals: Seq<GoalView>,
    s: Map<Seq<char>, int>,
    depth: nat,
    i: int,
    acc: BestAcc,
)
    requires
        1 <= depth,
        0 <= i,
    ensures
        ({
            let r = best_fold(Algorithm::Traditional, acts, goals, s, depth, i, acc);
            &&& r.disc <= acc.disc
            &&& forall|j: int|
                i <= j < acts.len() && action_applies(s, (#[trigger] acts[j]).1.deltas)
                    ==> r.disc <= best_plan_spec(
                    Algorithm::Traditional,
                    acts,
                    goals,
                    apply_deltas(s, acts[j].1.deltas),
                    (depth - 1) as nat,
                ).disc
            &&& (r.disc == acc.disc || exists|j: int|
                i <= j < acts.len() && action_applies(s, (#[trigger] acts[j]).1.deltas)
                    && r.disc == best_plan_spec(
                    Algorithm::Traditional,
                    acts,
                    goals,
                    apply_deltas(s, acts[j].1.deltas),
                    (depth - 1) as nat,
                ).disc)
        }),
    decreases acts.len() - i,
{
    let r = best_fold(Algorithm::Traditional, acts, goals, s, depth, i, acc);
    if i >= acts.len() {
    } else {
        let a = acts[i].1;
        let applicable = action_applies(s, a.deltas);
        let acc2 = if applicable {
            let child = apply_deltas(s, a.deltas);
            let sub = best_plan_spec(Algorithm::Traditional, acts, goals, child, (depth
                - 1) as nat);
            best_step(
                Algorithm::Traditional,
                goals,
                total_disc(goals, s),
                depth,
                acts[i].0,
                a,
                child,
                sub,
                acc,
            )
        } else {
            acc
        };
        lemma_trad_fold_char(acts, goals, s, depth, i + 1, acc2);
        if applicable {
            let sub = best_plan_spec(
                Algorithm::Traditional,
                acts,
                goals,
                apply_deltas(s, a.deltas),
                (depth - 1) as nat,
            );
            assert(acc2.disc <= acc.disc && acc2.disc <= sub.disc);
            if r.disc == acc2.disc && acc2.disc != acc.disc {
                assert(acc2.disc == sub.disc);
                assert(i <= i < acts.len() && action_applies(s, acts[i].1.deltas)
                    && r.disc == sub.disc);
            }
        }
    }
}

/// Under the traditional rule, one more level of budget never makes the
/// best achievable discontentment worse.
proof fn lemma_trad_depth_step(
    acts: Seq<(Seq<char>, ActionView)>,
    goals: Seq<GoalView>,
    depth: nat,
)
    ensures
        forall|s: Map<Seq<char>, int>|
            best_plan_spec(Algorithm::Traditional, acts, goals, s, (depth + 1) as nat).disc
                <= (#[trigger] best_plan_spec(Algorithm::Traditional, acts, goals, s, depth)).disc,
    decreases depth,
{
    assert forall|s: Map<Seq<char>, int>|
        best_plan_spec(Algorithm::Traditional, acts, goals, s, (depth + 1) as nat).disc <= (
        #[trigger] best_plan_spec(Algorithm::Traditional, acts, goals, s, depth)).disc by {
        let cur = total_disc(goals, s);
        if depth == 0 {
            lemma_best_traditional_no_worse(acts, goals, s, 1);
        } else {
            lemma_trad_depth_step(acts, goals, (depth - 1) as nat);
            let init = best_init(cur);
            lemma_trad_fold_char(acts, goals, s, (depth + 1) as nat, 0, init);
            lemma_trad_fold_char(acts, goals, s, depth, 0, init);
            let r1 = best_fold(Algorithm::Traditional, acts, goals, s, (depth + 1) as nat, 0, init);
            let r0 = best_fold(Algorithm::Traditional, acts, goals, s, depth, 0, init);
            if r0.disc == init.disc {
                assert(r1.disc <= r0.disc);
            } else {
                let j = choose|j: int|
                    0 <= j < acts.len() && action_applies(s, (#[trigger] acts[j]).1.deltas)
                        && r0.disc == best_plan_spec(
                        Algorithm::Traditional,
                        acts,
                        goals,
                        apply_deltas(s, acts[j].1.deltas),
                        (depth - 1) as nat,
                    ).disc;
                let child = apply_deltas(s, acts[j].1.deltas);
                assert(r1.disc <= best_plan_spec(
                    Algorithm::Traditional,
                    acts,
                    goals,
                    child,
                    depth,
                ).disc);
                assert(best_plan_spec(Algorithm::Traditional, acts, goals, child, depth).disc
                    <= best_plan_spec(
                    Algorithm::Traditional,
                    acts,
                    goals,
                    child,
                    (depth - 1) as nat,
                ).disc);
            }
        }
    }
}

/// Law (more budget cannot hurt): under the traditional rule, raising the
/// depth bound never makes the best achievable discontentment worse,
/// because every shorter plan stays reachable.
pub proof fn lemma_best_traditional_depth_monotone(
    acts: Seq<(Seq<char>, ActionView)>,
    goals: Seq<GoalView>,
    s: Map<Seq<char>, int>,
    d1: nat,
    d2: nat,
)
    requires
        d1 <= d2,
    ensures
        best_plan_spec(Algorithm::Traditional, acts, goals, s, d2).disc <= best_plan_spec(
            Algorithm::Traditional,
            acts,
            goals,
            s,
            d1,
        ).disc,
    decreases d2 - d1,
{
    if d1 < d2 {
        lemma_trad_depth_step(acts, goals, (d2 - 1) as nat);
        lemma_best_traditional_depth_monotone(acts, goals, s, d1, (d2 - 1) as nat);
    }
}

/// The search's result is a valid plan: it replays from `s`, its time is
/// the summed durations, its length is within the depth budget, and (but
/// for the hybrid reconstruction) its discontentment is exactly that of
/// the state it leads to.
pub proof fn lemma_best_props(
    alg: Algorithm,
    acts: Seq<(Seq<char>, ActionView)>,
    goals: Seq<GoalView>,
    s: Map<Seq<char>, int>,
    depth: nat,
)
    requires
        acts_view_wf(acts),
        goal_views_wf(goals),
        depth <= DEPTH_LIMIT,
        map_bounded(s, VALUE_LIMIT - depth * DELTA_LIMIT),
    ensures
        ({
            let r = best_plan_spec(alg, acts, goals, s, depth);
            &&& r.actions.len() <= depth
            &&& replay_ok(s, r.actions)
            &&& r.time == replay_time(r.actions)
            &&& 0 <= r.time <= depth * DURATION_LIMIT
            &&& (alg != Algorithm::Hybrid ==> r.disc == total_disc(
                goals,
                replay_state(s, r.actions),
            ) && 0 <= r.disc <= TOTAL_DISC_LIMIT)
            &&& (alg == Algorithm::Hybrid ==> -INFINITE_COST <= r.disc <= TOTAL_DISC_LIMIT)
        }),
    decreases depth, 1int, 0int,
{
    let cur = total_disc(goals, s);
    assert(map_bounded(s, VALUE_LIMIT as int));
    lemma_total_disc_in_range(goals, s);
    if depth == 0 {
    } else {
        let init = best_init(cur);
        assert(replay_ok(s, init.plan));
        assert(replay_time(init.plan) == 0);
        assert(replay_state(s, init.plan) == s);
        assert(best_acc_ok(alg, goals, s, depth, init));
        lemma_best_fold_props(alg, acts, goals, s, depth, 0, best_init(cur));
        let acc = best_fold(alg, acts, goals, s, depth, 0, best_init(cur));
        let r = best_finish(alg, cur, acc);
        if alg == Algorithm::Hybrid {
            if acc.has {
                if acc.metric == 0 {
                } else {
                    assert(0 <= ratio_floor(MICRO_SQUARED as int, acc.metric)
                        <= MICRO_SQUARED);
                }
            }
        }
    }
}

/// The fold keeps `best_acc_ok`.
pub proof fn lemma_best_fold_props(
    alg: Algorithm,
    acts: Seq<(Seq<char>, ActionView)>,
    goals: Seq<GoalView>,
    s: Map<Seq<char>, int>,
    depth: nat,
    i: int,
    acc: BestAcc,
)
    requires
        acts_view_wf(acts),
        goal_views_wf(goals),
        1 <= depth <= DEPTH_LIMIT,
        map_bounded(s, VALUE_LIMIT - depth * DELTA_LIMIT),
        best_acc_ok(alg, goals, s, depth, acc),
    ensures
        best_acc_ok(alg, goals, s, depth, best_fold(alg, acts, goals, s, depth, i, acc)),
    decreases depth, 0int, acts.len() - i,
{
    if i < 0 || i >= acts.len() {
    } else {
        let label = acts[i].0;
        let a = acts[i].1;
        let cur = total_disc(goals, s);
        assert(map_bounded(s, VALUE_LIMIT as int));
        lemma_total_disc_in_range(goals, s);
        assert(action_view_wf(a));
        let acc2 = if action_applies(s, a.deltas) {
            let child = apply_deltas(s, a.deltas);
            crate::search::lemma_apply_preserves_bound(
                s,
                a.deltas,
                VALUE_LIMIT - depth * DELTA_LIMIT,
            );
            assert(map_bounded(child, VALUE_LIMIT - (depth - 1) * DELTA_LIMIT));
            lemma_best_props(alg, acts, goals, child, (depth - 1) as nat);
            assert(map_bounded(child, VALUE_LIMIT as int));
            lemma_total_disc_in_range(goals, child);
            let sub = best_plan_spec(alg, acts, goals, child, (depth - 1) as nat);
            let stepped = best_step(alg, goals, cur, depth, label, a, child, sub, acc);
            if stepped != acc {
                crate::search::lemma_replay_cons(s, (label, a), sub.actions);
            }
            assert(best_acc_ok(alg, goals, s, depth, stepped)) by {
                lemma_best_step_ok(alg, goals, s, depth, label, a, child, sub, acc);
            }
            stepped
        } else {
            acc
        };
        lemma_best_fold_props(alg, acts, goals, s, depth, i + 1, acc2);
    }
}

/// One step of the fold keeps `best_acc_ok`, for an applicable action and
/// a recursively valid continuation.
proof fn lemma_best_step_ok(
    alg: Algorithm,
    goals: Seq<GoalView>,
    s: Map<Seq<char>, int>,
    depth: nat,
    label: Seq<char>,
    a: ActionView,
    child: Map<Seq<char>, int>,
    sub: PlanView,
    acc: BestAcc,
)
    requires
        1 <= depth <= DEPTH_LIMIT,
        action_applies(s, a.deltas),
        child == apply_deltas(s, a.deltas),
        0 <= a.duration <= DURATION_LIMIT,
        best_acc_ok(alg, goals, s, depth, acc),
        sub.actions.len() <= depth - 1,
        replay_ok(child, sub.actions),
        sub.time == replay_time(sub.actions),
        0 <= sub.time <= (depth - 1) * DURATION_LIMIT,
        alg != Algorithm::Hybrid ==> sub.disc == total_disc(
            goals,
            replay_state(child, sub.actions),
        ) && 0 <= sub.disc <= TOTAL_DISC_LIMIT,
        0 <= total_disc(goals, s) <= TOTAL_DISC_LIMIT,
        0 <= total_disc(goals, child) <= TOTAL_DISC_LIMIT,
    ensures
        best_acc_ok(
            alg,
            goals,
            s,
            depth,
            best_step(alg, goals, total_disc(goals, s), depth, label, a, child, sub, acc),
        ),
{
    let cur = total_disc(goals, s);
    let stepped = best_step(alg, goals, cur, depth, label, a, child, sub, acc);
    if stepped != acc {
        crate::search::lemma_replay_cons(s, (label, a), sub.actions);
        assert(stepped.plan == seq![(label, a)] + sub.actions);
        assert(replay_ok(s, stepped.plan));
        assert(stepped.time == a.duration + sub.time);
        assert(stepped.time <= depth * DURATION_LIMIT) by (nonlinear_arith)
            requires
                stepped.time == a.duration + sub.time,
                a.duration <= DURATION_LIMIT,
                sub.time <= (depth - 1) * DURATION_LIMIT,
                depth >= 1,
        {}
        match alg {
            Algorithm::Traditional => {},
            Algorithm::Efficient => {
                let t = sub.time + a.duration;
                assert(stepped.eff_den == if t < 1 {
                    1int
                } else {
                    t
                });
            },
            Algorithm::Hybrid => {
                let child_disc = total_disc(goals, child);
                let delta1 = cur - child_disc;
                let dur1 = if a.duration < 1 {
                    1int
                } else {
                    a.duration
                };
                let use_eff = depth > 2 && delta1 > 100_000 * dur1;
                if use_eff {
                    assert(delta1 + dur1 > 0);
                    assert(0 <= ratio_floor(MICRO_SQUARED as int * dur1, delta1 + dur1)
                        <= MICRO_SQUARED as int * dur1);
                    assert(MICRO_SQUARED as int * dur1 <= MICRO_SQUARED as int
                        * DURATION_LIMIT) by (nonlinear_arith)
                        requires
                            1 <= dur1 <= DURATION_LIMIT,
                    {}
                }
            },
        }
    }
}

} // verus!
