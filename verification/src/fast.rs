//! Heuristic best-first search: the "fast" solution mode of all three
//! algorithms.
//!
//! An explicit frontier is kept ordered by ascending estimated total cost
//! (accumulated cost plus the node's own discontentment as the heuristic),
//! with a visited table for dominance pruning: a state already reached at
//! an equal or better accumulated cost is not expanded again. The first
//! node taken out whose discontentment is zero, or whose path has used up
//! the whole depth budget, is the answer; an emptied frontier falls back
//! to the do-nothing plan. An explicit work budget bounds the loop; when
//! it runs out the search also falls back to the do-nothing plan.
//!
//! The search is mirrored step for step by a ghost loop (`fast_run`), so
//! the executable engine's answer is pinned exactly: it returns
//! `fast_search_spec` of its inputs. On top of that, `fast_plan_ok`
//! states the bookkeeping directly: the returned actions replay validly
//! from the start state, the time and discontentment are exactly those of
//! the state the replay leads to, the length respects the depth bound,
//! and a non-empty answer is a terminal node.

use vstd::prelude::*;

use crate::action::{action_applies, apply_deltas, Action, ActionView};
use crate::goal::{goal_views_wf, goals_view, goals_wf, Goal, GoalView};
use crate::limits::{
    DELTA_LIMIT, DEPTH_LIMIT, DURATION_LIMIT, INFINITE_COST, MICRO_SQUARED, SEARCH_BUDGET,
    START_VALUE_LIMIT, TOTAL_DISC_LIMIT, VALUE_LIMIT,
};
use crate::model::{
    acts_view, clone_labelled_actions, discontentment_of, lemma_total_disc_in_range, total_disc,
    Model,
};
use crate::planner::{Algorithm, Plan, Planner};
use crate::search::{
    lemma_apply_preserves_bound, lemma_replay_snoc, plan_acts_wf, ratio_floor_exec, replay_ok,
    replay_state, replay_time,
};
use crate::state::State;
use crate::map_bounded;

verus! {

/// A frontier entry: the accumulated cost, the estimated total cost used
/// for ordering, and the node's path from the start.
struct AStarNode {
    /// The cost accumulated along the path (the g-cost).
    cost: i128,
    /// The estimated total cost (f = g + h) the frontier is ordered by.
    estimated: i128,
    /// Time spent along the path.
    time: i64,
    /// The state the path leads to.
    state: State,
    /// The labelled actions taken to reach this state.
    plan: Vec<(String, Action)>,
}

/// What holds of every node in the frontier: its path validly replays
/// from the start state to its own state, the bookkeeping is exact, and
/// the accumulated cost is inside the representable range.
spec fn node_ok(
    s0: Map<Seq<char>, int>,
    acts: Seq<(Seq<char>, ActionView)>,
    max_depth: int,
    n: AStarNode,
) -> bool {
    &&& n.state.wf()
    &&& plan_acts_wf(n.plan@)
    &&& replay_ok(s0, acts_view(n.plan@))
    &&& forall|k: int|
        0 <= k < acts_view(n.plan@).len() ==> acts.contains(#[trigger] acts_view(n.plan@)[k])
    &&& n.state@ == replay_state(s0, acts_view(n.plan@))
    &&& n.time as int == replay_time(acts_view(n.plan@))
    &&& n.plan@.len() <= max_depth
    &&& map_bounded(n.state@, START_VALUE_LIMIT + n.plan@.len() * DELTA_LIMIT)
    &&& 0 <= n.time <= n.plan@.len() * DURATION_LIMIT
    &&& -((1 + n.plan@.len()) * INFINITE_COST) <= n.cost <= (1 + n.plan@.len())
        * INFINITE_COST
}

/// Ghost image of a frontier entry.
#[verifier::ext_equal]
pub struct NodeView {
    pub cost: int,
    pub est: int,
    pub time: int,
    pub state: Map<Seq<char>, int>,
    pub plan: Seq<(Seq<char>, ActionView)>,
}

/// The ghost image of a frontier node.
spec fn node_view(n: AStarNode) -> NodeView {
    NodeView {
        cost: n.cost as int,
        est: n.estimated as int,
        time: n.time as int,
        state: n.state@,
        plan: acts_view(n.plan@),
    }
}

/// The ghost image of the whole frontier.
spec fn node_views(f: Seq<AStarNode>) -> Seq<NodeView> {
    f.map_values(|n: AStarNode| node_view(n))
}

/// The ghost image of the visited table.
spec fn visited_views(v: Seq<(State, i128)>) -> Seq<(Map<Seq<char>, int>, int)> {
    v.map_values(|p: (State, i128)| (p.0@, p.1 as int))
}

/// The index of the first entry with the least estimated total cost,
/// scanning from `j` with `bi` the best index so far.
pub open spec fn min_est_from(f: Seq<NodeView>, j: int, bi: int) -> int
    decreases f.len() - j,
{
    if j < 0 || j >= f.len() {
        bi
    } else {
        min_est_from(
            f,
            j + 1,
            if f[j].est < f[bi].est {
                j
            } else {
                bi
            },
        )
    }
}

/// The cost recorded for a state in the visited table: the first entry
/// for it wins.
pub open spec fn visited_cost(
    v: Seq<(Map<Seq<char>, int>, int)>,
    s: Map<Seq<char>, int>,
) -> Option<int>
    decreases v.len(),
{
    if v.len() == 0 {
        Option::None
    } else if v[0].0 == s {
        Option::Some(v[0].1)
    } else {
        visited_cost(v.drop_first(), s)
    }
}

/// Record a cost for a state: replace the first entry for it, or append
/// a new one.
pub open spec fn visited_record(
    v: Seq<(Map<Seq<char>, int>, int)>,
    s: Map<Seq<char>, int>,
    c: int,
) -> Seq<(Map<Seq<char>, int>, int)>
    decreases v.len(),
{
    if v.len() == 0 {
        seq![(s, c)]
    } else if v[0].0 == s {
        v.update(0, (s, c))
    } else {
        seq![v[0]] + visited_record(v.drop_first(), s, c)
    }
}

/// A state not in the table has no recorded cost.
proof fn lemma_visited_cost_absent(v: Seq<(Map<Seq<char>, int>, int)>, s: Map<Seq<char>, int>)
    requires
        forall|l: int| 0 <= l < v.len() ==> (#[trigger] v[l]).0 != s,
    ensures
        visited_cost(v, s) is None,
    decreases v.len(),
{
    if v.len() > 0 {
        assert(forall|l: int|
            0 <= l < v.drop_first().len() ==> v.drop_first()[l] == v[l + 1]);
        lemma_visited_cost_absent(v.drop_first(), s);
    }
}

/// The first entry for a state is the one read.
proof fn lemma_visited_cost_first(
    v: Seq<(Map<Seq<char>, int>, int)>,
    s: Map<Seq<char>, int>,
    i: int,
)
    requires
        0 <= i < v.len(),
        v[i].0 == s,
        forall|l: int| 0 <= l < i ==> (#[trigger] v[l]).0 != s,
    ensures
        visited_cost(v, s) == Option::Some(v[i].1),
    decreases i,
{
    if i > 0 {
        assert(forall|l: int|
            0 <= l < v.drop_first().len() ==> v.drop_first()[l] == v[l + 1]);
        lemma_visited_cost_first(v.drop_first(), s, i - 1);
    }
}

/// Recording over the first entry for a state updates it in place.
proof fn lemma_visited_record_first(
    v: Seq<(Map<Seq<char>, int>, int)>,
    s: Map<Seq<char>, int>,
    c: int,
    i: int,
)
    requires
        0 <= i < v.len(),
        v[i].0 == s,
        forall|l: int| 0 <= l < i ==> (#[trigger] v[l]).0 != s,
    ensures
        visited_record(v, s, c) == v.update(i, (s, c)),
    decreases i,
{
    if i == 0 {
    } else {
        assert(forall|l: int|
            0 <= l < v.drop_first().len() ==> v.drop_first()[l] == v[l + 1]);
        lemma_visited_record_first(v.drop_first(), s, c, i - 1);
        assert(seq![v[0]] + v.drop_first().update(i - 1, (s, c)) =~= v.update(i, (s, c)));
    }
}

/// Recording a state not yet in the table appends it.
proof fn lemma_visited_record_absent(
    v: Seq<(Map<Seq<char>, int>, int)>,
    s: Map<Seq<char>, int>,
    c: int,
)
    requires
        forall|l: int| 0 <= l < v.len() ==> (#[trigger] v[l]).0 != s,
    ensures
        visited_record(v, s, c) == v.push((s, c)),
    decreases v.len(),
{
    if v.len() == 0 {
        assert(visited_record(v, s, c) =~= v.push((s, c)));
    } else {
        assert(forall|l: int|
            0 <= l < v.drop_first().len() ==> v.drop_first()[l] == v[l + 1]);
        lemma_visited_record_absent(v.drop_first(), s, c);
        assert(seq![v[0]] + v.drop_first().push((s, c)) =~= v.push((s, c)));
    }
}

/// The list of child nodes one expansion pushes, in library order: for
/// every applicable action, the successor with its accumulated cost and
/// estimate, kept only where the child state is new or strictly cheaper
/// than its recorded cost.
pub open spec fn expand_spec(
    alg: Algorithm,
    acts: Seq<(Seq<char>, ActionView)>,
    goals: Seq<GoalView>,
    node: NodeView,
    node_disc: int,
    visited: Seq<(Map<Seq<char>, int>, int)>,
    ai: int,
) -> Seq<NodeView>
    decreases acts.len() - ai,
{
    if ai < 0 || ai >= acts.len() {
        Seq::empty()
    } else {
        let rest = expand_spec(alg, acts, goals, node, node_disc, visited, ai + 1);
        let label = acts[ai].0;
        let a = acts[ai].1;
        if action_applies(node.state, a.deltas) {
            let child = apply_deltas(node.state, a.deltas);
            let child_disc = total_disc(goals, child);
            let dur1 = if a.duration < 1 {
                1int
            } else {
                a.duration
            };
            let term = match alg {
                Algorithm::Traditional => child_disc,
                Algorithm::Efficient => crate::search::ratio_floor(
                    MICRO_SQUARED as int * dur1,
                    (node_disc - child_disc) + dur1,
                ),
                Algorithm::Hybrid => {
                    if node.plan.len() > 2 && node_disc - child_disc > 100_000 * dur1 {
                        crate::search::ratio_floor(
                            MICRO_SQUARED as int * dur1,
                            (node_disc - child_disc) + dur1,
                        )
                    } else {
                        child_disc
                    }
                },
            };
            let g2 = node.cost + term;
            let push = match visited_cost(visited, child) {
                Option::None => true,
                Option::Some(c) => g2 < c,
            };
            if push {
                seq![
                    NodeView {
                        cost: g2,
                        est: g2 + child_disc,
                        time: node.time + a.duration,
                        state: child,
                        plan: node.plan.push((label, a)),
                    },
                ] + rest
            } else {
                rest
            }
        } else {
            rest
        }
    }
}

/// The frontier loop, step by step: take out the entry with the least
/// estimated cost (earliest such entry wins), drop it if its state was
/// already reached at an equal or better cost, answer with it if it is
/// terminal, and otherwise record it and push its children. An emptied
/// frontier — or an exhausted work budget — answers with the fallback.
pub open spec fn fast_run(
    alg: Algorithm,
    acts: Seq<(Seq<char>, ActionView)>,
    goals: Seq<GoalView>,
    max_depth: int,
    fallback: crate::planner::PlanView,
    frontier: Seq<NodeView>,
    visited: Seq<(Map<Seq<char>, int>, int)>,
    fuel: nat,
) -> crate::planner::PlanView
    decreases fuel,
{
    if frontier.len() == 0 || fuel == 0 {
        fallback
    } else {
        let bi = min_est_from(frontier, 1, 0);
        let node = frontier[bi];
        let rest = frontier.remove(bi);
        let dominated = match visited_cost(visited, node.state) {
            Option::None => false,
            Option::Some(c) => node.cost > c,
        };
        if dominated {
            fast_run(alg, acts, goals, max_depth, fallback, rest, visited, (fuel - 1) as nat)
        } else {
            let node_disc = total_disc(goals, node.state);
            if node_disc == 0 || node.plan.len() >= max_depth {
                crate::planner::PlanView { disc: node_disc, time: node.time, actions: node.plan }
            } else {
                let visited2 = visited_record(visited, node.state, node.cost);
                let frontier2 = rest + expand_spec(
                    alg,
                    acts,
                    goals,
                    node,
                    node_disc,
                    visited2,
                    0,
                );
                fast_run(
                    alg,
                    acts,
                    goals,
                    max_depth,
                    fallback,
                    frontier2,
                    visited2,
                    (fuel - 1) as nat,
                )
            }
        }
    }
}

/// The whole heuristic search: a satisfied start or a zero depth bound
/// answers at once with the do-nothing plan; otherwise the frontier loop
/// runs from a single start node, under the fixed work budget.
pub open spec fn fast_search_spec(
    alg: Algorithm,
    acts: Seq<(Seq<char>, ActionView)>,
    goals: Seq<GoalView>,
    max_depth: int,
    s0: Map<Seq<char>, int>,
) -> crate::planner::PlanView {
    let d0 = total_disc(goals, s0);
    let trivial = crate::planner::PlanView { disc: d0, time: 0, actions: Seq::empty() };
    if d0 == 0 || max_depth == 0 {
        trivial
    } else {
        let start = NodeView {
            cost: match alg {
                Algorithm::Traditional => d0,
                _ => 0,
            },
            est: match alg {
                Algorithm::Traditional => d0 + d0,
                _ => d0,
            },
            time: 0,
            state: s0,
            plan: Seq::empty(),
        };
        fast_run(
            alg,
            acts,
            goals,
            max_depth,
            trivial,
            seq![start],
            Seq::empty(),
            SEARCH_BUDGET as nat,
        )
    }
}

/// Law (empty goal set): with no goals the start already scores zero, so
/// the heuristic search returns the empty plan at once, whatever the
/// algorithm, state or depth bound.
pub proof fn lemma_fast_empty_goals(
    alg: Algorithm,
    acts: Seq<(Seq<char>, ActionView)>,
    goals: Seq<GoalView>,
    max_depth: int,
    s0: Map<Seq<char>, int>,
)
    requires
        goals.len() == 0,
    ensures
        fast_search_spec(alg, acts, goals, max_depth, s0) == (crate::planner::PlanView {
            disc: 0,
            time: 0,
            actions: Seq::<(Seq<char>, ActionView)>::empty(),
        }),
{
    assert(total_disc(goals, s0) == 0);
    assert(fast_search_spec(alg, acts, goals, max_depth, s0) =~= crate::planner::PlanView {
        disc: 0,
        time: 0,
        actions: Seq::<(Seq<char>, ActionView)>::empty(),
    });
}

/// Everything the heuristic search promises of its answer, given the
/// goals, the start state and the depth bound.
pub open spec fn fast_plan_ok(
    goals: Seq<GoalView>,
    s0: Map<Seq<char>, int>,
    max_depth: int,
    p: crate::planner::PlanView,
) -> bool {
    &&& replay_ok(s0, p.actions)
    &&& p.time == replay_time(p.actions)
    &&& p.disc == total_disc(goals, replay_state(s0, p.actions))
    &&& p.actions.len() <= max_depth
    &&& (p.actions.len() > 0 ==> p.disc == 0 || p.actions.len() == max_depth)
    &&& (total_disc(goals, s0) == 0 || max_depth == 0 ==> p.disc == total_disc(goals, s0)
        && p.time == 0 && p.actions.len() == 0)
}

impl Planner {
    /// Heuristic best-first plan from the model's state under the given
    /// cost metric.
    pub(crate) fn fast_plan_search(&self, alg: Algorithm, model: &Model) -> (r: Plan)
        requires
            self.wf(),
            model.wf(),
            map_bounded(model@.state, START_VALUE_LIMIT as int),
        ensures
            fast_plan_ok(model@.goals, model@.state, self@.max_depth, r@),
            r@ == fast_search_spec(
                alg,
                self@.actions,
                model@.goals,
                self@.max_depth as int,
                model@.state,
            ),
            forall|k: int|
                0 <= k < r@.actions.len() ==> self@.actions.contains(#[trigger] r@.actions[k]),
            plan_acts_wf(r.actions@),
    {
        let ghost gv = model@.goals;
        let ghost s0 = model@.state;
        let ghost acts = self@.actions;
        let ghost md = self@.max_depth as int;
        let ghost spec_goal = fast_search_spec(alg, acts, gv, md, s0);
        let goals = &model.goals;
        proof {
            crate::goal::lemma_goals_wf_views(model.goals@);
            assert(map_bounded(s0, VALUE_LIMIT as int));
        }
        let start_disc = discontentment_of(goals, &model.state);
        if start_disc == 0 || self.max_depth == 0 {
            let res = Plan {
                total_discontentment: start_disc,
                total_time: 0,
                actions: Vec::new(),
            };
            proof {
                assert(acts_view(res.actions@) =~= Seq::<(Seq<char>, ActionView)>::empty());
                assert(replay_state(s0, res@.actions) == s0);
                assert(res@ =~= spec_goal);
            }
            return res;
        }
        let ghost fallback = crate::planner::PlanView {
            disc: start_disc as int,
            time: 0,
            actions: Seq::empty(),
        };
        let start_node = AStarNode {
            cost: match alg {
                Algorithm::Traditional => start_disc,
                _ => 0,
            },
            estimated: match alg {
                Algorithm::Traditional => start_disc + start_disc,
                _ => start_disc,
            },
            time: 0,
            state: model.state.clone(),
            plan: Vec::new(),
        };
        proof {
            assert(acts_view(start_node.plan@) =~= Seq::<(Seq<char>, ActionView)>::empty());
            assert(replay_state(s0, acts_view(start_node.plan@)) == s0);
            assert(replay_time(acts_view(start_node.plan@)) == 0);
            assert(0 <= start_disc <= INFINITE_COST);
            assert(node_ok(s0, acts, self@.max_depth, start_node));
        }
        let mut frontier: Vec<AStarNode> = Vec::new();
        frontier.push(start_node);
        let mut visited: Vec<(State, i128)> = Vec::new();
        let mut budget: usize = SEARCH_BUDGET;
        proof {
            assert(node_views(frontier@) =~= seq![node_view(start_node)]);
            assert(visited_views(visited@) =~= Seq::<(Map<Seq<char>, int>, int)>::empty());
            assert(fast_run(
                alg,
                acts,
                gv,
                md,
                fallback,
                node_views(frontier@),
                visited_views(visited@),
                budget as nat,
            ) == spec_goal);
        }
        while frontier.len() > 0 && budget > 0
            invariant
                self.wf(),
                goals_wf(goals@),
                gv == goals_view(goals@),
                gv == model@.goals,
                goal_views_wf(gv),
                s0 == model@.state,
                acts == self@.actions,
                md == self@.max_depth as int,
                spec_goal == fast_search_spec(alg, acts, gv, md, s0),
                fallback == (crate::planner::PlanView {
                    disc: start_disc as int,
                    time: 0,
                    actions: Seq::empty(),
                }),
                map_bounded(s0, START_VALUE_LIMIT as int),
                start_disc as int == total_disc(gv, s0),
                0 < start_disc <= TOTAL_DISC_LIMIT,
                1 <= self.max_depth <= DEPTH_LIMIT,
                forall|j: int|
                    0 <= j < frontier@.len() ==> node_ok(
                        s0,
                        acts,
                        self@.max_depth,
                        #[trigger] frontier@[j],
                    ),
                fast_run(
                    alg,
                    acts,
                    gv,
                    md,
                    fallback,
                    node_views(frontier@),
                    visited_views(visited@),
                    budget as nat,
                ) == spec_goal,
            decreases budget,
        {
            let ghost f_head = node_views(frontier@);
            let ghost v_head = visited_views(visited@);
            let ghost fuel_head = budget as nat;
            budget = budget - 1;
            let mut bi: usize = 0;
            let mut j: usize = 1;
            while j < frontier.len()
                invariant
                    0 <= bi < frontier@.len(),
                    1 <= j <= frontier@.len(),
                    f_head == node_views(frontier@),
                    min_est_from(f_head, j as int, bi as int) == min_est_from(f_head, 1, 0),
                decreases frontier@.len() - j,
            {
                if frontier[j].estimated < frontier[bi].estimated {
                    bi = j;
                }
                j = j + 1;
            }
            proof {
                assert(bi as int == min_est_from(f_head, 1, 0));
            }
            let node = frontier.remove(bi);
            proof {
                assert(node_ok(s0, acts, self@.max_depth, node));
                assert(node_view(node) == f_head[bi as int]);
                assert(node_views(frontier@) =~= f_head.remove(bi as int));
            }
            let mut dominated = false;
            let mut vi: usize = 0;
            let mut found = false;
            while vi < visited.len()
                invariant
                    0 <= vi <= visited@.len(),
                    v_head == visited_views(visited@),
                    v_head.len() == visited@.len(),
                    found == false ==> dominated == false && forall|l: int|
                        0 <= l < vi as int ==> (#[trigger] v_head[l]).0 != node.state@,
                    found ==> visited_cost(v_head, node.state@) is Some && dominated == (
                    node.cost as int > (visited_cost(v_head, node.state@))->Some_0),
                decreases visited@.len() - vi,
            {
                if !found && visited[vi].0 == node.state {
                    found = true;
                    proof {
                        lemma_visited_cost_first(v_head, node.state@, vi as int);
                    }
                    if node.cost > visited[vi].1 {
                        dominated = true;
                    }
                }
                vi = vi + 1;
            }
            proof {
                if !found {
                    lemma_visited_cost_absent(v_head, node.state@);
                }
                assert(dominated == (match visited_cost(v_head, node.state@) {
                    Option::None => false,
                    Option::Some(c) => node.cost as int > c,
                }));
            }
            if dominated {
                proof {
                    assert(fast_run(alg, acts, gv, md, fallback, f_head, v_head, fuel_head)
                        == fast_run(
                        alg,
                        acts,
                        gv,
                        md,
                        fallback,
                        f_head.remove(bi as int),
                        v_head,
                        (fuel_head - 1) as nat,
                    ));
                    assert(fast_run(
                        alg,
                        acts,
                        gv,
                        md,
                        fallback,
                        node_views(frontier@),
                        visited_views(visited@),
                        budget as nat,
                    ) == spec_goal);
                }
            } else {
                proof {
                    assert(node.plan@.len() * DELTA_LIMIT <= DEPTH_LIMIT * DELTA_LIMIT);
                    assert(map_bounded(node.state@, VALUE_LIMIT as int));
                }
                let node_disc = discontentment_of(goals, &node.state);
                if node_disc == 0 || node.plan.len() >= self.max_depth {
                    let ghost pv = acts_view(node.plan@);
                    let res = Plan {
                        total_discontentment: node_disc,
                        total_time: node.time,
                        actions: node.plan,
                    };
                    proof {
                        assert(res@.actions == pv);
                        assert(replay_ok(s0, pv));
                        assert(res@.time == replay_time(pv));
                        assert(res@.disc == total_disc(gv, replay_state(s0, pv)));
                        assert(res@.actions.len() <= self@.max_depth);
                        assert(res@.actions.len() > 0 ==> res@.disc == 0 || res@.actions.len()
                            == self@.max_depth);
                        assert(total_disc(gv, s0) != 0);
                        assert(self@.max_depth != 0);
                        assert(fast_plan_ok(gv, s0, self@.max_depth, res@));
                        assert(gv == model@.goals && s0 == model@.state);
                        assert(plan_acts_wf(res.actions@));
                        assert(fast_run(alg, acts, gv, md, fallback, f_head, v_head, fuel_head)
                            == res@);
                        assert(res@ == spec_goal);
                    }
                    return res;
                }
                let mut wi: usize = 0;
                let mut replaced = false;
                while wi < visited.len()
                    invariant
                        0 <= wi <= visited@.len(),
                        visited@.len() == v_head.len(),
                        replaced == false ==> visited_views(visited@) == v_head && forall|
                            l: int,
                        |
                            0 <= l < wi as int ==> (#[trigger] v_head[l]).0 != node.state@,
                        replaced ==> visited_views(visited@) == visited_record(
                            v_head,
                            node.state@,
                            node.cost as int,
                        ),
                    decreases visited@.len() - wi,
                {
                    if !replaced && visited[wi].0 == node.state {
                        proof {
                            lemma_visited_record_first(
                                v_head,
                                node.state@,
                                node.cost as int,
                                wi as int,
                            );
                        }
                        visited[wi] = (node.state.clone(), node.cost);
                        replaced = true;
                        proof {
                            assert(visited_views(visited@) =~= v_head.update(
                                wi as int,
                                (node.state@, node.cost as int),
                            ));
                        }
                    }
                    wi = wi + 1;
                }
                if !replaced {
                    proof {
                        lemma_visited_record_absent(v_head, node.state@, node.cost as int);
                    }
                    visited.push((node.state.clone(), node.cost));
                    proof {
                        assert(visited_views(visited@) =~= v_head.push((
                            node.state@,
                            node.cost as int,
                        )));
                    }
                }
                let ghost v2 = visited_record(v_head, node.state@, node.cost as int);
                let ghost f_rest = node_views(frontier@);
                let ghost e_all = expand_spec(alg, acts, gv, node_view(node), node_disc as int, v2, 0);
                proof {
                    assert(visited_views(visited@) == v2);
                }
                let mut ai: usize = 0;
                while ai < self.actions.len()
                    invariant
                        0 <= ai <= self.actions@.len(),
                        self.wf(),
                        goals_wf(goals@),
                        gv == goals_view(goals@),
                        goal_views_wf(gv),
                        s0 == model@.state,
                        acts == self@.actions,
                        map_bounded(s0, START_VALUE_LIMIT as int),
                        1 <= self.max_depth <= DEPTH_LIMIT,
                        node_ok(s0, acts, self@.max_depth, node),
                        node.plan@.len() < self.max_depth,
                        0 <= node_disc <= TOTAL_DISC_LIMIT,
                        node_disc as int == total_disc(gv, node.state@),
                        visited_views(visited@) == v2,
                        visited@.len() <= v_head.len() + 1,
                        e_all == expand_spec(
                            alg,
                            acts,
                            gv,
                            node_view(node),
                            node_disc as int,
                            v2,
                            0,
                        ),
                        f_rest + e_all == node_views(frontier@) + expand_spec(
                            alg,
                            acts,
                            gv,
                            node_view(node),
                            node_disc as int,
                            v2,
                            ai as int,
                        ),
                        forall|j: int|
                            0 <= j < frontier@.len() ==> node_ok(
                                s0,
                                acts,
                                self@.max_depth,
                                #[trigger] frontier@[j],
                            ),
                    decreases self.actions@.len() - ai,
                {
                    let ghost fv_before = node_views(frontier@);
                    let pair = &self.actions[ai];
                    proof {
                        assert(pair.1.wf());
                        crate::action::lemma_action_wf_view(self.actions@[ai as int].1);
                    }
                    let ghost av_pair = (pair.0@, pair.1@);
                    proof {
                        assert(acts[ai as int] == av_pair);
                    }
                    match node.state.apply(&pair.1) {
                        Some(child) => {
                            let ghost childv = child@;
                            proof {
                                lemma_apply_preserves_bound(
                                    node.state@,
                                    pair.1@.deltas,
                                    START_VALUE_LIMIT + node.plan@.len() * DELTA_LIMIT,
                                );
                                assert((node.plan@.len() + 1) * DELTA_LIMIT == node.plan@.len()
                                    * DELTA_LIMIT + DELTA_LIMIT) by (nonlinear_arith);
                                assert(map_bounded(
                                    child@,
                                    START_VALUE_LIMIT + (node.plan@.len() + 1) * DELTA_LIMIT,
                                ));
                                assert((node.plan@.len() + 1) * DELTA_LIMIT <= DEPTH_LIMIT
                                    * DELTA_LIMIT);
                                assert(map_bounded(child@, VALUE_LIMIT as int));
                            }
                            let child_disc = discontentment_of(goals, &child);
                            let dur = pair.1.duration;
                            let term: i128 = match alg {
                                Algorithm::Traditional => child_disc,
                                Algorithm::Efficient => {
                                    let delta: i128 = node_disc - child_disc;
                                    let dur1: i64 = if dur < 1 {
                                        1
                                    } else {
                                        dur
                                    };
                                    ratio_floor_exec(
                                        MICRO_SQUARED * (dur1 as i128),
                                        delta + (dur1 as i128),
                                    )
                                },
                                Algorithm::Hybrid => {
                                    let delta: i128 = node_disc - child_disc;
                                    let dur1: i64 = if dur < 1 {
                                        1
                                    } else {
                                        dur
                                    };
                                    let use_eff: bool = node.plan.len() > 2 && delta
                                        > 100_000i128 * (dur1 as i128);
                                    if use_eff {
                                        ratio_floor_exec(
                                            MICRO_SQUARED * (dur1 as i128),
                                            delta + (dur1 as i128),
                                        )
                                    } else {
                                        child_disc
                                    }
                                },
                            };
                            proof {
                                assert(-INFINITE_COST <= term <= INFINITE_COST);
                                assert((1 + node.plan@.len()) * INFINITE_COST + INFINITE_COST
                                    == (1 + (node.plan@.len() + 1)) * INFINITE_COST)
                                    by (nonlinear_arith);
                                assert((1 + (node.plan@.len() + 1)) * INFINITE_COST <= (1
                                    + (DEPTH_LIMIT + 1)) * INFINITE_COST);
                            }
                            let g2: i128 = node.cost + term;
                            let f2: i128 = g2 + child_disc;
                            let mut known = false;
                            let mut better = true;
                            let mut ci: usize = 0;
                            while ci < visited.len()
                                invariant
                                    0 <= ci <= visited@.len(),
                                    visited_views(visited@) == v2,
                                    v2.len() == visited@.len(),
                                    known == false ==> better && forall|l: int|
                                        0 <= l < ci as int ==> (#[trigger] v2[l]).0 != child@,
                                    known ==> visited_cost(v2, child@) is Some && better == (
                                    (visited_cost(v2, child@))->Some_0 > g2 as int),
                                decreases visited@.len() - ci,
                            {
                                if !known && visited[ci].0 == child {
                                    known = true;
                                    proof {
                                        lemma_visited_cost_first(v2, child@, ci as int);
                                    }
                                    if g2 >= visited[ci].1 {
                                        better = false;
                                    }
                                }
                                ci = ci + 1;
                            }
                            proof {
                                if !known {
                                    lemma_visited_cost_absent(v2, child@);
                                }
                                assert((known == false || better) == (match visited_cost(
                                    v2,
                                    child@,
                                ) {
                                    Option::None => true,
                                    Option::Some(c) => c > g2 as int,
                                }));
                            }
                            if !known || better {
                                let mut np = clone_labelled_actions(&node.plan);
                                np.push((pair.0.clone(), pair.1.clone()));
                                let child_node = AStarNode {
                                    cost: g2,
                                    estimated: f2,
                                    time: node.time + dur,
                                    state: child,
                                    plan: np,
                                };
                                proof {
                                    assert(acts_view(child_node.plan@) =~= acts_view(node.plan@)
                                        .push((pair.0@, pair.1@)));
                                    lemma_replay_snoc(
                                        s0,
                                        acts_view(node.plan@),
                                        (pair.0@, pair.1@),
                                    );
                                    assert(acts.contains(av_pair)) by {
                                        assert(acts[ai as int] == av_pair);
                                    }
                                    assert forall|k: int|
                                        0 <= k < acts_view(child_node.plan@).len() implies acts
                                        .contains(#[trigger] acts_view(child_node.plan@)[k]) by {
                                        if k < acts_view(node.plan@).len() {
                                            assert(acts_view(child_node.plan@)[k] == acts_view(
                                                node.plan@,
                                            )[k]);
                                        } else {
                                            assert(acts_view(child_node.plan@)[k] == av_pair);
                                        }
                                    }
                                    assert(node_ok(s0, acts, self@.max_depth, child_node));
                                }
                                let ghost pushed = node_view(child_node);
                                frontier.push(child_node);
                                proof {
                                    assert(node_views(frontier@) =~= fv_before.push(pushed));
                                    assert(expand_spec(
                                        alg,
                                        acts,
                                        gv,
                                        node_view(node),
                                        node_disc as int,
                                        v2,
                                        ai as int,
                                    ) == seq![pushed] + expand_spec(
                                        alg,
                                        acts,
                                        gv,
                                        node_view(node),
                                        node_disc as int,
                                        v2,
                                        ai as int + 1,
                                    ));
                                    assert(fv_before + (seq![pushed] + expand_spec(
                                        alg,
                                        acts,
                                        gv,
                                        node_view(node),
                                        node_disc as int,
                                        v2,
                                        ai as int + 1,
                                    )) =~= fv_before.push(pushed) + expand_spec(
                                        alg,
                                        acts,
                                        gv,
                                        node_view(node),
                                        node_disc as int,
                                        v2,
                                        ai as int + 1,
                                    ));
                                }
                            } else {
                                proof {
                                    assert(expand_spec(
                                        alg,
                                        acts,
                                        gv,
                                        node_view(node),
                                        node_disc as int,
                                        v2,
                                        ai as int,
                                    ) == expand_spec(
                                        alg,
                                        acts,
                                        gv,
                                        node_view(node),
                                        node_disc as int,
                                        v2,
                                        ai as int + 1,
                                    ));
                                }
                            }
                        },
                        None => {
                            proof {
                                assert(!action_applies(node.state@, av_pair.1.deltas));
                                assert(expand_spec(
                                    alg,
                                    acts,
                                    gv,
                                    node_view(node),
                                    node_disc as int,
                                    v2,
                                    ai as int,
                                ) == expand_spec(
                                    alg,
                                    acts,
                                    gv,
                                    node_view(node),
                                    node_disc as int,
                                    v2,
                                    ai as int + 1,
                                ));
                            }
                        },
                    }
                    ai = ai + 1;
                }
                proof {
                    assert(expand_spec(
                        alg,
                        acts,
                        gv,
                        node_view(node),
                        node_disc as int,
                        v2,
                        acts.len() as int,
                    ) =~= Seq::<NodeView>::empty());
                    assert(f_rest + e_all =~= node_views(frontier@));
                    assert(fast_run(alg, acts, gv, md, fallback, f_head, v_head, fuel_head)
                        == fast_run(
                        alg,
                        acts,
                        gv,
                        md,
                        fallback,
                        f_rest + e_all,
                        v2,
                        (fuel_head - 1) as nat,
                    ));
                    assert(fast_run(
                        alg,
                        acts,
                        gv,
                        md,
                        fallback,
                        node_views(frontier@),
                        visited_views(visited@),
                        budget as nat,
                    ) == spec_goal);
                }
            }
        }
        let res = Plan {
            total_discontentment: start_disc,
            total_time: 0,
            actions: Vec::new(),
        };
        proof {
            assert(acts_view(res.actions@) =~= Seq::<(Seq<char>, ActionView)>::empty());
            assert(replay_state(s0, res@.actions) == s0);
            assert(fast_run(
                alg,
                acts,
                gv,
                md,
                fallback,
                node_views(frontier@),
                visited_views(visited@),
                budget as nat,
            ) == fallback);
            assert(res@ =~= fallback);
            assert(res@ == spec_goal);
        }
        res
    }
}

} // verus!
