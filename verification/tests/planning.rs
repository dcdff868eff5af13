use goap_ai::{
    Action, Algorithm, DiscontentmentKind, Goal, Model, Planner, Solution, State,
};

const ALL_ALGORITHMS: [Algorithm; 3] =
    [Algorithm::Traditional, Algorithm::Efficient, Algorithm::Hybrid];
const ALL_SOLUTIONS: [Solution; 2] = [Solution::Fast, Solution::Best];

fn state_of(pairs: &[(&str, i64)]) -> State {
    let mut s = State::new();
    for (k, v) in pairs {
        s.insert(k.to_string(), *v);
    }
    s
}

fn action_of(duration: i64, deltas: &[(&str, i64)]) -> Action {
    Action {
        duration,
        deltas: deltas.iter().map(|(k, v)| (k.to_string(), *v)).collect(),
    }
}

fn goal_of(property: &str, target: i64, kind: DiscontentmentKind) -> Goal {
    Goal {
        property: property.to_string(),
        target,
        scale_milli: 1000,
        weight_milli: 1000,
        kind,
    }
}

fn chop_setup() -> (Model, Vec<(String, Action)>) {
    let state = state_of(&[("wood", 0)]);
    let goals = vec![goal_of("wood", 10, DiscontentmentKind::GreaterThanOrEqualTo)];
    let actions = vec![("chop".to_string(), action_of(1, &[("wood", 5)]))];
    (Model::new(state, goals), actions)
}

#[test]
fn best_traditional_finds_the_shortest_sufficient_plan() {
    let (model, actions) = chop_setup();
    let planner = Planner::new(Algorithm::Traditional, Solution::Best, 3, actions);
    let plan = planner.plan(&model);
    let labels: Vec<&str> = plan.actions.iter().map(|(l, _)| l.as_str()).collect();
    assert_eq!(labels, vec!["chop", "chop"]);
    assert_eq!(plan.total_time, 2);
    assert_eq!(plan.total_discontentment, 0);
}

#[test]
fn fast_traditional_reaches_the_satisfied_state() {
    let (model, actions) = chop_setup();
    let planner = Planner::new(Algorithm::Traditional, Solution::Fast, 3, actions);
    let plan = planner.plan(&model);
    let labels: Vec<&str> = plan.actions.iter().map(|(l, _)| l.as_str()).collect();
    assert_eq!(labels, vec!["chop", "chop"]);
    assert_eq!(plan.total_time, 2);
    assert_eq!(plan.total_discontentment, 0);
}

#[test]
fn fast_efficiency_reaches_the_satisfied_state() {
    let (model, actions) = chop_setup();
    let planner = Planner::new(Algorithm::Efficient, Solution::Fast, 3, actions);
    let plan = planner.plan(&model);
    let labels: Vec<&str> = plan.actions.iter().map(|(l, _)| l.as_str()).collect();
    assert_eq!(labels, vec!["chop", "chop"]);
    assert_eq!(plan.total_time, 2);
    assert_eq!(plan.total_discontentment, 0);
}

#[test]
fn fast_hybrid_reaches_the_satisfied_state() {
    let (model, actions) = chop_setup();
    let planner = Planner::new(Algorithm::Hybrid, Solution::Fast, 3, actions);
    let plan = planner.plan(&model);
    let labels: Vec<&str> = plan.actions.iter().map(|(l, _)| l.as_str()).collect();
    assert_eq!(labels, vec!["chop", "chop"]);
    assert_eq!(plan.total_time, 2);
    assert_eq!(plan.total_discontentment, 0);
}

#[test]
fn best_efficiency_stops_when_no_benefit_remains() {
    // Once the goal is met a further action lowers nothing, so its
    // realized efficiency of zero cannot displace the do-nothing
    // baseline: two chops, not three.
    let (model, actions) = chop_setup();
    let planner = Planner::new(Algorithm::Efficient, Solution::Best, 3, actions);
    let plan = planner.plan(&model);
    let labels: Vec<&str> = plan.actions.iter().map(|(l, _)| l.as_str()).collect();
    assert_eq!(labels, vec!["chop", "chop"]);
    assert_eq!(plan.total_discontentment, 0);
    assert_eq!(plan.total_time, 2);
}

#[test]
fn no_strategy_plans_an_inapplicable_action() {
    for algorithm in ALL_ALGORITHMS {
        for solution in ALL_SOLUTIONS {
            let state = state_of(&[("gold", 0)]);
            let goals = vec![goal_of("gold", 10, DiscontentmentKind::GreaterThanOrEqualTo)];
            let actions = vec![("spend".to_string(), action_of(1, &[("gold", -10)]))];
            let model = Model::new(state, goals);
            let planner = Planner::new(algorithm, solution, 4, actions);
            let plan = planner.plan(&model);
            assert!(plan.actions.is_empty());
            assert_eq!(plan.total_discontentment, 10_000_000);
        }
    }
}

#[test]
fn every_planned_action_replays_against_the_model() {
    for algorithm in ALL_ALGORITHMS {
        for solution in ALL_SOLUTIONS {
            let state = state_of(&[("wood", 0), ("axe", 0)]);
            let goals = vec![goal_of("wood", 6, DiscontentmentKind::GreaterThanOrEqualTo)];
            let actions = vec![
                ("craft_axe".to_string(), action_of(2, &[("axe", 1)])),
                (
                    "chop_with_axe".to_string(),
                    action_of(1, &[("axe", -1), ("wood", 6), ("splinters", 1)]),
                ),
            ];
            let model = Model::new(state, goals);
            let planner = Planner::new(algorithm, solution, 4, actions);
            let plan = planner.plan(&model);
            let mut replayed = model;
            for (label, action) in plan.actions.iter() {
                replayed = replayed
                    .apply(label.to_string(), action)
                    .expect("a planned action must be applicable in sequence");
            }
            assert_eq!(replayed.time, plan.total_time);
        }
    }
}

#[test]
fn empty_goal_set_yields_the_empty_plan() {
    // With no goals discontentment is identically zero: every heuristic
    // search sees a satisfied start and stops at once, and no exhaustive
    // rule finds a candidate that beats the do-nothing baseline.
    for algorithm in ALL_ALGORITHMS {
        for solution in ALL_SOLUTIONS {
            let state = state_of(&[("wood", 0)]);
            let actions = vec![("chop".to_string(), action_of(1, &[("wood", 5)]))];
            let model = Model::new(state, vec![]);
            let planner = Planner::new(algorithm, solution, 3, actions);
            let plan = planner.plan(&model);
            assert!(plan.actions.is_empty());
            assert_eq!(plan.total_discontentment, 0);
            assert_eq!(plan.total_time, 0);
        }
    }
}

#[test]
fn zero_depth_yields_the_do_nothing_plan() {
    for algorithm in ALL_ALGORITHMS {
        for solution in ALL_SOLUTIONS {
            let (model, actions) = chop_setup();
            let planner = Planner::new(algorithm, solution, 0, actions);
            let plan = planner.plan(&model);
            assert!(plan.actions.is_empty());
            assert_eq!(plan.total_discontentment, 10_000_000);
            assert_eq!(plan.total_time, 0);
        }
    }
}

#[test]
fn exhaustive_search_never_beats_doing_nothing_backwards() {
    // A lone action that only makes things worse: under every exhaustive
    // rule the do-nothing baseline must win.
    for algorithm in ALL_ALGORITHMS {
        let state = state_of(&[("wood", 10)]);
        let goals = vec![goal_of("wood", 10, DiscontentmentKind::EqualTo)];
        let actions = vec![("burn".to_string(), action_of(1, &[("wood", -3)]))];
        let model = Model::new(state, goals);
        let start_disc = model.calculate_discontentment();
        let planner = Planner::new(algorithm, Solution::Best, 3, actions);
        let plan = planner.plan(&model);
        assert!(plan.total_discontentment <= start_disc);
        assert!(plan.actions.is_empty());
        assert_eq!(plan.total_discontentment, 0);
        assert_eq!(plan.total_time, 0);
    }
}

#[test]
fn deeper_search_never_worsens_best_traditional() {
    let mut last = i128::MAX;
    for depth in 0..5 {
        let (model, actions) = chop_setup();
        let planner = Planner::new(Algorithm::Traditional, Solution::Best, depth, actions);
        let plan = planner.plan(&model);
        assert!(plan.total_discontentment <= last);
        last = plan.total_discontentment;
    }
}

#[test]
fn best_hybrid_reconstructs_discontentment_algebraically() {
    // At shallow depth the hybrid metric is the child's discontentment m
    // (in millionths), and the reported discontentment is reconstructed as
    // the current score minus 10^12 / m rather than read off the final
    // state: here 3.0 - 1/2.0 units, not the replayed state's 2.0 units.
    let state = state_of(&[("x", 0)]);
    let goals = vec![goal_of("x", 3, DiscontentmentKind::GreaterThanOrEqualTo)];
    let actions = vec![("step".to_string(), action_of(1, &[("x", 1)]))];
    let model = Model::new(state, goals);
    let planner = Planner::new(Algorithm::Hybrid, Solution::Best, 1, actions);
    let plan = planner.plan(&model);
    let labels: Vec<&str> = plan.actions.iter().map(|(l, _)| l.as_str()).collect();
    assert_eq!(labels, vec!["step"]);
    assert_eq!(plan.total_discontentment, 2_500_000);
    let replayed = model
        .apply(plan.actions[0].0.clone(), &plan.actions[0].1)
        .expect("applicable");
    assert_eq!(replayed.calculate_discontentment(), 2_000_000);
}

#[test]
fn fast_strategies_return_terminal_or_fallback_plans() {
    for algorithm in ALL_ALGORITHMS {
        let state = state_of(&[("wood", 0)]);
        let goals = vec![goal_of("wood", 4, DiscontentmentKind::GreaterThanOrEqualTo)];
        let actions = vec![
            ("chop".to_string(), action_of(1, &[("wood", 1)])),
            ("rest".to_string(), action_of(1, &[])),
        ];
        let model = Model::new(state, goals);
        let planner = Planner::new(algorithm, Solution::Fast, 2, actions);
        let plan = planner.plan(&model);
        assert!(plan.actions.len() <= 2);
        if !plan.actions.is_empty() {
            assert!(plan.total_discontentment == 0 || plan.actions.len() == 2);
        }
    }
}

#[test]
fn planner_iterates_actions_in_library_order() {
    // Two actions reach the goal equally well; the exhaustive search
    // examines them in library order and a later tie cannot displace an
    // earlier winner.
    let state = state_of(&[("wood", 0)]);
    let goals = vec![goal_of("wood", 5, DiscontentmentKind::GreaterThanOrEqualTo)];
    let actions = vec![
        ("gather".to_string(), action_of(1, &[("wood", 5)])),
        ("chop".to_string(), action_of(1, &[("wood", 5)])),
    ];
    let model = Model::new(state, goals);
    let planner = Planner::new(Algorithm::Traditional, Solution::Best, 1, actions);
    let plan = planner.plan(&model);
    let labels: Vec<&str> = plan.actions.iter().map(|(l, _)| l.as_str()).collect();
    assert_eq!(labels, vec!["gather"]);
}
