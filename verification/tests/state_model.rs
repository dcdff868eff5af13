use goap_ai::{Action, DiscontentmentKind, Goal, Model, State};

fn state_of(pairs: &[(&str, i64)]) -> State {
    let mut s = State::new();
    for (k, v) in pairs {
        s.insert(k.to_string(), *v);
    }
    s
}

fn action_of(duration: i64, deltas: &[(&str, i64)]) -> Action {
    Action {
        duration,
        deltas: deltas.iter().map(|(k, v)| (k.to_string(), *v)).collect(),
    }
}

fn goal_of(property: &str, target: i64, kind: DiscontentmentKind) -> Goal {
    Goal {
        property: property.to_string(),
        target,
        scale_milli: 1000,
        weight_milli: 1000,
        kind,
    }
}

#[test]
fn get_reads_stored_values_and_absent_is_none() {
    let s = state_of(&[("wood", 3), ("gold", 0)]);
    assert_eq!(s.get("wood"), Some(3));
    assert_eq!(s.get("gold"), Some(0));
    assert_eq!(s.get("stone"), None);
}

#[test]
fn insert_replaces_earlier_binding() {
    let mut s = state_of(&[("wood", 3)]);
    s.insert("wood".to_string(), 7);
    assert_eq!(s.get("wood"), Some(7));
    assert_eq!(s.keys().len(), 1);
}

#[test]
fn keys_lists_every_property_once() {
    let s = state_of(&[("a", 1), ("b", 2), ("c", 3)]);
    let mut keys = s.keys();
    keys.sort();
    assert_eq!(keys, vec!["a".to_string(), "b".to_string(), "c".to_string()]);
}

#[test]
fn apply_moves_properties_by_their_deltas() {
    let s = state_of(&[("wood", 2), ("gold", 5)]);
    let a = action_of(1, &[("wood", 5)]);
    let s2 = s.apply(&a).expect("applicable");
    assert_eq!(s2.get("wood"), Some(7));
    assert_eq!(s2.get("gold"), Some(5));
    assert_eq!(s2.get("stone"), None);
}

#[test]
fn apply_fails_rather_than_go_negative() {
    let s = state_of(&[("gold", 0)]);
    let spend = action_of(1, &[("gold", -10)]);
    assert!(s.apply(&spend).is_none());
    let s2 = state_of(&[("gold", 10)]);
    let s3 = s2.apply(&spend).expect("exactly enough gold");
    assert_eq!(s3.get("gold"), Some(0));
}

#[test]
fn apply_fails_on_machine_overflow() {
    let s = state_of(&[("x", i64::MAX)]);
    let a = action_of(1, &[("x", 1)]);
    assert!(s.apply(&a).is_none());
}

#[test]
fn apply_creates_absent_properties_from_zero() {
    let s = State::new();
    let a = action_of(1, &[("wood", 4)]);
    let s2 = s.apply(&a).expect("applicable");
    assert_eq!(s2.get("wood"), Some(4));
}

#[test]
fn state_equality_ignores_insertion_order() {
    let s1 = state_of(&[("a", 1), ("b", 2)]);
    let s2 = state_of(&[("b", 2), ("a", 1)]);
    assert!(s1 == s2);
    let s3 = state_of(&[("a", 1), ("b", 3)]);
    assert!(s1 != s3);
    let s4 = state_of(&[("a", 1)]);
    assert!(s1 != s4);
}

#[test]
fn content_hash_ignores_insertion_order() {
    let s1 = state_of(&[("a", 1), ("b", 2), ("c", -3)]);
    let s2 = state_of(&[("c", -3), ("a", 1), ("b", 2)]);
    assert_eq!(s1.content_hash(), s2.content_hash());
}

#[test]
fn content_hash_follows_replaced_values() {
    let mut s1 = state_of(&[("a", 1)]);
    let s2 = state_of(&[("a", 9)]);
    s1.insert("a".to_string(), 9);
    assert_eq!(s1.content_hash(), s2.content_hash());
}

#[test]
fn model_apply_accumulates_time_and_history() {
    let s = state_of(&[("wood", 0)]);
    let goals = vec![goal_of("wood", 10, DiscontentmentKind::GreaterThanOrEqualTo)];
    let m = Model::new(s, goals);
    assert_eq!(m.time, 0);
    assert_eq!(m.action_history.len(), 0);
    let chop = action_of(3, &[("wood", 5)]);
    let m2 = m.apply("chop".to_string(), &chop).expect("applicable");
    assert_eq!(m2.time, 3);
    assert_eq!(m2.action_history.len(), 1);
    assert_eq!(m2.action_history[0].0, "chop");
    assert_eq!(m2.state.get("wood"), Some(5));
    let m3 = m2.apply("chop".to_string(), &chop).expect("applicable");
    assert_eq!(m3.time, 6);
    assert_eq!(m3.action_history.len(), 2);
}

#[test]
fn model_apply_fails_on_inapplicable_action() {
    let s = state_of(&[("gold", 3)]);
    let m = Model::new(s, vec![]);
    let spend = action_of(1, &[("gold", -10)]);
    assert!(m.apply("spend".to_string(), &spend).is_none());
}

#[test]
fn discontentment_sums_over_goals() {
    let s = state_of(&[("wood", 4), ("gold", 7)]);
    let goals = vec![
        goal_of("wood", 10, DiscontentmentKind::GreaterThanOrEqualTo),
        goal_of("gold", 5, DiscontentmentKind::LessThanOrEqualTo),
    ];
    let m = Model::new(s, goals);
    // wood is 6 short, gold 2 over: 8 whole units, in millionths.
    assert_eq!(m.calculate_discontentment(), 8_000_000);
}

#[test]
fn discontentment_zero_when_all_goals_satisfied() {
    let s = state_of(&[("wood", 12), ("gold", 5)]);
    let goals = vec![
        goal_of("wood", 10, DiscontentmentKind::GreaterThanOrEqualTo),
        goal_of("gold", 5, DiscontentmentKind::EqualTo),
    ];
    let m = Model::new(s, goals);
    assert_eq!(m.calculate_discontentment(), 0);
}
