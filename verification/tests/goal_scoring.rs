use goap_ai::{DiscontentmentKind, Goal};

fn goal(kind: DiscontentmentKind, target: i64, scale_milli: i64, weight_milli: i64) -> Goal {
    Goal { property: "p".to_string(), target, scale_milli, weight_milli, kind }
}

#[test]
fn greater_than_scores_shortfall_only() {
    let g = goal(DiscontentmentKind::GreaterThanOrEqualTo, 10, 1000, 1000);
    assert_eq!(g.discontentment(4), 6_000_000);
    assert_eq!(g.discontentment(10), 0);
    assert_eq!(g.discontentment(15), 0);
}

#[test]
fn less_than_scores_excess_only() {
    let g = goal(DiscontentmentKind::LessThanOrEqualTo, 3, 1000, 1000);
    assert_eq!(g.discontentment(5), 2_000_000);
    assert_eq!(g.discontentment(3), 0);
    assert_eq!(g.discontentment(0), 0);
}

#[test]
fn equal_to_scores_absolute_distance() {
    let g = goal(DiscontentmentKind::EqualTo, 3, 1000, 1000);
    assert_eq!(g.discontentment(5), 2_000_000);
    assert_eq!(g.discontentment(1), 2_000_000);
    assert_eq!(g.discontentment(3), 0);
}

#[test]
fn scale_and_weight_multiply_the_violation() {
    // scale 2.0, weight 0.5: one unit of violation scores one whole unit.
    let g = goal(DiscontentmentKind::GreaterThanOrEqualTo, 10, 2000, 500);
    assert_eq!(g.discontentment(4), 6_000_000);
    // scale 2.0, weight 2.0: one unit of violation scores four.
    let g2 = goal(DiscontentmentKind::GreaterThanOrEqualTo, 10, 2000, 2000);
    assert_eq!(g2.discontentment(9), 4_000_000);
}

#[test]
fn discontentment_grows_with_violation() {
    for kind in [
        DiscontentmentKind::GreaterThanOrEqualTo,
        DiscontentmentKind::LessThanOrEqualTo,
        DiscontentmentKind::EqualTo,
    ] {
        let g = goal(kind, 0, 1500, 700);
        let mut last = g.discontentment(0);
        for v in 1..6 {
            let away = match kind {
                DiscontentmentKind::GreaterThanOrEqualTo => -v,
                _ => v,
            };
            let d = g.discontentment(away);
            assert!(d >= last);
            last = d;
        }
    }
}

#[test]
fn discontentment_zero_exactly_on_satisfied_goals() {
    let g = goal(DiscontentmentKind::GreaterThanOrEqualTo, 5, 1000, 1000);
    for v in -3..10 {
        assert_eq!(g.discontentment(v) == 0, v >= 5);
    }
    let le = goal(DiscontentmentKind::LessThanOrEqualTo, 5, 1000, 1000);
    for v in -3..10 {
        assert_eq!(le.discontentment(v) == 0, v <= 5);
    }
    let eq = goal(DiscontentmentKind::EqualTo, 5, 1000, 1000);
    for v in -3..10 {
        assert_eq!(eq.discontentment(v) == 0, v == 5);
    }
}
