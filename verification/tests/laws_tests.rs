use ternary_depth::{AbyssalZone, Bathyscope, Depth, PressureDecompression, Ternary};

#[test]
fn ternary_each_value_round_trips_through_i8() {
    for t in [Ternary::Neg, Ternary::Zero, Ternary::Pos] {
        assert_eq!(Ternary::from_i8(t.to_i8()), Some(t));
    }
    assert_eq!(Ternary::Zero.to_i8(), 0);
    assert_eq!(Ternary::from_i8(i8::MIN), None);
    assert_eq!(Ternary::from_i8(i8::MAX), None);
}

#[test]
fn depth_new_keeps_level_within_bound() {
    assert_eq!(Depth::new(3, 10), Depth { level: 3, max_level: 10 });
    assert_eq!(Depth::new(10, 10), Depth { level: 10, max_level: 10 });
    assert_eq!(Depth::new(u32::MAX, 0), Depth { level: 0, max_level: 0 });
}

#[test]
fn depth_surface_is_unbounded() {
    let s = Depth::surface();
    assert_eq!(s.level, 0);
    assert_eq!(s.max_level, u32::MAX);
    assert!(s.is_surface());
    assert!(!s.is_max());
}

#[test]
fn depth_descend_then_ascend_returns() {
    let d = Depth::new(4, 9);
    let e = d.descend().unwrap();
    assert_eq!(e, Depth { level: 5, max_level: 9 });
    assert_eq!(e.ascend(), Some(d));
    let a = d.ascend().unwrap();
    assert_eq!(a.descend(), Some(d));
}

#[test]
fn depth_descend_near_u32_max() {
    let d = Depth { level: u32::MAX - 1, max_level: u32::MAX };
    let e = d.descend().unwrap();
    assert_eq!(e.level, u32::MAX);
    assert!(e.is_max());
    assert!(e.descend().is_none());
}

#[test]
fn depth_out_of_bound_does_not_descend() {
    // A depth built by hand below its bound cannot descend further.
    let d = Depth { level: 7, max_level: 3 };
    assert!(d.descend().is_none());
    assert_eq!(d.ascend(), Some(Depth { level: 6, max_level: 3 }));
}

#[test]
fn bathyscope_read_back_after_observe() {
    let mut b = Bathyscope::new(4);
    assert!(b.at_depth(2).is_empty());
    assert_eq!(b.deepest_observed(), None);
    assert_eq!(b.total_observations(), 0);
    assert!(b.observe(2, "first"));
    assert!(b.observe(2, "second"));
    assert!(b.observe(0, "top"));
    assert!(b.observe(4, "bottom"));
    assert!(!b.observe(5, "below"));
    let at2: Vec<&str> = b.at_depth(2).iter().map(|s| s.as_str()).collect();
    assert_eq!(at2, vec!["first", "second"]);
    assert_eq!(b.at_depth(0)[0], "top");
    assert_eq!(b.at_depth(4)[0], "bottom");
    assert!(b.at_depth(5).is_empty());
    assert_eq!(b.total_observations(), 4);
    assert_eq!(b.deepest_observed(), Some(4));
}

#[test]
fn bathyscope_deepest_stays_when_shallower_observed() {
    let mut b = Bathyscope::new(100);
    b.observe(60, "deep");
    b.observe(10, "shallow");
    assert_eq!(b.deepest_observed(), Some(60));
    assert!(b.observe(100, "at the limit"));
    assert_eq!(b.deepest_observed(), Some(100));
}

#[test]
fn abyssal_zone_records_in_order() {
    let mut az = AbyssalZone::new(3, 3);
    assert_eq!(az.anomaly_count(), 0);
    az.record_anomaly("one");
    az.record_anomaly("two");
    assert_eq!(az.anomalies, vec!["one".to_string(), "two".to_string()]);
    assert!(az.is_abyssal(3));
    assert!(!az.is_abyssal(2));
    assert!(!az.is_abyssal(4));
}

#[test]
fn abyssal_zone_inverted_is_never_abyssal() {
    let az = AbyssalZone::new(12, 8);
    for d in 0..20 {
        assert!(!az.is_abyssal(d));
    }
}

#[test]
fn decompression_unit_interval_stops_at_every_level() {
    let d = Depth::new(6, 8);
    let plan = PressureDecompression::plan_with_interval(d, 1);
    let levels: Vec<u32> = plan.steps.iter().map(|s| s.level).collect();
    assert_eq!(levels, vec![5, 4, 3, 2, 1, 0]);
    assert!(plan.steps.iter().all(|s| s.max_level == 8));
}

#[test]
fn decompression_large_interval_stops_only_at_surface() {
    let plan = PressureDecompression::plan_with_interval(Depth::new(7, 7), 100);
    let levels: Vec<u32> = plan.steps.iter().map(|s| s.level).collect();
    assert_eq!(levels, vec![0]);
    assert!(plan.is_stop(&Depth::surface()));
    assert!(!plan.is_stop(&Depth::new(7, 7)));
}

#[test]
fn decompression_from_level_one() {
    let plan = PressureDecompression::plan(Depth::new(1, 1));
    assert_eq!(plan.steps, vec![Depth { level: 0, max_level: 1 }]);
    assert_eq!(plan.total_levels(), 1);
}

#[test]
fn bathyscope_max_depth_getter_matches_field() {
    let mut b = Bathyscope::new(9);
    assert_eq!(b.max_depth(), 9);
    assert_eq!(b.max_depth, 9);
    assert!(b.observe(9, "edge"));
    assert_eq!(b.max_depth(), 9);
    assert_eq!(b.deepest_observed(), Some(9));
}
