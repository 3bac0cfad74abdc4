use ternary_depth::{AbyssalZone, Bathyscope, Depth, PressureDecompression, Ternary};

#[test]
fn test_depth_new_clamps() {
    let d = Depth::new(100, 10);
    assert_eq!(d.level, 10);
    assert_eq!(d.max_level, 10);
}

#[test]
fn test_ternary_round_trip() {
    for v in [-1_i8, 0, 1] {
        let t = Ternary::from_i8(v).unwrap();
        assert_eq!(t.to_i8(), v);
    }
    assert!(Ternary::from_i8(2).is_none());
    assert!(Ternary::from_i8(-2).is_none());
    assert_eq!(Ternary::Neg.to_i8(), -1);
    assert_eq!(Ternary::Pos.to_i8(), 1);
}

#[test]
fn test_depth_descend_at_surface() {
    let s = Depth::surface();
    let d = s.descend().unwrap();
    assert_eq!(d.level, 1);
    assert!(!d.is_surface());
}

#[test]
fn test_depth_descend() {
    let d = Depth::new(5, 10);
    assert_eq!(d.descend().unwrap().level, 6);
}

#[test]
fn test_depth_descend_at_max() {
    let d = Depth::new(10, 10);
    assert!(d.descend().is_none());
}

#[test]
fn test_depth_ascend() {
    let d = Depth::new(5, 10);
    assert_eq!(d.ascend().unwrap().level, 4);
}

#[test]
fn test_depth_ascend_at_surface() {
    let d = Depth::surface();
    assert!(d.ascend().is_none());
}

#[test]
fn test_depth_is_surface_and_max() {
    let d = Depth::new(0, 10);
    assert!(d.is_surface());
    assert!(!d.is_max());
    let d2 = Depth::new(10, 10);
    assert!(!d2.is_surface());
    assert!(d2.is_max());
}

#[test]
fn test_bathyscope_observe() {
    let mut b = Bathyscope::new(10);
    assert!(b.observe(5, "layer 5 structure"));
    assert_eq!(b.at_depth(5).len(), 1);
    // Unobserved depth returns an empty slice (no panic).
    assert!(b.at_depth(7).is_empty());
    assert!(b.at_depth(10).is_empty());
}

#[test]
fn test_bathyscope_reject_too_deep() {
    let mut b = Bathyscope::new(5);
    assert!(!b.observe(10, "too deep"));
}

#[test]
fn test_bathyscope_total_and_deepest() {
    let mut b = Bathyscope::new(10);
    b.observe(3, "a");
    b.observe(7, "b");
    b.observe(7, "c");
    assert_eq!(b.total_observations(), 3);
    assert_eq!(b.deepest_observed(), Some(7));
}

#[test]
fn test_abyssal_zone_is_abyssal() {
    let az = AbyssalZone::new(8, 12);
    assert!(az.is_abyssal(8));
    assert!(az.is_abyssal(10));
    assert!(az.is_abyssal(12));
    assert!(!az.is_abyssal(7));
    assert!(!az.is_abyssal(13));
}

#[test]
fn test_abyssal_zone_anomalies() {
    let mut az = AbyssalZone::new(8, 12);
    az.record_anomaly("null pointer at depth 9");
    az.record_anomaly("infinite loop at depth 11");
    assert_eq!(az.anomaly_count(), 2);
}

#[test]
fn test_decompression_plan() {
    // From level 10, ascending one level at a time, pushing whenever the
    // level is a multiple of 3 (or the surface). Stops: 9, 6, 3, 0.
    let d = Depth::new(10, 10);
    let plan = PressureDecompression::plan(d);
    let levels: Vec<u32> = plan.steps.iter().map(|s| s.level).collect();
    assert_eq!(levels, vec![9, 6, 3, 0]);
    assert_eq!(plan.step_count(), 4);
    assert!(plan.steps.last().unwrap().is_surface());
    assert_eq!(plan.total_levels(), 10);
    assert_eq!(plan.from, d);
}

#[test]
fn test_decompression_plan_from_surface() {
    // Already at surface: no ascents possible, no stops.
    let plan = PressureDecompression::plan(Depth::new(0, 10));
    assert_eq!(plan.step_count(), 0);
    assert!(plan.steps.is_empty());
    assert_eq!(plan.total_levels(), 0);
}

#[test]
fn test_decompression_plan_interval() {
    // interval=2 from level 10 => stops at 8,6,4,2,0.
    let d = Depth::new(10, 10);
    let plan = PressureDecompression::plan_with_interval(d, 2);
    let levels: Vec<u32> = plan.steps.iter().map(|s| s.level).collect();
    assert_eq!(levels, vec![8, 6, 4, 2, 0]);
    assert_eq!(plan.step_count(), 5);
    assert_eq!(plan.total_levels(), 10);
}

#[test]
fn test_decompression_plan_interval_clamps_zero() {
    // interval=0 is clamped to 1 => stop at every level.
    let plan = PressureDecompression::plan_with_interval(Depth::new(3, 3), 0);
    let levels: Vec<u32> = plan.steps.iter().map(|s| s.level).collect();
    assert_eq!(levels, vec![2, 1, 0]);
}

#[test]
fn test_decompression_is_stop() {
    let d = Depth::new(10, 10);
    let plan = PressureDecompression::plan_with_interval(d, 5);
    let stop = Depth::new(5, 10);
    assert!(plan.is_stop(&stop));
    // 4 is not a multiple of 5 and not the surface.
    assert!(!plan.is_stop(&Depth::new(4, 10)));
    // The surface is always a stop.
    assert!(plan.is_stop(&Depth::new(0, 10)));
}
