use uaps_engine::schedule::{Assignment, Schedule};
use uaps_engine::time_fence::{FenceViolationType, FenceZone, TimeFenceChecker, TimeFenceConfig};

#[test]
fn test_fence_zone_determination() {
    let config = TimeFenceConfig::new(0, 24, 48);
    let hour = 3_600_000i64;
    assert_eq!(config.get_zone(0), FenceZone::Frozen);
    assert_eq!(config.get_zone(12 * hour), FenceZone::Frozen);
    assert_eq!(config.get_zone(30 * hour), FenceZone::Slushy);
    assert_eq!(config.get_zone(60 * hour), FenceZone::Slushy);
    assert_eq!(config.get_zone(80 * hour), FenceZone::Liquid);
}

#[test]
fn test_can_modify() {
    assert!(!FenceZone::Frozen.can_modify());
    assert!(FenceZone::Slushy.can_modify());
    assert!(FenceZone::Liquid.can_modify());
}

#[test]
fn test_requires_approval() {
    assert!(!FenceZone::Frozen.requires_approval());
    assert!(FenceZone::Slushy.requires_approval());
    assert!(!FenceZone::Liquid.requires_approval());
}

#[test]
fn test_boundaries() {
    let hour = 3_600_000i64;
    let config = TimeFenceConfig::new(100_000, 24, 48);
    assert_eq!(config.frozen_boundary(), 100_000 + 24 * hour);
    assert_eq!(config.slushy_boundary(), 100_000 + 72 * hour);
}

#[test]
fn zone_boundaries_are_exclusive_at_the_end() {
    let hour = 3_600_000i64;
    let config = TimeFenceConfig::default_with_time(0);
    assert_eq!(config.get_zone(24 * hour - 1), FenceZone::Frozen);
    assert_eq!(config.get_zone(24 * hour), FenceZone::Slushy);
    assert_eq!(config.get_zone(72 * hour), FenceZone::Liquid);
    assert!(!config.can_modify_operation(0));
    assert!(config.can_modify_operation(24 * hour));
}

#[test]
fn moving_frozen_work_is_reported() {
    let checker = TimeFenceChecker::new(TimeFenceConfig::new(0, 24, 48));
    let mut old_s = Schedule::new();
    old_s.add_assignment(Assignment::new("OP-1", "J", "M1", 1000, 2000));
    old_s.add_assignment(Assignment::new("OP-2", "J", "M1", 100 * 3_600_000, 100 * 3_600_000 + 10));
    let mut new_s = Schedule::new();
    new_s.add_assignment(Assignment::new("OP-1", "J", "M2", 5000, 6000));
    new_s.add_assignment(Assignment::new("OP-2", "J", "M1", 101 * 3_600_000, 101 * 3_600_000 + 10));
    let v = checker.check_schedule_change(&old_s, &new_s);
    assert_eq!(v.len(), 2);
    assert_eq!(v[0].operation_id, "OP-1");
    assert!(matches!(v[0].violation_type, FenceViolationType::TimeChanged { old_start: 1000, new_start: 5000 }));
    assert!(matches!(v[1].violation_type, FenceViolationType::ResourceChanged { .. }));
    let unchanged = checker.check_schedule_change(&old_s, &old_s);
    assert!(unchanged.is_empty());
    let deleted = checker.check_schedule_change(&old_s, &Schedule::new());
    assert_eq!(deleted.len(), 1);
    assert!(matches!(deleted[0].violation_type, FenceViolationType::OperationDeleted));
}

#[test]
fn single_change_outside_frozen_zone_is_allowed() {
    let checker = TimeFenceChecker::new(TimeFenceConfig::new(0, 24, 48));
    assert!(checker.check_single_change("OP-1", 30 * 3_600_000, 40 * 3_600_000).is_none());
    assert!(checker.check_single_change("OP-1", 1000, 1000).is_none());
    let v = checker.check_single_change("OP-1", 1000, 2000).unwrap();
    assert_eq!(v.zone, FenceZone::Frozen);
    assert_eq!(v.time_ms, 1000);
}
