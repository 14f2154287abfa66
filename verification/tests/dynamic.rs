use uaps_engine::dynamic::{DynamicScheduler, DynamicSchedulerConfig, RescheduleRequest};
use uaps_engine::reschedule::{RescheduleStrategy, ScheduleEvent};
use uaps_engine::schedule::{Assignment, Schedule};
use uaps_engine::time_fence::TimeFenceConfig;

fn assignment(op: &str, job: &str, res: &str, start: i64, end: i64) -> Assignment {
    Assignment {
        operation_id: op.into(),
        job_id: job.into(),
        resource_id: res.into(),
        start_ms: start,
        end_ms: end,
        setup_ms: 0,
        site_id: None,
    }
}

fn two_job_schedule() -> Schedule {
    Schedule {
        assignments: vec![
            assignment("J1-O1", "J1", "M1", 0, 30_000),
            assignment("J2-O1", "J2", "M2", 0, 25_000),
        ],
        makespan_ms: 30_000,
        violations: vec![],
        tasks: vec![],
    }
}

#[test]
fn test_validate_frozen_zone_change() {
    let fence = TimeFenceConfig::new(0, 24, 48);
    let scheduler = DynamicScheduler::default().with_time_fence(fence);

    let hour = 3_600_000i64;
    let violation = scheduler.validate_operation_change("op1", 12 * hour, 20 * hour);

    assert!(violation.is_some());
}

#[test]
fn test_liquid_zone_change_allowed() {
    let fence = TimeFenceConfig::new(0, 24, 48);
    let scheduler = DynamicScheduler::default().with_time_fence(fence);

    let hour = 3_600_000i64;
    let violation = scheduler.validate_operation_change("op1", 80 * hour, 90 * hour);

    assert!(violation.is_none());
}

#[test]
fn default_config_values() {
    let config = DynamicSchedulerConfig::default();
    assert!(config.fence_config.is_none());
    assert!(!config.enable_material_constraints);
    assert_eq!(config.default_reschedule_strategy, RescheduleStrategy::AOR);
}

#[test]
fn no_fence_means_no_violations() {
    let scheduler = DynamicScheduler::default_scheduler();
    assert!(scheduler.validate_operation_change("op1", 0, 10_000).is_none());
    let old = two_job_schedule();
    let new = Schedule { assignments: vec![], makespan_ms: 0, violations: vec![], tasks: vec![] };
    assert!(scheduler.validate_schedule_change(&old, &new).is_empty());
}

#[test]
fn fenced_schedule_change_reports_deleted_operation() {
    let fence = TimeFenceConfig::new(0, 24, 48);
    let scheduler = DynamicScheduler::new(DynamicSchedulerConfig::default()).with_time_fence(fence);
    let old = two_job_schedule();
    let new = Schedule {
        assignments: vec![assignment("J1-O1", "J1", "M1", 0, 30_000)],
        makespan_ms: 30_000,
        violations: vec![],
        tasks: vec![],
    };
    let violations = scheduler.validate_schedule_change(&old, &new);
    assert_eq!(violations.len(), 1);
    assert_eq!(violations[0].operation_id, "J2-O1");
}

#[test]
fn test_reschedule_operation_delay_right_shift() {
    let scheduler = DynamicScheduler::default();
    let event = ScheduleEvent::OperationDelay { operation_id: "J1-O1".to_string(), delay_ms: 5_000 };
    let result = scheduler.reschedule(RescheduleRequest {
        current_schedule: two_job_schedule(),
        event,
        strategy: Some(RescheduleStrategy::RightShift),
    });
    assert_eq!(result.strategy_used, RescheduleStrategy::RightShift);
    assert_eq!(result.schedule.assignments[0].start_ms, 5_000);
    assert_eq!(result.schedule.assignments[0].end_ms, 35_000);
    assert_eq!(result.schedule.assignments[1].start_ms, 0);
}

#[test]
fn partial_request_runs_aor_and_full_request_regenerates() {
    let scheduler = DynamicScheduler::default();
    let event = ScheduleEvent::UrgentOrder { job_id: "J9".into(), priority: 1 };
    let partial = scheduler.reschedule(RescheduleRequest {
        current_schedule: two_job_schedule(),
        event: event.clone(),
        strategy: Some(RescheduleStrategy::Partial),
    });
    assert_eq!(partial.strategy_used, RescheduleStrategy::AOR);
    let full = scheduler.reschedule(RescheduleRequest {
        current_schedule: two_job_schedule(),
        event,
        strategy: Some(RescheduleStrategy::Full),
    });
    assert_eq!(full.strategy_used, RescheduleStrategy::TotalRegeneration);
    assert_eq!(full.schedule.makespan_ms, 30_000);
}

#[test]
fn test_auto_reschedule_strategy_selection_small_delay() {
    let scheduler = DynamicScheduler::default();
    let event = ScheduleEvent::OperationDelay { operation_id: "J1-O1".to_string(), delay_ms: 1_000 };
    let result = scheduler.reschedule(RescheduleRequest {
        current_schedule: two_job_schedule(),
        event,
        strategy: None,
    });
    assert_eq!(result.strategy_used, RescheduleStrategy::RightShift);
    assert_eq!(result.affected_operations, vec!["J1-O1".to_string()]);
}

#[test]
fn breakdown_repair_never_shortens_the_schedule() {
    let scheduler = DynamicScheduler::default();
    let event = ScheduleEvent::MachineBreakdown { resource_id: "M1".to_string(), start_ms: 10_000, duration_ms: 20_000 };
    let result = scheduler.reschedule(RescheduleRequest {
        current_schedule: two_job_schedule(),
        event,
        strategy: None,
    });
    assert!(result.stats.makespan_change_ms >= 0);
}

#[test]
fn material_constraints_hold_work_back() {
    let scheduler = DynamicScheduler::default();
    let schedule = two_job_schedule();
    let (adjusted, delays) = scheduler.apply_material_constraints(&schedule, &vec![50_000, 0]);
    assert_eq!(adjusted.assignments[0].start_ms, 50_000);
    assert_eq!(adjusted.assignments[0].end_ms, 80_000);
    assert_eq!(adjusted.assignments[1].start_ms, 0);
    assert_eq!(adjusted.assignments[1].end_ms, 25_000);
    assert_eq!(adjusted.makespan_ms, 80_000);
    assert_eq!(delays.len(), 1);
    assert_eq!(delays[0].operation_id, "J1-O1");
    assert_eq!(delays[0].original_start_ms, 0);
    assert_eq!(delays[0].material_available_ms, 50_000);
    assert_eq!(delays[0].delay_ms, 50_000);
}

#[test]
fn material_constraints_on_empty_schedule() {
    let scheduler = DynamicScheduler::default();
    let schedule = Schedule { assignments: vec![], makespan_ms: 7, violations: vec![], tasks: vec![] };
    let (adjusted, delays) = scheduler.apply_material_constraints(&schedule, &vec![]);
    assert_eq!(adjusted.makespan_ms, 0);
    assert!(delays.is_empty());
}
