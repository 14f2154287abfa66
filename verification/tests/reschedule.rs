use uaps_engine::reschedule::{EventCategory, RescheduleStrategy, ScheduleEvent};
use uaps_engine::rescheduler::Rescheduler;
use uaps_engine::schedule::{Assignment, Schedule};
use uaps_engine::time_fence::{TimeFenceChecker, TimeFenceConfig};

fn assignment(op: &str, job: &str, res: &str, start: i64, end: i64) -> Assignment {
    Assignment {
        operation_id: op.into(),
        job_id: job.into(),
        resource_id: res.into(),
        start_ms: start,
        end_ms: end,
        setup_ms: 0,
        site_id: None,
    }
}

fn create_test_schedule() -> Schedule {
    Schedule {
        assignments: vec![
            assignment("op1", "job1", "m1", 0, 10_000),
            assignment("op2", "job1", "m1", 10_000, 20_000),
            assignment("op3", "job2", "m2", 5_000, 15_000),
        ],
        makespan_ms: 20_000,
        violations: vec![],
        tasks: vec![],
    }
}

#[test]
fn test_right_shift() {
    let schedule = create_test_schedule();
    let rescheduler = Rescheduler::new();
    let event = ScheduleEvent::OperationDelay { operation_id: "op1".into(), delay_ms: 5_000 };
    let result = rescheduler.right_shift(&schedule, &event);
    assert_eq!(result.strategy_used, RescheduleStrategy::RightShift);
    assert!(result.affected_operations.contains(&"op1".to_string()));
}

#[test]
fn right_shift_pushes_followers() {
    let schedule = create_test_schedule();
    let event = ScheduleEvent::OperationDelay { operation_id: "op1".into(), delay_ms: 5_000 };
    let result = Rescheduler::new().right_shift(&schedule, &event);
    let a = &result.schedule.assignments;
    assert_eq!((a[0].start_ms, a[0].end_ms), (5_000, 15_000));
    assert_eq!((a[1].start_ms, a[1].end_ms), (15_000, 25_000));
    assert_eq!((a[2].start_ms, a[2].end_ms), (5_000, 15_000));
    assert_eq!(result.affected_operations.len(), 2);
    assert_eq!(result.stats.operations_changed, 2);
    assert_eq!(result.stats.total_delay_change_ms, 10_000);
    assert_eq!(result.stats.makespan_change_ms, 5_000);
    assert_eq!(result.schedule.makespan_ms, 25_000);
}

#[test]
fn test_machine_breakdown() {
    let schedule = create_test_schedule();
    let rescheduler = Rescheduler::new();
    let event = ScheduleEvent::MachineBreakdown { resource_id: "m1".into(), start_ms: 5_000, duration_ms: 10_000 };
    let result = rescheduler.right_shift(&schedule, &event);
    assert!(!result.affected_operations.is_empty());
}

#[test]
fn breakdown_moves_overlapping_work_to_its_end() {
    let schedule = create_test_schedule();
    let event = ScheduleEvent::MachineBreakdown { resource_id: "m1".into(), start_ms: 5_000, duration_ms: 10_000 };
    let result = Rescheduler::new().right_shift(&schedule, &event);
    let a = &result.schedule.assignments;
    assert_eq!((a[0].start_ms, a[0].end_ms), (15_000, 25_000));
    assert_eq!((a[1].start_ms, a[1].end_ms), (15_000, 25_000));
    assert_eq!((a[2].start_ms, a[2].end_ms), (5_000, 15_000));
}

#[test]
fn test_auto_strategy_selection() {
    let schedule = create_test_schedule();
    let rescheduler = Rescheduler::new();
    let event = ScheduleEvent::OperationDelay { operation_id: "op1".into(), delay_ms: 1_000 };
    let result = rescheduler.auto_reschedule(&schedule, &event);
    assert_eq!(result.strategy_used, RescheduleStrategy::RightShift);
}

#[test]
fn auto_reschedule_without_affected_work_changes_nothing() {
    let schedule = create_test_schedule();
    let event = ScheduleEvent::MaterialArrival { material_id: "m".into(), quantity_milli: 1, arrival_time_ms: 0 };
    let result = Rescheduler::new().auto_reschedule(&schedule, &event);
    assert!(result.affected_operations.is_empty());
    assert_eq!(result.stats.operations_changed, 0);
    assert_eq!(result.schedule.assignments.len(), 3);
}

#[test]
fn auto_reschedule_regenerates_for_urgent_orders() {
    let mut schedule = create_test_schedule();
    schedule.assignments.push(assignment("op4", "job3", "m2", 15_000, 16_000));
    let event = ScheduleEvent::UrgentOrder { job_id: "job9".into(), priority: 1 };
    let result = Rescheduler::new().auto_reschedule(&schedule, &event);
    assert_eq!(result.strategy_used, RescheduleStrategy::TotalRegeneration);
    assert_eq!(result.affected_operations.len(), 4);
}

#[test]
fn reschedule_test_with_time_fence() {
    let schedule = create_test_schedule();
    let fence = TimeFenceConfig::new(0, 0, 0);
    let rescheduler = Rescheduler::new().with_fence(fence);
    let event = ScheduleEvent::OperationDelay { operation_id: "op1".into(), delay_ms: 5_000 };
    let result = rescheduler.right_shift(&schedule, &event);
    assert!(!result.affected_operations.is_empty());
}

#[test]
fn frozen_work_is_not_moved() {
    let schedule = create_test_schedule();
    let fence = TimeFenceConfig::new(0, 1, 0);
    let rescheduler = Rescheduler::new().with_fence(fence);
    assert!(!rescheduler.can_reschedule_assignment(&schedule.assignments[0]));
    assert!(!rescheduler.can_reschedule_operation(&schedule, "op1"));
    assert!(rescheduler.can_reschedule_operation(&schedule, "op-missing"));
    let event = ScheduleEvent::OperationDelay { operation_id: "op1".into(), delay_ms: 5_000 };
    let result = rescheduler.right_shift(&schedule, &event);
    assert!(result.affected_operations.is_empty());
    assert_eq!(result.schedule.assignments[0].start_ms, 0);
    let regen = rescheduler.total_regeneration(&schedule, &event);
    assert!(regen.affected_operations.is_empty());
    assert_eq!(regen.schedule.assignments.len(), 3);
    assert_eq!(regen.schedule.makespan_ms, 20_000);
}

#[test]
fn aor_moves_affected_work_past_busy_resource() {
    let schedule = Schedule {
        assignments: vec![
            assignment("a", "j1", "m1", 0, 10_000),
            assignment("b", "j2", "m1", 2_000, 6_000),
            assignment("c", "j3", "m1", 1_000, 3_000),
        ],
        makespan_ms: 10_000,
        violations: vec![],
        tasks: vec![],
    };
    let event = ScheduleEvent::OrderCancellation { job_id: "j2".into() };
    let result = Rescheduler::new().aor(&schedule, &event);
    assert_eq!(result.strategy_used, RescheduleStrategy::AOR);
    assert_eq!(result.affected_operations, vec!["b".to_string()]);
    assert_eq!(result.schedule.assignments[1].start_ms, 10_000);
    assert_eq!(result.schedule.assignments[1].end_ms, 14_000);
    assert_eq!(result.schedule.assignments[2].start_ms, 1_000);
    assert_eq!(result.stats.total_delay_change_ms, 8_000);
}

#[test]
fn regeneration_places_work_after_resource_and_job() {
    let schedule = create_test_schedule();
    let event = ScheduleEvent::UrgentOrder { job_id: "x".into(), priority: 1 };
    let result = Rescheduler::new().total_regeneration(&schedule, &event);
    let a = &result.schedule.assignments;
    assert_eq!(result.affected_operations, vec!["op1".to_string(), "op2".to_string(), "op3".to_string()]);
    assert_eq!((a[0].operation_id.as_str(), a[0].start_ms, a[0].end_ms), ("op1", 0, 10_000));
    assert_eq!((a[1].operation_id.as_str(), a[1].start_ms, a[1].end_ms), ("op3", 0, 10_000));
    assert_eq!((a[2].operation_id.as_str(), a[2].start_ms, a[2].end_ms), ("op2", 10_000, 20_000));
    assert_eq!(result.schedule.makespan_ms, 20_000);
    assert_eq!(result.stats.total_delay_change_ms, -5_000);
}

#[test]
fn identify_affected_operations_by_event() {
    let schedule = create_test_schedule();
    let r = Rescheduler::new();
    let w = ScheduleEvent::WorkerUnavailable { worker_id: "m2".into(), start_ms: 0, duration_ms: 6_000, replacement_id: None };
    assert_eq!(r.identify_affected_operations(&schedule, &w), vec!["op3".to_string()]);
    let c = ScheduleEvent::OrderCancellation { job_id: "job1".into() };
    assert_eq!(r.identify_affected_operations(&schedule, &c), vec!["op1".to_string(), "op2".to_string()]);
    let m = ScheduleEvent::MaterialShortage { material_id: "x".into(), shortage_qty_milli: 5, affected_operations: vec!["op9".into()] };
    assert_eq!(r.identify_affected_operations(&schedule, &m), vec!["op9".to_string()]);
    let p = ScheduleEvent::PriorityChange { job_id: "job1".into(), new_priority: 3 };
    assert!(r.identify_affected_operations(&schedule, &p).is_empty());
}

#[test]
fn test_event_severity() {
    let material_shortage = ScheduleEvent::MaterialShortage {
        material_id: "mat1".into(),
        shortage_qty_milli: 100_000,
        affected_operations: vec!["op1".into(), "op2".into()],
    };
    assert!(material_shortage.severity() > 800);
    let machine_breakdown = ScheduleEvent::MachineBreakdown { resource_id: "m1".into(), start_ms: 0, duration_ms: 10_000 };
    assert!(machine_breakdown.severity() > 800);
    let quality_defect = ScheduleEvent::QualityDefect { operation_id: "op1".into(), rework_qty_milli: 10_000, additional_time_ms: 5_000 };
    assert!(quality_defect.severity() >= 700 && quality_defect.severity() <= 850);
    let due_date_change = ScheduleEvent::DueDateChange { job_id: "job1".into(), new_due_date_ms: 100_000 };
    assert!(due_date_change.severity() >= 400 && due_date_change.severity() <= 600);
    let material_arrival = ScheduleEvent::MaterialArrival { material_id: "mat1".into(), quantity_milli: 100_000, arrival_time_ms: 50_000 };
    assert!(material_arrival.severity() <= 300);
}

#[test]
fn test_event_recommended_strategy() {
    let material_shortage = ScheduleEvent::MaterialShortage { material_id: "mat1".into(), shortage_qty_milli: 100_000, affected_operations: vec!["op1".into()] };
    assert_eq!(material_shortage.recommended_strategy(), RescheduleStrategy::Full);
    let machine_breakdown = ScheduleEvent::MachineBreakdown { resource_id: "m1".into(), start_ms: 0, duration_ms: 10_000 };
    assert_eq!(machine_breakdown.recommended_strategy(), RescheduleStrategy::Partial);
    let operation_delay = ScheduleEvent::OperationDelay { operation_id: "op1".into(), delay_ms: 1_000 };
    assert_eq!(operation_delay.recommended_strategy(), RescheduleStrategy::Partial);
    let machine_recovered = ScheduleEvent::MachineRecovered { resource_id: "m1".into(), recovered_at_ms: 5_000 };
    assert_eq!(machine_recovered.recommended_strategy(), RescheduleStrategy::RightShift);
}

#[test]
fn severity_thresholds_pick_strategies() {
    let quality = ScheduleEvent::QualityDefect { operation_id: "o".into(), rework_qty_milli: 1, additional_time_ms: 1 };
    assert_eq!(quality.recommended_strategy(), RescheduleStrategy::TotalRegeneration);
    let due = ScheduleEvent::DueDateChange { job_id: "j".into(), new_due_date_ms: 1 };
    assert_eq!(due.recommended_strategy(), RescheduleStrategy::AOR);
    let prio = ScheduleEvent::PriorityChange { job_id: "j".into(), new_priority: 1 };
    assert_eq!(prio.recommended_strategy(), RescheduleStrategy::RightShift);
    let lost = ScheduleEvent::WorkerSkillChange { worker_id: "w".into(), skill_id: "s".into(), acquired: false };
    assert_eq!(lost.severity(), 500);
    assert_eq!(lost.recommended_strategy(), RescheduleStrategy::AOR);
    let faster = ScheduleEvent::EfficiencyChange { resource_id: "m".into(), new_efficiency_milli: 1200 };
    assert_eq!(faster.severity(), 100);
}

#[test]
fn test_event_affected_resources() {
    let machine_breakdown = ScheduleEvent::MachineBreakdown { resource_id: "m1".into(), start_ms: 0, duration_ms: 10_000 };
    assert_eq!(machine_breakdown.affected_resources(), vec!["m1"]);
    let worker_unavailable = ScheduleEvent::WorkerUnavailable { worker_id: "w1".into(), start_ms: 0, duration_ms: 10_000, replacement_id: Some("w2".into()) };
    let resources = worker_unavailable.affected_resources();
    assert!(resources.contains(&"w1".to_string()));
    assert!(resources.contains(&"w2".to_string()));
    let maintenance = ScheduleEvent::MaintenanceScheduled { resource_id: "m2".into(), start_ms: 0, duration_ms: 5_000 };
    assert_eq!(maintenance.affected_resources(), vec!["m2"]);
}

#[test]
fn test_event_category() {
    let op_delay = ScheduleEvent::OperationDelay { operation_id: "op1".into(), delay_ms: 1_000 };
    assert_eq!(op_delay.category(), EventCategory::Operation);
    let machine_breakdown = ScheduleEvent::MachineBreakdown { resource_id: "m1".into(), start_ms: 0, duration_ms: 10_000 };
    assert_eq!(machine_breakdown.category(), EventCategory::Equipment);
    let worker_unavailable = ScheduleEvent::WorkerUnavailable { worker_id: "w1".into(), start_ms: 0, duration_ms: 10_000, replacement_id: None };
    assert_eq!(worker_unavailable.category(), EventCategory::Worker);
    let material_shortage = ScheduleEvent::MaterialShortage { material_id: "mat1".into(), shortage_qty_milli: 100_000, affected_operations: vec![] };
    assert_eq!(material_shortage.category(), EventCategory::Material);
    let due_date_change = ScheduleEvent::DueDateChange { job_id: "job1".into(), new_due_date_ms: 100_000 };
    assert_eq!(due_date_change.category(), EventCategory::Order);
}

#[test]
fn test_material_events() {
    let schedule = create_test_schedule();
    let rescheduler = Rescheduler::new();
    let material_delay = ScheduleEvent::MaterialDelay { material_id: "mat1".into(), original_arrival_ms: 0, new_arrival_ms: 10_000 };
    let result = rescheduler.auto_reschedule(&schedule, &material_delay);
    assert!(!result.strategy_used.name().is_empty());
    let material_arrival = ScheduleEvent::MaterialArrival { material_id: "mat1".into(), quantity_milli: 100_000, arrival_time_ms: 0 };
    assert!(material_arrival.severity() < 300);
}

#[test]
fn test_worker_events() {
    let worker_unavailable = ScheduleEvent::WorkerUnavailable { worker_id: "w1".into(), start_ms: 0, duration_ms: 20_000, replacement_id: Some("w2".into()) };
    assert!(worker_unavailable.severity() < 800);
    let worker_available = ScheduleEvent::WorkerAvailable { worker_id: "w1".into(), available_from_ms: 10_000 };
    assert!(worker_available.severity() < 300);
    let skill_acquired = ScheduleEvent::WorkerSkillChange { worker_id: "w1".into(), skill_id: "welding".into(), acquired: true };
    assert!(skill_acquired.severity() < 300);
}

#[test]
fn test_quality_events() {
    let quality_defect = ScheduleEvent::QualityDefect { operation_id: "op1".into(), rework_qty_milli: 50_000, additional_time_ms: 30_000 };
    assert!(quality_defect.severity() >= 700);
    assert_eq!(quality_defect.category(), EventCategory::Operation);
    let inspection_delay = ScheduleEvent::InspectionDelay { operation_id: "op2".into(), delay_ms: 5_000 };
    assert!(inspection_delay.severity() >= 300 && inspection_delay.severity() <= 500);
}

#[test]
fn test_equipment_events() {
    let maintenance = ScheduleEvent::MaintenanceScheduled { resource_id: "m1".into(), start_ms: 50_000, duration_ms: 10_000 };
    assert!(maintenance.severity() < 700);
    let efficiency_drop = ScheduleEvent::EfficiencyChange { resource_id: "m1".into(), new_efficiency_milli: 700 };
    assert!(efficiency_drop.severity() >= 400);
    let recovered = ScheduleEvent::MachineRecovered { resource_id: "m1".into(), recovered_at_ms: 15_000 };
    assert!(recovered.severity() < 300);
    assert_eq!(recovered.recommended_strategy(), RescheduleStrategy::RightShift);
}

#[test]
fn test_order_events() {
    let due_date_change = ScheduleEvent::DueDateChange { job_id: "job1".into(), new_due_date_ms: 50_000 };
    assert_eq!(due_date_change.category(), EventCategory::Order);
    assert!(due_date_change.severity() >= 400 && due_date_change.severity() <= 500);
    let quantity_change = ScheduleEvent::QuantityChange { job_id: "job1".into(), new_quantity: 200 };
    assert!(quantity_change.severity() >= 300 && quantity_change.severity() <= 500);
    let priority_change = ScheduleEvent::PriorityChange { job_id: "job1".into(), new_priority: 1 };
    assert!(priority_change.severity() >= 200 && priority_change.severity() <= 400);
}

#[test]
fn strategy_names() {
    assert_eq!(RescheduleStrategy::RightShift.name(), "RightShift");
    assert_eq!(RescheduleStrategy::TotalRegeneration.name(), "TotalRegeneration");
    assert_eq!(RescheduleStrategy::AOR.name(), "AOR");
}

#[test]
fn repairs_pass_the_fence_check() {
    let schedule = create_test_schedule();
    let fence = TimeFenceConfig { frozen_end_ms: 8_000, slushy_end_ms: 9_000, current_time_ms: 0 };
    let rescheduler = Rescheduler::new().with_fence(fence);
    let checker = TimeFenceChecker::new(fence);
    let delay = ScheduleEvent::OperationDelay { operation_id: "op2".into(), delay_ms: 3_000 };
    let shifted = rescheduler.right_shift(&schedule, &delay);
    assert_eq!(shifted.affected_operations, vec!["op2".to_string()]);
    assert!(checker.check_schedule_change(&schedule, &shifted.schedule).is_empty());
    let urgent = ScheduleEvent::UrgentOrder { job_id: "x".into(), priority: 1 };
    let regen = rescheduler.total_regeneration(&schedule, &urgent);
    assert_eq!(regen.affected_operations, vec!["op2".to_string()]);
    assert!(checker.check_schedule_change(&schedule, &regen.schedule).is_empty());
    let aor = rescheduler.aor(&schedule, &urgent);
    assert!(checker.check_schedule_change(&schedule, &aor.schedule).is_empty());
}

#[test]
fn right_shift_recomputes_makespan() {
    let mut s = Schedule::new();
    s.add_assignment(Assignment::new("O1", "J1", "M1", 0, 30_000));
    s.add_assignment(Assignment::new("O2", "J1", "M1", 30_000, 60_000));
    let ev = ScheduleEvent::OperationDelay { operation_id: "O1".into(), delay_ms: 10_000 };
    let r = Rescheduler::new().right_shift(&s, &ev);
    assert_eq!((r.schedule.assignments[0].start_ms, r.schedule.assignments[0].end_ms), (10_000, 40_000));
    assert_eq!((r.schedule.assignments[1].start_ms, r.schedule.assignments[1].end_ms), (40_000, 70_000));
    assert_eq!(r.stats.makespan_change_ms, 10_000);
    assert_eq!(r.schedule.makespan_ms, 70_000);
    assert_eq!(s.makespan_ms, 60_000);
}

#[test]
fn regeneration_keeps_each_jobs_work_in_order() {
    let mut schedule = Schedule::new();
    schedule.add_assignment(Assignment::new("opA", "J", "m1", 0, 5_000));
    schedule.add_assignment(Assignment::new("opB", "J", "m2", 1_000, 4_000));
    let event = ScheduleEvent::UrgentOrder { job_id: "x".into(), priority: 1 };
    let result = Rescheduler::new().total_regeneration(&schedule, &event);
    let a = &result.schedule.assignments;
    assert_eq!((a[0].operation_id.as_str(), a[0].start_ms, a[0].end_ms), ("opA", 0, 5_000));
    assert_eq!((a[1].operation_id.as_str(), a[1].start_ms, a[1].end_ms), ("opB", 5_000, 8_000));
    assert!(a[0].end_ms <= a[1].start_ms);
}
