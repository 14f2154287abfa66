use uaps_engine::constraint::{Constraint, ConstraintType, ConstraintValue, Violation};
use uaps_engine::schedule::{Assignment, Schedule};
use uaps_engine::task::Task;

#[test]
fn test_assignment_creation() {
    let assignment = Assignment::new("OP-001", "JOB-001", "EQP-001", 0, 60000);
    assert_eq!(assignment.operation_id, "OP-001");
    assert_eq!(assignment.job_id, "JOB-001");
    assert_eq!(assignment.duration_ms(), 60000);
}

#[test]
fn test_schedule_makespan() {
    let mut schedule = Schedule::new();
    schedule.add_assignment(Assignment::new("OP-001", "JOB-001", "EQP-001", 0, 30000));
    assert_eq!(schedule.makespan_ms, 30000);
    schedule.add_assignment(Assignment::new("OP-002", "JOB-001", "EQP-001", 30000, 60000));
    assert_eq!(schedule.makespan_ms, 60000);
    schedule.add_assignment(Assignment::new("OP-003", "JOB-002", "EQP-002", 0, 45000));
    assert_eq!(schedule.makespan_ms, 60000);
}

#[test]
fn test_schedule_queries() {
    let mut schedule = Schedule::new();
    schedule.add_assignment(Assignment::new("OP-001", "JOB-001", "EQP-001", 0, 30000));
    schedule.add_assignment(Assignment::new("OP-002", "JOB-001", "EQP-001", 30000, 60000));
    schedule.add_assignment(Assignment::new("OP-003", "JOB-002", "EQP-002", 0, 45000));
    assert_eq!(schedule.assignments_for_resource("EQP-001").len(), 2);
    assert_eq!(schedule.assignments_for_resource("EQP-002").len(), 1);
    let op = schedule.assignment_for_operation("OP-002").unwrap();
    assert_eq!(op.start_ms, 30000);
}

#[test]
fn test_due_date_constraint() {
    let constraint = Constraint::due_date("JOB-001", 1000000);
    assert_eq!(constraint.constraint_type, ConstraintType::DueDate);
    assert_eq!(constraint.target_id, "JOB-001");
    assert!(!constraint.is_hard);
}

#[test]
fn test_earliest_start_constraint() {
    let constraint = Constraint::earliest_start("OP-001", 5000);
    assert_eq!(constraint.constraint_type, ConstraintType::EarliestStart);
    assert!(constraint.is_hard);
}

#[test]
fn test_precedence_constraint() {
    let constraint = Constraint::precedence("OP-002", "OP-001");
    assert_eq!(constraint.constraint_type, ConstraintType::Precedence);
    assert_eq!(constraint.target_id, "OP-002");
    if let ConstraintValue::StringRef(pred) = constraint.value {
        assert_eq!(pred, "OP-001");
    } else {
        panic!("Expected StringRef");
    }
}

#[test]
fn test_violation() {
    let violation = Violation::due_date_violation("JOB-001", 60000);
    assert_eq!(violation.target_id, "JOB-001");
    assert_eq!(violation.amount, 60000);
}

#[test]
fn violation_texts() {
    let v = Violation::due_date_violation("JOB-7", 1500);
    assert_eq!(v.constraint_id, "DUE-JOB-7");
    assert_eq!(v.message, "Job JOB-7 is late by 1500ms");
    let m = Violation::material_availability_violation("OP-1", "MAT-2", -20);
    assert_eq!(m.constraint_id, "MAT-AVAIL-OP-1-MAT-2");
    assert_eq!(m.amount, -20);
    let p = Constraint::precedence("B", "A");
    assert_eq!(p.id, "PREC-A-B");
}

#[test]
fn empty_schedule_is_on_time_and_queries_filter() {
    let mut schedule = Schedule::new();
    assert!(schedule.is_on_time());
    assert_eq!(schedule.makespan_ms, 0);
    schedule.add_task(Task::new("T1", "OP-1", "J1", 0, 100).with_equipment("M1".to_string()));
    schedule.add_task(Task::new("T2", "OP-1", "J1", 200, 900));
    assert_eq!(schedule.makespan_ms, 900);
    assert_eq!(schedule.tasks_for_operation("OP-1").len(), 2);
    assert_eq!(schedule.tasks_for_resource("M1").len(), 1);
    assert!(schedule.assignment_for_operation("OP-9").is_none());
    schedule.add_violation(Violation::due_date_violation("J1", 5));
    assert!(!schedule.is_on_time());
}
