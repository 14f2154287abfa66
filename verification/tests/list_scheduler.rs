use uaps_engine::calendar::{Calendar, DailyWorkWindow};
use uaps_engine::job::{Job, Operation, Resource};
use uaps_engine::schedule::{Assignment, Schedule};
use uaps_engine::setup::{SetupMatrix, SetupMatrixCollection};
use uaps_engine::simple::{priority_order, ScheduleRequest, SimpleScheduler};

const MONDAY: i64 = 1705881600000;
const HOUR: i64 = 3_600_000;

fn eqp(ids: &[&str]) -> Vec<String> {
    ids.iter().map(|s| s.to_string()).collect()
}

#[test]
fn test_single_job_single_resource() {
    let job = Job::new("JOB-001")
        .with_operation(Operation::new("OP-001", "JOB-001", 1).with_time(0, 30000, 0).with_equipment(eqp(&["EQP-001"])))
        .with_operation(Operation::new("OP-002", "JOB-001", 2).with_time(0, 45000, 0).with_equipment(eqp(&["EQP-001"])));
    let request = ScheduleRequest::new(vec![job], vec![Resource::equipment("EQP-001")]);
    let schedule = SimpleScheduler::new().schedule(&request);
    assert_eq!(schedule.assignments.len(), 2);
    assert_eq!(schedule.makespan_ms, 75000);
    let op1 = schedule.assignment_for_operation("OP-001").unwrap();
    let op2 = schedule.assignment_for_operation("OP-002").unwrap();
    assert_eq!(op1.start_ms, 0);
    assert_eq!(op1.end_ms, 30000);
    assert_eq!(op2.start_ms, 30000);
    assert_eq!(op2.end_ms, 75000);
}

#[test]
fn test_multiple_jobs_priority() {
    let job_low = Job::new("JOB-LOW").with_priority(10).with_operation(
        Operation::new("OP-LOW", "JOB-LOW", 1).with_time(0, 20000, 0).with_equipment(eqp(&["EQP-001"])),
    );
    let job_high = Job::new("JOB-HIGH").with_priority(1).with_operation(
        Operation::new("OP-HIGH", "JOB-HIGH", 1).with_time(0, 30000, 0).with_equipment(eqp(&["EQP-001"])),
    );
    let request = ScheduleRequest::new(vec![job_low, job_high], vec![Resource::equipment("EQP-001")]);
    let schedule = SimpleScheduler::new().schedule(&request);
    assert_eq!(schedule.assignment_for_operation("OP-HIGH").unwrap().start_ms, 0);
    assert_eq!(schedule.assignment_for_operation("OP-LOW").unwrap().start_ms, 30000);
}

#[test]
fn test_parallel_resources() {
    let job1 = Job::new("JOB-001").with_operation(
        Operation::new("OP-001", "JOB-001", 1).with_time(0, 30000, 0).with_equipment(eqp(&["EQP-001", "EQP-002"])),
    );
    let job2 = Job::new("JOB-002").with_operation(
        Operation::new("OP-002", "JOB-002", 1).with_time(0, 30000, 0).with_equipment(eqp(&["EQP-001", "EQP-002"])),
    );
    let request = ScheduleRequest::new(vec![job1, job2], vec![Resource::equipment("EQP-001"), Resource::equipment("EQP-002")]);
    let schedule = SimpleScheduler::new().schedule(&request);
    assert_eq!(schedule.makespan_ms, 30000);
    let op1 = schedule.assignment_for_operation("OP-001").unwrap();
    let op2 = schedule.assignment_for_operation("OP-002").unwrap();
    assert_ne!(op1.resource_id, op2.resource_id);
}

#[test]
fn test_operation_with_setup_and_wait() {
    let job = Job::new("JOB-001").with_operation(
        Operation::new("OP-001", "JOB-001", 1).with_time(10000, 30000, 5000).with_equipment(eqp(&["EQP-001"])),
    );
    let request = ScheduleRequest::new(vec![job], vec![Resource::equipment("EQP-001")]);
    let schedule = SimpleScheduler::new().schedule(&request);
    assert_eq!(schedule.assignment_for_operation("OP-001").unwrap().duration_ms(), 45000);
}

#[test]
fn test_due_date_on_time() {
    let job = Job::new("JOB-001").with_due_date(100000).with_operation(
        Operation::new("OP-001", "JOB-001", 1).with_time(0, 30000, 0).with_equipment(eqp(&["EQP-001"])),
    );
    let request = ScheduleRequest::new(vec![job], vec![Resource::equipment("EQP-001")]);
    let schedule = SimpleScheduler::new().schedule(&request);
    assert!(schedule.is_on_time());
    assert!(schedule.violations.is_empty());
}

#[test]
fn test_due_date_violation() {
    let job = Job::new("JOB-001").with_due_date(20000).with_operation(
        Operation::new("OP-001", "JOB-001", 1).with_time(0, 30000, 0).with_equipment(eqp(&["EQP-001"])),
    );
    let request = ScheduleRequest::new(vec![job], vec![Resource::equipment("EQP-001")]);
    let schedule = SimpleScheduler::new().schedule(&request);
    assert!(!schedule.is_on_time());
    assert_eq!(schedule.violations.len(), 1);
    assert_eq!(schedule.violations[0].amount, 10000);
}

#[test]
fn test_multiple_jobs_due_dates() {
    let job1 = Job::new("JOB-001").with_due_date(50000).with_priority(1).with_operation(
        Operation::new("OP-001", "JOB-001", 1).with_time(0, 30000, 0).with_equipment(eqp(&["EQP-001"])),
    );
    let job2 = Job::new("JOB-002").with_due_date(40000).with_priority(2).with_operation(
        Operation::new("OP-002", "JOB-002", 1).with_time(0, 20000, 0).with_equipment(eqp(&["EQP-001"])),
    );
    let request = ScheduleRequest::new(vec![job1, job2], vec![Resource::equipment("EQP-001")]);
    let schedule = SimpleScheduler::new().schedule(&request);
    assert_eq!(schedule.violations.len(), 1);
    assert_eq!(schedule.violations[0].target_id, "JOB-002");
}

#[test]
fn test_setup_matrix_basic() {
    let matrix = SetupMatrix::new("EQP-001")
        .with_default_setup(10000)
        .with_setup("ProductA", "ProductB", 20000)
        .with_setup("ProductB", "ProductA", 15000);
    let setup_matrices = SetupMatrixCollection::new().with_matrix(matrix);
    let job1 = Job::new("JOB-001").with_product("ProductA").with_operation(
        Operation::new("OP-001", "JOB-001", 1).with_time(0, 30000, 0).with_equipment(eqp(&["EQP-001"])),
    );
    let job2 = Job::new("JOB-002").with_product("ProductB").with_operation(
        Operation::new("OP-002", "JOB-002", 1).with_time(0, 20000, 0).with_equipment(eqp(&["EQP-001"])),
    );
    let job3 = Job::new("JOB-003").with_product("ProductA").with_operation(
        Operation::new("OP-003", "JOB-003", 1).with_time(0, 25000, 0).with_equipment(eqp(&["EQP-001"])),
    );
    let request = ScheduleRequest::new(vec![job1, job2, job3], vec![Resource::equipment("EQP-001")])
        .with_setup_matrices(setup_matrices);
    let schedule = SimpleScheduler::new().schedule(&request);
    let op1 = schedule.assignment_for_operation("OP-001").unwrap();
    let op2 = schedule.assignment_for_operation("OP-002").unwrap();
    let op3 = schedule.assignment_for_operation("OP-003").unwrap();
    assert_eq!(op1.start_ms, 0);
    assert_eq!(op1.end_ms, 40000);
    assert_eq!(op2.start_ms, 40000);
    assert_eq!(op2.end_ms, 80000);
    assert_eq!(op3.start_ms, 80000);
    assert_eq!(op3.end_ms, 120000);
    assert_eq!(schedule.makespan_ms, 120000);
}

#[test]
fn test_setup_matrix_same_product() {
    let matrix = SetupMatrix::new("EQP-001").with_default_setup(30000);
    let setup_matrices = SetupMatrixCollection::new().with_matrix(matrix);
    let job1 = Job::new("JOB-001").with_product("ProductA").with_operation(
        Operation::new("OP-001", "JOB-001", 1).with_time(0, 20000, 0).with_equipment(eqp(&["EQP-001"])),
    );
    let job2 = Job::new("JOB-002").with_product("ProductA").with_operation(
        Operation::new("OP-002", "JOB-002", 1).with_time(0, 20000, 0).with_equipment(eqp(&["EQP-001"])),
    );
    let request = ScheduleRequest::new(vec![job1, job2], vec![Resource::equipment("EQP-001")])
        .with_setup_matrices(setup_matrices);
    let schedule = SimpleScheduler::new().schedule(&request);
    let op1 = schedule.assignment_for_operation("OP-001").unwrap();
    let op2 = schedule.assignment_for_operation("OP-002").unwrap();
    assert_eq!(op1.end_ms, 50000);
    assert_eq!(op2.start_ms, 50000);
    assert_eq!(op2.end_ms, 70000);
    assert_eq!(schedule.makespan_ms, 70000);
}

#[test]
fn test_multi_resource_equipment_and_worker() {
    let job = Job::new("JOB-001").with_operation(
        Operation::new("OP-001", "JOB-001", 1).with_time(0, 30000, 0).with_equipment(eqp(&["EQP-001"])).with_workers(1),
    );
    let request = ScheduleRequest::new(vec![job], vec![Resource::equipment("EQP-001"), Resource::worker("WRK-001")]);
    let schedule = SimpleScheduler::new().schedule(&request);
    let op = schedule.assignment_for_operation("OP-001").unwrap();
    assert_eq!(op.start_ms, 0);
    assert_eq!(op.end_ms, 30000);
}

#[test]
fn test_multi_resource_wait_for_worker() {
    let job1 = Job::new("JOB-001").with_operation(Operation::new("OP-001", "JOB-001", 1).with_time(0, 20000, 0).with_workers(1));
    let job2 = Job::new("JOB-002").with_operation(
        Operation::new("OP-002", "JOB-002", 1).with_time(0, 30000, 0).with_equipment(eqp(&["EQP-001"])).with_workers(1),
    );
    let request = ScheduleRequest::new(vec![job1, job2], vec![Resource::equipment("EQP-001"), Resource::worker("WRK-001")]);
    let schedule = SimpleScheduler::new().schedule(&request);
    let op1 = schedule.assignment_for_operation("OP-001").unwrap();
    let op2 = schedule.assignment_for_operation("OP-002").unwrap();
    assert_eq!(op1.start_ms, 0);
    assert_eq!(op1.end_ms, 20000);
    assert_eq!(op2.start_ms, 20000);
    assert_eq!(op2.end_ms, 50000);
}

#[test]
fn test_multi_resource_multiple_workers() {
    let job = Job::new("JOB-001").with_operation(
        Operation::new("OP-001", "JOB-001", 1).with_time(0, 30000, 0).with_equipment(eqp(&["EQP-001"])).with_workers(2),
    );
    let resources = vec![Resource::equipment("EQP-001"), Resource::worker("WRK-001"), Resource::worker("WRK-002")];
    let request = ScheduleRequest::new(vec![job], resources);
    let schedule = SimpleScheduler::new().schedule(&request);
    let op = schedule.assignment_for_operation("OP-001").unwrap();
    assert_eq!(op.start_ms, 0);
    assert_eq!(op.end_ms, 30000);
}

#[test]
fn test_alternative_resource_prefer_higher_efficiency() {
    let job = Job::new("JOB-001").with_operation(
        Operation::new("OP-001", "JOB-001", 1).with_time(0, 60000, 0).with_equipment(eqp(&["EQP-001", "EQP-002"])),
    );
    let resources = vec![
        Resource::equipment("EQP-001").with_efficiency_milli(1000),
        Resource::equipment("EQP-002").with_efficiency_milli(1500),
    ];
    let request = ScheduleRequest::new(vec![job], resources);
    let schedule = SimpleScheduler::new().schedule(&request);
    let op = schedule.assignment_for_operation("OP-001").unwrap();
    assert_eq!(op.resource_id, "EQP-002");
    assert_eq!(op.end_ms, 40000);
}

#[test]
fn test_alternative_resource_efficiency_adjusts_time() {
    let job1 = Job::new("JOB-001").with_operation(
        Operation::new("OP-001", "JOB-001", 1).with_time(0, 60000, 0).with_equipment(eqp(&["EQP-FAST"])),
    );
    let job2 = Job::new("JOB-002").with_operation(
        Operation::new("OP-002", "JOB-002", 1).with_time(0, 60000, 0).with_equipment(eqp(&["EQP-SLOW"])),
    );
    let resources = vec![
        Resource::equipment("EQP-FAST").with_efficiency_milli(2000),
        Resource::equipment("EQP-SLOW").with_efficiency_milli(500),
    ];
    let request = ScheduleRequest::new(vec![job1, job2], resources);
    let schedule = SimpleScheduler::new().schedule(&request);
    assert_eq!(schedule.assignment_for_operation("OP-001").unwrap().end_ms, 30000);
    assert_eq!(schedule.assignment_for_operation("OP-002").unwrap().end_ms, 120000);
}

#[test]
fn test_alternative_resource_earlier_availability_wins() {
    let job1 = Job::new("JOB-001").with_priority(1).with_operation(
        Operation::new("OP-001", "JOB-001", 1).with_time(0, 30000, 0).with_equipment(eqp(&["EQP-002"])),
    );
    let job2 = Job::new("JOB-002").with_priority(2).with_operation(
        Operation::new("OP-002", "JOB-002", 1).with_time(0, 60000, 0).with_equipment(eqp(&["EQP-001", "EQP-002"])),
    );
    let resources = vec![
        Resource::equipment("EQP-001").with_efficiency_milli(1000),
        Resource::equipment("EQP-002").with_efficiency_milli(1500),
    ];
    let request = ScheduleRequest::new(vec![job1, job2], resources);
    let schedule = SimpleScheduler::new().schedule(&request);
    let op2 = schedule.assignment_for_operation("OP-002").unwrap();
    assert_eq!(op2.resource_id, "EQP-001");
    assert_eq!(op2.start_ms, 0);
    assert_eq!(op2.end_ms, 60000);
}

#[test]
fn test_unmanned_operation_no_worker_required() {
    let job = Job::new("JOB-001").with_operation(
        Operation::new("OP-001", "JOB-001", 1)
            .with_time(0, 30000, 0)
            .with_equipment(eqp(&["EQP-001"]))
            .with_workers(1)
            .unmanned(),
    );
    let request = ScheduleRequest::new(vec![job], vec![Resource::equipment("EQP-001"), Resource::worker("WRK-001")]);
    let schedule = SimpleScheduler::new().schedule(&request);
    let op = schedule.assignment_for_operation("OP-001").unwrap();
    assert_eq!(op.start_ms, 0);
    assert_eq!(op.end_ms, 30000);
    assert_eq!(op.resource_id, "EQP-001");
}

#[test]
fn test_unmanned_operation_parallel_jobs() {
    let job_unmanned = Job::new("JOB-UNMANNED").with_priority(2).with_operation(
        Operation::new("OP-UNMANNED", "JOB-UNMANNED", 1).with_time(0, 30000, 0).with_equipment(eqp(&["EQP-001"])).unmanned(),
    );
    let job_manned = Job::new("JOB-MANNED").with_priority(1).with_operation(
        Operation::new("OP-MANNED", "JOB-MANNED", 1).with_time(0, 20000, 0).with_equipment(eqp(&["EQP-002"])).with_workers(1),
    );
    let resources = vec![Resource::equipment("EQP-001"), Resource::equipment("EQP-002"), Resource::worker("WRK-001")];
    let request = ScheduleRequest::new(vec![job_unmanned, job_manned], resources);
    let schedule = SimpleScheduler::new().schedule(&request);
    assert_eq!(schedule.assignment_for_operation("OP-MANNED").unwrap().start_ms, 0);
    assert_eq!(schedule.assignment_for_operation("OP-UNMANNED").unwrap().start_ms, 0);
}

#[test]
fn test_linked_resource_robot_equipment_cooccupation() {
    let job1 = Job::new("JOB-001").with_priority(1).with_operation(
        Operation::new("OP-001", "JOB-001", 1).with_time(0, 30000, 0).with_equipment(eqp(&["ROBOT-001"])),
    );
    let job2 = Job::new("JOB-002").with_priority(2).with_operation(
        Operation::new("OP-002", "JOB-002", 1).with_time(0, 20000, 0).with_equipment(eqp(&["EQP-001"])),
    );
    let resources = vec![Resource::equipment("ROBOT-001").with_linked_resource("EQP-001"), Resource::equipment("EQP-001")];
    let request = ScheduleRequest::new(vec![job1, job2], resources);
    let schedule = SimpleScheduler::new().schedule(&request);
    let op1 = schedule.assignment_for_operation("OP-001").unwrap();
    let op2 = schedule.assignment_for_operation("OP-002").unwrap();
    assert_eq!(op1.start_ms, 0);
    assert_eq!(op1.end_ms, 30000);
    assert_eq!(op2.start_ms, 30000);
    assert_eq!(op2.end_ms, 50000);
}

#[test]
fn test_linked_resource_bidirectional() {
    let job1 = Job::new("JOB-001").with_priority(1).with_operation(
        Operation::new("OP-001", "JOB-001", 1).with_time(0, 30000, 0).with_equipment(eqp(&["EQP-001"])),
    );
    let job2 = Job::new("JOB-002").with_priority(2).with_operation(
        Operation::new("OP-002", "JOB-002", 1).with_time(0, 20000, 0).with_equipment(eqp(&["ROBOT-001"])),
    );
    let resources = vec![Resource::equipment("ROBOT-001").with_linked_resource("EQP-001"), Resource::equipment("EQP-001")];
    let request = ScheduleRequest::new(vec![job1, job2], resources);
    let schedule = SimpleScheduler::new().schedule(&request);
    assert_eq!(schedule.assignment_for_operation("OP-001").unwrap().start_ms, 0);
    assert_eq!(schedule.assignment_for_operation("OP-002").unwrap().start_ms, 30000);
}

#[test]
fn test_calendar_no_calendar_24_7() {
    let job = Job::new("JOB-001").with_operation(
        Operation::new("OP-001", "JOB-001", 1).with_time(0, 60000, 0).with_equipment(eqp(&["EQP-001"])),
    );
    let request = ScheduleRequest::new(vec![job], vec![Resource::equipment("EQP-001")]);
    let schedule = SimpleScheduler::new().schedule(&request);
    let op = schedule.assignment_for_operation("OP-001").unwrap();
    assert_eq!(op.start_ms, 0);
    assert_eq!(op.end_ms, 60000);
}

fn one_op_on_calendar(start: i64, process_ms: i64, calendar: Calendar) -> Schedule {
    let job = Job::new("JOB-001").with_operation(
        Operation::new("OP-001", "JOB-001", 1).with_time(0, process_ms, 0).with_equipment(eqp(&["EQP-001"])),
    );
    let request = ScheduleRequest::new(vec![job], vec![Resource::equipment("EQP-001").with_calendar("CAL-DAY")])
        .with_start_time(start)
        .with_calendar(calendar);
    SimpleScheduler::new().schedule(&request)
}

#[test]
fn test_calendar_start_during_working_hours() {
    let monday_10am = MONDAY + 10 * HOUR;
    let schedule = one_op_on_calendar(monday_10am, HOUR, Calendar::default_day());
    let op = schedule.assignment_for_operation("OP-001").unwrap();
    assert_eq!(op.start_ms, monday_10am);
    assert_eq!(op.end_ms, monday_10am + HOUR);
}

#[test]
fn test_calendar_start_before_shift() {
    let schedule = one_op_on_calendar(MONDAY + 6 * HOUR, 30 * 60 * 1000, Calendar::default_day());
    let op = schedule.assignment_for_operation("OP-001").unwrap();
    assert_eq!(op.start_ms, MONDAY + 8 * HOUR);
    assert_eq!(op.end_ms, MONDAY + 8 * HOUR + 30 * 60 * 1000);
}

#[test]
fn test_calendar_work_spans_lunch_break() {
    let schedule = one_op_on_calendar(MONDAY + 11 * HOUR, 3 * HOUR, Calendar::default_day());
    let op = schedule.assignment_for_operation("OP-001").unwrap();
    assert_eq!(op.start_ms, MONDAY + 11 * HOUR);
    assert_eq!(op.end_ms, MONDAY + 15 * HOUR);
}

#[test]
fn test_calendar_work_spans_weekend() {
    let friday_midnight = 1705622400000i64;
    let friday_4pm = friday_midnight + 16 * HOUR;
    let schedule = one_op_on_calendar(friday_4pm, 2 * HOUR, Calendar::default_day());
    let op = schedule.assignment_for_operation("OP-001").unwrap();
    assert_eq!(op.start_ms, friday_4pm);
    assert_eq!(op.end_ms, MONDAY + 9 * HOUR);
}

#[test]
fn test_calendar_with_holiday() {
    let calendar = Calendar::default_day().with_holiday(MONDAY);
    let schedule = one_op_on_calendar(MONDAY + 10 * HOUR, HOUR, calendar);
    let op = schedule.assignment_for_operation("OP-001").unwrap();
    let tuesday_8am = MONDAY + 24 * HOUR + 8 * HOUR;
    assert_eq!(op.start_ms, tuesday_8am);
    assert_eq!(op.end_ms, tuesday_8am + HOUR);
}

#[test]
fn test_multi_site_basic_filtering() {
    let job = Job::new("JOB-001").with_site("SITE-A").with_operation(
        Operation::new("OP-001", "JOB-001", 1).with_time(0, 30000, 0).with_equipment(eqp(&["EQP-A1", "EQP-B1"])),
    );
    let resources = vec![Resource::equipment("EQP-A1").with_site("SITE-A"), Resource::equipment("EQP-B1").with_site("SITE-B")];
    let request = ScheduleRequest::new(vec![job], resources);
    let schedule = SimpleScheduler::new().schedule(&request);
    let op = schedule.assignment_for_operation("OP-001").unwrap();
    assert_eq!(op.resource_id, "EQP-A1");
    assert_eq!(op.site_id.as_deref(), Some("SITE-A"));
}

#[test]
fn test_multi_site_no_constraint() {
    let job = Job::new("JOB-001").with_operation(
        Operation::new("OP-001", "JOB-001", 1).with_time(0, 30000, 0).with_equipment(eqp(&["EQP-A1", "EQP-B1"])),
    );
    let resources = vec![Resource::equipment("EQP-A1").with_site("SITE-A"), Resource::equipment("EQP-B1").with_site("SITE-B")];
    let request = ScheduleRequest::new(vec![job], resources);
    let schedule = SimpleScheduler::new().schedule(&request);
    assert!(schedule.assignment_for_operation("OP-001").unwrap().site_id.is_some());
}

#[test]
fn test_multi_site_backward_compatible() {
    let job = Job::new("JOB-001").with_operation(
        Operation::new("OP-001", "JOB-001", 1).with_time(0, 30000, 0).with_equipment(eqp(&["EQP-001"])),
    );
    let request = ScheduleRequest::new(vec![job], vec![Resource::equipment("EQP-001")]);
    let schedule = SimpleScheduler::new().schedule(&request);
    let op = schedule.assignment_for_operation("OP-001").unwrap();
    assert_eq!(op.resource_id, "EQP-001");
    assert!(op.site_id.is_none());
}

#[test]
fn test_schedule_assignments_for_site() {
    let mut schedule = Schedule::new();
    let mut a = Assignment::new("OP-001", "JOB-001", "EQP-A1", 0, 30000);
    a.site_id = Some("SITE-A".to_string());
    schedule.add_assignment(a);
    let mut b = Assignment::new("OP-002", "JOB-001", "EQP-B1", 30000, 60000);
    b.site_id = Some("SITE-B".to_string());
    schedule.add_assignment(b);
    assert_eq!(schedule.assignments_for_site("SITE-A").len(), 1);
    assert_eq!(schedule.assignments_for_site("SITE-B").len(), 1);
    assert_eq!(schedule.assignments_for_site("SITE-C").len(), 0);
}

#[test]
fn priority_order_is_stable() {
    let jobs = vec![
        Job::new("A").with_priority(5),
        Job::new("B").with_priority(1),
        Job::new("C").with_priority(5),
        Job::new("D").with_priority(1),
    ];
    assert_eq!(priority_order(&jobs), vec![1, 3, 0, 2]);
}

#[test]
fn operations_follow_sequence_numbers_not_listing_order() {
    let job = Job::new("JOB-001")
        .with_operation(Operation::new("OP-B", "JOB-001", 2).with_time(0, 1000, 0).with_equipment(eqp(&["EQP-001"])))
        .with_operation(Operation::new("OP-A", "JOB-001", 1).with_time(0, 2000, 0).with_equipment(eqp(&["EQP-002"])));
    let request = ScheduleRequest::new(vec![job], vec![Resource::equipment("EQP-001"), Resource::equipment("EQP-002")]);
    let schedule = SimpleScheduler::new().schedule(&request);
    assert_eq!(schedule.assignment_for_operation("OP-A").unwrap().start_ms, 0);
    assert_eq!(schedule.assignment_for_operation("OP-B").unwrap().start_ms, 2000);
}

#[test]
fn operation_without_resources_only_advances_time() {
    let job = Job::new("JOB-001")
        .with_operation(Operation::new("OP-001", "JOB-001", 1).with_time(1000, 5000, 2000))
        .with_operation(Operation::new("OP-002", "JOB-001", 2).with_time(0, 3000, 0).with_equipment(eqp(&["EQP-001"])));
    let request = ScheduleRequest::new(vec![job], vec![Resource::equipment("EQP-001")]).with_start_time(500);
    let schedule = SimpleScheduler::new().schedule(&request);
    let op1 = schedule.assignment_for_operation("OP-001").unwrap();
    assert_eq!(op1.resource_id, "NONE");
    assert_eq!((op1.start_ms, op1.end_ms), (500, 8500));
    let op2 = schedule.assignment_for_operation("OP-002").unwrap();
    assert_eq!((op2.start_ms, op2.end_ms), (8500, 11500));
}

#[test]
fn daily_window_moves_the_start_into_the_window() {
    let job = Job::new("JOB-001").with_operation(
        Operation::new("OP-001", "JOB-001", 1)
            .with_time(0, HOUR, 0)
            .with_equipment(eqp(&["EQP-001"]))
            .with_daily_work_window(DailyWorkWindow::from_hm(9, 0, 18, 0)),
    );
    let request = ScheduleRequest::new(vec![job], vec![Resource::equipment("EQP-001")]).with_start_time(MONDAY + 7 * HOUR);
    let schedule = SimpleScheduler::new().schedule(&request);
    let op = schedule.assignment_for_operation("OP-001").unwrap();
    assert_eq!(op.start_ms, MONDAY + 9 * HOUR);
    assert_eq!(op.end_ms, MONDAY + 10 * HOUR);
}

#[test]
fn scheduling_in_a_given_order() {
    let job1 = Job::new("JOB-001").with_operation(
        Operation::new("OP-001", "JOB-001", 1).with_time(0, 1000, 0).with_equipment(eqp(&["EQP-001"])),
    );
    let job2 = Job::new("JOB-002").with_operation(
        Operation::new("OP-002", "JOB-002", 1).with_time(0, 2000, 0).with_equipment(eqp(&["EQP-001"])),
    );
    let request = ScheduleRequest::new(vec![job1, job2], vec![Resource::equipment("EQP-001")]);
    let schedule = SimpleScheduler::new().schedule_in_order(&request, &[1, 0]);
    assert_eq!(schedule.assignment_for_operation("OP-002").unwrap().start_ms, 0);
    assert_eq!(schedule.assignment_for_operation("OP-001").unwrap().start_ms, 2000);
}

#[test]
fn operation_beyond_the_time_range_is_reported() {
    let job1 = Job::new("JOB-001").with_priority(1).with_operation(
        Operation::new("OP-001", "JOB-001", 1).with_time(0, 1000, 0).with_equipment(eqp(&["EQP-001"])),
    );
    let job2 = Job::new("JOB-002").with_priority(2).with_operation(
        Operation::new("OP-002", "JOB-002", 1).with_time(0, 2_000_000_000_000, 0).with_equipment(eqp(&["EQP-001"])),
    );
    let request = ScheduleRequest::new(vec![job1, job2], vec![Resource::equipment("EQP-001")]);
    let schedule = SimpleScheduler::new().schedule(&request);
    assert_eq!(schedule.assignments.len(), 1);
    assert_eq!(schedule.violations.len(), 1);
    assert_eq!(schedule.violations[0].target_id, "OP-002");
    assert_eq!(schedule.violations[0].constraint_id, "RANGE-OP-002");
}

#[test]
fn no_two_operations_overlap_on_a_resource() {
    let mut jobs = Vec::new();
    for n in 0..5 {
        let id = format!("J{}", n);
        jobs.push(Job::new(&id).with_priority(5 - n).with_operation(
            Operation::new(&format!("{}-OP", id), &id, 1)
                .with_time(100, 1000 + 10 * n as i64, 50)
                .with_equipment(eqp(&["M1", "M2"]))
                .with_workers(1),
        ));
    }
    let resources = vec![Resource::equipment("M1"), Resource::equipment("M2"), Resource::worker("W1"), Resource::worker("W2")];
    let schedule = SimpleScheduler::new().schedule(&ScheduleRequest::new(jobs, resources));
    let a = &schedule.assignments;
    for i in 0..a.len() {
        for j in (i + 1)..a.len() {
            if a[i].resource_id == a[j].resource_id && a[i].operation_id != a[j].operation_id {
                assert!(a[i].end_ms <= a[j].start_ms);
            }
        }
    }
    assert_eq!(a.len(), 10);
}

#[test]
fn without_calendars_no_time_is_left_idle() {
    let mut jobs = Vec::new();
    for n in 0..4 {
        let id = format!("J{}", n);
        jobs.push(
            Job::new(&id)
                .with_operation(Operation::new(&format!("{}-A", id), &id, 1).with_time(0, 700 + 100 * n as i64, 0).with_equipment(eqp(&["M1"])))
                .with_operation(Operation::new(&format!("{}-B", id), &id, 2).with_time(50, 300, 20).with_equipment(eqp(&["M2", "M3"]))),
        );
    }
    let resources = vec![Resource::equipment("M1"), Resource::equipment("M2"), Resource::equipment("M3")];
    let request = ScheduleRequest::new(jobs, resources).with_start_time(1_000);
    let schedule = SimpleScheduler::new().schedule(&request);
    let a = &schedule.assignments;
    assert_eq!(a.len(), 8);
    for i in 0..a.len() {
        let s = a[i].start_ms;
        assert!(s == 1_000 || s == 0 || (0..i).any(|j| a[j].end_ms == s));
    }
}
