use uaps_engine::constraint::ConstraintType;
use uaps_engine::job::{Job, Operation, Resource};
use uaps_engine::schedule::{Assignment, Schedule};
use uaps_engine::setup::{SetupMatrix, SetupMatrixCollection};
use uaps_engine::simple::SimpleScheduler;

#[test]
fn earliest_resource_prefers_first_free() {
    let s = SimpleScheduler::new();
    let resources = vec![Resource::equipment("M1"), Resource::equipment("M2"), Resource::equipment("M3")];
    let candidates = vec!["M9".to_string(), "M1".to_string(), "M2".to_string(), "M3".to_string()];
    let next = vec![("M1".to_string(), 500i64), ("M2".to_string(), 100), ("M9".to_string(), 0), ("M3".to_string(), 100)];
    let (id, t) = s.find_earliest_resource(&candidates, &resources, &next);
    assert_eq!(id, Some("M2".to_string()));
    assert_eq!(t, 100);
}

#[test]
fn earliest_resource_defaults_to_zero_and_last_entry_wins() {
    let s = SimpleScheduler::default();
    let resources = vec![Resource::equipment("M1"), Resource::equipment("M2")];
    let candidates = vec!["M1".to_string(), "M2".to_string()];
    let next = vec![("M1".to_string(), 0i64), ("M1".to_string(), 700)];
    let (id, t) = s.find_earliest_resource(&candidates, &resources, &next);
    assert_eq!(id, Some("M2".to_string()));
    assert_eq!(t, 0);
    let (none, max) = s.find_earliest_resource(&["X".to_string()], &resources, &next);
    assert_eq!(none, None);
    assert_eq!(max, i64::MAX);
}

#[test]
fn missed_due_dates_are_recorded() {
    let s = SimpleScheduler::new();
    let mut schedule = Schedule::new();
    schedule.add_assignment(Assignment::new("J1-O1", "J1", "M1", 0, 5_000));
    schedule.add_assignment(Assignment::new("J1-O2", "J1", "M1", 5_000, 9_000));
    schedule.add_assignment(Assignment::new("J2-O1", "J2", "M1", 9_000, 10_000));
    let jobs = vec![
        Job::new("J1").with_due_date(8_000).with_operation(Operation::new("J1-O1", "J1", 1)).with_operation(Operation::new("J1-O2", "J1", 2)),
        Job::new("J2").with_due_date(20_000).with_operation(Operation::new("J2-O1", "J2", 1)),
        Job::new("J3").with_operation(Operation::new("J3-O1", "J3", 1)),
        Job::new("J4").with_due_date(-5).with_operation(Operation::new("J4-O1", "J4", 1)),
    ];
    s.check_due_dates(&mut schedule, &jobs);
    assert_eq!(schedule.violations.len(), 2);
    assert_eq!(schedule.violations[0].target_id, "J1");
    assert_eq!(schedule.violations[0].amount, 1_000);
    assert_eq!(schedule.violations[0].constraint_type, ConstraintType::DueDate);
    assert_eq!(schedule.violations[1].target_id, "J4");
    assert_eq!(schedule.violations[1].amount, 5);
    assert!(!schedule.is_on_time());
}

#[test]
fn setup_aware_choice_counts_changeover() {
    let s = SimpleScheduler::new();
    let resources = vec![Resource::equipment("M1"), Resource::equipment("M2")];
    let candidates = vec!["M1".to_string(), "M2".to_string()];
    let next = vec![("M1".to_string(), 0i64), ("M2".to_string(), 5_000)];
    let last = vec![("M1".to_string(), "ProductA".to_string()), ("M2".to_string(), "ProductB".to_string())];
    let matrices = SetupMatrixCollection::new()
        .with_matrix(SetupMatrix::new("M1").with_default_setup(10_000).with_setup("ProductA", "ProductB", 20_000))
        .with_matrix(SetupMatrix::new("M2").with_default_setup(10_000));
    let (id, available, setup, efficiency) =
        s.find_earliest_resource_with_setup(&candidates, &resources, &next, &last, &matrices, Some("ProductB"));
    assert_eq!(id, Some("M2".to_string()));
    assert_eq!(available, 5_000);
    assert_eq!(setup, 0);
    assert_eq!(efficiency, 1_000);
    let (id, available, setup, _) =
        s.find_earliest_resource_with_setup(&candidates, &resources, &next, &last, &matrices, Some("ProductA"));
    assert_eq!(id, Some("M1".to_string()));
    assert_eq!(available, 0);
    assert_eq!(setup, 0);
}

#[test]
fn setup_aware_choice_breaks_ties_by_efficiency() {
    let s = SimpleScheduler::new();
    let resources = vec![Resource::equipment("M1").with_efficiency_milli(900), Resource::equipment("M2").with_efficiency_milli(1_100)];
    let candidates = vec!["M1".to_string(), "M2".to_string()];
    let next: Vec<(String, i64)> = vec![];
    let last: Vec<(String, String)> = vec![];
    let matrices = SetupMatrixCollection::new();
    let (id, available, setup, efficiency) =
        s.find_earliest_resource_with_setup(&candidates, &resources, &next, &last, &matrices, None);
    assert_eq!(id, Some("M2".to_string()));
    assert_eq!(available, 0);
    assert_eq!(setup, 0);
    assert_eq!(efficiency, 1_100);
    let (none, t, setup, efficiency) =
        s.find_earliest_resource_with_setup(&["X".to_string()], &resources, &next, &last, &matrices, None);
    assert_eq!(none, None);
    assert_eq!(t, i64::MAX);
    assert_eq!(setup, 0);
    assert_eq!(efficiency, 0);
}

#[test]
fn setup_aware_first_job_pays_default_setup() {
    let s = SimpleScheduler::new();
    let resources = vec![Resource::equipment("EQP-001")];
    let candidates = vec!["EQP-001".to_string()];
    let matrices = SetupMatrixCollection::new().with_matrix(SetupMatrix::new("EQP-001").with_default_setup(10_000));
    let (id, available, setup, _) =
        s.find_earliest_resource_with_setup(&candidates, &resources, &vec![], &vec![], &matrices, Some("ProductA"));
    assert_eq!(id, Some("EQP-001".to_string()));
    assert_eq!(available, 0);
    assert_eq!(setup, 10_000);
}
