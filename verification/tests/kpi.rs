use uaps_engine::job::Job;
use uaps_engine::kpi::KpiCalculator;
use uaps_engine::schedule::{Assignment, Schedule};

fn create_test_schedule() -> Schedule {
    let mut s = Schedule::new();
    s.add_assignment(Assignment::with_setup("op1", "job1", "m1", 0, 30_000, 5_000));
    s.add_assignment(Assignment::with_setup("op2", "job1", "m2", 30_000, 60_000, 0));
    s.add_assignment(Assignment::with_setup("op3", "job2", "m1", 30_000, 50_000, 5_000));
    s
}

fn create_test_jobs() -> Vec<Job> {
    vec![
        Job::new("job1").with_priority(1).with_due_date(70_000),
        Job::new("job2").with_priority(2).with_due_date(40_000),
    ]
}

#[test]
fn test_makespan_calculation() {
    let schedule = create_test_schedule();
    let calculator = KpiCalculator::new(100_000);
    assert_eq!(calculator.calculate_makespan(&schedule), 60_000);
}

#[test]
fn test_tardiness_calculation() {
    let schedule = create_test_schedule();
    let jobs = create_test_jobs();
    let calculator = KpiCalculator::new(100_000);
    let t = calculator.calculate_tardiness(&schedule, &jobs);
    assert_eq!(t.total_tardiness_ms, 10_000);
    assert_eq!(t.max_tardiness_ms, 10_000);
    assert_eq!(t.on_time_count as f64 / t.job_count as f64, 0.5);
}

#[test]
fn makespan_of_empty_and_negative_schedules() {
    let calculator = KpiCalculator::new(1);
    assert_eq!(calculator.calculate_makespan(&Schedule::new()), 0);
    let mut s = Schedule::new();
    s.assignments.push(Assignment::new("o", "j", "m", -50, -10));
    assert_eq!(calculator.calculate_makespan(&s), -10);
}

#[test]
fn jobs_without_work_or_due_date_are_not_counted() {
    let schedule = create_test_schedule();
    let jobs = vec![Job::new("job1"), Job::new("ghost").with_due_date(1)];
    let t = KpiCalculator::new(10).calculate_tardiness(&schedule, &jobs);
    assert_eq!(t.job_count, 0);
    assert_eq!(t.total_tardiness_ms, 0);
}
