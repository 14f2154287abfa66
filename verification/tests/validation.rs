use uaps_engine::error::ErrorCode;
use uaps_engine::job::{Job, Operation, Resource};
use uaps_engine::validation::{validate_time_range, ValidationResult, Validator};

#[test]
fn validation_test_valid_input() {
    let jobs = vec![Job::new("job1").with_priority(1)];
    let ops = vec![Operation::new("op1", "job1", 1).with_time(1000, 5000, 0).with_equipment(vec!["m1".into()])];
    let resources = vec![Resource::equipment("m1")];
    let result = Validator::validate_schedule_request(&jobs, &ops, &resources);
    assert!(result.is_valid());
}

#[test]
fn test_duplicate_job_id() {
    let jobs = vec![Job::new("job1").with_priority(1), Job::new("job1").with_priority(2)];
    let mut result = ValidationResult::new();
    Validator::validate_jobs(&jobs, &mut result);
    assert!(!result.is_valid());
    assert!(result.errors.iter().any(|e| e.code == ErrorCode::DuplicateId));
}

#[test]
fn test_invalid_reference() {
    let jobs = vec![Job::new("job1").with_priority(1)];
    let ops = vec![Operation::new("op1", "job2", 1).with_time(1000, 5000, 0)];
    let mut result = ValidationResult::new();
    Validator::validate_operations(&ops, &jobs, &mut result);
    assert!(!result.is_valid());
    assert!(result.errors.iter().any(|e| e.code == ErrorCode::InvalidReference));
}

#[test]
fn test_negative_time() {
    let jobs = vec![Job::new("job1").with_priority(1)];
    let ops = vec![Operation::new("op1", "job1", 1).with_time(-100, 5000, 0)];
    let mut result = ValidationResult::new();
    Validator::validate_operations(&ops, &jobs, &mut result);
    assert!(!result.is_valid());
}

#[test]
fn test_time_range_validation() {
    assert!(validate_time_range(0, 100).is_ok());
    assert!(validate_time_range(100, 100).is_ok());
    assert!(validate_time_range(100, 50).is_err());
    assert!(validate_time_range(-1, 100).is_err());
}

#[test]
fn time_range_error_messages() {
    let e = validate_time_range(100, 50).unwrap_err();
    assert_eq!(e.code, ErrorCode::InvalidTimeRange);
    assert_eq!(e.message, "Start time (100) is after end time (50)");
    let n = validate_time_range(-1, 100).unwrap_err();
    assert_eq!(n.message, "Time values cannot be negative");
}

#[test]
fn job_errors_and_warnings() {
    let jobs = vec![Job::new("").with_priority(1), Job::new("j2").with_priority(-3).with_due_date(-5).with_earliest_start(-1)];
    let mut result = ValidationResult::new();
    Validator::validate_jobs(&jobs, &mut result);
    assert_eq!(result.errors.len(), 3);
    assert_eq!(result.errors[0].code, ErrorCode::MissingRequiredField);
    assert_eq!(result.errors[1].code, ErrorCode::InvalidTimeRange);
    assert_eq!(result.errors[1].message, "Job j2 has negative due date");
    assert_eq!(result.errors[2].message, "Job j2 has negative earliest start");
    assert_eq!(result.warnings, vec!["Job j2 has negative priority: -3".to_string()]);
}

#[test]
fn operation_errors_and_warnings() {
    let jobs = vec![Job::new("j1")];
    let ops = vec![
        Operation::new("o1", "j1", -1).with_time(0, -5, 0),
        Operation::new("o1", "j1", 1).with_splittable(true).with_split(0),
    ];
    let mut result = ValidationResult::new();
    Validator::validate_operations(&ops, &jobs, &mut result);
    let codes: Vec<ErrorCode> = result.errors.iter().map(|e| e.code).collect();
    assert_eq!(codes, vec![ErrorCode::InvalidTimeRange, ErrorCode::InvalidInput, ErrorCode::DuplicateId, ErrorCode::InvalidInput]);
    assert_eq!(result.errors[0].message, "Operation o1 has negative process time");
    assert_eq!(result.warnings.len(), 2);
}

#[test]
fn resource_and_reference_errors() {
    let resources = vec![Resource::equipment("m1"), Resource::equipment("m1"), Resource::equipment("m2").with_efficiency_milli(0)];
    let mut result = ValidationResult::new();
    Validator::validate_resources(&resources, &mut result);
    assert_eq!(result.errors.len(), 2);
    assert_eq!(result.errors[0].code, ErrorCode::DuplicateId);
    assert_eq!(result.errors[1].code, ErrorCode::InvalidInput);

    let ops = vec![Operation::new("o1", "j1", 1).with_equipment(vec!["m1".into(), "zz".into()])];
    let mut refs = ValidationResult::new();
    Validator::validate_references(&[], &ops, &resources, &mut refs);
    assert_eq!(refs.errors.len(), 1);
    assert_eq!(refs.errors[0].code, ErrorCode::InvalidReference);
}

#[test]
fn high_efficiency_warns_with_two_decimals() {
    let resources = vec![Resource::equipment("m1").with_efficiency_milli(2345)];
    let mut result = ValidationResult::new();
    Validator::validate_resources(&resources, &mut result);
    assert!(result.is_valid());
    assert_eq!(result.warnings.len(), 1);
    assert!(result.warnings[0].contains("2.35"));
}

#[test]
fn into_result_gives_first_error() {
    let mut result = ValidationResult::new();
    assert!(result.clone().into_result().is_ok());
    let jobs = vec![Job::new("a"), Job::new("a"), Job::new("a")];
    Validator::validate_jobs(&jobs, &mut result);
    let e = result.into_result().unwrap_err();
    assert_eq!(e.code, ErrorCode::DuplicateId);
    assert_eq!(e.entity_id, Some("a".to_string()));
}
