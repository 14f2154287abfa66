use uaps_engine::engine::{select_algorithm, validation_gate, SchedulingAlgorithm};
use uaps_engine::error::{ErrorCode, UapsError};
use uaps_engine::schedule::{Assignment, Schedule};
use uaps_engine::validation::ValidationResult;
use uaps_engine::pegging::calculate_material_constrained_start;

#[test]
fn test_select_algorithm_heuristic() {
    assert_eq!(select_algorithm(5, 5), SchedulingAlgorithm::CpSat);
    assert_eq!(select_algorithm(10, 5), SchedulingAlgorithm::CpSat);
    assert_eq!(select_algorithm(20, 10), SchedulingAlgorithm::Production);
    assert_eq!(select_algorithm(50, 10), SchedulingAlgorithm::Production);
    assert_eq!(select_algorithm(100, 10), SchedulingAlgorithm::GeneticAlgorithm);
}

#[test]
fn select_algorithm_edges() {
    assert_eq!(select_algorithm(0, 1000), SchedulingAlgorithm::CpSat);
    assert_eq!(select_algorithm(51, 1), SchedulingAlgorithm::Production);
    assert_eq!(select_algorithm(501, 1), SchedulingAlgorithm::GeneticAlgorithm);
}

#[test]
fn test_material_constrained_start() {
    assert_eq!(calculate_material_constrained_start(10_000, 20_000), 20_000);
    assert_eq!(calculate_material_constrained_start(30_000, 20_000), 30_000);
}

#[test]
fn hybrid_keeps_the_shorter_schedule() {
    let mut ga = Schedule::new();
    ga.add_assignment(Assignment::new("OP-1", "J", "M", 0, 900));
    let mut cp = Schedule::new();
    cp.add_assignment(Assignment::new("OP-1", "J", "M", 0, 1000));
    assert_eq!(SchedulingAlgorithm::better_of(ga, cp).makespan_ms, 900);
    let mut ga = Schedule::new();
    ga.add_assignment(Assignment::new("OP-1", "J", "M", 0, 1200));
    let mut cp = Schedule::new();
    cp.add_assignment(Assignment::new("OP-2", "J", "M", 0, 1000));
    let chosen = SchedulingAlgorithm::better_of(ga, cp);
    assert_eq!(chosen.assignments[0].operation_id, "OP-2");
    let mut ga = Schedule::new();
    ga.add_assignment(Assignment::new("GA", "J", "M", 0, 1000));
    let mut cp = Schedule::new();
    cp.add_assignment(Assignment::new("CP", "J", "M", 0, 1000));
    assert_eq!(SchedulingAlgorithm::better_of(ga, cp).assignments[0].operation_id, "GA");
}

#[test]
fn validation_gate_stops_at_the_first_error() {
    let mut result = ValidationResult::new();
    result.add_warning("slow".to_string());
    let passed = validation_gate(result).unwrap();
    assert_eq!(passed.warnings, vec!["slow".to_string()]);
    let mut result = ValidationResult::new();
    result.add_error(UapsError::new(ErrorCode::DuplicateId, "first".to_string()));
    result.add_error(UapsError::new(ErrorCode::InvalidInput, "second".to_string()));
    let err = validation_gate(result).unwrap_err();
    assert_eq!(err.message, "first");
}
