//! Choice of the scheduling algorithm, of the hybrid algorithm's result, and
//! the validation gate before scheduling.

use vstd::prelude::*;
use crate::error::UapsError;
use crate::schedule::Schedule;
use crate::validation::{error_views, ValidationResult};

verus! {

/// Scheduling algorithms.
#[derive(Debug, Clone, Copy, PartialEq, Eq, Structural)]
pub enum SchedulingAlgorithm {
    /// Priority-based list scheduling.
    Simple,
    /// Genetic algorithm.
    GeneticAlgorithm,
    /// Production scheduler (setup matrices, campaigns).
    Production,
    /// Dynamic scheduler (time fences, rescheduling, pegging).
    Dynamic,
    /// Constraint-programming solver.
    CpSat,
    /// Chosen from the size of the problem.
    Auto,
    /// Constraint programming, then the genetic algorithm.
    Hybrid,
}

/// The algorithm for a problem of the given complexity (operations times
/// resources): constraint programming up to 50, the production scheduler up to
/// 500, the genetic algorithm beyond.
pub open spec fn algorithm_for(complexity: int) -> SchedulingAlgorithm {
    if complexity <= 50 {
        SchedulingAlgorithm::CpSat
    } else if complexity <= 500 {
        SchedulingAlgorithm::Production
    } else {
        SchedulingAlgorithm::GeneticAlgorithm
    }
}

/// Chooses an algorithm from the size of the problem.
pub fn select_algorithm(operation_count: usize, resource_count: usize) -> (a: SchedulingAlgorithm)
    requires
        operation_count * resource_count <= usize::MAX,
    ensures
        a == algorithm_for(operation_count * resource_count),
{
    let complexity = operation_count * resource_count;
    if complexity <= 50 {
        SchedulingAlgorithm::CpSat
    } else if complexity <= 500 {
        SchedulingAlgorithm::Production
    } else {
        SchedulingAlgorithm::GeneticAlgorithm
    }
}

/// Larger problems never get a more exact algorithm: the choice moves from
/// constraint programming to the production scheduler to the genetic algorithm
/// as the complexity grows.
pub proof fn law_algorithm_monotone(c1: int, c2: int)
    requires
        c1 <= c2,
    ensures
        algorithm_for(c2) == SchedulingAlgorithm::CpSat ==> algorithm_for(c1) == SchedulingAlgorithm::CpSat,
        algorithm_for(c1) == SchedulingAlgorithm::GeneticAlgorithm ==> algorithm_for(c2) == SchedulingAlgorithm::GeneticAlgorithm,
{
}

impl SchedulingAlgorithm {
    /// Of the two schedules of the hybrid algorithm, the one with the smaller
    /// makespan; the genetic algorithm's when they tie.
    pub fn better_of(ga_schedule: Schedule, cpsat_schedule: Schedule) -> (s: Schedule)
        ensures
            s == if ga_schedule.makespan_ms <= cpsat_schedule.makespan_ms { ga_schedule } else { cpsat_schedule },
    {
        if ga_schedule.makespan_ms <= cpsat_schedule.makespan_ms {
            ga_schedule
        } else {
            cpsat_schedule
        }
    }
}

/// Checks a validation before scheduling: its first error, or the validation
/// itself when it holds no error.
pub fn validation_gate(result: ValidationResult) -> (r: Result<ValidationResult, UapsError>)
    ensures
        match r {
            Err(e) => result@.errors.len() > 0 && e@ == result@.errors[0],
            Ok(v) => result@.errors.len() == 0 && v@ == result@,
        },
{
    if result.errors.len() > 0 {
        let mut errors = result.errors;
        assert(error_views(errors@)[0] == errors@[0]@);
        Err(errors.remove(0))
    } else {
        Ok(result)
    }
}

} // verus!
