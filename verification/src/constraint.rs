//! Constraints on a schedule and the violations found in one.

use vstd::prelude::*;
use crate::text::{i64_to_text, int_text};

verus! {

/// Kind of a constraint.
#[derive(Debug, Clone, Copy, PartialEq, Eq, Structural)]
pub enum ConstraintType {
    /// Due date of a job.
    DueDate,
    /// Earliest start of a job or operation.
    EarliestStart,
    /// Precedence between two operations.
    Precedence,
    /// Resource capacity.
    Capacity,
    /// Material not yet available.
    MaterialAvailability,
    /// Material stock too low.
    MaterialShortage,
    /// Stock falls below its safety level.
    SafetyStockViolation,
    /// A time falls outside the range the scheduler handles.
    TimeRange,
}

/// The value a constraint is about.
#[derive(Debug, Clone)]
pub enum ConstraintValue {
    /// A point in time (epoch ms).
    TimeMs(i64),
    /// A reference to another entity.
    StringRef(String),
    /// A number, in thousandths.
    Number(i64),
}

/// A constraint on the schedule.
#[derive(Debug, Clone)]
pub struct Constraint {
    pub id: String,
    pub constraint_type: ConstraintType,
    pub target_id: String,
    pub value: ConstraintValue,
    /// Whether the constraint must hold (false: soft constraint).
    pub is_hard: bool,
    /// Penalty weight when violated, in thousandths (1000 = weight 1).
    pub penalty_weight_milli: i64,
}

/// Mathematical value of a constraint value.
pub enum ConstraintValueView {
    TimeMs(int),
    StringRef(Seq<char>),
    Number(int),
}

/// Mathematical value of a constraint.
pub struct ConstraintView {
    pub id: Seq<char>,
    pub constraint_type: ConstraintType,
    pub target_id: Seq<char>,
    pub value: ConstraintValueView,
    pub is_hard: bool,
    pub penalty_weight_milli: int,
}

impl View for Constraint {
    type V = ConstraintView;

    open spec fn view(&self) -> ConstraintView {
        ConstraintView {
            id: self.id@,
            constraint_type: self.constraint_type,
            target_id: self.target_id@,
            value: match self.value {
                ConstraintValue::TimeMs(t) => ConstraintValueView::TimeMs(t as int),
                ConstraintValue::StringRef(s) => ConstraintValueView::StringRef(s@),
                ConstraintValue::Number(n) => ConstraintValueView::Number(n as int),
            },
            is_hard: self.is_hard,
            penalty_weight_milli: self.penalty_weight_milli as int,
        }
    }
}

fn prefixed(prefix: &str, s: &str) -> (r: String)
    ensures
        r@ == prefix@ + s@,
{
    let mut r = String::from_str(prefix);
    r.append(s);
    r
}

impl Constraint {
    /// Due date of a job: soft, weight 1, identifier `DUE-<job>`.
    pub fn due_date(job_id: &str, due_date_ms: i64) -> (c: Constraint)
        ensures
            c@.id == "DUE-"@ + job_id@,
            c@.constraint_type == ConstraintType::DueDate,
            c@.target_id == job_id@,
            c@.value == ConstraintValueView::TimeMs(due_date_ms as int),
            !c@.is_hard,
            c@.penalty_weight_milli == 1000,
    {
        Constraint {
            id: prefixed("DUE-", job_id),
            constraint_type: ConstraintType::DueDate,
            target_id: String::from_str(job_id),
            value: ConstraintValue::TimeMs(due_date_ms),
            is_hard: false,
            penalty_weight_milli: 1000,
        }
    }

    /// Earliest start of a target: hard, weight 1, identifier `ES-<target>`.
    pub fn earliest_start(target_id: &str, time_ms: i64) -> (c: Constraint)
        ensures
            c@.id == "ES-"@ + target_id@,
            c@.constraint_type == ConstraintType::EarliestStart,
            c@.target_id == target_id@,
            c@.value == ConstraintValueView::TimeMs(time_ms as int),
            c@.is_hard,
            c@.penalty_weight_milli == 1000,
    {
        Constraint {
            id: prefixed("ES-", target_id),
            constraint_type: ConstraintType::EarliestStart,
            target_id: String::from_str(target_id),
            value: ConstraintValue::TimeMs(time_ms),
            is_hard: true,
            penalty_weight_milli: 1000,
        }
    }

    /// `predecessor` must precede `successor`: hard, weight 1, on the successor,
    /// identifier `PREC-<pred>-<succ>`.
    pub fn precedence(successor_id: &str, predecessor_id: &str) -> (c: Constraint)
        ensures
            c@.id == "PREC-"@ + predecessor_id@ + "-"@ + successor_id@,
            c@.constraint_type == ConstraintType::Precedence,
            c@.target_id == successor_id@,
            c@.value == ConstraintValueView::StringRef(predecessor_id@),
            c@.is_hard,
            c@.penalty_weight_milli == 1000,
    {
        let mut id = prefixed("PREC-", predecessor_id);
        id.append("-");
        id.append(successor_id);
        Constraint {
            id,
            constraint_type: ConstraintType::Precedence,
            target_id: String::from_str(successor_id),
            value: ConstraintValue::StringRef(String::from_str(predecessor_id)),
            is_hard: true,
            penalty_weight_milli: 1000,
        }
    }
}

/// A violated constraint.
#[derive(Debug, Clone)]
pub struct Violation {
    pub constraint_id: String,
    pub constraint_type: ConstraintType,
    pub target_id: String,
    /// How much the constraint is violated by (for time constraints: ms).
    pub amount: i64,
    pub message: String,
}

/// Mathematical value of a violation.
pub struct ViolationView {
    pub constraint_id: Seq<char>,
    pub constraint_type: ConstraintType,
    pub target_id: Seq<char>,
    pub amount: int,
    pub message: Seq<char>,
}

impl View for Violation {
    type V = ViolationView;

    open spec fn view(&self) -> ViolationView {
        ViolationView {
            constraint_id: self.constraint_id@,
            constraint_type: self.constraint_type,
            target_id: self.target_id@,
            amount: self.amount as int,
            message: self.message@,
        }
    }
}

impl Violation {
    /// A job finished `delay_ms` after its due date.
    pub fn due_date_violation(job_id: &str, delay_ms: i64) -> (v: Violation)
        ensures
            v@.constraint_id == "DUE-"@ + job_id@,
            v@.constraint_type == ConstraintType::DueDate,
            v@.target_id == job_id@,
            v@.amount == delay_ms,
            v@.message == "Job "@ + job_id@ + " is late by "@ + int_text(delay_ms as int) + "ms"@,
    {
        let mut message = prefixed("Job ", job_id);
        message.append(" is late by ");
        let d = i64_to_text(delay_ms);
        message.append(d.as_str());
        message.append("ms");
        Violation {
            constraint_id: prefixed("DUE-", job_id),
            constraint_type: ConstraintType::DueDate,
            target_id: String::from_str(job_id),
            amount: delay_ms,
            message,
        }
    }

    /// An operation could not be placed within the time range the scheduler
    /// handles.
    pub fn time_range_violation(operation_id: &str) -> (v: Violation)
        ensures
            v@.constraint_id == "RANGE-"@ + operation_id@,
            v@.constraint_type == ConstraintType::TimeRange,
            v@.target_id == operation_id@,
            v@.amount == 0,
            v@.message == "Operation "@ + operation_id@ + " cannot be placed within the supported time range"@,
    {
        let mut message = prefixed("Operation ", operation_id);
        message.append(" cannot be placed within the supported time range");
        Violation {
            constraint_id: prefixed("RANGE-", operation_id),
            constraint_type: ConstraintType::TimeRange,
            target_id: String::from_str(operation_id),
            amount: 0,
            message,
        }
    }

    /// An operation waits `delay_ms` for a material to become available.
    pub fn material_availability_violation(operation_id: &str, material_id: &str, delay_ms: i64) -> (v: Violation)
        ensures
            v@.constraint_id == "MAT-AVAIL-"@ + operation_id@ + "-"@ + material_id@,
            v@.constraint_type == ConstraintType::MaterialAvailability,
            v@.target_id == operation_id@,
            v@.amount == delay_ms,
            v@.message == "Operation "@ + operation_id@ + " delayed by "@ + int_text(delay_ms as int)
                + "ms waiting for material "@ + material_id@,
    {
        let mut id = prefixed("MAT-AVAIL-", operation_id);
        id.append("-");
        id.append(material_id);
        let mut message = prefixed("Operation ", operation_id);
        message.append(" delayed by ");
        let d = i64_to_text(delay_ms);
        message.append(d.as_str());
        message.append("ms waiting for material ");
        message.append(material_id);
        Violation {
            constraint_id: id,
            constraint_type: ConstraintType::MaterialAvailability,
            target_id: String::from_str(operation_id),
            amount: delay_ms,
            message,
        }
    }

    /// A field-by-field copy.
    pub fn copy(&self) -> (v: Violation)
        ensures
            v@ == self@,
    {
        Violation {
            constraint_id: self.constraint_id.clone(),
            constraint_type: self.constraint_type,
            target_id: self.target_id.clone(),
            amount: self.amount,
            message: self.message.clone(),
        }
    }
}

} // verus!
