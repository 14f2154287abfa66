//! Disruptions of a schedule, their severity, and the strategies that repair them.

use vstd::prelude::*;

verus! {

/// How to repair a schedule.
#[derive(Debug, Clone, Copy, PartialEq, Eq, Structural)]
pub enum RescheduleStrategy {
    /// Shift the affected operations later.
    RightShift,
    /// Reschedule only the affected operations.
    AOR,
    /// Reschedule the affected resources and jobs.
    Partial,
    /// Reschedule everything.
    Full,
    /// Regenerate the schedule from scratch.
    TotalRegeneration,
}

impl RescheduleStrategy {
    /// The strategy's name.
    pub fn name(&self) -> (s: &'static str)
        ensures
            s@ == match *self {
                RescheduleStrategy::RightShift => "RightShift"@,
                RescheduleStrategy::AOR => "AOR"@,
                RescheduleStrategy::Partial => "Partial"@,
                RescheduleStrategy::Full => "Full"@,
                RescheduleStrategy::TotalRegeneration => "TotalRegeneration"@,
            },
    {
        proof {
            reveal_strlit("RightShift");
            reveal_strlit("AOR");
            reveal_strlit("Partial");
            reveal_strlit("Full");
            reveal_strlit("TotalRegeneration");
        }
        match self {
            RescheduleStrategy::RightShift => "RightShift",
            RescheduleStrategy::AOR => "AOR",
            RescheduleStrategy::Partial => "Partial",
            RescheduleStrategy::Full => "Full",
            RescheduleStrategy::TotalRegeneration => "TotalRegeneration",
        }
    }
}

/// A disruption of the schedule. Quantities and efficiencies are in thousandths.
#[derive(Debug, Clone)]
pub enum ScheduleEvent {
    /// An operation runs late.
    OperationDelay { operation_id: String, delay_ms: i64 },
    /// A machine breaks down for a while.
    MachineBreakdown { resource_id: String, start_ms: i64, duration_ms: i64 },
    /// An urgent order arrives.
    UrgentOrder { job_id: String, priority: i32 },
    /// An order is cancelled.
    OrderCancellation { job_id: String },
    /// The processing time of an operation changes.
    ProcessTimeChange { operation_id: String, new_duration_ms: i64 },
    /// A material runs short (quantity in thousandths).
    MaterialShortage { material_id: String, shortage_qty_milli: i64, affected_operations: Vec<String> },
    /// A material delivery is delayed.
    MaterialDelay { material_id: String, original_arrival_ms: i64, new_arrival_ms: i64 },
    /// A material arrives early (quantity in thousandths).
    MaterialArrival { material_id: String, quantity_milli: i64, arrival_time_ms: i64 },
    /// A worker is unavailable, possibly replaced.
    WorkerUnavailable { worker_id: String, start_ms: i64, duration_ms: i64, replacement_id: Option<String> },
    /// A worker is back.
    WorkerAvailable { worker_id: String, available_from_ms: i64 },
    /// A worker gains or loses a skill.
    WorkerSkillChange { worker_id: String, skill_id: String, acquired: bool },
    /// A quality defect needs rework (quantity in thousandths).
    QualityDefect { operation_id: String, rework_qty_milli: i64, additional_time_ms: i64 },
    /// An inspection is late.
    InspectionDelay { operation_id: String, delay_ms: i64 },
    /// Preventive maintenance is planned.
    MaintenanceScheduled { resource_id: String, start_ms: i64, duration_ms: i64 },
    /// The efficiency of a resource changes (in thousandths, 1000 = nominal).
    EfficiencyChange { resource_id: String, new_efficiency_milli: i64 },
    /// A machine is repaired.
    MachineRecovered { resource_id: String, recovered_at_ms: i64 },
    /// The due date of a job changes.
    DueDateChange { job_id: String, new_due_date_ms: i64 },
    /// The quantity of a job changes.
    QuantityChange { job_id: String, new_quantity: i64 },
    /// The priority of a job changes.
    PriorityChange { job_id: String, new_priority: i32 },
}

/// Area an event concerns.
#[derive(Debug, Clone, Copy, PartialEq, Eq, Structural)]
pub enum EventCategory {
    Operation,
    Equipment,
    Worker,
    Material,
    Order,
}

/// Severity of an event, in thousandths (0 = harmless, 1000 = critical).
pub open spec fn spec_severity(e: ScheduleEvent) -> int {
    match e {
        ScheduleEvent::MachineBreakdown { .. } => 900,
        ScheduleEvent::MaterialShortage { .. } => 850,
        ScheduleEvent::QualityDefect { .. } => 800,
        ScheduleEvent::WorkerUnavailable { replacement_id, .. } => if replacement_id is None { 800 } else { 500 },
        ScheduleEvent::UrgentOrder { .. } => 700,
        ScheduleEvent::MaterialDelay { .. } => 650,
        ScheduleEvent::OperationDelay { .. } => 600,
        ScheduleEvent::MaintenanceScheduled { .. } => 550,
        ScheduleEvent::DueDateChange { .. } => 450,
        ScheduleEvent::ProcessTimeChange { .. } => 400,
        ScheduleEvent::QuantityChange { .. } => 400,
        ScheduleEvent::InspectionDelay { .. } => 350,
        ScheduleEvent::PriorityChange { .. } => 300,
        ScheduleEvent::MaterialArrival { .. } => 200,
        ScheduleEvent::WorkerAvailable { .. } => 150,
        ScheduleEvent::MachineRecovered { .. } => 100,
        ScheduleEvent::EfficiencyChange { new_efficiency_milli, .. } => if new_efficiency_milli > 1000 { 100 } else { 400 },
        ScheduleEvent::OrderCancellation { .. } => 300,
        ScheduleEvent::WorkerSkillChange { acquired, .. } => if acquired { 150 } else { 500 },
    }
}

/// The strategy recommended for an event.
pub open spec fn spec_recommended_strategy(e: ScheduleEvent) -> RescheduleStrategy {
    match e {
        ScheduleEvent::MaterialShortage { .. } => RescheduleStrategy::Full,
        ScheduleEvent::MachineBreakdown { .. } => RescheduleStrategy::Partial,
        ScheduleEvent::UrgentOrder { .. } => RescheduleStrategy::Full,
        ScheduleEvent::MaterialArrival { .. } => RescheduleStrategy::RightShift,
        ScheduleEvent::WorkerAvailable { .. } => RescheduleStrategy::RightShift,
        ScheduleEvent::MachineRecovered { .. } => RescheduleStrategy::RightShift,
        _ => {
            if e matches ScheduleEvent::WorkerSkillChange { acquired, .. } && acquired {
                RescheduleStrategy::RightShift
            } else {
                let s = spec_severity(e);
                if s >= 800 {
                    RescheduleStrategy::TotalRegeneration
                } else if s >= 600 {
                    RescheduleStrategy::Partial
                } else if s >= 400 {
                    RescheduleStrategy::AOR
                } else {
                    RescheduleStrategy::RightShift
                }
            }
        }
    }
}

/// The area an event concerns.
pub open spec fn spec_category(e: ScheduleEvent) -> EventCategory {
    match e {
        ScheduleEvent::OperationDelay { .. } => EventCategory::Operation,
        ScheduleEvent::ProcessTimeChange { .. } => EventCategory::Operation,
        ScheduleEvent::InspectionDelay { .. } => EventCategory::Operation,
        ScheduleEvent::QualityDefect { .. } => EventCategory::Operation,
        ScheduleEvent::MachineBreakdown { .. } => EventCategory::Equipment,
        ScheduleEvent::MaintenanceScheduled { .. } => EventCategory::Equipment,
        ScheduleEvent::EfficiencyChange { .. } => EventCategory::Equipment,
        ScheduleEvent::MachineRecovered { .. } => EventCategory::Equipment,
        ScheduleEvent::WorkerUnavailable { .. } => EventCategory::Worker,
        ScheduleEvent::WorkerAvailable { .. } => EventCategory::Worker,
        ScheduleEvent::WorkerSkillChange { .. } => EventCategory::Worker,
        ScheduleEvent::MaterialShortage { .. } => EventCategory::Material,
        ScheduleEvent::MaterialDelay { .. } => EventCategory::Material,
        ScheduleEvent::MaterialArrival { .. } => EventCategory::Material,
        ScheduleEvent::UrgentOrder { .. } => EventCategory::Order,
        ScheduleEvent::OrderCancellation { .. } => EventCategory::Order,
        ScheduleEvent::DueDateChange { .. } => EventCategory::Order,
        ScheduleEvent::QuantityChange { .. } => EventCategory::Order,
        ScheduleEvent::PriorityChange { .. } => EventCategory::Order,
    }
}

/// The resources (machines or workers) an event concerns.
pub open spec fn spec_affected_resources(e: ScheduleEvent) -> Seq<Seq<char>> {
    match e {
        ScheduleEvent::MachineBreakdown { resource_id, .. } => seq![resource_id@],
        ScheduleEvent::MaintenanceScheduled { resource_id, .. } => seq![resource_id@],
        ScheduleEvent::EfficiencyChange { resource_id, .. } => seq![resource_id@],
        ScheduleEvent::MachineRecovered { resource_id, .. } => seq![resource_id@],
        ScheduleEvent::WorkerUnavailable { worker_id, replacement_id, .. } => match replacement_id {
            Some(r) => seq![worker_id@, r@],
            None => seq![worker_id@],
        },
        ScheduleEvent::WorkerAvailable { worker_id, .. } => seq![worker_id@],
        ScheduleEvent::WorkerSkillChange { worker_id, .. } => seq![worker_id@],
        _ => Seq::empty(),
    }
}

impl ScheduleEvent {
    /// Severity of the event, in thousandths (0 = harmless, 1000 = critical).
    pub fn severity(&self) -> (s: u32)
        ensures
            s == spec_severity(*self),
    {
        match self {
            ScheduleEvent::MachineBreakdown { .. } => 900,
            ScheduleEvent::MaterialShortage { .. } => 850,
            ScheduleEvent::QualityDefect { .. } => 800,
            ScheduleEvent::WorkerUnavailable { replacement_id, .. } => if replacement_id.is_none() { 800 } else { 500 },
            ScheduleEvent::UrgentOrder { .. } => 700,
            ScheduleEvent::MaterialDelay { .. } => 650,
            ScheduleEvent::OperationDelay { .. } => 600,
            ScheduleEvent::MaintenanceScheduled { .. } => 550,
            ScheduleEvent::DueDateChange { .. } => 450,
            ScheduleEvent::ProcessTimeChange { .. } => 400,
            ScheduleEvent::QuantityChange { .. } => 400,
            ScheduleEvent::InspectionDelay { .. } => 350,
            ScheduleEvent::PriorityChange { .. } => 300,
            ScheduleEvent::MaterialArrival { .. } => 200,
            ScheduleEvent::WorkerAvailable { .. } => 150,
            ScheduleEvent::MachineRecovered { .. } => 100,
            ScheduleEvent::EfficiencyChange { new_efficiency_milli, .. } => if *new_efficiency_milli > 1000 { 100 } else { 400 },
            ScheduleEvent::OrderCancellation { .. } => 300,
            ScheduleEvent::WorkerSkillChange { acquired, .. } => if *acquired { 150 } else { 500 },
        }
    }

    /// The strategy recommended for the event: material shortages and urgent orders
    /// need a full reschedule, breakdowns a partial one, good news a right shift;
    /// otherwise the severity decides.
    pub fn recommended_strategy(&self) -> (r: RescheduleStrategy)
        ensures
            r == spec_recommended_strategy(*self),
    {
        match self {
            ScheduleEvent::MaterialShortage { .. } => RescheduleStrategy::Full,
            ScheduleEvent::MachineBreakdown { .. } => RescheduleStrategy::Partial,
            ScheduleEvent::UrgentOrder { .. } => RescheduleStrategy::Full,
            ScheduleEvent::MaterialArrival { .. }
            | ScheduleEvent::WorkerAvailable { .. }
            | ScheduleEvent::MachineRecovered { .. } => RescheduleStrategy::RightShift,
            ScheduleEvent::WorkerSkillChange { acquired: true, .. } => RescheduleStrategy::RightShift,
            _ => {
                let s = self.severity();
                if s >= 800 {
                    RescheduleStrategy::TotalRegeneration
                } else if s >= 600 {
                    RescheduleStrategy::Partial
                } else if s >= 400 {
                    RescheduleStrategy::AOR
                } else {
                    RescheduleStrategy::RightShift
                }
            }
        }
    }

    /// The resources the event concerns.
    pub fn affected_resources(&self) -> (r: Vec<String>)
        ensures
            r@.map_values(|s: String| s@) == spec_affected_resources(*self),
    {
        let mut v: Vec<String> = Vec::new();
        match self {
            ScheduleEvent::MachineBreakdown { resource_id, .. }
            | ScheduleEvent::MaintenanceScheduled { resource_id, .. }
            | ScheduleEvent::EfficiencyChange { resource_id, .. }
            | ScheduleEvent::MachineRecovered { resource_id, .. } => {
                v.push(resource_id.clone());
            }
            ScheduleEvent::WorkerUnavailable { worker_id, replacement_id, .. } => {
                v.push(worker_id.clone());
                match replacement_id {
                    Some(r) => { v.push(r.clone()); }
                    None => {}
                }
            }
            ScheduleEvent::WorkerAvailable { worker_id, .. } | ScheduleEvent::WorkerSkillChange { worker_id, .. } => {
                v.push(worker_id.clone());
            }
            _ => {}
        }
        assert(v@.map_values(|s: String| s@) =~= spec_affected_resources(*self));
        v
    }

    /// The area the event concerns.
    pub fn category(&self) -> (c: EventCategory)
        ensures
            c == spec_category(*self),
    {
        match self {
            ScheduleEvent::OperationDelay { .. }
            | ScheduleEvent::ProcessTimeChange { .. }
            | ScheduleEvent::InspectionDelay { .. }
            | ScheduleEvent::QualityDefect { .. } => EventCategory::Operation,
            ScheduleEvent::MachineBreakdown { .. }
            | ScheduleEvent::MaintenanceScheduled { .. }
            | ScheduleEvent::EfficiencyChange { .. }
            | ScheduleEvent::MachineRecovered { .. } => EventCategory::Equipment,
            ScheduleEvent::WorkerUnavailable { .. }
            | ScheduleEvent::WorkerAvailable { .. }
            | ScheduleEvent::WorkerSkillChange { .. } => EventCategory::Worker,
            ScheduleEvent::MaterialShortage { .. }
            | ScheduleEvent::MaterialDelay { .. }
            | ScheduleEvent::MaterialArrival { .. } => EventCategory::Material,
            ScheduleEvent::UrgentOrder { .. }
            | ScheduleEvent::OrderCancellation { .. }
            | ScheduleEvent::DueDateChange { .. }
            | ScheduleEvent::QuantityChange { .. }
            | ScheduleEvent::PriorityChange { .. } => EventCategory::Order,
        }
    }
}

/// Good news (arrivals, recoveries, returns, acquired skills) is never treated as
/// severe, and whatever is severe enough to regenerate is handled by some strategy
/// other than a right shift.
pub proof fn law_positive_events_right_shift(e: ScheduleEvent)
    ensures
        (e is MaterialArrival || e is WorkerAvailable || e is MachineRecovered)
            ==> spec_recommended_strategy(e) == RescheduleStrategy::RightShift && spec_severity(e) < 300,
        spec_severity(e) >= 800 && !(e is MaterialShortage) && !(e is UrgentOrder) && !(e is MachineBreakdown)
            ==> spec_recommended_strategy(e) == RescheduleStrategy::TotalRegeneration,
        0 <= spec_severity(e) <= 1000,
{
}

} // verus!
