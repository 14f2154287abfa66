//! Keeping a running schedule valid: routing a repair request to a strategy,
//! checking changes against the time fence, and holding work back until its
//! material arrives.

use vstd::prelude::*;
use crate::reschedule::{RescheduleStrategy, ScheduleEvent};
use crate::rescheduler::{
    aor_assignments, aor_outcome, assignments_in_bound, law_regeneration_respects_fence,
    law_repairs_respect_fence, MAX_ASSIGNMENTS, auto_computable, auto_strategy,
    event_in_bound, in_bound, max_end, max_end_or_zero, regenerated, regeneration_outcome,
    right_shift_outcome, right_shifted, stats_computable, RescheduleResult, RescheduleStats,
    Rescheduler,
};
use crate::schedule::{
    assignment_views, copy_tasks, copy_violations, Assignment, AssignmentView, Schedule,
    ScheduleView,
};
use crate::time_fence::{
    distinct_operations, law_unchanged_schedule_no_fence_violation, fence_handles_schedule, fence_violation_views, fence_violations, zone_of, FenceViolation,
    FenceViolationTypeView, FenceViolationView, FenceZone, TimeFenceChecker, TimeFenceConfig,
};

verus! {

/// An operation held back because its material arrives after its planned start.
#[derive(Debug, Clone)]
pub struct MaterialDelayedOperation {
    pub operation_id: String,
    /// Planned start (epoch ms).
    pub original_start_ms: i64,
    /// When the material is available (epoch ms).
    pub material_available_ms: i64,
    /// How long the operation waits (ms).
    pub delay_ms: i64,
}

/// Mathematical value of a held-back operation.
pub struct MaterialDelayView {
    pub operation_id: Seq<char>,
    pub original_start_ms: int,
    pub material_available_ms: int,
    pub delay_ms: int,
}

impl View for MaterialDelayedOperation {
    type V = MaterialDelayView;

    open spec fn view(&self) -> MaterialDelayView {
        MaterialDelayView {
            operation_id: self.operation_id@,
            original_start_ms: self.original_start_ms as int,
            material_available_ms: self.material_available_ms as int,
            delay_ms: self.delay_ms as int,
        }
    }
}

/// Views of a sequence of held-back operations.
pub open spec fn material_delay_views(s: Seq<MaterialDelayedOperation>) -> Seq<MaterialDelayView> {
    s.map_values(|d: MaterialDelayedOperation| d@)
}

/// An assignment once its material is taken into account: moved to the
/// material's arrival, keeping its length, when that comes after its start.
pub open spec fn material_adjusted(a: AssignmentView, available: int) -> AssignmentView {
    if available > a.start_ms {
        AssignmentView { start_ms: available, end_ms: available + (a.end_ms - a.start_ms), ..a }
    } else {
        a
    }
}

/// Every assignment adjusted to the availability of its material.
pub open spec fn material_adjusted_all(s: Seq<AssignmentView>, available: Seq<i64>) -> Seq<AssignmentView> {
    Seq::new(s.len(), |i: int| material_adjusted(s[i], available[i] as int))
}

/// The operations held back, in schedule order, with the time each waits.
pub open spec fn material_delays(s: Seq<AssignmentView>, available: Seq<i64>) -> Seq<MaterialDelayView>
    decreases s.len(),
{
    if s.len() == 0 {
        Seq::empty()
    } else {
        let before = material_delays(s.drop_last(), available);
        let a = s.last();
        let t = available[s.len() - 1] as int;
        if t > a.start_ms {
            before.push(MaterialDelayView {
                operation_id: a.operation_id,
                original_start_ms: a.start_ms,
                material_available_ms: t,
                delay_ms: t - a.start_ms,
            })
        } else {
            before
        }
    }
}

/// Settings of the dynamic scheduler.
#[derive(Debug, Clone, Copy)]
pub struct DynamicSchedulerConfig {
    /// The time fence repairs and changes must respect, if any.
    pub fence_config: Option<TimeFenceConfig>,
    /// Whether material availability holds work back.
    pub enable_material_constraints: bool,
    /// The repair strategy used by default.
    pub default_reschedule_strategy: RescheduleStrategy,
}

impl Default for DynamicSchedulerConfig {
    /// No fence, no material constraints, AOR repairs.
    fn default() -> (c: DynamicSchedulerConfig)
        ensures
            c.fence_config is None,
            !c.enable_material_constraints,
            c.default_reschedule_strategy == RescheduleStrategy::AOR,
    {
        DynamicSchedulerConfig {
            fence_config: None,
            enable_material_constraints: false,
            default_reschedule_strategy: RescheduleStrategy::AOR,
        }
    }
}

/// A request to repair a schedule after an event.
#[derive(Debug, Clone)]
pub struct RescheduleRequest {
    pub current_schedule: Schedule,
    pub event: ScheduleEvent,
    /// The strategy to apply; chosen from the event when absent.
    pub strategy: Option<RescheduleStrategy>,
}

/// Whether a repair request stays within the bounds the rescheduler accepts.
pub open spec fn request_computable(fence: Option<TimeFenceConfig>, s: Seq<AssignmentView>, e: ScheduleEvent, strategy: Option<RescheduleStrategy>) -> bool {
    &&& assignments_in_bound(s)
    &&& event_in_bound(e)
    &&& match strategy {
        Some(RescheduleStrategy::RightShift) => stats_computable(s, right_shifted(fence, s, e)),
        Some(RescheduleStrategy::AOR) => stats_computable(s, aor_assignments(fence, s, e)),
        Some(RescheduleStrategy::Partial) => stats_computable(s, aor_assignments(fence, s, e)),
        Some(RescheduleStrategy::TotalRegeneration) => stats_computable(s, regenerated(fence, s)),
        Some(RescheduleStrategy::Full) => stats_computable(s, regenerated(fence, s)),
        None => auto_computable(fence, s, e),
    }
}

/// What a repair request returns: the result of the requested strategy (AOR for
/// a partial repair, a regeneration for a full one), or of the strategy chosen
/// from the event when none is requested.
pub open spec fn reschedule_outcome(fence: Option<TimeFenceConfig>, before: ScheduleView, e: ScheduleEvent, strategy: Option<RescheduleStrategy>, r: RescheduleResult) -> bool {
    match strategy {
        Some(RescheduleStrategy::RightShift) => right_shift_outcome(fence, before, e, r),
        Some(RescheduleStrategy::AOR) => aor_outcome(fence, before, e, r),
        Some(RescheduleStrategy::Partial) => aor_outcome(fence, before, e, r),
        Some(RescheduleStrategy::TotalRegeneration) => regeneration_outcome(fence, before, r),
        Some(RescheduleStrategy::Full) => regeneration_outcome(fence, before, r),
        None => match auto_strategy(before.assignments, e) {
            None => r.schedule@ == before && r.affected_operations@.len() == 0
                && r.strategy_used == RescheduleStrategy::RightShift && r.stats == RescheduleStats::zero_spec(),
            Some(RescheduleStrategy::RightShift) => right_shift_outcome(fence, before, e, r),
            Some(RescheduleStrategy::AOR) => aor_outcome(fence, before, e, r),
            Some(_) => regeneration_outcome(fence, before, r),
        },
    }
}

/// Repairs, fence checks and material constraints on a running schedule.
#[derive(Debug, Clone, Copy)]
pub struct DynamicScheduler {
    config: DynamicSchedulerConfig,
}

impl Default for DynamicScheduler {
    fn default() -> (s: DynamicScheduler)
        ensures
            s.config().fence_config is None,
            !s.config().enable_material_constraints,
            s.config().default_reschedule_strategy == RescheduleStrategy::AOR,
    {
        DynamicScheduler::default_scheduler()
    }
}

impl DynamicScheduler {
    /// The scheduler's settings.
    pub closed spec fn config(self) -> DynamicSchedulerConfig {
        self.config
    }

    /// A scheduler with the given settings.
    pub fn new(config: DynamicSchedulerConfig) -> (s: DynamicScheduler)
        ensures
            s.config() == config,
    {
        DynamicScheduler { config }
    }

    /// A scheduler with the default settings.
    pub fn default_scheduler() -> (s: DynamicScheduler)
        ensures
            s.config().fence_config is None,
            !s.config().enable_material_constraints,
            s.config().default_reschedule_strategy == RescheduleStrategy::AOR,
    {
        DynamicScheduler::new(DynamicSchedulerConfig::default())
    }

    /// The same scheduler, respecting the given time fence.
    pub fn with_time_fence(self, config: TimeFenceConfig) -> (s: DynamicScheduler)
        ensures
            s.config() == (DynamicSchedulerConfig { fence_config: Some(config), ..self.config() }),
    {
        DynamicScheduler { config: DynamicSchedulerConfig { fence_config: Some(config), ..self.config } }
    }

    /// Repairs a schedule with the requested strategy (AOR for a partial repair,
    /// a regeneration for a full one), or the one chosen from the event, under
    /// the scheduler's time fence.
    pub fn reschedule(&self, request: RescheduleRequest) -> (r: RescheduleResult)
        requires
            request_computable(self.config().fence_config, request.current_schedule@.assignments, request.event, request.strategy),
        ensures
            reschedule_outcome(self.config().fence_config, request.current_schedule@, request.event, request.strategy, r),
    {
        let rescheduler = match self.config.fence_config {
            Some(fence) => Rescheduler::new().with_fence(fence),
            None => Rescheduler::new(),
        };
        assert(rescheduler.fence() == self.config().fence_config);
        match request.strategy {
            Some(RescheduleStrategy::RightShift) => rescheduler.right_shift(&request.current_schedule, &request.event),
            Some(RescheduleStrategy::AOR) => rescheduler.aor(&request.current_schedule, &request.event),
            Some(RescheduleStrategy::Partial) => rescheduler.aor(&request.current_schedule, &request.event),
            Some(RescheduleStrategy::TotalRegeneration) => rescheduler.total_regeneration(&request.current_schedule, &request.event),
            Some(RescheduleStrategy::Full) => rescheduler.total_regeneration(&request.current_schedule, &request.event),
            None => rescheduler.auto_reschedule(&request.current_schedule, &request.event),
        }
    }

    /// The fence violations of a change from `old_schedule` to `new_schedule`;
    /// none without a fence.
    pub fn validate_schedule_change(&self, old_schedule: &Schedule, new_schedule: &Schedule) -> (v: Vec<FenceViolation>)
        requires
            match self.config().fence_config {
                Some(c) => fence_handles_schedule(c, old_schedule@),
                None => true,
            },
        ensures
            fence_violation_views(v@) == match self.config().fence_config {
                Some(c) => fence_violations(c, old_schedule@.assignments, new_schedule@.assignments),
                None => Seq::empty(),
            },
    {
        match self.config.fence_config {
            Some(fence) => {
                let checker = TimeFenceChecker::new(fence);
                checker.check_schedule_change(old_schedule, new_schedule)
            },
            None => {
                let v: Vec<FenceViolation> = Vec::new();
                assert(fence_violation_views(v@) =~= Seq::<FenceViolationView>::empty());
                v
            },
        }
    }

    /// The fence violation of moving one operation from `old_start` to
    /// `new_start`: a moved start inside the frozen zone; none without a fence.
    pub fn validate_operation_change(&self, operation_id: &str, old_start: i64, new_start: i64) -> (v: Option<FenceViolation>)
        requires
            match self.config().fence_config {
                Some(c) => c.handles(old_start as int),
                None => true,
            },
        ensures
            match v {
                Some(x) => x@ == (FenceViolationView {
                    operation_id: operation_id@,
                    zone: FenceZone::Frozen,
                    time_ms: old_start as int,
                    violation_type: FenceViolationTypeView::TimeChanged { old_start: old_start as int, new_start: new_start as int },
                }),
                None => true,
            },
            v is Some <==> match self.config().fence_config {
                Some(c) => zone_of(c, old_start as int) == FenceZone::Frozen && old_start != new_start,
                None => false,
            },
    {
        match self.config.fence_config {
            Some(fence) => {
                let checker = TimeFenceChecker::new(fence);
                checker.check_single_change(operation_id, old_start, new_start)
            },
            None => None,
        }
    }

    /// Holds each assignment back until its material is available
    /// (`material_available[i]` for the i-th assignment), keeping its length, and
    /// recomputes the makespan as the latest end (0 without assignments). Also
    /// returns the operations held back, in schedule order.
    pub fn apply_material_constraints(&self, schedule: &Schedule, material_available: &Vec<i64>) -> (r: (Schedule, Vec<MaterialDelayedOperation>))
        requires
            assignments_in_bound(schedule@.assignments),
            material_available.len() == schedule.assignments.len(),
            forall|i: int| 0 <= i < material_available.len() ==> in_bound(#[trigger] material_available@[i] as int),
        ensures
            r.0@ == (ScheduleView {
                assignments: material_adjusted_all(schedule@.assignments, material_available@),
                makespan_ms: max_end_or_zero(material_adjusted_all(schedule@.assignments, material_available@)),
                ..schedule@
            }),
            material_delay_views(r.1@) == material_delays(schedule@.assignments, material_available@),
    {
        let ghost s = schedule@.assignments;
        let ghost avail = material_available@;
        let mut assignments: Vec<Assignment> = Vec::new();
        let mut delays: Vec<MaterialDelayedOperation> = Vec::new();
        let mut i: usize = 0;
        while i < schedule.assignments.len()
            invariant
                i <= schedule.assignments.len(),
                s == schedule@.assignments,
                avail == material_available@,
                material_available.len() == schedule.assignments.len(),
                assignments_in_bound(s),
                forall|k: int| 0 <= k < avail.len() ==> in_bound(#[trigger] avail[k] as int),
                assignment_views(assignments@) == material_adjusted_all(s, avail).take(i as int),
                material_delay_views(delays@) == material_delays(s.take(i as int), avail),
            decreases schedule.assignments.len() - i,
        {
            let a = &schedule.assignments[i];
            let t = material_available[i];
            assert(a@ == s[i as int]);
            proof {
                crate::rescheduler::lemma_in_bound_at(s, i as int);
            }
            assert(in_bound(avail[i as int] as int));
            assert(s.take(i + 1).drop_last() =~= s.take(i as int));
            let mut adjusted = a.copy();
            if t > a.start_ms {
                let duration = a.end_ms - a.start_ms;
                delays.push(MaterialDelayedOperation {
                    operation_id: a.operation_id.clone(),
                    original_start_ms: a.start_ms,
                    material_available_ms: t,
                    delay_ms: t - a.start_ms,
                });
                adjusted.start_ms = t;
                adjusted.end_ms = t + duration;
            }
            let ghost adjusted_view = material_adjusted(s[i as int], avail[i as int] as int);
            assert(adjusted@ == adjusted_view);
            let ghost prev = assignment_views(assignments@);
            assignments.push(adjusted);
            assert(assignment_views(assignments@) =~= prev.push(adjusted_view));
            assert(material_adjusted_all(s, avail).take(i + 1) =~= material_adjusted_all(s, avail).take(i as int).push(adjusted_view));
            i += 1;
            assert(material_delay_views(delays@) =~= material_delays(s.take(i as int), avail));
        }
        assert(material_adjusted_all(s, avail).take(i as int) =~= material_adjusted_all(s, avail));
        assert(s.take(i as int) =~= s);
        let makespan_ms = max_end(&assignments);
        let new_schedule = Schedule {
            assignments,
            makespan_ms,
            violations: copy_violations(&schedule.violations),
            tasks: copy_tasks(&schedule.tasks),
        };
        (new_schedule, delays)
    }
}

/// Material constraints only hold work back: no assignment starts earlier, none
/// starts before its material, and each keeps its length and everything else.
pub proof fn law_material_only_postpones(s: Seq<AssignmentView>, available: Seq<i64>, i: int)
    requires
        available.len() == s.len(),
        0 <= i < s.len(),
    ensures
        material_adjusted_all(s, available)[i].start_ms >= s[i].start_ms,
        material_adjusted_all(s, available)[i].start_ms >= available[i] as int,
        material_adjusted_all(s, available)[i].end_ms - material_adjusted_all(s, available)[i].start_ms
            == s[i].end_ms - s[i].start_ms,
        material_adjusted_all(s, available)[i].operation_id == s[i].operation_id,
        material_adjusted_all(s, available)[i].resource_id == s[i].resource_id,
        material_adjusted_all(s, available)[i].job_id == s[i].job_id,
{
}

/// A dynamic scheduler's repairs pass its own fence check: for a schedule whose
/// operations each appear once, the repaired schedule, whatever the strategy
/// requested or chosen, shows no fence violation against the schedule it repaired.
pub proof fn law_repairs_pass_fence_check(
    c: TimeFenceConfig,
    before: ScheduleView,
    e: ScheduleEvent,
    strategy: Option<RescheduleStrategy>,
    r: RescheduleResult,
)
    requires
        before.assignments.len() <= MAX_ASSIGNMENTS,
        distinct_operations(before.assignments),
        reschedule_outcome(Some(c), before, e, strategy, r),
    ensures
        fence_violations(c, before.assignments, r.schedule@.assignments).len() == 0,
{
    let s = before.assignments;
    law_repairs_respect_fence(c, s, e);
    law_regeneration_respects_fence(c, s);
    law_unchanged_schedule_no_fence_violation(c, s);
}

} // verus!
