//! The rescheduler: repairs a schedule after a disruption by a right shift, by
//! rescheduling the affected operations, or by regenerating it, keeping the
//! frozen zone of a time fence untouched.

use vstd::prelude::*;
use crate::reschedule::{RescheduleStrategy, ScheduleEvent};
use crate::schedule::{Assignment, AssignmentView, Schedule, ScheduleView, assignment_views, latest_assignment_end};
use crate::strings::str_eq;
use crate::time_fence::{distinct_operations, fence_violations, first_index_of_operation, lemma_first_index_found, zone_of, FenceZone, TimeFenceConfig};
use crate::validation::string_views;

verus! {

/// Whether the fence lets work starting at `start` be moved: always without a
/// fence, outside the frozen zone with one.
pub open spec fn fence_allows(fence: Option<TimeFenceConfig>, start: int) -> bool {
    match fence {
        Some(c) => zone_of(c, start) != FenceZone::Frozen,
        None => true,
    }
}

/// Whether an operation may be rescheduled: its first assignment, if it has one,
/// lies outside the frozen zone.
pub open spec fn operation_allows(fence: Option<TimeFenceConfig>, s: Seq<AssignmentView>, op: Seq<char>) -> bool {
    let k = first_index_of_operation(s, op);
    k >= s.len() || fence_allows(fence, s[k].start_ms)
}

/// The operation ids of a sequence of assignments.
pub open spec fn ops_of(s: Seq<AssignmentView>) -> Seq<Seq<char>> {
    s.map_values(|a: AssignmentView| a.operation_id)
}

/// Whether an assignment on `res` overlaps the outage `[start, end)`.
pub open spec fn hit_by_outage(a: AssignmentView, res: Seq<char>, start: int, end: int) -> bool {
    a.resource_id == res && a.start_ms < end && a.end_ms > start
}

/// Whether the end of an outage event can be computed.
pub open spec fn event_arith_ok(e: ScheduleEvent) -> bool {
    match e {
        ScheduleEvent::MachineBreakdown { start_ms, duration_ms, .. } =>
            i64::MIN <= start_ms + duration_ms <= i64::MAX,
        ScheduleEvent::WorkerUnavailable { start_ms, duration_ms, .. } =>
            i64::MIN <= start_ms + duration_ms <= i64::MAX,
        _ => true,
    }
}

/// The operations an event touches, in schedule order.
pub open spec fn affected_operations(s: Seq<AssignmentView>, e: ScheduleEvent) -> Seq<Seq<char>> {
    match e {
        ScheduleEvent::OperationDelay { operation_id, .. } => seq![operation_id@],
        ScheduleEvent::MachineBreakdown { resource_id, start_ms, duration_ms } =>
            ops_of(s.filter(|a: AssignmentView| hit_by_outage(a, resource_id@, start_ms as int, start_ms + duration_ms))),
        ScheduleEvent::OrderCancellation { job_id } =>
            ops_of(s.filter(|a: AssignmentView| a.job_id == job_id@)),
        ScheduleEvent::ProcessTimeChange { operation_id, .. } => seq![operation_id@],
        ScheduleEvent::UrgentOrder { .. } => ops_of(s),
        ScheduleEvent::MaterialShortage { affected_operations, .. } => string_views(affected_operations@),
        ScheduleEvent::WorkerUnavailable { worker_id, start_ms, duration_ms, .. } =>
            ops_of(s.filter(|a: AssignmentView| hit_by_outage(a, worker_id@, start_ms as int, start_ms + duration_ms))),
        _ => Seq::empty(),
    }
}

/// Bound on the times the rescheduler accepts (ms, about 278 years either side
/// of the epoch); with it no shift or placement leaves the `i64` range.
pub const TIME_BOUND: i64 = 0x800_0000_0000;

/// Bound on the number of assignments the rescheduler accepts.
pub const MAX_ASSIGNMENTS: usize = 262_144;

/// Whether a value lies within the accepted time bound.
pub open spec fn in_bound(t: int) -> bool {
    -TIME_BOUND <= t <= TIME_BOUND
}

/// Whether a value fits in an `i64`.
pub open spec fn fits_i64(x: int) -> bool {
    i64::MIN <= x <= i64::MAX
}

/// Whether a schedule's assignments are few enough and their times within bounds.
pub open spec fn assignments_in_bound(s: Seq<AssignmentView>) -> bool {
    &&& s.len() <= MAX_ASSIGNMENTS
    &&& forall|i: int| 0 <= i < s.len() ==> in_bound(#[trigger] s[i].start_ms) && in_bound(s[i].end_ms)
}

/// An assignment of a schedule within bounds has its times within bounds.
pub proof fn lemma_in_bound_at(s: Seq<AssignmentView>, k: int)
    requires
        assignments_in_bound(s),
        0 <= k < s.len(),
    ensures
        in_bound(s[k].start_ms),
        in_bound(s[k].end_ms),
{
    assert(in_bound(s[k].start_ms) && in_bound(s[k].end_ms));
}

/// Whether the times an event carries lie within bounds.
pub open spec fn event_in_bound(e: ScheduleEvent) -> bool {
    match e {
        ScheduleEvent::OperationDelay { delay_ms, .. } => in_bound(delay_ms as int),
        ScheduleEvent::MachineBreakdown { start_ms, duration_ms, .. } => in_bound(start_ms as int) && in_bound(duration_ms as int),
        ScheduleEvent::WorkerUnavailable { start_ms, duration_ms, .. } => in_bound(start_ms as int) && in_bound(duration_ms as int),
        _ => true,
    }
}

/// An assignment moved by `by`.
pub open spec fn shifted(a: AssignmentView, by: int) -> AssignmentView {
    AssignmentView { start_ms: a.start_ms + by, end_ms: a.end_ms + by, ..a }
}

/// The latest end of the assignments, or 0 when there are none.
pub open spec fn max_end_or_zero(s: Seq<AssignmentView>) -> int
    decreases s.len(),
{
    if s.len() == 0 {
        0
    } else if s.len() == 1 {
        s[0].end_ms
    } else {
        let rest = max_end_or_zero(s.drop_last());
        if s.last().end_ms > rest { s.last().end_ms } else { rest }
    }
}

/// The end of the last assignment of an operation, if it has one.
pub open spec fn last_end_of(s: Seq<AssignmentView>, op: Seq<char>) -> Option<int>
    decreases s.len(),
{
    if s.len() == 0 {
        None
    } else if s.last().operation_id == op {
        Some(s.last().end_ms)
    } else {
        last_end_of(s.drop_last(), op)
    }
}

/// How much later a new assignment ends than its operation did before (0 for a
/// new operation).
pub open spec fn end_change(a: AssignmentView, old: Seq<AssignmentView>) -> int {
    match last_end_of(old, a.operation_id) {
        Some(e) => a.end_ms - e,
        None => 0,
    }
}

/// The sum of the end changes of the new assignments.
pub open spec fn delay_change_sum(new: Seq<AssignmentView>, old: Seq<AssignmentView>) -> int
    decreases new.len(),
{
    if new.len() == 0 {
        0
    } else {
        delay_change_sum(new.drop_last(), old) + end_change(new.last(), old)
    }
}

/// Whether the statistics of a change can be computed in `i64`: every end
/// change, every partial sum and the makespan change fit.
pub open spec fn stats_computable(old: Seq<AssignmentView>, new: Seq<AssignmentView>) -> bool {
    &&& forall|i: int| 0 <= i < new.len() ==> fits_i64(#[trigger] end_change(new[i], old))
    &&& forall|i: int| 0 <= i <= new.len() ==> fits_i64(#[trigger] delay_change_sum(new.take(i), old))
    &&& fits_i64(max_end_or_zero(new) - max_end_or_zero(old))
}

/// The statistics of a change that touched `count` operations.
pub open spec fn stats_of(old: Seq<AssignmentView>, new: Seq<AssignmentView>, count: int, s: RescheduleStats) -> bool {
    &&& s.operations_changed == count
    &&& s.total_delay_change_ms == delay_change_sum(new, old)
    &&& s.makespan_change_ms == max_end_or_zero(new) - max_end_or_zero(old)
}

/// Index of the first assignment of the delayed operation.
pub open spec fn delayed_index(s: Seq<AssignmentView>, op: Seq<char>) -> int {
    first_index_of_operation(s, op)
}

/// Whether the delayed operation is found and may be moved.
pub open spec fn delay_applies(fence: Option<TimeFenceConfig>, s: Seq<AssignmentView>, op: Seq<char>) -> bool {
    let k = delayed_index(s, op);
    k < s.len() && fence_allows(fence, s[k].start_ms)
}

/// The new end of the delayed operation, or 0 when it was not moved.
pub open spec fn delay_end(fence: Option<TimeFenceConfig>, s: Seq<AssignmentView>, op: Seq<char>, delay: int) -> int {
    if delay_applies(fence, s, op) { s[delayed_index(s, op)].end_ms + delay } else { 0 }
}

/// The schedule with the delayed operation moved.
pub open spec fn after_delay(fence: Option<TimeFenceConfig>, s: Seq<AssignmentView>, op: Seq<char>, delay: int) -> Seq<AssignmentView> {
    if delay_applies(fence, s, op) {
        let k = delayed_index(s, op);
        s.update(k, shifted(s[k], delay))
    } else {
        s
    }
}

/// Whether another operation, starting within the delay before the delayed
/// operation's new end, is pushed along.
pub open spec fn pushed_along(fence: Option<TimeFenceConfig>, a: AssignmentView, op: Seq<char>, t: int, delay: int) -> bool {
    a.operation_id != op && a.start_ms < t && a.start_ms >= t - delay && fence_allows(fence, a.start_ms)
}

/// The assignments after a delay has been propagated.
pub open spec fn propagated(fence: Option<TimeFenceConfig>, s: Seq<AssignmentView>, op: Seq<char>, delay: int) -> Seq<AssignmentView> {
    let b = after_delay(fence, s, op, delay);
    let t = delay_end(fence, s, op, delay);
    b.map_values(|a: AssignmentView| if pushed_along(fence, a, op, t, delay) { shifted(a, delay) } else { a })
}

/// Whether an operation is moved by a propagated delay.
pub open spec fn moved_by_delay(fence: Option<TimeFenceConfig>, s: Seq<AssignmentView>, op: Seq<char>, delay: int, o: Seq<char>) -> bool {
    let b = after_delay(fence, s, op, delay);
    let t = delay_end(fence, s, op, delay);
    (delay_applies(fence, s, op) && o == op)
        || exists|j: int| 0 <= j < b.len() && #[trigger] pushed_along(fence, b[j], op, t, delay) && b[j].operation_id == o
}

/// The assignment moved to the end of an outage `[start, end)` when it overlaps
/// it and may be moved.
pub open spec fn after_outage(fence: Option<TimeFenceConfig>, a: AssignmentView, res: Seq<char>, start: int, end: int) -> AssignmentView {
    if hit_by_outage(a, res, start, end) && fence_allows(fence, a.start_ms) {
        shifted(a, end - a.start_ms)
    } else {
        a
    }
}

/// The assignments after a breakdown of `res` over `[start, start + duration)`.
pub open spec fn broken_down(fence: Option<TimeFenceConfig>, s: Seq<AssignmentView>, res: Seq<char>, start: int, duration: int) -> Seq<AssignmentView> {
    s.map_values(|a: AssignmentView| after_outage(fence, a, res, start, start + duration))
}

/// Whether an operation is moved by a breakdown.
pub open spec fn moved_by_breakdown(fence: Option<TimeFenceConfig>, s: Seq<AssignmentView>, res: Seq<char>, start: int, duration: int, o: Seq<char>) -> bool {
    exists|j: int| 0 <= j < s.len() && #[trigger] hit_by_outage(s[j], res, start, start + duration)
        && fence_allows(fence, s[j].start_ms) && s[j].operation_id == o
}

/// The assignments after a right shift for an event: delays are propagated,
/// breakdowns push the overlapping work past their end, other events change nothing.
pub open spec fn right_shifted(fence: Option<TimeFenceConfig>, s: Seq<AssignmentView>, e: ScheduleEvent) -> Seq<AssignmentView> {
    match e {
        ScheduleEvent::OperationDelay { operation_id, delay_ms } => propagated(fence, s, operation_id@, delay_ms as int),
        ScheduleEvent::MachineBreakdown { resource_id, start_ms, duration_ms } =>
            broken_down(fence, s, resource_id@, start_ms as int, duration_ms as int),
        _ => s,
    }
}

/// Whether a right shift for an event moves an operation.
pub open spec fn moved_by_right_shift(fence: Option<TimeFenceConfig>, s: Seq<AssignmentView>, e: ScheduleEvent, o: Seq<char>) -> bool {
    match e {
        ScheduleEvent::OperationDelay { operation_id, delay_ms } => moved_by_delay(fence, s, operation_id@, delay_ms as int, o),
        ScheduleEvent::MachineBreakdown { resource_id, start_ms, duration_ms } =>
            moved_by_breakdown(fence, s, resource_id@, start_ms as int, duration_ms as int, o),
        _ => false,
    }
}

/// What a rescheduling changed.
#[derive(Debug, Clone, Copy, PartialEq, Eq, Structural)]
pub struct RescheduleStats {
    /// Number of operations changed.
    pub operations_changed: usize,
    /// Sum of the changes of the operations' ends (ms).
    pub total_delay_change_ms: i64,
    /// Change of the latest end (ms).
    pub makespan_change_ms: i64,
}

impl RescheduleStats {
    /// The statistics of no change.
    pub open spec fn zero_spec() -> RescheduleStats {
        RescheduleStats { operations_changed: 0, total_delay_change_ms: 0, makespan_change_ms: 0 }
    }

    /// No change at all.
    pub fn zero() -> (s: RescheduleStats)
        ensures
            s == RescheduleStats::zero_spec(),
    {
        RescheduleStats { operations_changed: 0, total_delay_change_ms: 0, makespan_change_ms: 0 }
    }
}

impl Default for RescheduleStats {
    fn default() -> (s: RescheduleStats)
        ensures
            s == RescheduleStats::zero_spec(),
    {
        RescheduleStats::zero()
    }
}

/// A repaired schedule and what was done to it.
#[derive(Debug, Clone)]
pub struct RescheduleResult {
    /// The new schedule.
    pub schedule: Schedule,
    /// The operations that were changed.
    pub affected_operations: Vec<String>,
    /// The strategy applied.
    pub strategy_used: RescheduleStrategy,
    /// What changed.
    pub stats: RescheduleStats,
}

/// Repairs schedules after disruptions, respecting an optional time fence.
#[derive(Debug, Clone, Copy)]
pub struct Rescheduler {
    fence_config: Option<TimeFenceConfig>,
}

impl Default for Rescheduler {
    fn default() -> (r: Rescheduler)
        ensures
            r.fence() == None::<TimeFenceConfig>,
    {
        Rescheduler::new()
    }
}

/// Whether the fence lets work starting at `start` be moved (computed without
/// any risk of overflow).
fn fence_allows_at(fence: &Option<TimeFenceConfig>, start: i64) -> (b: bool)
    ensures
        b == fence_allows(*fence, start as int),
{
    match fence {
        Some(c) => (start as i128) - (c.current_time_ms as i128) >= c.frozen_end_ms as i128,
        None => true,
    }
}

impl Rescheduler {
    /// The time fence the rescheduler respects, if any.
    pub closed spec fn fence(self) -> Option<TimeFenceConfig> {
        self.fence_config
    }

    /// A rescheduler without a time fence.
    pub fn new() -> (r: Rescheduler)
        ensures
            r.fence() == None::<TimeFenceConfig>,
    {
        Rescheduler { fence_config: None }
    }

    /// The same rescheduler, respecting the given time fence.
    pub fn with_fence(self, config: TimeFenceConfig) -> (r: Rescheduler)
        ensures
            r.fence() == Some(config),
    {
        Rescheduler { fence_config: Some(config) }
    }

    /// Whether an assignment may be moved: it starts outside the frozen zone.
    pub fn can_reschedule_assignment(&self, assign: &Assignment) -> (b: bool)
        ensures
            b == fence_allows(self.fence(), assign.start_ms as int),
    {
        fence_allows_at(&self.fence_config, assign.start_ms)
    }

    /// Whether an operation may be rescheduled: its first assignment in the
    /// schedule, if any, starts outside the frozen zone.
    pub fn can_reschedule_operation(&self, schedule: &Schedule, operation_id: &str) -> (b: bool)
        ensures
            b == operation_allows(self.fence(), schedule@.assignments, operation_id@),
    {
        let ghost s = schedule@.assignments;
        assert(s.skip(0) =~= s);
        let mut i: usize = 0;
        while i < schedule.assignments.len()
            invariant
                i <= schedule.assignments.len(),
                s == schedule@.assignments,
                s.len() == schedule.assignments.len(),
                forall|j: int| 0 <= j < i ==> #[trigger] s[j].operation_id != operation_id@,
                first_index_of_operation(s, operation_id@) == i + first_index_of_operation(s.skip(i as int), operation_id@),
            decreases schedule.assignments.len() - i,
        {
            assert(s.skip(i as int).drop_first() =~= s.skip(i + 1));
            if str_eq(schedule.assignments[i].operation_id.as_str(), operation_id) {
                assert(s[i as int] == schedule.assignments@[i as int]@);
                return fence_allows_at(&self.fence_config, schedule.assignments[i].start_ms);
            }
            i += 1;
        }
        assert(s.skip(i as int).len() == 0);
        true
    }

    /// The operations an event touches: the delayed or changed operation, the
    /// assignments overlapping a breakdown or an absence, those of a cancelled
    /// job, every operation for an urgent order, the listed ones for a material
    /// shortage, and none otherwise.
    pub fn identify_affected_operations(&self, schedule: &Schedule, event: &ScheduleEvent) -> (r: Vec<String>)
        requires
            event_arith_ok(*event),
        ensures
            string_views(r@) == affected_operations(schedule@.assignments, *event),
    {
        let ghost all = schedule@.assignments;
        match event {
            ScheduleEvent::OperationDelay { operation_id, .. } | ScheduleEvent::ProcessTimeChange { operation_id, .. } => {
                let mut r: Vec<String> = Vec::new();
                r.push(operation_id.clone());
                assert(string_views(r@) =~= seq![operation_id@]);
                r
            }
            ScheduleEvent::MachineBreakdown { resource_id, start_ms, duration_ms } => {
                outage_operations(schedule, resource_id.as_str(), *start_ms, *start_ms + *duration_ms)
            }
            ScheduleEvent::WorkerUnavailable { worker_id, start_ms, duration_ms, .. } => {
                outage_operations(schedule, worker_id.as_str(), *start_ms, *start_ms + *duration_ms)
            }
            ScheduleEvent::OrderCancellation { job_id } => {
                let ghost pred = |a: AssignmentView| a.job_id == job_id@;
                let mut r: Vec<String> = Vec::new();
                let mut i: usize = 0;
                while i < schedule.assignments.len()
                    invariant
                        i <= schedule.assignments.len(),
                        all == schedule@.assignments,
                        all.len() == schedule.assignments.len(),
                        pred == (|a: AssignmentView| a.job_id == job_id@),
                        string_views(r@) == ops_of(all.take(i as int).filter(pred)),
                    decreases schedule.assignments.len() - i,
                {
                    reveal_with_fuel(Seq::<_>::filter, 1);
                    let a = &schedule.assignments[i];
                    assert(all[i as int] == a@);
                    assert(all.take(i + 1).drop_last() =~= all.take(i as int));
                    let ghost prev = all.take(i as int).filter(pred);
                    assert(all.take(i + 1).filter(pred) == if pred(a@) { prev.push(a@) } else { prev });
                    assert(ops_of(prev.push(a@)) =~= ops_of(prev).push(a@.operation_id));
                    let ghost r0 = r@;
                    if str_eq(a.job_id.as_str(), job_id.as_str()) {
                        r.push(a.operation_id.clone());
                        assert(string_views(r@) =~= string_views(r0).push(a@.operation_id));
                    }
                    assert(string_views(r@) =~= ops_of(all.take(i + 1).filter(pred)));
                    i += 1;
                }
                assert(all.take(schedule.assignments.len() as int) =~= all);
                r
            }
            ScheduleEvent::UrgentOrder { .. } => {
                let mut r: Vec<String> = Vec::new();
                let mut i: usize = 0;
                while i < schedule.assignments.len()
                    invariant
                        i <= schedule.assignments.len(),
                        all == schedule@.assignments,
                        all.len() == schedule.assignments.len(),
                        string_views(r@) == ops_of(all.take(i as int)),
                    decreases schedule.assignments.len() - i,
                {
                    assert(all[i as int] == schedule.assignments@[i as int]@);
                    assert(all.take(i + 1) =~= all.take(i as int).push(all[i as int]));
                    assert(ops_of(all.take(i as int).push(all[i as int])) =~= ops_of(all.take(i as int)).push(all[i as int].operation_id));
                    let ghost r0 = r@;
                    r.push(schedule.assignments[i].operation_id.clone());
                    assert(string_views(r@) =~= string_views(r0).push(all[i as int].operation_id));
                    assert(string_views(r@) =~= ops_of(all.take(i + 1)));
                    i += 1;
                }
                assert(all.take(schedule.assignments.len() as int) =~= all);
                r
            }
            ScheduleEvent::MaterialShortage { affected_operations, .. } => {
                crate::strings::copy_strings(affected_operations)
            }
            _ => {
                let r: Vec<String> = Vec::new();
                assert(string_views(r@) =~= Seq::<Seq<char>>::empty());
                r
            }
        }
    }
}

/// The operations of the assignments on `res` that overlap `[start, end)`.
fn outage_operations(schedule: &Schedule, res: &str, start: i64, end: i64) -> (r: Vec<String>)
    ensures
        string_views(r@) == ops_of(schedule@.assignments.filter(
            |a: AssignmentView| hit_by_outage(a, res@, start as int, end as int))),
{
    let ghost all = schedule@.assignments;
    let ghost pred = |a: AssignmentView| hit_by_outage(a, res@, start as int, end as int);
    let mut r: Vec<String> = Vec::new();
    let mut i: usize = 0;
    while i < schedule.assignments.len()
        invariant
            i <= schedule.assignments.len(),
            all == schedule@.assignments,
            all.len() == schedule.assignments.len(),
            pred == (|a: AssignmentView| hit_by_outage(a, res@, start as int, end as int)),
            string_views(r@) == ops_of(all.take(i as int).filter(pred)),
        decreases schedule.assignments.len() - i,
    {
        reveal_with_fuel(Seq::<_>::filter, 1);
        let a = &schedule.assignments[i];
        assert(all[i as int] == a@);
        assert(all.take(i + 1).drop_last() =~= all.take(i as int));
        let ghost prev = all.take(i as int).filter(pred);
        assert(all.take(i + 1).filter(pred) == if pred(a@) { prev.push(a@) } else { prev });
        assert(ops_of(prev.push(a@)) =~= ops_of(prev).push(a@.operation_id));
        let ghost r0 = r@;
        if str_eq(a.resource_id.as_str(), res) && a.start_ms < end && a.end_ms > start {
            r.push(a.operation_id.clone());
            assert(string_views(r@) =~= string_views(r0).push(a@.operation_id));
        }
        assert(string_views(r@) =~= ops_of(all.take(i + 1).filter(pred)));
        i += 1;
    }
    assert(all.take(schedule.assignments.len() as int) =~= all);
    r
}

/// What a right shift returns: the shifted assignments with the makespan as
/// their latest end (everything else as it was), the distinct moved
/// operations, and the statistics of the change.
pub open spec fn right_shift_outcome(fence: Option<TimeFenceConfig>, before: ScheduleView, e: ScheduleEvent, r: RescheduleResult) -> bool {
    &&& r.schedule@ == (ScheduleView {
            assignments: right_shifted(fence, before.assignments, e),
            makespan_ms: latest_assignment_end(right_shifted(fence, before.assignments, e)),
            ..before
        })
    &&& r.strategy_used == RescheduleStrategy::RightShift
    &&& string_views(r.affected_operations@).no_duplicates()
    &&& forall|x: Seq<char>| #[trigger] string_views(r.affected_operations@).contains(x)
            <==> moved_by_right_shift(fence, before.assignments, e, x)
    &&& stats_of(before.assignments, r.schedule@.assignments, r.affected_operations.len() as int, r.stats)
}

/// What AOR returns: the affected operations moved forward (everything else as
/// it was), the distinct rescheduled operations, and the statistics.
pub open spec fn aor_outcome(fence: Option<TimeFenceConfig>, before: ScheduleView, e: ScheduleEvent, r: RescheduleResult) -> bool {
    &&& r.schedule@ == (ScheduleView { assignments: aor_assignments(fence, before.assignments, e), ..before })
    &&& r.strategy_used == RescheduleStrategy::AOR
    &&& string_views(r.affected_operations@).no_duplicates()
    &&& forall|x: Seq<char>| #[trigger] string_views(r.affected_operations@).contains(x)
            <==> aor_selection(fence, before.assignments, e).contains(x)
    &&& stats_of(before.assignments, r.schedule@.assignments, r.affected_operations.len() as int, r.stats)
}

/// Whether an assignment lies in the frozen zone of the fence (never without one).
pub open spec fn frozen_at(fence: Option<TimeFenceConfig>, a: AssignmentView) -> bool {
    !fence_allows(fence, a.start_ms)
}

/// The assignments a regeneration keeps: those in the frozen zone.
pub open spec fn fixed_part(fence: Option<TimeFenceConfig>, s: Seq<AssignmentView>) -> Seq<AssignmentView> {
    s.filter(|a: AssignmentView| frozen_at(fence, a))
}

/// The operations a regeneration places anew: those of the assignments outside
/// the frozen zone, in schedule order.
pub open spec fn regen_ids(fence: Option<TimeFenceConfig>, s: Seq<AssignmentView>) -> Seq<Seq<char>> {
    ops_of(s.filter(|a: AssignmentView| !frozen_at(fence, a)))
}

/// The set of operations a regeneration places anew.
pub open spec fn regen_selection(fence: Option<TimeFenceConfig>, s: Seq<AssignmentView>) -> Set<Seq<char>> {
    Set::new(|o: Seq<char>| regen_ids(fence, s).contains(o))
}

/// For each resource, the latest end of the given assignments on it (at least 0).
pub open spec fn ready_by_resource(s: Seq<AssignmentView>) -> Map<Seq<char>, int>
    decreases s.len(),
{
    if s.len() == 0 { Map::empty() } else { raised(ready_by_resource(s.drop_last()), s.last().resource_id, s.last().end_ms) }
}

/// For each job, the latest end of the given assignments of it (at least 0).
pub open spec fn ready_by_job(s: Seq<AssignmentView>) -> Map<Seq<char>, int>
    decreases s.len(),
{
    if s.len() == 0 { Map::empty() } else { raised(ready_by_job(s.drop_last()), s.last().job_id, s.last().end_ms) }
}

/// Places one assignment anew as soon as both its resource and its job are
/// ready, keeping its length, and makes both busy until its end.
pub open spec fn regen_step(st: (Seq<AssignmentView>, Map<Seq<char>, int>, Map<Seq<char>, int>), a: AssignmentView)
    -> (Seq<AssignmentView>, Map<Seq<char>, int>, Map<Seq<char>, int>)
{
    let start = max2(get_or_zero(st.1, a.resource_id), get_or_zero(st.2, a.job_id));
    let a2 = shifted(a, start - a.start_ms);
    (st.0.push(a2), st.1.insert(a.resource_id, a2.end_ms), st.2.insert(a.job_id, a2.end_ms))
}

/// Places the assignments at the given indices anew, one after the other.
pub open spec fn regen_all(s: Seq<AssignmentView>, order: Seq<usize>, init: (Seq<AssignmentView>, Map<Seq<char>, int>, Map<Seq<char>, int>))
    -> (Seq<AssignmentView>, Map<Seq<char>, int>, Map<Seq<char>, int>)
    decreases order.len(),
{
    if order.len() == 0 { init } else { regen_step(regen_all(s, order.drop_last(), init), s[order.last() as int]) }
}

/// The assignments after a regeneration: the frozen ones as they were, then the
/// others in start order, each as early as its resource and job allow.
pub open spec fn regenerated(fence: Option<TimeFenceConfig>, s: Seq<AssignmentView>) -> Seq<AssignmentView> {
    let fx = fixed_part(fence, s);
    regen_all(s, sorted_selection(s, regen_selection(fence, s)), (fx, ready_by_resource(fx), ready_by_job(fx))).0
}

/// What a regeneration returns: a fresh schedule of the regenerated assignments
/// with its makespan, the operations placed anew, and the statistics.
pub open spec fn regeneration_outcome(fence: Option<TimeFenceConfig>, before: ScheduleView, r: RescheduleResult) -> bool {
    let n = regenerated(fence, before.assignments);
    &&& r.schedule@ == (ScheduleView {
            assignments: n,
            makespan_ms: latest_assignment_end(n),
            violations: Seq::empty(),
            tasks: Seq::empty(),
        })
    &&& r.strategy_used == RescheduleStrategy::TotalRegeneration
    &&& string_views(r.affected_operations@) == regen_ids(fence, before.assignments)
    &&& stats_of(before.assignments, n, r.affected_operations.len() as int, r.stats)
}

/// The strategy chosen automatically: none when the event touches nothing, a
/// right shift for up to three operations, AOR for at most 30% of the
/// assignments, and a regeneration otherwise.
pub open spec fn auto_strategy(s: Seq<AssignmentView>, e: ScheduleEvent) -> Option<RescheduleStrategy> {
    let n = affected_operations(s, e).len();
    if n == 0 {
        None
    } else if n <= 3 {
        Some(RescheduleStrategy::RightShift)
    } else if n * 10 <= s.len() * 3 {
        Some(RescheduleStrategy::AOR)
    } else {
        Some(RescheduleStrategy::TotalRegeneration)
    }
}

/// Whether the statistics of the automatically chosen strategy can be computed.
pub open spec fn auto_computable(fence: Option<TimeFenceConfig>, s: Seq<AssignmentView>, e: ScheduleEvent) -> bool {
    match auto_strategy(s, e) {
        Some(RescheduleStrategy::RightShift) => stats_computable(s, right_shifted(fence, s, e)),
        Some(RescheduleStrategy::AOR) => stats_computable(s, aor_assignments(fence, s, e)),
        Some(RescheduleStrategy::TotalRegeneration) => stats_computable(s, regenerated(fence, s)),
        _ => true,
    }
}

/// Bound on the times after `p` placements.
pub open spec fn placed_bound(p: int) -> int {
    (2 * p + 1) * TIME_BOUND
}

/// Whether a list of strings holds a string.
pub(crate) fn contains_str(v: &Vec<String>, s: &str) -> (b: bool)
    ensures
        b == string_views(v@).contains(s@),
{
    let mut i: usize = 0;
    while i < v.len()
        invariant
            i <= v.len(),
            forall|j: int| 0 <= j < i ==> #[trigger] v@[j]@ != s@,
        decreases v.len() - i,
    {
        if str_eq(v[i].as_str(), s) {
            assert(string_views(v@)[i as int] == s@);
            return true;
        }
        i += 1;
    }
    proof {
        if string_views(v@).contains(s@) {
            let j = choose|j: int| 0 <= j < string_views(v@).len() && string_views(v@)[j] == s@;
            assert(v@[j]@ == s@);
        }
    }
    false
}

/// Adds a string to a list of distinct strings unless it is already there.
fn insert_unique(v: &mut Vec<String>, s: &str)
    requires
        string_views(old(v)@).no_duplicates(),
    ensures
        string_views(final(v)@).no_duplicates(),
        forall|x: Seq<char>| #[trigger] string_views(final(v)@).contains(x)
            <==> (string_views(old(v)@).contains(x) || x == s@),
{
    if !contains_str(v, s) {
        let ghost before = string_views(v@);
        v.push(String::from_str(s));
        assert(string_views(v@) =~= before.push(s@));
        assert forall|x: Seq<char>| #[trigger] string_views(v@).contains(x)
            <==> (before.contains(x) || x == s@) by {
            if string_views(v@).contains(x) {
                let j = choose|j: int| 0 <= j < string_views(v@).len() && string_views(v@)[j] == x;
                if j < before.len() {
                    assert(before[j] == x);
                }
            }
            if x == s@ {
                assert(string_views(v@)[before.len() as int] == x);
            }
            if before.contains(x) {
                let j = choose|j: int| 0 <= j < before.len() && before[j] == x;
                assert(string_views(v@)[j] == x);
            }
        }
    }
}

/// Index of the first assignment of an operation, or the length when there is none.
fn first_index_of(v: &Vec<Assignment>, op: &str) -> (k: usize)
    ensures
        k as int == first_index_of_operation(assignment_views(v@), op@),
        k <= v.len(),
{
    let ghost s = assignment_views(v@);
    assert(s.skip(0) =~= s);
    let mut i: usize = 0;
    while i < v.len()
        invariant
            i <= v.len(),
            s == assignment_views(v@),
            first_index_of_operation(s, op@) == i + first_index_of_operation(s.skip(i as int), op@),
        decreases v.len() - i,
    {
        assert(s.skip(i as int).drop_first() =~= s.skip(i + 1));
        if str_eq(v[i].operation_id.as_str(), op) {
            return i;
        }
        i += 1;
    }
    i
}

/// The end of the last assignment of an operation, if any.
fn last_end(v: &Vec<Assignment>, op: &str) -> (r: Option<i64>)
    ensures
        match r {
            Some(e) => last_end_of(assignment_views(v@), op@) == Some(e as int),
            None => last_end_of(assignment_views(v@), op@) is None,
        },
{
    let ghost s = assignment_views(v@);
    assert(s.take(v.len() as int) =~= s);
    let mut i: usize = v.len();
    while i > 0
        invariant
            i <= v.len(),
            s == assignment_views(v@),
            last_end_of(s, op@) == last_end_of(s.take(i as int), op@),
        decreases i,
    {
        assert(s.take(i as int).drop_last() =~= s.take(i - 1));
        if str_eq(v[i - 1].operation_id.as_str(), op) {
            return Some(v[i - 1].end_ms);
        }
        i -= 1;
    }
    None
}

/// The latest end of the assignments, or 0 when none ends later.
pub(crate) fn latest_end(v: &Vec<Assignment>) -> (m: i64)
    ensures
        m == latest_assignment_end(assignment_views(v@)),
{
    let ghost s = assignment_views(v@);
    let mut m: i64 = 0;
    let mut i: usize = 0;
    while i < v.len()
        invariant
            i <= v.len(),
            s == assignment_views(v@),
            m == latest_assignment_end(s.take(i as int)),
        decreases v.len() - i,
    {
        assert(s.take(i + 1).drop_last() =~= s.take(i as int));
        if v[i].end_ms > m {
            m = v[i].end_ms;
        }
        i += 1;
    }
    assert(s.take(v.len() as int) =~= s);
    m
}

/// The latest end of the assignments, or 0 when there are none.
pub(crate) fn max_end(v: &Vec<Assignment>) -> (m: i64)
    ensures
        m == max_end_or_zero(assignment_views(v@)),
{
    let ghost s = assignment_views(v@);
    let mut m: i64 = 0;
    let mut i: usize = 0;
    while i < v.len()
        invariant
            i <= v.len(),
            s == assignment_views(v@),
            m == max_end_or_zero(s.take(i as int)),
        decreases v.len() - i,
    {
        assert(s.take(i + 1).drop_last() =~= s.take(i as int));
        if i == 0 || v[i].end_ms > m {
            m = v[i].end_ms;
        }
        i += 1;
    }
    assert(s.take(v.len() as int) =~= s);
    m
}

/// The statistics of a change from `old` to `new` that touched `count` operations.
fn calculate_stats(old: &Schedule, new: &Schedule, count: usize) -> (st: RescheduleStats)
    requires
        stats_computable(old@.assignments, new@.assignments),
    ensures
        stats_of(old@.assignments, new@.assignments, count as int, st),
{
    let ghost o = old@.assignments;
    let ghost n = new@.assignments;
    let old_makespan = max_end(&old.assignments);
    let new_makespan = max_end(&new.assignments);
    let mut total: i64 = 0;
    let mut i: usize = 0;
    assert(n.take(0) =~= Seq::<AssignmentView>::empty());
    while i < new.assignments.len()
        invariant
            i <= new.assignments.len(),
            o == old@.assignments,
            n == new@.assignments,
            n.len() == new.assignments.len(),
            stats_computable(o, n),
            total == delay_change_sum(n.take(i as int), o),
        decreases new.assignments.len() - i,
    {
        let a = &new.assignments[i];
        assert(n[i as int] == a@);
        assert(n.take(i + 1).drop_last() =~= n.take(i as int));
        assert(fits_i64(end_change(n[i as int], o)));
        assert(fits_i64(delay_change_sum(n.take(i + 1), o)));
        match last_end(&old.assignments, a.operation_id.as_str()) {
            Some(e) => {
                let d = a.end_ms - e;
                total = total + d;
            }
            None => {}
        }
        i += 1;
    }
    assert(n.take(new.assignments.len() as int) =~= n);
    RescheduleStats {
        operations_changed: count,
        total_delay_change_ms: total,
        makespan_change_ms: new_makespan - old_makespan,
    }
}

impl Rescheduler {
    /// Moves the first assignment of the delayed operation by the delay (when the
    /// fence allows) and pushes along every other operation that starts within
    /// the delay before its new end.
    fn propagate_delay(&self, schedule: &mut Schedule, operation_id: &str, delay_ms: i64, affected: &mut Vec<String>)
        requires
            assignments_in_bound(old(schedule)@.assignments),
            in_bound(delay_ms as int),
            string_views(old(affected)@).no_duplicates(),
        ensures
            final(schedule)@ == (ScheduleView {
                assignments: propagated(self.fence(), old(schedule)@.assignments, operation_id@, delay_ms as int),
                ..old(schedule)@
            }),
            string_views(final(affected)@).no_duplicates(),
            forall|x: Seq<char>| #[trigger] string_views(final(affected)@).contains(x)
                <==> (string_views(old(affected)@).contains(x)
                    || moved_by_delay(self.fence(), old(schedule)@.assignments, operation_id@, delay_ms as int, x)),
    {
        let ghost fence = self.fence();
        let ghost s0 = schedule@.assignments;
        let ghost aff0 = string_views(affected@);
        let k = first_index_of(&schedule.assignments, operation_id);
        let mut op_end_time: i64 = 0;
        if k < schedule.assignments.len() {
            assert(s0[k as int] == schedule.assignments@[k as int]@);
            if fence_allows_at(&self.fence_config, schedule.assignments[k].start_ms) {
                let mut a = schedule.assignments[k].copy();
                a.start_ms = a.start_ms + delay_ms;
                a.end_ms = a.end_ms + delay_ms;
                op_end_time = a.end_ms;
                schedule.assignments.set(k, a);
                insert_unique(affected, operation_id);
                assert(schedule@.assignments =~= s0.update(k as int, shifted(s0[k as int], delay_ms as int)));
            }
        }
        let ghost b = schedule@.assignments;
        let ghost t = op_end_time as int;
        let ghost aff1 = string_views(affected@);
        assert(b == after_delay(fence, s0, operation_id@, delay_ms as int));
        assert(t == delay_end(fence, s0, operation_id@, delay_ms as int));
        assert(forall|x: Seq<char>| aff1.contains(x)
            <==> (aff0.contains(x) || (delay_applies(fence, s0, operation_id@) && x == operation_id@)));
        let ghost f = |a: AssignmentView| if pushed_along(fence, a, operation_id@, t, delay_ms as int) { shifted(a, delay_ms as int) } else { a };
        let mut i: usize = 0;
        while i < schedule.assignments.len()
            invariant
                i <= schedule.assignments.len(),
                schedule.assignments.len() == b.len(),
                b.len() == s0.len(),
                fence == self.fence(),
                t == op_end_time,
                in_bound(delay_ms as int),
                -2 * TIME_BOUND <= t <= 2 * TIME_BOUND,
                forall|j: int| 0 <= j < b.len() ==> -2 * TIME_BOUND <= #[trigger] b[j].start_ms <= 2 * TIME_BOUND
                    && -2 * TIME_BOUND <= b[j].end_ms <= 2 * TIME_BOUND,
                f == (|a: AssignmentView| if pushed_along(fence, a, operation_id@, t, delay_ms as int) { shifted(a, delay_ms as int) } else { a }),
                forall|j: int| 0 <= j < i ==> #[trigger] schedule@.assignments[j] == f(b[j]),
                forall|j: int| i <= j < b.len() ==> #[trigger] schedule@.assignments[j] == b[j],
                schedule.makespan_ms == old(schedule).makespan_ms,
                schedule@.violations == old(schedule)@.violations,
                schedule@.tasks == old(schedule)@.tasks,
                string_views(affected@).no_duplicates(),
                forall|x: Seq<char>| #[trigger] string_views(affected@).contains(x)
                    <==> (aff1.contains(x) || exists|j: int| 0 <= j < i && #[trigger] pushed_along(fence, b[j], operation_id@, t, delay_ms as int) && b[j].operation_id == x),
            decreases schedule.assignments.len() - i,
        {
            assert(schedule@.assignments[i as int] == schedule.assignments@[i as int]@);
            let ghost bi = b[i as int];
            assert(-2 * TIME_BOUND <= bi.start_ms <= 2 * TIME_BOUND && -2 * TIME_BOUND <= bi.end_ms <= 2 * TIME_BOUND);
            let ghost before = string_views(affected@);
            let a = &schedule.assignments[i];
            if !str_eq(a.operation_id.as_str(), operation_id) && a.start_ms < op_end_time
                && a.start_ms >= op_end_time - delay_ms && fence_allows_at(&self.fence_config, a.start_ms) {
                let mut a2 = a.copy();
                a2.start_ms = a2.start_ms + delay_ms;
                a2.end_ms = a2.end_ms + delay_ms;
                insert_unique(affected, a2.operation_id.as_str());
                let ghost prev = schedule@.assignments;
                schedule.assignments.set(i, a2);
                assert(schedule@.assignments =~= prev.update(i as int, f(bi)));
            }
            assert forall|x: Seq<char>| #[trigger] string_views(affected@).contains(x)
                <==> (aff1.contains(x) || exists|j: int| 0 <= j < i + 1 && #[trigger] pushed_along(fence, b[j], operation_id@, t, delay_ms as int) && b[j].operation_id == x) by {
                if exists|j: int| 0 <= j < i + 1 && #[trigger] pushed_along(fence, b[j], operation_id@, t, delay_ms as int) && b[j].operation_id == x {
                    let j = choose|j: int| 0 <= j < i + 1 && #[trigger] pushed_along(fence, b[j], operation_id@, t, delay_ms as int) && b[j].operation_id == x;
                    if j < i {
                        assert(before.contains(x));
                    }
                }
                if before.contains(x) && !aff1.contains(x) {
                    let j = choose|j: int| 0 <= j < i && #[trigger] pushed_along(fence, b[j], operation_id@, t, delay_ms as int) && b[j].operation_id == x;
                    assert(0 <= j < i + 1);
                }
            }
            i += 1;
        }
        assert(schedule@.assignments =~= propagated(fence, s0, operation_id@, delay_ms as int));
    }

    /// Pushes every movable assignment on the resource that overlaps the outage
    /// `[start, start + duration)` to the outage's end, keeping its length.
    fn shift_for_breakdown(&self, schedule: &mut Schedule, resource_id: &str, start_ms: i64, duration_ms: i64, affected: &mut Vec<String>)
        requires
            assignments_in_bound(old(schedule)@.assignments),
            in_bound(start_ms as int),
            in_bound(duration_ms as int),
            string_views(old(affected)@).no_duplicates(),
        ensures
            final(schedule)@ == (ScheduleView {
                assignments: broken_down(self.fence(), old(schedule)@.assignments, resource_id@, start_ms as int, duration_ms as int),
                ..old(schedule)@
            }),
            string_views(final(affected)@).no_duplicates(),
            forall|x: Seq<char>| #[trigger] string_views(final(affected)@).contains(x)
                <==> (string_views(old(affected)@).contains(x)
                    || moved_by_breakdown(self.fence(), old(schedule)@.assignments, resource_id@, start_ms as int, duration_ms as int, x)),
    {
        let ghost fence = self.fence();
        let ghost s0 = schedule@.assignments;
        let ghost aff0 = string_views(affected@);
        let breakdown_end = start_ms + duration_ms;
        let ghost f = |a: AssignmentView| after_outage(fence, a, resource_id@, start_ms as int, breakdown_end as int);
        let mut i: usize = 0;
        while i < schedule.assignments.len()
            invariant
                i <= schedule.assignments.len(),
                schedule.assignments.len() == s0.len(),
                fence == self.fence(),
                breakdown_end == start_ms + duration_ms,
                in_bound(start_ms as int),
                in_bound(duration_ms as int),
                assignments_in_bound(s0),
                f == (|a: AssignmentView| after_outage(fence, a, resource_id@, start_ms as int, breakdown_end as int)),
                forall|j: int| 0 <= j < i ==> #[trigger] schedule@.assignments[j] == f(s0[j]),
                forall|j: int| i <= j < s0.len() ==> #[trigger] schedule@.assignments[j] == s0[j],
                schedule.makespan_ms == old(schedule).makespan_ms,
                schedule@.violations == old(schedule)@.violations,
                schedule@.tasks == old(schedule)@.tasks,
                string_views(affected@).no_duplicates(),
                forall|x: Seq<char>| #[trigger] string_views(affected@).contains(x)
                    <==> (aff0.contains(x) || exists|j: int| 0 <= j < i && #[trigger] hit_by_outage(s0[j], resource_id@, start_ms as int, start_ms + duration_ms)
                        && fence_allows(fence, s0[j].start_ms) && s0[j].operation_id == x),
            decreases schedule.assignments.len() - i,
        {
            assert(schedule@.assignments[i as int] == schedule.assignments@[i as int]@);
            let ghost si = s0[i as int];
            proof { lemma_in_bound_at(s0, i as int); }
            let ghost before = string_views(affected@);
            let a = &schedule.assignments[i];
            if str_eq(a.resource_id.as_str(), resource_id) && a.start_ms < breakdown_end && a.end_ms > start_ms
                && fence_allows_at(&self.fence_config, a.start_ms) {
                let shift = breakdown_end - a.start_ms;
                let mut a2 = a.copy();
                a2.start_ms = a2.start_ms + shift;
                a2.end_ms = a2.end_ms + shift;
                insert_unique(affected, a2.operation_id.as_str());
                let ghost prev = schedule@.assignments;
                schedule.assignments.set(i, a2);
                assert(schedule@.assignments =~= prev.update(i as int, f(si)));
            }
            assert forall|x: Seq<char>| #[trigger] string_views(affected@).contains(x)
                <==> (aff0.contains(x) || exists|j: int| 0 <= j < i + 1 && #[trigger] hit_by_outage(s0[j], resource_id@, start_ms as int, start_ms + duration_ms)
                    && fence_allows(fence, s0[j].start_ms) && s0[j].operation_id == x) by {
                if exists|j: int| 0 <= j < i + 1 && #[trigger] hit_by_outage(s0[j], resource_id@, start_ms as int, start_ms + duration_ms)
                    && fence_allows(fence, s0[j].start_ms) && s0[j].operation_id == x {
                    let j = choose|j: int| 0 <= j < i + 1 && #[trigger] hit_by_outage(s0[j], resource_id@, start_ms as int, start_ms + duration_ms)
                        && fence_allows(fence, s0[j].start_ms) && s0[j].operation_id == x;
                    if j < i {
                        assert(before.contains(x));
                    }
                }
                if before.contains(x) && !aff0.contains(x) {
                    let j = choose|j: int| 0 <= j < i && #[trigger] hit_by_outage(s0[j], resource_id@, start_ms as int, start_ms + duration_ms)
                        && fence_allows(fence, s0[j].start_ms) && s0[j].operation_id == x;
                    assert(0 <= j < i + 1);
                }
            }
            i += 1;
        }
        assert(schedule@.assignments =~= broken_down(fence, s0, resource_id@, start_ms as int, duration_ms as int));
    }

    /// Right shift: propagates a delay or pushes work past a breakdown; other
    /// events leave the assignments as they are. The makespan becomes the latest end.
    pub fn right_shift(&self, schedule: &Schedule, event: &ScheduleEvent) -> (r: RescheduleResult)
        requires
            assignments_in_bound(schedule@.assignments),
            event_in_bound(*event),
            stats_computable(schedule@.assignments, right_shifted(self.fence(), schedule@.assignments, *event)),
        ensures
            right_shift_outcome(self.fence(), schedule@, *event, r),
    {
        let mut new_schedule = schedule.copy();
        let mut affected: Vec<String> = Vec::new();
        assert(string_views(affected@) =~= Seq::<Seq<char>>::empty());
        match event {
            ScheduleEvent::OperationDelay { operation_id, delay_ms } => {
                self.propagate_delay(&mut new_schedule, operation_id.as_str(), *delay_ms, &mut affected);
            }
            ScheduleEvent::MachineBreakdown { resource_id, start_ms, duration_ms } => {
                self.shift_for_breakdown(&mut new_schedule, resource_id.as_str(), *start_ms, *duration_ms, &mut affected);
            }
            _ => {}
        }
        new_schedule.makespan_ms = latest_end(&new_schedule.assignments);
        let stats = calculate_stats(schedule, &new_schedule, affected.len());
        RescheduleResult {
            schedule: new_schedule,
            affected_operations: affected,
            strategy_used: RescheduleStrategy::RightShift,
            stats,
        }
    }
}

/// The value of a key, or 0 when the key is absent.
pub open spec fn get_or_zero(m: Map<Seq<char>, int>, k: Seq<char>) -> int {
    if m.dom().contains(k) { m[k] } else { 0 }
}

/// The larger of two integers.
pub open spec fn max2(a: int, b: int) -> int {
    if a >= b { a } else { b }
}

/// The map with the value of `k` raised to at least `t` (starting from 0).
pub open spec fn raised(m: Map<Seq<char>, int>, k: Seq<char>, t: int) -> Map<Seq<char>, int> {
    m.insert(k, max2(get_or_zero(m, k), t))
}

/// Index `i` comes before index `j` when sorting by start, ties by index.
pub open spec fn before_by_start(s: Seq<AssignmentView>, i: usize, j: usize) -> bool {
    s[i as int].start_ms < s[j as int].start_ms || (s[i as int].start_ms == s[j as int].start_ms && i < j)
}

/// `order` lists exactly the indices of the assignments whose operation is in
/// `sel`, sorted by start (ties by index), as a stable sort by start does.
pub open spec fn start_order(s: Seq<AssignmentView>, sel: Set<Seq<char>>, order: Seq<usize>) -> bool {
    &&& forall|p: int| 0 <= p < order.len() ==> #[trigger] order[p] < s.len() && sel.contains(s[order[p] as int].operation_id)
    &&& forall|i: int| 0 <= i < s.len() && sel.contains(#[trigger] s[i].operation_id) ==> order.contains(i as usize)
    &&& forall|p: int, q: int| 0 <= p < q < order.len() ==> before_by_start(s, #[trigger] order[p], #[trigger] order[q])
}

/// The indices of the assignments whose operation is in `sel`, in start order.
pub open spec fn sorted_selection(s: Seq<AssignmentView>, sel: Set<Seq<char>>) -> Seq<usize> {
    choose|order: Seq<usize>| start_order(s, sel, order)
}

/// The resource ready times after the assignments not in `aff`: for each
/// resource the latest end among them, and at least 0.
pub open spec fn ready_of_unaffected(s: Seq<AssignmentView>, aff: Set<Seq<char>>) -> Map<Seq<char>, int>
    decreases s.len(),
{
    if s.len() == 0 {
        Map::empty()
    } else {
        let m = ready_of_unaffected(s.drop_last(), aff);
        if aff.contains(s.last().operation_id) { m } else { raised(m, s.last().resource_id, s.last().end_ms) }
    }
}

/// Moves one affected assignment to the earliest time its resource is ready
/// (never earlier than it was, and only if the fence allows), and marks the
/// resource busy until its end.
pub open spec fn place_affected(fence: Option<TimeFenceConfig>, st: (Seq<AssignmentView>, Map<Seq<char>, int>), idx: int)
    -> (Seq<AssignmentView>, Map<Seq<char>, int>)
{
    let a = st.0[idx];
    let earliest = max2(get_or_zero(st.1, a.resource_id), a.start_ms);
    let a2 = if earliest != a.start_ms && fence_allows(fence, a.start_ms) { shifted(a, earliest - a.start_ms) } else { a };
    (st.0.update(idx, a2), raised(st.1, a.resource_id, a2.end_ms))
}

/// Places the affected assignments one after the other in the given order.
pub open spec fn place_all_affected(fence: Option<TimeFenceConfig>, s: Seq<AssignmentView>, m: Map<Seq<char>, int>, order: Seq<usize>)
    -> (Seq<AssignmentView>, Map<Seq<char>, int>)
    decreases order.len(),
{
    if order.len() == 0 {
        (s, m)
    } else {
        place_affected(fence, place_all_affected(fence, s, m, order.drop_last()), order.last() as int)
    }
}

/// The assignments after the affected operations were moved forward, in start
/// order, past the work already on their resources.
pub open spec fn rescheduled_affected(fence: Option<TimeFenceConfig>, s: Seq<AssignmentView>, aff: Set<Seq<char>>) -> Seq<AssignmentView> {
    place_all_affected(fence, s, ready_of_unaffected(s, aff), sorted_selection(s, aff)).0
}

/// The operations AOR reschedules: those the event touches whose first
/// assignment the fence lets move.
pub open spec fn aor_selection(fence: Option<TimeFenceConfig>, s: Seq<AssignmentView>, e: ScheduleEvent) -> Set<Seq<char>> {
    Set::new(|o: Seq<char>| affected_operations(s, e).contains(o) && operation_allows(fence, s, o))
}

/// The assignments after AOR.
pub open spec fn aor_assignments(fence: Option<TimeFenceConfig>, s: Seq<AssignmentView>, e: ScheduleEvent) -> Seq<AssignmentView> {
    rescheduled_affected(fence, s, aor_selection(fence, s, e))
}

/// Two sequences sorted by start with the same indices are equal.
pub proof fn lemma_start_order_unique(s: Seq<AssignmentView>, sel: Set<Seq<char>>, o1: Seq<usize>, o2: Seq<usize>)
    requires
        start_order(s, sel, o1),
        start_order(s, sel, o2),
    ensures
        o1 == o2,
{
    lemma_sorted_same_elements_equal(s, o1, o2);
}

proof fn lemma_sorted_same_elements_equal(s: Seq<AssignmentView>, o1: Seq<usize>, o2: Seq<usize>)
    requires
        forall|p: int, q: int| 0 <= p < q < o1.len() ==> before_by_start(s, #[trigger] o1[p], #[trigger] o1[q]),
        forall|p: int, q: int| 0 <= p < q < o2.len() ==> before_by_start(s, #[trigger] o2[p], #[trigger] o2[q]),
        forall|x: usize| o1.contains(x) <==> o2.contains(x),
    ensures
        o1 == o2,
    decreases o1.len(),
{
    if o1.len() == 0 {
        if o2.len() > 0 {
            assert(o2.contains(o2[0]));
        }
        assert(o1 =~= o2);
    } else {
        assert(o1.contains(o1[0]));
        assert(o2.len() > 0);
        assert(o2.contains(o2[0]));
        let q = choose|q: int| 0 <= q < o2.len() && o2[q] == o1[0];
        let p = choose|p: int| 0 <= p < o1.len() && o1[p] == o2[0];
        if p > 0 && q > 0 {
            assert(before_by_start(s, o1[0], o1[p]));
            assert(before_by_start(s, o2[0], o2[q]));
            assert(false);
        }
        assert(o1[0] == o2[0]);
        let r1 = o1.drop_first();
        let r2 = o2.drop_first();
        assert forall|x: usize| r1.contains(x) <==> r2.contains(x) by {
            if r1.contains(x) {
                let i = choose|i: int| 0 <= i < r1.len() && r1[i] == x;
                assert(o1[i + 1] == x);
                assert(before_by_start(s, o1[0], o1[i + 1]));
                assert(o1.contains(x));
                let j = choose|j: int| 0 <= j < o2.len() && o2[j] == x;
                assert(j != 0);
                assert(r2[j - 1] == x);
            }
            if r2.contains(x) {
                let i = choose|i: int| 0 <= i < r2.len() && r2[i] == x;
                assert(o2[i + 1] == x);
                assert(before_by_start(s, o2[0], o2[i + 1]));
                assert(o2.contains(x));
                let j = choose|j: int| 0 <= j < o1.len() && o1[j] == x;
                assert(j != 0);
                assert(r1[j - 1] == x);
            }
        }
        assert forall|p: int, q: int| 0 <= p < q < r1.len() implies before_by_start(s, #[trigger] r1[p], #[trigger] r1[q]) by {
            assert(before_by_start(s, o1[p + 1], o1[q + 1]));
        }
        assert forall|p: int, q: int| 0 <= p < q < r2.len() implies before_by_start(s, #[trigger] r2[p], #[trigger] r2[q]) by {
            assert(before_by_start(s, o2[p + 1], o2[q + 1]));
        }
        lemma_sorted_same_elements_equal(s, r1, r2);
        assert forall|i: int| 0 <= i < o1.len() implies o1[i] == o2[i] by {
            if i > 0 {
                assert(o1[i] == r1[i - 1]);
                assert(o2[i] == r2[i - 1]);
            }
        }
        assert(o1 =~= o2);
    }
}

/// Whether indices are listed in start order (ties by index).
pub open spec fn sorted_by_start(s: Seq<AssignmentView>, o: Seq<usize>) -> bool {
    forall|p: int, q: int| 0 <= p < q < o.len() ==> before_by_start(s, #[trigger] o[p], #[trigger] o[q])
}

/// Inserts an index into a list sorted by start, keeping it sorted.
spec fn insert_by_start(s: Seq<AssignmentView>, o: Seq<usize>, i: usize) -> Seq<usize>
    decreases o.len(),
{
    if o.len() == 0 {
        seq![i]
    } else if before_by_start(s, i, o[0]) {
        seq![i] + o
    } else {
        seq![o[0]] + insert_by_start(s, o.drop_first(), i)
    }
}

proof fn lemma_insert_by_start(s: Seq<AssignmentView>, o: Seq<usize>, i: usize)
    requires
        sorted_by_start(s, o),
        !o.contains(i),
    ensures
        sorted_by_start(s, insert_by_start(s, o, i)),
        forall|x: usize| #[trigger] insert_by_start(s, o, i).contains(x) <==> (o.contains(x) || x == i),
    decreases o.len(),
{
    let r = insert_by_start(s, o, i);
    if o.len() == 0 {
        assert forall|x: usize| #[trigger] r.contains(x) <==> (o.contains(x) || x == i) by {
            if r.contains(x) {
                let j = choose|j: int| 0 <= j < r.len() && r[j] == x;
            }
            if x == i {
                assert(r[0] == x);
            }
        }
    } else if before_by_start(s, i, o[0]) {
        assert forall|p: int, q: int| 0 <= p < q < r.len() implies before_by_start(s, #[trigger] r[p], #[trigger] r[q]) by {
            if p == 0 {
                if q > 1 {
                    assert(before_by_start(s, o[0], o[q - 1]));
                }
            } else {
                assert(before_by_start(s, o[p - 1], o[q - 1]));
            }
        }
        assert forall|x: usize| #[trigger] r.contains(x) <==> (o.contains(x) || x == i) by {
            if r.contains(x) {
                let j = choose|j: int| 0 <= j < r.len() && r[j] == x;
                if j > 0 {
                    assert(o[j - 1] == x);
                }
            }
            if o.contains(x) {
                let j = choose|j: int| 0 <= j < o.len() && o[j] == x;
                assert(r[j + 1] == x);
            }
            if x == i {
                assert(r[0] == x);
            }
        }
    } else {
        let rest = o.drop_first();
        assert(sorted_by_start(s, rest)) by {
            assert forall|p: int, q: int| 0 <= p < q < rest.len() implies before_by_start(s, #[trigger] rest[p], #[trigger] rest[q]) by {
                assert(before_by_start(s, o[p + 1], o[q + 1]));
            }
        }
        assert(!rest.contains(i)) by {
            if rest.contains(i) {
                let j = choose|j: int| 0 <= j < rest.len() && rest[j] == i;
                assert(o[j + 1] == i);
            }
        }
        lemma_insert_by_start(s, rest, i);
        let t = insert_by_start(s, rest, i);
        assert(i != o[0]) by {
            assert(o[0] == o[0]);
        }
        assert forall|x: usize| #[trigger] t.contains(x) implies before_by_start(s, o[0], x) by {
            if rest.contains(x) {
                let j = choose|j: int| 0 <= j < rest.len() && rest[j] == x;
                assert(before_by_start(s, o[0], o[j + 1]));
            }
        }
        assert forall|p: int, q: int| 0 <= p < q < r.len() implies before_by_start(s, #[trigger] r[p], #[trigger] r[q]) by {
            if p == 0 {
                assert(r[q] == t[q - 1]);
                assert(t.contains(t[q - 1]));
            } else {
                assert(r[p] == t[p - 1] && r[q] == t[q - 1]);
            }
        }
        assert forall|x: usize| #[trigger] r.contains(x) <==> (o.contains(x) || x == i) by {
            if r.contains(x) {
                let j = choose|j: int| 0 <= j < r.len() && r[j] == x;
                if j > 0 {
                    assert(t[j - 1] == x);
                    assert(t.contains(x));
                    if rest.contains(x) {
                        let k = choose|k: int| 0 <= k < rest.len() && rest[k] == x;
                        assert(o[k + 1] == x);
                    }
                }
            }
            if o.contains(x) {
                let j = choose|j: int| 0 <= j < o.len() && o[j] == x;
                if j == 0 {
                    assert(r[0] == x);
                } else {
                    assert(rest[j - 1] == x);
                    assert(t.contains(x));
                    let k = choose|k: int| 0 <= k < t.len() && t[k] == x;
                    assert(r[k + 1] == x);
                }
            }
            if x == i {
                assert(t.contains(x));
                let k = choose|k: int| 0 <= k < t.len() && t[k] == x;
                assert(r[k + 1] == x);
            }
        }
    }
}

/// The indices below `n` of the assignments whose operation is in `sel`, in
/// start order.
spec fn selection_prefix(s: Seq<AssignmentView>, sel: Set<Seq<char>>, n: nat) -> Seq<usize>
    decreases n,
{
    if n == 0 {
        Seq::empty()
    } else {
        let o = selection_prefix(s, sel, (n - 1) as nat);
        if sel.contains(s[n - 1].operation_id) { insert_by_start(s, o, (n - 1) as usize) } else { o }
    }
}

proof fn lemma_selection_prefix(s: Seq<AssignmentView>, sel: Set<Seq<char>>, n: nat)
    requires
        n <= s.len(),
        s.len() <= usize::MAX,
    ensures
        sorted_by_start(s, selection_prefix(s, sel, n)),
        forall|x: usize| #[trigger] selection_prefix(s, sel, n).contains(x)
            <==> (x < n && sel.contains(s[x as int].operation_id)),
    decreases n,
{
    if n > 0 {
        let o = selection_prefix(s, sel, (n - 1) as nat);
        lemma_selection_prefix(s, sel, (n - 1) as nat);
        if sel.contains(s[n - 1].operation_id) {
            assert(!o.contains((n - 1) as usize));
            lemma_insert_by_start(s, o, (n - 1) as usize);
        }
    }
}

/// Every selection of assignments has a start order, so `sorted_selection` is one.
pub proof fn lemma_sorted_selection(s: Seq<AssignmentView>, sel: Set<Seq<char>>)
    requires
        s.len() <= usize::MAX,
    ensures
        start_order(s, sel, sorted_selection(s, sel)),
{
    let o = selection_prefix(s, sel, s.len());
    lemma_selection_prefix(s, sel, s.len());
    assert forall|p: int| 0 <= p < o.len() implies #[trigger] o[p] < s.len() && sel.contains(s[o[p] as int].operation_id) by {
        assert(o.contains(o[p]));
    }
    assert forall|i: int| 0 <= i < s.len() && sel.contains(#[trigger] s[i].operation_id) implies o.contains(i as usize) by {
        assert((i as usize) as int == i);
    }
    assert(start_order(s, sel, o));
}

/// Ready times of resources (or jobs) kept as a list of distinct keys.
struct ReadyTimes {
    keys: Vec<String>,
    times: Vec<i64>,
}

proof fn lemma_index_of_unique(s: Seq<Seq<char>>, i: int)
    requires
        s.no_duplicates(),
        0 <= i < s.len(),
    ensures
        s.index_of(s[i]) == i,
{
    assert(s.contains(s[i]));
    let j = s.index_of(s[i]);
    assert(0 <= j < s.len() && s[j] == s[i]);
}

impl ReadyTimes {
    spec fn key_seq(&self) -> Seq<Seq<char>> {
        string_views(self.keys@)
    }

    spec fn wf(&self) -> bool {
        self.keys.len() == self.times.len() && self.key_seq().no_duplicates()
    }

    spec fn map(&self) -> Map<Seq<char>, int> {
        Map::new(|k: Seq<char>| self.key_seq().contains(k), |k: Seq<char>| self.times@[self.key_seq().index_of(k)] as int)
    }

    fn new() -> (r: ReadyTimes)
        ensures
            r.wf(),
            r.map() == Map::<Seq<char>, int>::empty(),
    {
        let r = ReadyTimes { keys: Vec::new(), times: Vec::new() };
        assert(r.key_seq() =~= Seq::<Seq<char>>::empty());
        assert(r.map() =~= Map::<Seq<char>, int>::empty());
        r
    }

    fn find(&self, k: &str) -> (i: usize)
        requires
            self.wf(),
        ensures
            i <= self.keys.len(),
            i < self.keys.len() ==> self.key_seq()[i as int] == k@,
            i == self.keys.len() ==> !self.key_seq().contains(k@),
    {
        let mut i: usize = 0;
        while i < self.keys.len()
            invariant
                i <= self.keys.len(),
                forall|j: int| 0 <= j < i ==> #[trigger] self.keys@[j]@ != k@,
            decreases self.keys.len() - i,
        {
            if str_eq(self.keys[i].as_str(), k) {
                return i;
            }
            i += 1;
        }
        proof {
            if self.key_seq().contains(k@) {
                let j = choose|j: int| 0 <= j < self.key_seq().len() && self.key_seq()[j] == k@;
                assert(self.keys@[j]@ == k@);
            }
        }
        i
    }

    fn get(&self, k: &str) -> (t: i64)
        requires
            self.wf(),
        ensures
            t == get_or_zero(self.map(), k@),
    {
        let i = self.find(k);
        if i < self.keys.len() {
            proof {
                lemma_index_of_unique(self.key_seq(), i as int);
            }
            self.times[i]
        } else {
            0
        }
    }

    fn put(&mut self, k: &str, t: i64)
        requires
            old(self).wf(),
        ensures
            final(self).wf(),
            final(self).map() == old(self).map().insert(k@, t as int),
    {
        let i = self.find(k);
        let ghost ks = self.key_seq();
        let ghost m0 = self.map();
        if i < self.keys.len() {
            self.times.set(i, t);
            assert(self.key_seq() == ks);
            assert forall|x: Seq<char>| #[trigger] self.map().dom().contains(x) implies self.map()[x] == m0.insert(k@, t as int)[x] by {
                let j = ks.index_of(x);
                if x == k@ {
                    lemma_index_of_unique(ks, i as int);
                } else {
                    assert(ks.contains(x));
                    assert(0 <= j < ks.len() && ks[j] == x);
                    assert(j != i);
                }
            }
            assert(self.map() =~= m0.insert(k@, t as int));
        } else {
            self.keys.push(String::from_str(k));
            self.times.push(t);
            let ghost ks2 = self.key_seq();
            assert(ks2 =~= ks.push(k@));
            assert(ks2.no_duplicates()) by {
                assert forall|a: int, b: int| 0 <= a < ks2.len() && 0 <= b < ks2.len() && a != b implies ks2[a] != ks2[b] by {
                    if a < ks.len() && b < ks.len() {
                    } else if a == ks.len() {
                        assert(ks.contains(ks2[b]) ==> ks2[b] != k@);
                        assert(ks[b] == ks2[b]);
                    } else {
                        assert(ks[a] == ks2[a]);
                    }
                }
            }
            assert forall|x: Seq<char>| #[trigger] self.map().dom().contains(x) implies self.map()[x] == m0.insert(k@, t as int)[x] by {
                if x == k@ {
                    lemma_index_of_unique(ks2, ks.len() as int);
                } else {
                    assert(ks2.contains(x));
                    let j = choose|j: int| 0 <= j < ks2.len() && ks2[j] == x;
                    assert(j < ks.len());
                    lemma_index_of_unique(ks2, j);
                    lemma_index_of_unique(ks, j);
                    assert(ks[j] == x);
                }
            }
            assert forall|x: Seq<char>| #[trigger] self.map().dom().contains(x) <==> m0.insert(k@, t as int).dom().contains(x) by {
                if ks.contains(x) {
                    let j = choose|j: int| 0 <= j < ks.len() && ks[j] == x;
                    assert(ks2[j] == x);
                }
                if ks2.contains(x) && x != k@ {
                    let j = choose|j: int| 0 <= j < ks2.len() && ks2[j] == x;
                    assert(ks[j] == x);
                }
                if x == k@ {
                    assert(ks2[ks.len() as int] == x);
                }
            }
            assert(self.map() =~= m0.insert(k@, t as int));
        }
    }
}

/// The indices of the assignments whose operation is listed, sorted by start
/// (ties by index).
fn indices_by_start(v: &Vec<Assignment>, sel: &Vec<String>) -> (order: Vec<usize>)
    ensures
        start_order(assignment_views(v@), Set::new(|o: Seq<char>| string_views(sel@).contains(o)), order@),
{
    let ghost s = assignment_views(v@);
    let ghost set = Set::new(|o: Seq<char>| string_views(sel@).contains(o));
    let mut order: Vec<usize> = Vec::new();
    let mut i: usize = 0;
    while i < v.len()
        invariant
            i <= v.len(),
            s == assignment_views(v@),
            s.len() == v.len(),
            set == Set::new(|o: Seq<char>| string_views(sel@).contains(o)),
            forall|p: int| 0 <= p < order@.len() ==> #[trigger] order@[p] < i && set.contains(s[order@[p] as int].operation_id),
            forall|j: int| 0 <= j < i && set.contains(#[trigger] s[j].operation_id) ==> order@.contains(j as usize),
            forall|p: int, q: int| 0 <= p < q < order@.len() ==> before_by_start(s, #[trigger] order@[p], #[trigger] order@[q]),
        decreases v.len() - i,
    {
        assert(s[i as int] == v@[i as int]@);
        if contains_str(sel, v[i].operation_id.as_str()) {
            let start = v[i].start_ms;
            let mut p: usize = 0;
            while p < order.len() && v[order[p]].start_ms <= start
                invariant
                    p <= order@.len(),
                    s == assignment_views(v@),
                    s.len() == v.len(),
                    start == s[i as int].start_ms,
                    forall|q: int| 0 <= q < order@.len() ==> #[trigger] order@[q] < i,
                    i < v.len(),
                    forall|q: int| 0 <= q < p ==> #[trigger] s[order@[q] as int].start_ms <= start,
                decreases order@.len() - p,
            {
                assert(s[order@[p as int] as int] == v@[order@[p as int] as int]@);
                p += 1;
            }
            proof {
                if p < order@.len() {
                    assert(s[order@[p as int] as int] == v@[order@[p as int] as int]@);
                    assert(s[order@[p as int] as int].start_ms > start);
                }
            }
            let ghost old_order = order@;
            order.insert(p, i);
            proof {
                old_order.insert_ensures(p as int, i);
                assert forall|q: int| p < q < order@.len() implies #[trigger] s[order@[q] as int].start_ms > start by {
                    assert(order@[q] == old_order[q - 1]);
                    if q - 1 > p {
                        assert(before_by_start(s, old_order[p as int], old_order[q - 1]));
                    }
                }
                assert forall|a: int, b: int| 0 <= a < b < order@.len() implies before_by_start(s, #[trigger] order@[a], #[trigger] order@[b]) by {
                    if b < p {
                        assert(before_by_start(s, old_order[a], old_order[b]));
                    } else if b == p {
                        assert(order@[a] == old_order[a]);
                    } else if a < p {
                        assert(order@[a] == old_order[a]);
                        assert(order@[b] == old_order[b - 1]);
                        assert(before_by_start(s, old_order[a], old_order[b - 1]));
                    } else if a == p {
                        assert(s[order@[b] as int].start_ms > start);
                    } else {
                        assert(before_by_start(s, old_order[a - 1], old_order[b - 1]));
                    }
                }
                assert forall|j: int| 0 <= j < i + 1 && set.contains(#[trigger] s[j].operation_id) implies order@.contains(j as usize) by {
                    if j == i {
                        assert(order@[p as int] == i);
                    } else {
                        assert(old_order.contains(j as usize));
                        let q = choose|q: int| 0 <= q < old_order.len() && old_order[q] == j as usize;
                        if q < p {
                            assert(order@[q] == j as usize);
                        } else {
                            assert(order@[q + 1] == j as usize);
                        }
                    }
                }
                assert forall|q: int| 0 <= q < order@.len() implies #[trigger] order@[q] < i + 1 && set.contains(s[order@[q] as int].operation_id) by {
                    if q < p {
                        assert(order@[q] == old_order[q]);
                    } else if q > p {
                        assert(order@[q] == old_order[q - 1]);
                    }
                }
            }
        } else {
            proof {
                assert(!set.contains(s[i as int].operation_id));
            }
        }
        i += 1;
    }
    order
}

impl Rescheduler {
    /// Moves each affected assignment, in start order, to the earliest time its
    /// resource is free of the unaffected work and of the affected work placed
    /// before it; an assignment is never moved earlier, and only if the fence
    /// allows.
    fn reschedule_affected(&self, schedule: &mut Schedule, affected: &Vec<String>, Ghost(aff): Ghost<Set<Seq<char>>>)
        requires
            assignments_in_bound(old(schedule)@.assignments),
            forall|x: Seq<char>| #[trigger] string_views(affected@).contains(x) <==> aff.contains(x),
        ensures
            final(schedule)@ == (ScheduleView {
                assignments: rescheduled_affected(self.fence(), old(schedule)@.assignments, aff),
                ..old(schedule)@
            }),
    {
        let ghost fence = self.fence();
        let ghost s0 = schedule@.assignments;
        assert(Set::new(|o: Seq<char>| string_views(affected@).contains(o)) =~= aff);
        let mut ready = ReadyTimes::new();
        let mut i: usize = 0;
        while i < schedule.assignments.len()
            invariant
                i <= schedule.assignments.len(),
                s0 == schedule@.assignments,
                s0.len() == schedule.assignments.len(),
                assignments_in_bound(s0),
                forall|x: Seq<char>| #[trigger] string_views(affected@).contains(x) <==> aff.contains(x),
                ready.wf(),
                ready.map() == ready_of_unaffected(s0.take(i as int), aff),
                forall|k: Seq<char>| #[trigger] ready.map().dom().contains(k) ==> 0 <= ready.map()[k] <= TIME_BOUND,
            decreases schedule.assignments.len() - i,
        {
            let a = &schedule.assignments[i];
            assert(s0[i as int] == a@);
            proof { lemma_in_bound_at(s0, i as int); }
            assert(s0.take(i + 1).drop_last() =~= s0.take(i as int));
            if !contains_str(affected, a.operation_id.as_str()) {
                let cur = ready.get(a.resource_id.as_str());
                let v = if cur >= a.end_ms { cur } else { a.end_ms };
                ready.put(a.resource_id.as_str(), v);
            }
            i += 1;
        }
        assert(s0.take(s0.len() as int) =~= s0);
        let ghost m0 = ready.map();
        let order = indices_by_start(&schedule.assignments, affected);
        proof {
            assert(start_order(s0, aff, order@));
            assert(start_order(s0, aff, sorted_selection(s0, aff)));
            lemma_start_order_unique(s0, aff, order@, sorted_selection(s0, aff));
        }
        let mut p: usize = 0;
        assert(order@.take(0) =~= Seq::<usize>::empty());
        while p < order.len()
            invariant
                p <= order.len(),
                fence == self.fence(),
                s0.len() == schedule.assignments.len(),
                s0.len() <= MAX_ASSIGNMENTS,
                order@ == sorted_selection(s0, aff),
                start_order(s0, aff, order@),
                ready.wf(),
                (schedule@.assignments, ready.map()) == place_all_affected(fence, s0, m0, order@.take(p as int)),
                forall|j: int| 0 <= j < s0.len() ==> #[trigger] schedule@.assignments[j].end_ms - schedule@.assignments[j].start_ms
                    == s0[j].end_ms - s0[j].start_ms,
                forall|j: int| 0 <= j < s0.len() ==> -placed_bound(p as int) <= #[trigger] schedule@.assignments[j].start_ms <= placed_bound(p as int)
                    && -placed_bound(p as int) <= schedule@.assignments[j].end_ms <= placed_bound(p as int),
                assignments_in_bound(s0),
                forall|k: Seq<char>| #[trigger] ready.map().dom().contains(k)
                    ==> -placed_bound(p as int) <= ready.map()[k] <= placed_bound(p as int),
                schedule.makespan_ms == old(schedule).makespan_ms,
                schedule@.violations == old(schedule)@.violations,
                schedule@.tasks == old(schedule)@.tasks,
            decreases order.len() - p,
        {
            let ghost st = (schedule@.assignments, ready.map());
            let idx = order[p];
            assert(order@.take(p + 1).drop_last() =~= order@.take(p as int));
            assert(order@[p as int] < s0.len());
            assert(p < s0.len()) by {
                assert(order@.no_duplicates()) by {
                    assert forall|a: int, b: int| 0 <= a < order@.len() && 0 <= b < order@.len() && a != b implies order@[a] != order@[b] by {
                        if a < b {
                            assert(before_by_start(s0, order@[a], order@[b]));
                        } else {
                            assert(before_by_start(s0, order@[b], order@[a]));
                        }
                    }
                }
                lemma_order_len(s0.len() as int, order@);
            }
            let a = &schedule.assignments[idx];
            assert(st.0[idx as int] == a@);
            assert(schedule@.assignments[idx as int].end_ms - schedule@.assignments[idx as int].start_ms
                == s0[idx as int].end_ms - s0[idx as int].start_ms);
            let cur_start = a.start_ms;
            let dur = a.end_ms - a.start_ms;
            proof { lemma_in_bound_at(s0, idx as int); }
            let r = ready.get(a.resource_id.as_str());
            let earliest = if r >= cur_start { r } else { cur_start };
            let ghost a0 = a@;
            if earliest != cur_start && fence_allows_at(&self.fence_config, cur_start) {
                let mut a2 = a.copy();
                a2.start_ms = earliest;
                a2.end_ms = earliest + dur;
                let ghost prev = schedule@.assignments;
                schedule.assignments.set(idx, a2);
                assert(schedule@.assignments =~= prev.update(idx as int, shifted(a0, earliest - a0.start_ms)));
            } else {
                assert(schedule@.assignments =~= st.0.update(idx as int, a0));
            }
            let end = schedule.assignments[idx].end_ms;
            let v = if r >= end { r } else { end };
            ready.put(schedule.assignments[idx].resource_id.as_str(), v);
            assert(place_affected(fence, st, idx as int) == (schedule@.assignments, ready.map()));
            p += 1;
            assert forall|k: Seq<char>| #[trigger] ready.map().dom().contains(k)
                implies -placed_bound(p as int) <= ready.map()[k] <= placed_bound(p as int) by {
                if k != a0.resource_id {
                    assert(st.1.dom().contains(k));
                }
            }
        }
        assert(order@.take(order@.len() as int) =~= order@);
    }
}

/// A sequence of distinct indices below `n` has at most `n` elements.
proof fn lemma_order_len(n: int, order: Seq<usize>)
    requires
        0 <= n,
        order.no_duplicates(),
        forall|p: int| 0 <= p < order.len() ==> #[trigger] order[p] < n,
    ensures
        order.len() <= n,
{
    let f = |x: usize| x as int;
    let ints = order.map_values(f);
    assert(ints.no_duplicates()) by {
        assert forall|a: int, b: int| 0 <= a < ints.len() && 0 <= b < ints.len() && a != b implies ints[a] != ints[b] by {
            assert(order[a] != order[b]);
        }
    }
    ints.unique_seq_to_set();
    assert(ints.to_set().subset_of(Set::range(0, n)));
    vstd::set_lib::lemma_int_range(0, n);
    vstd::set_lib::lemma_len_subset(ints.to_set(), Set::range(0, n));
}

impl Rescheduler {
    /// AOR: reschedules only the operations the event touches whose first
    /// assignment the fence lets move; they are moved forward in start order past
    /// the work already on their resources.
    pub fn aor(&self, schedule: &Schedule, event: &ScheduleEvent) -> (r: RescheduleResult)
        requires
            assignments_in_bound(schedule@.assignments),
            event_arith_ok(*event),
            stats_computable(schedule@.assignments, aor_assignments(self.fence(), schedule@.assignments, *event)),
        ensures
            aor_outcome(self.fence(), schedule@, *event, r),
    {
        let ghost fence = self.fence();
        let ghost s0 = schedule@.assignments;
        let mut new_schedule = schedule.copy();
        let mut affected: Vec<String> = Vec::new();
        let affected_ops = self.identify_affected_operations(schedule, event);
        let ghost ids = string_views(affected_ops@);
        assert(string_views(affected@) =~= Seq::<Seq<char>>::empty());
        let mut i: usize = 0;
        while i < affected_ops.len()
            invariant
                i <= affected_ops.len(),
                ids == string_views(affected_ops@),
                ids == affected_operations(s0, *event),
                new_schedule@ == schedule@,
                s0 == schedule@.assignments,
                fence == self.fence(),
                string_views(affected@).no_duplicates(),
                forall|x: Seq<char>| #[trigger] string_views(affected@).contains(x)
                    <==> (exists|j: int| 0 <= j < i && #[trigger] ids[j] == x) && operation_allows(fence, s0, x),
            decreases affected_ops.len() - i,
        {
            let ghost before = string_views(affected@);
            let ghost x0 = ids[i as int];
            if self.can_reschedule_operation(&new_schedule, affected_ops[i].as_str()) {
                insert_unique(&mut affected, affected_ops[i].as_str());
            }
            assert forall|x: Seq<char>| #[trigger] string_views(affected@).contains(x)
                <==> (exists|j: int| 0 <= j < i + 1 && #[trigger] ids[j] == x) && operation_allows(fence, s0, x) by {
                if exists|j: int| 0 <= j < i + 1 && #[trigger] ids[j] == x {
                    let j = choose|j: int| 0 <= j < i + 1 && #[trigger] ids[j] == x;
                    if j < i {
                        assert(exists|j: int| 0 <= j < i && #[trigger] ids[j] == x);
                    }
                }
                if before.contains(x) {
                    let j = choose|j: int| 0 <= j < i && #[trigger] ids[j] == x;
                    assert(0 <= j < i + 1 && ids[j] == x);
                }
            }
            i += 1;
        }
        assert forall|x: Seq<char>| #[trigger] string_views(affected@).contains(x)
            <==> aor_selection(fence, s0, *event).contains(x) by {
            if ids.contains(x) {
                let j = choose|j: int| 0 <= j < ids.len() && ids[j] == x;
                assert(ids[j] == x);
            }
            if exists|j: int| 0 <= j < ids.len() && #[trigger] ids[j] == x {
                let j = choose|j: int| 0 <= j < ids.len() && #[trigger] ids[j] == x;
                assert(ids.contains(x));
            }
        }
        self.reschedule_affected(&mut new_schedule, &affected, Ghost(aor_selection(fence, s0, *event)));
        let stats = calculate_stats(schedule, &new_schedule, affected.len());
        RescheduleResult {
            schedule: new_schedule,
            affected_operations: affected,
            strategy_used: RescheduleStrategy::AOR,
            stats,
        }
    }

    /// Total regeneration: keeps the assignments in the frozen zone, then places
    /// every other one anew in start order, as soon as both its resource and its
    /// job are free, keeping its length.
    pub fn total_regeneration(&self, schedule: &Schedule, _event: &ScheduleEvent) -> (r: RescheduleResult)
        requires
            assignments_in_bound(schedule@.assignments),
            stats_computable(schedule@.assignments, regenerated(self.fence(), schedule@.assignments)),
        ensures
            regeneration_outcome(self.fence(), schedule@, r),
    {
        let ghost fence = self.fence();
        let ghost s0 = schedule@.assignments;
        let ghost frozen = |a: AssignmentView| frozen_at(fence, a);
        let ghost thawed = |a: AssignmentView| !frozen_at(fence, a);
        let mut new_schedule = Schedule::new();
        let mut regen_ops: Vec<String> = Vec::new();
        let mut res_ready = ReadyTimes::new();
        let mut job_ready = ReadyTimes::new();
        let mut i: usize = 0;
        assert(s0.take(0) =~= Seq::<AssignmentView>::empty());
        assert(s0.take(0).filter(frozen) =~= Seq::<AssignmentView>::empty());
        assert(s0.take(0).filter(thawed) =~= Seq::<AssignmentView>::empty());
        assert(string_views(regen_ops@) =~= Seq::<Seq<char>>::empty());
        assert(new_schedule@.violations =~= Seq::<crate::constraint::ViolationView>::empty());
        assert(new_schedule@.tasks =~= Seq::<crate::task::TaskView>::empty());
        assert(new_schedule@.assignments =~= Seq::<AssignmentView>::empty());
        while i < schedule.assignments.len()
            invariant
                i <= schedule.assignments.len(),
                s0 == schedule@.assignments,
                s0.len() == schedule.assignments.len(),
                assignments_in_bound(s0),
                fence == self.fence(),
                frozen == (|a: AssignmentView| frozen_at(fence, a)),
                thawed == (|a: AssignmentView| !frozen_at(fence, a)),
                new_schedule@ == (ScheduleView {
                    assignments: s0.take(i as int).filter(frozen),
                    makespan_ms: latest_assignment_end(s0.take(i as int).filter(frozen)),
                    violations: Seq::empty(),
                    tasks: Seq::empty(),
                }),
                string_views(regen_ops@) == ops_of(s0.take(i as int).filter(thawed)),
                res_ready.wf(),
                job_ready.wf(),
                res_ready.map() == ready_by_resource(s0.take(i as int).filter(frozen)),
                job_ready.map() == ready_by_job(s0.take(i as int).filter(frozen)),
                forall|k: Seq<char>| #[trigger] res_ready.map().dom().contains(k) ==> 0 <= res_ready.map()[k] <= TIME_BOUND,
                forall|k: Seq<char>| #[trigger] job_ready.map().dom().contains(k) ==> 0 <= job_ready.map()[k] <= TIME_BOUND,
            decreases schedule.assignments.len() - i,
        {
            reveal_with_fuel(Seq::<_>::filter, 1);
            let a = &schedule.assignments[i];
            assert(s0[i as int] == a@);
            proof { lemma_in_bound_at(s0, i as int); }
            assert(s0.take(i + 1).drop_last() =~= s0.take(i as int));
            let ghost fprev = s0.take(i as int).filter(frozen);
            let ghost tprev = s0.take(i as int).filter(thawed);
            if !fence_allows_at(&self.fence_config, a.start_ms) {
                assert(s0.take(i + 1).filter(frozen) == fprev.push(a@));
                assert(s0.take(i + 1).filter(thawed) == tprev);
                assert(fprev.push(a@).drop_last() =~= fprev);
                let cur = res_ready.get(a.resource_id.as_str());
                let v = if cur >= a.end_ms { cur } else { a.end_ms };
                res_ready.put(a.resource_id.as_str(), v);
                let cur = job_ready.get(a.job_id.as_str());
                let v = if cur >= a.end_ms { cur } else { a.end_ms };
                job_ready.put(a.job_id.as_str(), v);
                new_schedule.add_assignment(a.copy());
            } else {
                assert(s0.take(i + 1).filter(frozen) == fprev);
                assert(s0.take(i + 1).filter(thawed) == tprev.push(a@));
                assert(ops_of(tprev.push(a@)) =~= ops_of(tprev).push(a@.operation_id));
                let ghost r0 = string_views(regen_ops@);
                regen_ops.push(a.operation_id.clone());
                assert(string_views(regen_ops@) =~= r0.push(a@.operation_id));
            }
            i += 1;
        }
        assert(s0.take(s0.len() as int) =~= s0);
        let ghost fx = fixed_part(fence, s0);
        let ghost sel = regen_selection(fence, s0);
        assert(new_schedule@.assignments == fx);
        assert(string_views(regen_ops@) == regen_ids(fence, s0));
        let order = indices_by_start(&schedule.assignments, &regen_ops);
        proof {
            assert(Set::new(|o: Seq<char>| string_views(regen_ops@).contains(o)) =~= sel);
            assert(start_order(s0, sel, sorted_selection(s0, sel)));
            lemma_start_order_unique(s0, sel, order@, sorted_selection(s0, sel));
        }
        let ghost init = (fx, ready_by_resource(fx), ready_by_job(fx));
        let mut p: usize = 0;
        assert(order@.take(0) =~= Seq::<usize>::empty());
        while p < order.len()
            invariant
                p <= order.len(),
                s0 == schedule@.assignments,
                s0.len() == schedule.assignments.len(),
                s0.len() <= MAX_ASSIGNMENTS,
                assignments_in_bound(s0),
                order@ == sorted_selection(s0, sel),
                start_order(s0, sel, order@),
                res_ready.wf(),
                job_ready.wf(),
                (new_schedule@.assignments, res_ready.map(), job_ready.map()) == regen_all(s0, order@.take(p as int), init),
                new_schedule@.makespan_ms == latest_assignment_end(new_schedule@.assignments),
                new_schedule@.violations == Seq::<crate::constraint::ViolationView>::empty(),
                new_schedule@.tasks == Seq::<crate::task::TaskView>::empty(),
                forall|k: Seq<char>| #[trigger] res_ready.map().dom().contains(k)
                    ==> -placed_bound(p as int) <= res_ready.map()[k] <= placed_bound(p as int),
                forall|k: Seq<char>| #[trigger] job_ready.map().dom().contains(k)
                    ==> -placed_bound(p as int) <= job_ready.map()[k] <= placed_bound(p as int),
            decreases order.len() - p,
        {
            let ghost st = (new_schedule@.assignments, res_ready.map(), job_ready.map());
            let idx = order[p];
            assert(order@.take(p + 1).drop_last() =~= order@.take(p as int));
            assert(order@[p as int] < s0.len());
            assert(p < s0.len()) by {
                assert(order@.no_duplicates()) by {
                    assert forall|a: int, b: int| 0 <= a < order@.len() && 0 <= b < order@.len() && a != b implies order@[a] != order@[b] by {
                        if a < b {
                            assert(before_by_start(s0, order@[a], order@[b]));
                        } else {
                            assert(before_by_start(s0, order@[b], order@[a]));
                        }
                    }
                }
                lemma_order_len(s0.len() as int, order@);
            }
            let a = &schedule.assignments[idx];
            assert(s0[idx as int] == a@);
            proof { lemma_in_bound_at(s0, idx as int); }
            let dur = a.end_ms - a.start_ms;
            let r = res_ready.get(a.resource_id.as_str());
            let j = job_ready.get(a.job_id.as_str());
            let start = if r >= j { r } else { j };
            let end = start + dur;
            let mut a2 = a.copy();
            a2.start_ms = start;
            a2.end_ms = end;
            assert(a2@ == shifted(a@, start - a@.start_ms));
            res_ready.put(a.resource_id.as_str(), end);
            job_ready.put(a.job_id.as_str(), end);
            let ghost before = new_schedule@.assignments;
            new_schedule.add_assignment(a2);
            assert(new_schedule@.assignments.drop_last() =~= before);
            assert(regen_step(st, s0[idx as int]) == (new_schedule@.assignments, res_ready.map(), job_ready.map()));
            p += 1;
            assert forall|k: Seq<char>| #[trigger] res_ready.map().dom().contains(k)
                implies -placed_bound(p as int) <= res_ready.map()[k] <= placed_bound(p as int) by {
                if k != a@.resource_id {
                    assert(st.1.dom().contains(k));
                }
            }
            assert forall|k: Seq<char>| #[trigger] job_ready.map().dom().contains(k)
                implies -placed_bound(p as int) <= job_ready.map()[k] <= placed_bound(p as int) by {
                if k != a@.job_id {
                    assert(st.2.dom().contains(k));
                }
            }
        }
        assert(order@.take(order@.len() as int) =~= order@);
        let stats = calculate_stats(schedule, &new_schedule, regen_ops.len());
        RescheduleResult {
            schedule: new_schedule,
            affected_operations: regen_ops,
            strategy_used: RescheduleStrategy::TotalRegeneration,
            stats,
        }
    }

    /// Chooses the strategy from the number of operations the event touches:
    /// nothing to do when there are none, a right shift for up to three, AOR for
    /// at most 30% of the assignments, and a regeneration beyond.
    pub fn auto_reschedule(&self, schedule: &Schedule, event: &ScheduleEvent) -> (r: RescheduleResult)
        requires
            assignments_in_bound(schedule@.assignments),
            event_in_bound(*event),
            auto_computable(self.fence(), schedule@.assignments, *event),
        ensures
            affected_operations(schedule@.assignments, *event).len() > 3
                && affected_operations(schedule@.assignments, *event).len() * 10 <= schedule@.assignments.len() * 3
                ==> aor_outcome(self.fence(), schedule@, *event, r),
            affected_operations(schedule@.assignments, *event).len() * 10 > schedule@.assignments.len() * 3
                && affected_operations(schedule@.assignments, *event).len() > 3
                ==> regeneration_outcome(self.fence(), schedule@, r),
            1 <= affected_operations(schedule@.assignments, *event).len() <= 3
                ==> right_shift_outcome(self.fence(), schedule@, *event, r),
            match auto_strategy(schedule@.assignments, *event) {
                None => r.schedule@ == schedule@ && r.affected_operations@.len() == 0
                    && r.strategy_used == RescheduleStrategy::RightShift && r.stats == RescheduleStats::zero_spec(),
                Some(RescheduleStrategy::RightShift) => right_shift_outcome(self.fence(), schedule@, *event, r),
                Some(RescheduleStrategy::AOR) => aor_outcome(self.fence(), schedule@, *event, r),
                Some(_) => regeneration_outcome(self.fence(), schedule@, r),
            },
    {
        let affected_count = self.identify_affected_operations(schedule, event).len();
        let total_ops = schedule.assignments.len();
        if affected_count == 0 {
            return RescheduleResult {
                schedule: schedule.copy(),
                affected_operations: Vec::new(),
                strategy_used: RescheduleStrategy::RightShift,
                stats: RescheduleStats::zero(),
            };
        }
        if affected_count <= 3 {
            self.right_shift(schedule, event)
        } else if (affected_count as u128) * 10 <= (total_ops as u128) * 3 {
            self.aor(schedule, event)
        } else {
            self.total_regeneration(schedule, event)
        }
    }
}

proof fn lemma_first_index_bounds(s: Seq<AssignmentView>, op: Seq<char>)
    ensures
        0 <= first_index_of_operation(s, op) <= s.len(),
        first_index_of_operation(s, op) < s.len() ==> s[first_index_of_operation(s, op)].operation_id == op,
    decreases s.len(),
{
    if s.len() > 0 && s[0].operation_id != op {
        lemma_first_index_bounds(s.drop_first(), op);
    }
}

proof fn lemma_place_all(fence: Option<TimeFenceConfig>, s: Seq<AssignmentView>, m: Map<Seq<char>, int>, order: Seq<usize>)
    requires
        forall|p: int| 0 <= p < order.len() ==> #[trigger] order[p] < s.len(),
    ensures
        place_all_affected(fence, s, m, order).0.len() == s.len(),
        forall|j: int| 0 <= j < s.len() ==> {
            let r = #[trigger] place_all_affected(fence, s, m, order).0[j];
            &&& r.start_ms >= s[j].start_ms
            &&& r.end_ms - r.start_ms == s[j].end_ms - s[j].start_ms
            &&& r.operation_id == s[j].operation_id
            &&& r.job_id == s[j].job_id
            &&& r.resource_id == s[j].resource_id
            &&& (frozen_at(fence, s[j]) ==> r == s[j])
        },
    decreases order.len(),
{
    if order.len() > 0 {
        let rest = order.drop_last();
        lemma_place_all(fence, s, m, rest);
        let st = place_all_affected(fence, s, m, rest);
        let idx = order.last() as int;
        assert(order[order.len() - 1] < s.len());
        let r = place_all_affected(fence, s, m, order).0;
        assert(r == place_affected(fence, st, idx).0);
        assert forall|j: int| 0 <= j < s.len() implies {
            let x = #[trigger] r[j];
            &&& x.start_ms >= s[j].start_ms
            &&& x.end_ms - x.start_ms == s[j].end_ms - s[j].start_ms
            &&& x.operation_id == s[j].operation_id
            &&& x.job_id == s[j].job_id
            &&& x.resource_id == s[j].resource_id
            &&& (frozen_at(fence, s[j]) ==> x == s[j])
        } by {
            let y = st.0[j];
            assert(y == place_all_affected(fence, s, m, rest).0[j]);
        }
    }
}

proof fn lemma_regen_all_prefix(s: Seq<AssignmentView>, order: Seq<usize>,
    init: (Seq<AssignmentView>, Map<Seq<char>, int>, Map<Seq<char>, int>))
    ensures
        regen_all(s, order, init).0.len() == init.0.len() + order.len(),
        regen_all(s, order, init).0.take(init.0.len() as int) == init.0,
        forall|p: int| 0 <= p < order.len() ==> {
            let x = #[trigger] regen_all(s, order, init).0[init.0.len() + p];
            let a = s[order[p] as int];
            &&& x.end_ms - x.start_ms == a.end_ms - a.start_ms
            &&& x.operation_id == a.operation_id
            &&& x.job_id == a.job_id
            &&& x.resource_id == a.resource_id
        },
    decreases order.len(),
{
    if order.len() > 0 {
        let rest = order.drop_last();
        lemma_regen_all_prefix(s, rest, init);
        let prev = regen_all(s, rest, init).0;
        let cur = regen_all(s, order, init).0;
        assert(cur == prev.push(shifted(s[order.last() as int], max2(
            get_or_zero(regen_all(s, rest, init).1, s[order.last() as int].resource_id),
            get_or_zero(regen_all(s, rest, init).2, s[order.last() as int].job_id)) - s[order.last() as int].start_ms)));
        assert(cur.take(init.0.len() as int) =~= prev.take(init.0.len() as int));
        assert forall|p: int| 0 <= p < order.len() implies {
            let x = #[trigger] cur[init.0.len() + p];
            let a = s[order[p] as int];
            &&& x.end_ms - x.start_ms == a.end_ms - a.start_ms
            &&& x.operation_id == a.operation_id
            &&& x.job_id == a.job_id
            &&& x.resource_id == a.resource_id
        } by {
            if p < rest.len() {
                assert(cur[init.0.len() + p] == prev[init.0.len() + p]);
                assert(rest[p] == order[p]);
            }
        }
    }
}

/// A time fence protects the frozen zone: a right shift and AOR leave every
/// assignment in it exactly as it was, and a regeneration keeps the frozen
/// assignments, unchanged and in order, at the head of the new schedule.
pub proof fn law_frozen_work_kept(fence: Option<TimeFenceConfig>, s: Seq<AssignmentView>, e: ScheduleEvent, j: int)
    requires
        s.len() <= MAX_ASSIGNMENTS,
        0 <= j < s.len(),
        frozen_at(fence, s[j]),
    ensures
        right_shifted(fence, s, e).len() == s.len(),
        right_shifted(fence, s, e)[j] == s[j],
        aor_assignments(fence, s, e).len() == s.len(),
        aor_assignments(fence, s, e)[j] == s[j],
        regenerated(fence, s).take(fixed_part(fence, s).len() as int) == fixed_part(fence, s),
{
    let sel = aor_selection(fence, s, e);
    lemma_sorted_selection(s, sel);
    lemma_place_all(fence, s, ready_of_unaffected(s, sel), sorted_selection(s, sel));
    let fx = fixed_part(fence, s);
    lemma_regen_all_prefix(s, sorted_selection(s, regen_selection(fence, s)), (fx, ready_by_resource(fx), ready_by_job(fx)));
    match e {
        ScheduleEvent::OperationDelay { operation_id, delay_ms } => {
            lemma_first_index_bounds(s, operation_id@);
            let b = after_delay(fence, s, operation_id@, delay_ms as int);
            assert(b[j] == s[j]);
        }
        _ => {}
    }
}

/// Repairs only move work later and never change what it is: after a right shift
/// (with a delay that is not negative) and after AOR every assignment keeps its
/// operation, job, resource and length and starts no earlier than before; a
/// regeneration keeps the length of every assignment it places anew.
pub proof fn law_repairs_move_work_forward(fence: Option<TimeFenceConfig>, s: Seq<AssignmentView>, e: ScheduleEvent, j: int)
    requires
        s.len() <= MAX_ASSIGNMENTS,
        0 <= j < s.len(),
        e matches ScheduleEvent::OperationDelay { delay_ms, .. } ==> delay_ms >= 0,
    ensures
        ({
            let r = right_shifted(fence, s, e)[j];
            &&& r.start_ms >= s[j].start_ms
            &&& r.end_ms - r.start_ms == s[j].end_ms - s[j].start_ms
            &&& r.operation_id == s[j].operation_id
            &&& r.job_id == s[j].job_id
            &&& r.resource_id == s[j].resource_id
        }),
        ({
            let r = aor_assignments(fence, s, e)[j];
            &&& r.start_ms >= s[j].start_ms
            &&& r.end_ms - r.start_ms == s[j].end_ms - s[j].start_ms
            &&& r.operation_id == s[j].operation_id
            &&& r.job_id == s[j].job_id
            &&& r.resource_id == s[j].resource_id
        }),
        forall|p: int| fixed_part(fence, s).len() <= p < regenerated(fence, s).len() ==> {
            let order = sorted_selection(s, regen_selection(fence, s));
            let a = s[order[p - fixed_part(fence, s).len()] as int];
            let x = #[trigger] regenerated(fence, s)[p];
            &&& x.end_ms - x.start_ms == a.end_ms - a.start_ms
            &&& x.operation_id == a.operation_id
            &&& x.resource_id == a.resource_id
        },
{
    let sel = aor_selection(fence, s, e);
    lemma_sorted_selection(s, sel);
    lemma_place_all(fence, s, ready_of_unaffected(s, sel), sorted_selection(s, sel));
    let fx = fixed_part(fence, s);
    let order = sorted_selection(s, regen_selection(fence, s));
    lemma_regen_all_prefix(s, order, (fx, ready_by_resource(fx), ready_by_job(fx)));
    assert forall|p: int| fixed_part(fence, s).len() <= p < regenerated(fence, s).len() implies {
        let a = s[order[p - fixed_part(fence, s).len()] as int];
        let x = #[trigger] regenerated(fence, s)[p];
        &&& x.end_ms - x.start_ms == a.end_ms - a.start_ms
        &&& x.operation_id == a.operation_id
        &&& x.resource_id == a.resource_id
    } by {
        let q = p - fx.len();
        assert(regenerated(fence, s)[fx.len() + q] == regenerated(fence, s)[p]);
    }
    match e {
        ScheduleEvent::OperationDelay { operation_id, delay_ms } => {
            lemma_first_index_bounds(s, operation_id@);
            let b = after_delay(fence, s, operation_id@, delay_ms as int);
            let k = delayed_index(s, operation_id@);
            assert(b[j].start_ms >= s[j].start_ms && b[j].end_ms - b[j].start_ms == s[j].end_ms - s[j].start_ms
                && b[j].operation_id == s[j].operation_id && b[j].resource_id == s[j].resource_id && b[j].job_id == s[j].job_id);
        }
        _ => {}
    }
}

proof fn lemma_right_shift_keeps_ids(fence: Option<TimeFenceConfig>, s: Seq<AssignmentView>, e: ScheduleEvent)
    ensures
        right_shifted(fence, s, e).len() == s.len(),
        forall|j: int| 0 <= j < s.len() ==> #[trigger] right_shifted(fence, s, e)[j].operation_id == s[j].operation_id,
{
    match e {
        ScheduleEvent::OperationDelay { operation_id, delay_ms } => {
            lemma_first_index_bounds(s, operation_id@);
            let b = after_delay(fence, s, operation_id@, delay_ms as int);
            assert(b.len() == s.len());
            assert forall|j: int| 0 <= j < s.len() implies #[trigger] b[j].operation_id == s[j].operation_id by {}
        }
        _ => {}
    }
}

proof fn lemma_fence_silent(c: TimeFenceConfig, old: Seq<AssignmentView>, new: Seq<AssignmentView>, n: int)
    requires
        distinct_operations(old),
        new.len() == old.len(),
        forall|j: int| 0 <= j < old.len() ==> #[trigger] new[j].operation_id == old[j].operation_id,
        forall|j: int| 0 <= j < old.len() && zone_of(c, old[j].start_ms) == FenceZone::Frozen ==> #[trigger] new[j] == old[j],
        0 <= n <= old.len(),
    ensures
        fence_violations(c, old.take(n), new).len() == 0,
    decreases n,
{
    if n > 0 {
        lemma_fence_silent(c, old, new, n - 1);
        assert(old.take(n).drop_last() =~= old.take(n - 1));
        assert(old.take(n).last() == old[n - 1]);
        assert(distinct_operations(new)) by {
            assert forall|a: int, b: int| 0 <= a < new.len() && 0 <= b < new.len() && a != b
                implies #[trigger] new[a].operation_id != #[trigger] new[b].operation_id by {
                assert(new[a].operation_id == old[a].operation_id);
                assert(new[b].operation_id == old[b].operation_id);
            }
        }
        lemma_first_index_found(new, n - 1);
        assert(new[n - 1].operation_id == old[n - 1].operation_id);
    }
}

/// Repairs respect the time fence they were made under: for a schedule whose
/// operations each appear once, checking the result of a right shift or of AOR
/// against the schedule with the same fence reports no violation.
pub proof fn law_repairs_respect_fence(c: TimeFenceConfig, s: Seq<AssignmentView>, e: ScheduleEvent)
    requires
        s.len() <= MAX_ASSIGNMENTS,
        distinct_operations(s),
    ensures
        fence_violations(c, s, right_shifted(Some(c), s, e)).len() == 0,
        fence_violations(c, s, aor_assignments(Some(c), s, e)).len() == 0,
{
    let fence = Some(c);
    lemma_right_shift_keeps_ids(fence, s, e);
    let sel = aor_selection(fence, s, e);
    lemma_sorted_selection(s, sel);
    lemma_place_all(fence, s, ready_of_unaffected(s, sel), sorted_selection(s, sel));
    let rs = right_shifted(fence, s, e);
    let ao = aor_assignments(fence, s, e);
    assert forall|j: int| 0 <= j < s.len() && zone_of(c, s[j].start_ms) == FenceZone::Frozen implies #[trigger] rs[j] == s[j] by {
        law_frozen_work_kept(fence, s, e, j);
    }
    assert forall|j: int| 0 <= j < s.len() && zone_of(c, s[j].start_ms) == FenceZone::Frozen implies #[trigger] ao[j] == s[j] by {
        law_frozen_work_kept(fence, s, e, j);
    }
    assert forall|j: int| 0 <= j < s.len() implies #[trigger] ao[j].operation_id == s[j].operation_id by {
        assert(place_all_affected(fence, s, ready_of_unaffected(s, sel), sorted_selection(s, sel)).0[j].operation_id == s[j].operation_id);
    }
    lemma_fence_silent(c, s, rs, s.len() as int);
    lemma_fence_silent(c, s, ao, s.len() as int);
    assert(s.take(s.len() as int) =~= s);
}

proof fn lemma_first_index_at_most(s: Seq<AssignmentView>, op: Seq<char>, p: int)
    requires
        0 <= p < s.len(),
        s[p].operation_id == op,
    ensures
        first_index_of_operation(s, op) <= p,
    decreases p,
{
    if p > 0 && s[0].operation_id != op {
        assert(s.drop_first()[p - 1] == s[p]);
        lemma_first_index_at_most(s.drop_first(), op, p - 1);
    }
}

proof fn lemma_fence_silent_found(c: TimeFenceConfig, old: Seq<AssignmentView>, new: Seq<AssignmentView>, n: int)
    requires
        forall|j: int| 0 <= j < old.len() && zone_of(c, old[j].start_ms) == FenceZone::Frozen ==> {
            let q = first_index_of_operation(new, #[trigger] old[j].operation_id);
            q < new.len() && new[q] == old[j]
        },
        0 <= n <= old.len(),
    ensures
        fence_violations(c, old.take(n), new).len() == 0,
    decreases n,
{
    if n > 0 {
        lemma_fence_silent_found(c, old, new, n - 1);
        assert(old.take(n).drop_last() =~= old.take(n - 1));
        assert(old.take(n).last() == old[n - 1]);
    }
}

/// A regeneration respects the time fence it was made under: for a schedule whose
/// operations each appear once, checking the regenerated schedule against it with
/// the same fence reports no violation.
pub proof fn law_regeneration_respects_fence(c: TimeFenceConfig, s: Seq<AssignmentView>)
    requires
        s.len() <= MAX_ASSIGNMENTS,
        distinct_operations(s),
    ensures
        fence_violations(c, s, regenerated(Some(c), s)).len() == 0,
{
    broadcast use vstd::seq_lib::group_filter_ensures;
    let fence = Some(c);
    let f = fixed_part(fence, s);
    let n = regenerated(fence, s);
    let frozen = |a: AssignmentView| frozen_at(fence, a);
    lemma_regen_all_prefix(s, sorted_selection(s, regen_selection(fence, s)), (f, ready_by_resource(f), ready_by_job(f)));
    assert(n.take(f.len() as int) == f);
    assert forall|j: int| 0 <= j < s.len() && zone_of(c, s[j].start_ms) == FenceZone::Frozen implies {
        let q = first_index_of_operation(n, #[trigger] s[j].operation_id);
        q < n.len() && n[q] == s[j]
    } by {
        let op = s[j].operation_id;
        assert(frozen(s[j]));
        s.lemma_filter_contains(frozen, j);
        assert(f.contains(s[j]));
        let p = choose|p: int| 0 <= p < f.len() && f[p] == s[j];
        assert(n.take(f.len() as int)[p] == n[p]);
        assert(n[p] == s[j]);
        lemma_first_index_at_most(n, op, p);
        lemma_first_index_bounds(n, op);
        let q = first_index_of_operation(n, op);
        assert(n.take(f.len() as int)[q] == n[q]);
        assert(n[q] == f[q]);
        assert(f.contains(f[q]));
        s.lemma_filter_contains_rev(frozen, f[q]);
        let k = choose|k: int| 0 <= k < s.len() && s[k] == f[q];
        assert(s[k].operation_id == op);
        assert(k == j);
    }
    lemma_fence_silent_found(c, s, n, s.len() as int);
    assert(s.take(s.len() as int) =~= s);
}


/// Whether the ready times of a regeneration state cover the assignments
/// already placed: none ends after the ready time of its resource.
pub open spec fn ready_covers(st: (Seq<AssignmentView>, Map<Seq<char>, int>, Map<Seq<char>, int>)) -> bool {
    forall|i: int| 0 <= i < st.0.len() ==> (#[trigger] st.0[i]).end_ms <= get_or_zero(st.1, st.0[i].resource_id)
}

/// The ready times of the kept assignments cover them.
proof fn lemma_ready_by_resource_covers(f: Seq<AssignmentView>)
    ensures
        forall|i: int| 0 <= i < f.len() ==> (#[trigger] f[i]).end_ms <= get_or_zero(ready_by_resource(f), f[i].resource_id),
    decreases f.len(),
{
    if f.len() > 0 {
        let d = f.drop_last();
        lemma_ready_by_resource_covers(d);
        let m = ready_by_resource(d);
        let k = f.last().resource_id;
        assert forall|i: int| 0 <= i < f.len() implies (#[trigger] f[i]).end_ms <= get_or_zero(ready_by_resource(f), f[i].resource_id) by {
            if i < d.len() {
                assert(f[i] == d[i]);
            }
        }
    }
}

/// Placing assignments anew keeps the ready times covering them, and places each
/// after every earlier assignment on its resource (lengths being non-negative).
proof fn lemma_regen_all_disjoint(s: Seq<AssignmentView>, order: Seq<usize>,
    init: (Seq<AssignmentView>, Map<Seq<char>, int>, Map<Seq<char>, int>))
    requires
        ready_covers(init),
        forall|p: int| 0 <= p < order.len() ==> #[trigger] order[p] < s.len(),
        forall|j: int| 0 <= j < s.len() ==> (#[trigger] s[j]).start_ms <= s[j].end_ms,
    ensures
        ready_covers(regen_all(s, order, init)),
        forall|i: int, q: int| 0 <= i < q && init.0.len() <= q < regen_all(s, order, init).0.len()
            && (#[trigger] regen_all(s, order, init).0[i]).resource_id == (#[trigger] regen_all(s, order, init).0[q]).resource_id
            ==> regen_all(s, order, init).0[i].end_ms <= regen_all(s, order, init).0[q].start_ms,
    decreases order.len(),
{
    lemma_regen_all_prefix(s, order, init);
    if order.len() > 0 {
        let rest = order.drop_last();
        assert forall|p: int| 0 <= p < rest.len() implies #[trigger] rest[p] < s.len() by {
            assert(rest[p] == order[p]);
        }
        lemma_regen_all_disjoint(s, rest, init);
        lemma_regen_all_prefix(s, rest, init);
        let st = regen_all(s, rest, init);
        let a = s[order.last() as int];
        assert(order[order.len() - 1] < s.len());
        assert(a.start_ms <= a.end_ms);
        let start = max2(get_or_zero(st.1, a.resource_id), get_or_zero(st.2, a.job_id));
        let a2 = shifted(a, start - a.start_ms);
        let cur = regen_all(s, order, init);
        assert(cur.0 == st.0.push(a2));
        assert(cur.1 == st.1.insert(a.resource_id, a2.end_ms));
        assert forall|i: int| 0 <= i < cur.0.len() implies (#[trigger] cur.0[i]).end_ms <= get_or_zero(cur.1, cur.0[i].resource_id) by {
            if i < st.0.len() {
                assert(cur.0[i] == st.0[i]);
                assert(st.0[i].end_ms <= get_or_zero(st.1, st.0[i].resource_id));
            }
        }
        assert forall|i: int, q: int| 0 <= i < q && init.0.len() <= q < cur.0.len()
            && (#[trigger] cur.0[i]).resource_id == (#[trigger] cur.0[q]).resource_id
            implies cur.0[i].end_ms <= cur.0[q].start_ms by {
            if q < st.0.len() {
                assert(cur.0[i] == st.0[i] && cur.0[q] == st.0[q]);
            } else {
                assert(cur.0[q] == a2);
                assert(cur.0[i] == st.0[i]);
                assert(st.0[i].end_ms <= get_or_zero(st.1, st.0[i].resource_id));
            }
        }
    }
}

/// Whether the job ready times of a regeneration state cover the assignments
/// already placed: none ends after the ready time of its job.
pub open spec fn job_ready_covers(st: (Seq<AssignmentView>, Map<Seq<char>, int>, Map<Seq<char>, int>)) -> bool {
    forall|i: int| 0 <= i < st.0.len() ==> (#[trigger] st.0[i]).end_ms <= get_or_zero(st.2, st.0[i].job_id)
}

/// The job ready times of the kept assignments cover them.
proof fn lemma_ready_by_job_covers(f: Seq<AssignmentView>)
    ensures
        forall|i: int| 0 <= i < f.len() ==> (#[trigger] f[i]).end_ms <= get_or_zero(ready_by_job(f), f[i].job_id),
    decreases f.len(),
{
    if f.len() > 0 {
        let d = f.drop_last();
        lemma_ready_by_job_covers(d);
        let m = ready_by_job(d);
        let k = f.last().job_id;
        assert forall|i: int| 0 <= i < f.len() implies (#[trigger] f[i]).end_ms <= get_or_zero(ready_by_job(f), f[i].job_id) by {
            if i < d.len() {
                assert(f[i] == d[i]);
            }
        }
    }
}

/// Placing assignments anew keeps the job ready times covering them, and places
/// each after every earlier assignment of its job (lengths being non-negative).
proof fn lemma_regen_all_job_order(s: Seq<AssignmentView>, order: Seq<usize>,
    init: (Seq<AssignmentView>, Map<Seq<char>, int>, Map<Seq<char>, int>))
    requires
        job_ready_covers(init),
        forall|p: int| 0 <= p < order.len() ==> #[trigger] order[p] < s.len(),
        forall|j: int| 0 <= j < s.len() ==> (#[trigger] s[j]).start_ms <= s[j].end_ms,
    ensures
        job_ready_covers(regen_all(s, order, init)),
        forall|i: int, q: int| 0 <= i < q && init.0.len() <= q < regen_all(s, order, init).0.len()
            && (#[trigger] regen_all(s, order, init).0[i]).job_id == (#[trigger] regen_all(s, order, init).0[q]).job_id
            ==> regen_all(s, order, init).0[i].end_ms <= regen_all(s, order, init).0[q].start_ms,
    decreases order.len(),
{
    lemma_regen_all_prefix(s, order, init);
    if order.len() > 0 {
        let rest = order.drop_last();
        assert forall|p: int| 0 <= p < rest.len() implies #[trigger] rest[p] < s.len() by {
            assert(rest[p] == order[p]);
        }
        lemma_regen_all_job_order(s, rest, init);
        lemma_regen_all_prefix(s, rest, init);
        let st = regen_all(s, rest, init);
        let a = s[order.last() as int];
        assert(order[order.len() - 1] < s.len());
        assert(a.start_ms <= a.end_ms);
        let start = max2(get_or_zero(st.1, a.resource_id), get_or_zero(st.2, a.job_id));
        let a2 = shifted(a, start - a.start_ms);
        let cur = regen_all(s, order, init);
        assert(cur.0 == st.0.push(a2));
        assert(cur.2 == st.2.insert(a.job_id, a2.end_ms));
        assert forall|i: int| 0 <= i < cur.0.len() implies (#[trigger] cur.0[i]).end_ms <= get_or_zero(cur.2, cur.0[i].job_id) by {
            if i < st.0.len() {
                assert(cur.0[i] == st.0[i]);
                assert(st.0[i].end_ms <= get_or_zero(st.2, st.0[i].job_id));
            }
        }
        assert forall|i: int, q: int| 0 <= i < q && init.0.len() <= q < cur.0.len()
            && (#[trigger] cur.0[i]).job_id == (#[trigger] cur.0[q]).job_id
            implies cur.0[i].end_ms <= cur.0[q].start_ms by {
            if q < st.0.len() {
                assert(cur.0[i] == st.0[i] && cur.0[q] == st.0[q]);
            } else {
                assert(cur.0[q] == a2);
                assert(cur.0[i] == st.0[i]);
                assert(st.0[i].end_ms <= get_or_zero(st.2, st.0[i].job_id));
            }
        }
    }
}

/// A regeneration keeps each job's work in order: for a schedule whose
/// assignments do not end before they start, every assignment placed anew (after
/// the kept ones) starts no earlier than the end of every assignment before it of
/// the same job.
pub proof fn law_regeneration_job_order(fence: Option<TimeFenceConfig>, s: Seq<AssignmentView>, i: int, q: int)
    requires
        s.len() <= usize::MAX,
        forall|j: int| 0 <= j < s.len() ==> (#[trigger] s[j]).start_ms <= s[j].end_ms,
        0 <= i < q < regenerated(fence, s).len(),
        q >= fixed_part(fence, s).len(),
        regenerated(fence, s)[i].job_id == regenerated(fence, s)[q].job_id,
    ensures
        regenerated(fence, s)[i].end_ms <= regenerated(fence, s)[q].start_ms,
{
    let f = fixed_part(fence, s);
    let sel = regen_selection(fence, s);
    lemma_sorted_selection(s, sel);
    let order = sorted_selection(s, sel);
    let init = (f, ready_by_resource(f), ready_by_job(f));
    lemma_ready_by_job_covers(f);
    assert(job_ready_covers(init));
    lemma_regen_all_job_order(s, order, init);
    let n = regen_all(s, order, init).0;
    assert(n[i].job_id == n[q].job_id);
}

/// A regeneration places no new work on top of other work: for a schedule whose
/// assignments do not end before they start, every assignment placed anew (after
/// the kept ones) starts no earlier than the end of every assignment before it on
/// the same resource.
pub proof fn law_regeneration_no_overlap(fence: Option<TimeFenceConfig>, s: Seq<AssignmentView>, i: int, q: int)
    requires
        s.len() <= usize::MAX,
        forall|j: int| 0 <= j < s.len() ==> (#[trigger] s[j]).start_ms <= s[j].end_ms,
        0 <= i < q < regenerated(fence, s).len(),
        q >= fixed_part(fence, s).len(),
        regenerated(fence, s)[i].resource_id == regenerated(fence, s)[q].resource_id,
    ensures
        regenerated(fence, s)[i].end_ms <= regenerated(fence, s)[q].start_ms,
{
    let f = fixed_part(fence, s);
    let sel = regen_selection(fence, s);
    lemma_sorted_selection(s, sel);
    let order = sorted_selection(s, sel);
    let init = (f, ready_by_resource(f), ready_by_job(f));
    lemma_ready_by_resource_covers(f);
    assert(ready_covers(init));
    lemma_regen_all_disjoint(s, order, init);
    let n = regen_all(s, order, init).0;
    assert(n[i].resource_id == n[q].resource_id);
}

/// A regeneration keeps the work: every assignment of the regenerated schedule
/// has the operation, job, resource and length of an assignment of the schedule.
pub proof fn law_regeneration_keeps_work(fence: Option<TimeFenceConfig>, s: Seq<AssignmentView>, k: int)
    requires
        s.len() <= usize::MAX,
        0 <= k < regenerated(fence, s).len(),
    ensures
        exists|j: int| 0 <= j < s.len()
            && (#[trigger] s[j]).operation_id == regenerated(fence, s)[k].operation_id
            && s[j].job_id == regenerated(fence, s)[k].job_id
            && s[j].resource_id == regenerated(fence, s)[k].resource_id
            && s[j].end_ms - s[j].start_ms == regenerated(fence, s)[k].end_ms - regenerated(fence, s)[k].start_ms,
{
    broadcast use vstd::seq_lib::group_filter_ensures;
    let f = fixed_part(fence, s);
    let sel = regen_selection(fence, s);
    lemma_sorted_selection(s, sel);
    let order = sorted_selection(s, sel);
    let init = (f, ready_by_resource(f), ready_by_job(f));
    lemma_regen_all_prefix(s, order, init);
    let n = regen_all(s, order, init).0;
    if k < f.len() {
        assert(n.take(f.len() as int)[k] == f[k]);
        assert(f.contains(f[k]));
        s.lemma_filter_contains_rev(|a: AssignmentView| frozen_at(fence, a), f[k]);
        let j = choose|j: int| 0 <= j < s.len() && s[j] == f[k];
        assert(s[j] == n[k]);
    } else {
        let p = k - f.len();
        assert(order[p] < s.len());
        let j = order[p] as int;
        assert(n[f.len() + p] == n[k]);
    }
}


/// The automatic repair follows the event's impact: nothing for an event that
/// touches no operation, a right shift for one to three operations, AOR for more
/// than three that are at most 30% of the assignments, and a regeneration beyond.
pub proof fn law_auto_strategy_by_impact(s: Seq<AssignmentView>, e: ScheduleEvent)
    ensures
        affected_operations(s, e).len() == 0 ==> auto_strategy(s, e) is None,
        1 <= affected_operations(s, e).len() <= 3 ==> auto_strategy(s, e) == Some(RescheduleStrategy::RightShift),
        affected_operations(s, e).len() > 3 && affected_operations(s, e).len() * 10 <= s.len() * 3
            ==> auto_strategy(s, e) == Some(RescheduleStrategy::AOR),
        affected_operations(s, e).len() > 3 && affected_operations(s, e).len() * 10 > s.len() * 3
            ==> auto_strategy(s, e) == Some(RescheduleStrategy::TotalRegeneration),
{
}


/// Placing affected assignments one after the other keeps the others, keeps
/// each one's resource, raises the ready time of its resource past it, and
/// starts each one (that the fence lets move) no earlier than the end of those
/// placed before it on its resource, and no earlier than its resource was ready.
proof fn lemma_placed_in_turn(fence: Option<TimeFenceConfig>, s: Seq<AssignmentView>, m: Map<Seq<char>, int>, order: Seq<usize>)
    requires
        forall|p: int| 0 <= p < order.len() ==> (#[trigger] order[p]) < s.len(),
        forall|p: int, q: int| 0 <= p < q < order.len() ==> #[trigger] order[p] != #[trigger] order[q],
    ensures
        ({
            let pl = place_all_affected(fence, s, m, order);
            &&& pl.0.len() == s.len()
            &&& forall|k: int| 0 <= k < s.len() && !order.contains(k as usize) ==> #[trigger] pl.0[k] == s[k]
            &&& forall|p: int| 0 <= p < order.len()
                ==> (#[trigger] pl.0[order[p] as int]).resource_id == s[order[p] as int].resource_id
            &&& forall|p: int| 0 <= p < order.len()
                ==> (#[trigger] pl.0[order[p] as int]).end_ms <= get_or_zero(pl.1, s[order[p] as int].resource_id)
            &&& forall|k: Seq<char>| get_or_zero(m, k) <= #[trigger] get_or_zero(pl.1, k)
            &&& forall|p: int| 0 <= p < order.len() && fence_allows(fence, s[order[p] as int].start_ms)
                ==> get_or_zero(m, s[order[p] as int].resource_id) <= (#[trigger] pl.0[order[p] as int]).start_ms
            &&& forall|p: int, q: int| #![trigger order[p], order[q]] 0 <= p < q < order.len()
                && s[order[p] as int].resource_id == s[order[q] as int].resource_id
                && fence_allows(fence, s[order[q] as int].start_ms)
                ==> pl.0[order[p] as int].end_ms <= pl.0[order[q] as int].start_ms
        }),
    decreases order.len(),
{
    if order.len() > 0 {
        let rest = order.drop_last();
        let n = order.len() - 1;
        assert forall|p: int| 0 <= p < rest.len() implies (#[trigger] rest[p]) < s.len() by {
            assert(rest[p] == order[p]);
        }
        assert forall|p: int, q: int| 0 <= p < q < rest.len() implies #[trigger] rest[p] != #[trigger] rest[q] by {
            assert(rest[p] == order[p] && rest[q] == order[q]);
        }
        lemma_placed_in_turn(fence, s, m, rest);
        let pr = place_all_affected(fence, s, m, rest);
        let idx = order[n] as int;
        assert(order.last() == order[n]);
        assert(!rest.contains(idx as usize)) by {
            if rest.contains(idx as usize) {
                let p = choose|p: int| 0 <= p < rest.len() && rest[p] == idx as usize;
                assert(order[p] != order[n]);
            }
        }
        assert(pr.0[idx] == s[idx]);
        let a = s[idx];
        let earliest = max2(get_or_zero(pr.1, a.resource_id), a.start_ms);
        let a2 = if earliest != a.start_ms && fence_allows(fence, a.start_ms) { shifted(a, earliest - a.start_ms) } else { a };
        let pl = place_all_affected(fence, s, m, order);
        assert(pl == place_affected(fence, pr, idx));
        assert(pl.0 == pr.0.update(idx, a2));
        assert(pl.1 == raised(pr.1, a.resource_id, a2.end_ms));
        assert forall|k: Seq<char>| get_or_zero(pr.1, k) <= #[trigger] get_or_zero(pl.1, k) by {}
        assert forall|k: int| 0 <= k < s.len() && !order.contains(k as usize) implies #[trigger] pl.0[k] == s[k] by {
            if rest.contains(k as usize) {
                let p = choose|p: int| 0 <= p < rest.len() && rest[p] == k as usize;
                assert(order[p] == k as usize);
            }
            assert(k != idx);
        }
        assert forall|p: int| 0 <= p < order.len()
            implies (#[trigger] pl.0[order[p] as int]).resource_id == s[order[p] as int].resource_id by {
            if p < n {
                assert(rest[p] == order[p]);
                assert(order[p] != order[n]);
            }
        }
        assert forall|p: int| 0 <= p < order.len()
            implies (#[trigger] pl.0[order[p] as int]).end_ms <= get_or_zero(pl.1, s[order[p] as int].resource_id) by {
            if p < n {
                assert(rest[p] == order[p]);
                assert(order[p] != order[n]);
                assert(get_or_zero(pr.1, s[order[p] as int].resource_id) <= get_or_zero(pl.1, s[order[p] as int].resource_id));
            }
        }
        assert forall|p: int| 0 <= p < order.len() && fence_allows(fence, s[order[p] as int].start_ms)
            implies get_or_zero(m, s[order[p] as int].resource_id) <= (#[trigger] pl.0[order[p] as int]).start_ms by {
            if p < n {
                assert(rest[p] == order[p]);
                assert(order[p] != order[n]);
            } else {
                assert(get_or_zero(m, a.resource_id) <= get_or_zero(pr.1, a.resource_id));
            }
        }
        assert forall|p: int, q: int| #![trigger order[p], order[q]] 0 <= p < q < order.len()
            && s[order[p] as int].resource_id == s[order[q] as int].resource_id
            && fence_allows(fence, s[order[q] as int].start_ms)
            implies pl.0[order[p] as int].end_ms <= pl.0[order[q] as int].start_ms by {
            assert(rest[p] == order[p]);
            assert(order[p] != order[n]);
            if q < n {
                assert(rest[q] == order[q]);
                assert(order[q] != order[n]);
                assert(pr.0[rest[p] as int].end_ms <= pr.0[rest[q] as int].start_ms);
            } else {
                assert(pr.0[rest[p] as int].end_ms <= get_or_zero(pr.1, s[rest[p] as int].resource_id));
            }
        }
    }
}

/// After AOR, rescheduled work does not overlap on a resource: of two
/// assignments of rescheduled operations on one resource, the one that started
/// first ends before the other starts (when the fence lets the other move).
pub proof fn law_aor_moved_work_does_not_overlap(fence: Option<TimeFenceConfig>, s: Seq<AssignmentView>, e: ScheduleEvent, i: int, j: int)
    requires
        s.len() <= usize::MAX,
        0 <= i < s.len(),
        0 <= j < s.len(),
        aor_selection(fence, s, e).contains(s[i].operation_id),
        aor_selection(fence, s, e).contains(s[j].operation_id),
        before_by_start(s, i as usize, j as usize),
        s[i].resource_id == s[j].resource_id,
        fence_allows(fence, s[j].start_ms),
    ensures
        aor_assignments(fence, s, e)[i].end_ms <= aor_assignments(fence, s, e)[j].start_ms,
{
    let sel = aor_selection(fence, s, e);
    lemma_sorted_selection(s, sel);
    let order = sorted_selection(s, sel);
    assert(order.contains(i as usize));
    assert(order.contains(j as usize));
    let p = choose|p: int| 0 <= p < order.len() && order[p] == i as usize;
    let q = choose|q: int| 0 <= q < order.len() && order[q] == j as usize;
    assert forall|x: int, y: int| 0 <= x < y < order.len() implies #[trigger] order[x] != #[trigger] order[y] by {
        assert(before_by_start(s, order[x], order[y]));
    }
    if q <= p {
        if q < p {
            assert(before_by_start(s, order[q], order[p]));
        }
        assert(false);
    }
    lemma_placed_in_turn(fence, s, ready_of_unaffected(s, sel), order);
}


/// The resource ready times of the unaffected assignments cover them.
proof fn lemma_ready_of_unaffected_covers(s: Seq<AssignmentView>, aff: Set<Seq<char>>)
    ensures
        forall|k: int| 0 <= k < s.len() && !aff.contains(#[trigger] s[k].operation_id)
            ==> s[k].end_ms <= get_or_zero(ready_of_unaffected(s, aff), s[k].resource_id),
    decreases s.len(),
{
    if s.len() > 0 {
        let d = s.drop_last();
        lemma_ready_of_unaffected_covers(d, aff);
        assert forall|k: int| 0 <= k < s.len() && !aff.contains(#[trigger] s[k].operation_id)
            implies s[k].end_ms <= get_or_zero(ready_of_unaffected(s, aff), s[k].resource_id) by {
            if k < d.len() {
                assert(s[k] == d[k]);
                assert(get_or_zero(ready_of_unaffected(d, aff), s[k].resource_id)
                    <= get_or_zero(ready_of_unaffected(s, aff), s[k].resource_id));
            } else {
                assert(s[k] == s.last());
            }
        }
    }
}

/// After AOR, rescheduled work that the fence lets move starts after every
/// assignment of an operation left in place on its resource has ended.
pub proof fn law_aor_moved_work_after_unaffected(fence: Option<TimeFenceConfig>, s: Seq<AssignmentView>, e: ScheduleEvent, i: int, j: int)
    requires
        s.len() <= usize::MAX,
        0 <= i < s.len(),
        0 <= j < s.len(),
        !aor_selection(fence, s, e).contains(s[i].operation_id),
        aor_selection(fence, s, e).contains(s[j].operation_id),
        s[i].resource_id == s[j].resource_id,
        fence_allows(fence, s[j].start_ms),
    ensures
        s[i].end_ms <= aor_assignments(fence, s, e)[j].start_ms,
        aor_assignments(fence, s, e)[i] == s[i],
{
    let sel = aor_selection(fence, s, e);
    lemma_sorted_selection(s, sel);
    let order = sorted_selection(s, sel);
    assert(order.contains(j as usize));
    let q = choose|q: int| 0 <= q < order.len() && order[q] == j as usize;
    assert forall|x: int, y: int| 0 <= x < y < order.len() implies #[trigger] order[x] != #[trigger] order[y] by {
        assert(before_by_start(s, order[x], order[y]));
    }
    assert(!order.contains(i as usize)) by {
        if order.contains(i as usize) {
            let p = choose|p: int| 0 <= p < order.len() && order[p] == i as usize;
        }
    }
    lemma_ready_of_unaffected_covers(s, sel);
    lemma_placed_in_turn(fence, s, ready_of_unaffected(s, sel), order);
}

} // verus!
