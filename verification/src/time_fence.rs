//! Time fences: frozen, slushy and liquid zones that restrict changes to a plan.

use vstd::prelude::*;
use crate::schedule::{AssignmentView, Schedule, ScheduleView};
use crate::strings::str_eq;

verus! {

/// Milliseconds in one hour.
pub const HOUR_MS: i64 = 3_600_000;

/// Zone of the planning horizon.
#[derive(Debug, Clone, Copy, PartialEq, Eq, Structural)]
pub enum FenceZone {
    /// No change allowed (running, material committed).
    Frozen,
    /// Changes need approval.
    Slushy,
    /// Free to change.
    Liquid,
}

impl FenceZone {
    /// Whether work in this zone may be changed: everywhere but the frozen zone.
    pub fn can_modify(&self) -> (b: bool)
        ensures
            b == (*self != FenceZone::Frozen),
    {
        !matches!(self, FenceZone::Frozen)
    }

    /// Whether a change in this zone needs approval: only in the slushy zone.
    pub fn requires_approval(&self) -> (b: bool)
        ensures
            b == (*self == FenceZone::Slushy),
    {
        matches!(self, FenceZone::Slushy)
    }
}

/// Fence settings, relative to the current time.
#[derive(Debug, Clone, Copy)]
pub struct TimeFenceConfig {
    /// End of the frozen zone, relative to the current time (ms).
    pub frozen_end_ms: i64,
    /// End of the slushy zone, relative to the current time (ms).
    pub slushy_end_ms: i64,
    /// Current time (epoch ms).
    pub current_time_ms: i64,
}

/// The zone of an instant under a fence configuration.
pub open spec fn zone_of(c: TimeFenceConfig, time_ms: int) -> FenceZone {
    let relative = time_ms - c.current_time_ms;
    if relative < c.frozen_end_ms {
        FenceZone::Frozen
    } else if relative < c.slushy_end_ms {
        FenceZone::Slushy
    } else {
        FenceZone::Liquid
    }
}

/// Rank of a zone from the most to the least restricted.
pub open spec fn zone_rank(z: FenceZone) -> int {
    match z {
        FenceZone::Frozen => 0,
        FenceZone::Slushy => 1,
        FenceZone::Liquid => 2,
    }
}

impl TimeFenceConfig {
    /// Whether an instant's distance from the current time fits in an `i64`.
    pub open spec fn handles(self, time_ms: int) -> bool {
        i64::MIN <= time_ms - self.current_time_ms <= i64::MAX
    }

    /// A fence with the frozen zone lasting `frozen_hours` from now and the slushy
    /// zone the following `slushy_hours`.
    pub fn new(current_time_ms: i64, frozen_hours: i64, slushy_hours: i64) -> (c: TimeFenceConfig)
        requires
            i64::MIN <= frozen_hours * HOUR_MS <= i64::MAX,
            i64::MIN <= frozen_hours + slushy_hours <= i64::MAX,
            i64::MIN <= (frozen_hours + slushy_hours) * HOUR_MS <= i64::MAX,
        ensures
            c.frozen_end_ms == frozen_hours * HOUR_MS,
            c.slushy_end_ms == (frozen_hours + slushy_hours) * HOUR_MS,
            c.current_time_ms == current_time_ms,
    {
        let frozen_end_ms = frozen_hours * 3_600_000i64;
        let slushy_end_ms = (frozen_hours + slushy_hours) * 3_600_000i64;
        TimeFenceConfig {
            frozen_end_ms,
            slushy_end_ms,
            current_time_ms,
        }
    }

    /// The default fence: frozen for 24 hours, slushy for the 48 hours after.
    pub fn default_with_time(current_time_ms: i64) -> (c: TimeFenceConfig)
        ensures
            c.frozen_end_ms == 24 * HOUR_MS,
            c.slushy_end_ms == 72 * HOUR_MS,
            c.current_time_ms == current_time_ms,
    {
        Self::new(current_time_ms, 24, 48)
    }

    /// The zone an instant falls in.
    pub fn get_zone(&self, time_ms: i64) -> (z: FenceZone)
        requires
            self.handles(time_ms as int),
        ensures
            z == zone_of(*self, time_ms as int),
    {
        let relative = time_ms - self.current_time_ms;
        if relative < self.frozen_end_ms {
            FenceZone::Frozen
        } else if relative < self.slushy_end_ms {
            FenceZone::Slushy
        } else {
            FenceZone::Liquid
        }
    }

    /// Whether an operation starting at `start_ms` may be changed.
    pub fn can_modify_operation(&self, start_ms: i64) -> (b: bool)
        requires
            self.handles(start_ms as int),
        ensures
            b == (zone_of(*self, start_ms as int) != FenceZone::Frozen),
    {
        self.get_zone(start_ms).can_modify()
    }

    /// Absolute end of the frozen zone.
    pub fn frozen_boundary(&self) -> (t: i64)
        requires
            i64::MIN <= self.current_time_ms + self.frozen_end_ms <= i64::MAX,
        ensures
            t == self.current_time_ms + self.frozen_end_ms,
    {
        self.current_time_ms + self.frozen_end_ms
    }

    /// Absolute end of the slushy zone.
    pub fn slushy_boundary(&self) -> (t: i64)
        requires
            i64::MIN <= self.current_time_ms + self.slushy_end_ms <= i64::MAX,
        ensures
            t == self.current_time_ms + self.slushy_end_ms,
    {
        self.current_time_ms + self.slushy_end_ms
    }
}

/// Zones never become more restricted further in the future, when the slushy
/// zone does not end before the frozen zone.
pub proof fn law_zones_ordered_in_time(c: TimeFenceConfig, t1: int, t2: int)
    requires
        c.frozen_end_ms <= c.slushy_end_ms,
        t1 <= t2,
    ensures
        zone_rank(zone_of(c, t1)) <= zone_rank(zone_of(c, t2)),
{
}

/// An instant is frozen exactly when it lies before the frozen boundary, and
/// liquid exactly when it lies at or after the slushy boundary (given the
/// slushy zone does not end before the frozen zone).
pub proof fn law_zone_boundaries(c: TimeFenceConfig, t: int)
    requires
        c.frozen_end_ms <= c.slushy_end_ms,
    ensures
        (zone_of(c, t) == FenceZone::Frozen) <==> t < c.current_time_ms + c.frozen_end_ms,
        (zone_of(c, t) == FenceZone::Liquid) <==> t >= c.current_time_ms + c.slushy_end_ms,
{
}

/// Kind of a fence violation.
#[derive(Debug, Clone)]
pub enum FenceViolationType {
    /// A change inside the frozen zone.
    FrozenModification,
    /// A change inside the slushy zone without approval.
    UnapprovedSlushyChange,
    /// An operation was removed.
    OperationDeleted,
    /// An operation was added.
    OperationAdded,
    /// The start of an operation moved.
    TimeChanged { old_start: i64, new_start: i64 },
    /// The resource of an operation changed.
    ResourceChanged { old: String, new: String },
}

/// Mathematical value of a violation kind.
pub enum FenceViolationTypeView {
    FrozenModification,
    UnapprovedSlushyChange,
    OperationDeleted,
    OperationAdded,
    TimeChanged { old_start: int, new_start: int },
    ResourceChanged { old: Seq<char>, new: Seq<char> },
}

/// A change that the fence forbids.
#[derive(Debug, Clone)]
pub struct FenceViolation {
    pub operation_id: String,
    pub zone: FenceZone,
    /// Where the violation is (the old start of the operation).
    pub time_ms: i64,
    pub violation_type: FenceViolationType,
}

/// Mathematical value of a fence violation.
pub struct FenceViolationView {
    pub operation_id: Seq<char>,
    pub zone: FenceZone,
    pub time_ms: int,
    pub violation_type: FenceViolationTypeView,
}

impl View for FenceViolation {
    type V = FenceViolationView;

    open spec fn view(&self) -> FenceViolationView {
        FenceViolationView {
            operation_id: self.operation_id@,
            zone: self.zone,
            time_ms: self.time_ms as int,
            violation_type: match self.violation_type {
                FenceViolationType::FrozenModification => FenceViolationTypeView::FrozenModification,
                FenceViolationType::UnapprovedSlushyChange => FenceViolationTypeView::UnapprovedSlushyChange,
                FenceViolationType::OperationDeleted => FenceViolationTypeView::OperationDeleted,
                FenceViolationType::OperationAdded => FenceViolationTypeView::OperationAdded,
                FenceViolationType::TimeChanged { old_start, new_start } =>
                    FenceViolationTypeView::TimeChanged { old_start: old_start as int, new_start: new_start as int },
                FenceViolationType::ResourceChanged { old, new } =>
                    FenceViolationTypeView::ResourceChanged { old: old@, new: new@ },
            },
        }
    }
}

/// Views of a sequence of fence violations.
pub open spec fn fence_violation_views(s: Seq<FenceViolation>) -> Seq<FenceViolationView> {
    s.map_values(|v: FenceViolation| v@)
}

/// Index of the first assignment of an operation, or the length when there is none.
pub open spec fn first_index_of_operation(s: Seq<AssignmentView>, operation_id: Seq<char>) -> int
    decreases s.len(),
{
    if s.len() == 0 {
        0
    } else if s[0].operation_id == operation_id {
        0
    } else {
        1 + first_index_of_operation(s.drop_first(), operation_id)
    }
}

/// The violations one old assignment causes, given the new assignments.
pub open spec fn fence_violations_of(c: TimeFenceConfig, old: AssignmentView, new: Seq<AssignmentView>) -> Seq<FenceViolationView> {
    let zone = zone_of(c, old.start_ms);
    let k = first_index_of_operation(new, old.operation_id);
    if zone != FenceZone::Frozen {
        Seq::empty()
    } else if k < new.len() {
        let n = new[k];
        let time_part = if old.start_ms != n.start_ms {
            seq![FenceViolationView {
                operation_id: old.operation_id,
                zone,
                time_ms: old.start_ms,
                violation_type: FenceViolationTypeView::TimeChanged { old_start: old.start_ms, new_start: n.start_ms },
            }]
        } else {
            Seq::empty()
        };
        let resource_part = if old.resource_id != n.resource_id {
            seq![FenceViolationView {
                operation_id: old.operation_id,
                zone,
                time_ms: old.start_ms,
                violation_type: FenceViolationTypeView::ResourceChanged { old: old.resource_id, new: n.resource_id },
            }]
        } else {
            Seq::empty()
        };
        time_part + resource_part
    } else {
        seq![FenceViolationView {
            operation_id: old.operation_id,
            zone,
            time_ms: old.start_ms,
            violation_type: FenceViolationTypeView::OperationDeleted,
        }]
    }
}

/// All fence violations of a change, old assignment by old assignment.
pub open spec fn fence_violations(c: TimeFenceConfig, old: Seq<AssignmentView>, new: Seq<AssignmentView>) -> Seq<FenceViolationView>
    decreases old.len(),
{
    if old.len() == 0 {
        Seq::empty()
    } else {
        fence_violations(c, old.drop_last(), new) + fence_violations_of(c, old.last(), new)
    }
}

/// Whether every assignment start of a schedule can be handled by the fence arithmetic.
pub open spec fn fence_handles_schedule(c: TimeFenceConfig, s: ScheduleView) -> bool {
    forall|i: int| 0 <= i < s.assignments.len() ==> #[trigger] c.handles(s.assignments[i].start_ms)
}

/// Checks schedule changes against a fence.
pub struct TimeFenceChecker {
    config: TimeFenceConfig,
}

impl TimeFenceChecker {
    /// The configuration the checker uses.
    pub closed spec fn config(&self) -> TimeFenceConfig {
        self.config
    }

    /// A checker for a fence configuration.
    pub fn new(config: TimeFenceConfig) -> (c: TimeFenceChecker)
        ensures
            c.config() == config,
    {
        TimeFenceChecker { config }
    }

    fn find_new(new: &Schedule, operation_id: &String) -> (k: usize)
        ensures
            k == first_index_of_operation(new@.assignments, operation_id@),
            k <= new@.assignments.len(),
    {
        let ghost s = new@.assignments;
        assert(s.skip(0) =~= s);
        let mut k: usize = 0;
        while k < new.assignments.len()
            invariant
                k <= new.assignments.len(),
                s == new@.assignments,
                first_index_of_operation(s, operation_id@) == k + first_index_of_operation(s.skip(k as int), operation_id@),
            decreases new.assignments.len() - k,
        {
            assert(s.skip(k as int)[0] == s[k as int]);
            if str_eq(new.assignments[k].operation_id.as_str(), operation_id.as_str()) {
                assert(new.assignments@[k as int]@ == s[k as int]);
                return k;
            }
            assert(s.skip(k as int).drop_first() =~= s.skip(k + 1));
            k += 1;
        }
        assert(s.skip(k as int).len() == 0);
        k
    }

    /// The forbidden changes from `old_schedule` to `new_schedule`: for each old
    /// assignment in the frozen zone, in order, a moved start, then a changed
    /// resource (compared with the first new assignment of the same operation),
    /// or its removal when the new schedule lacks the operation.
    pub fn check_schedule_change(&self, old_schedule: &Schedule, new_schedule: &Schedule) -> (v: Vec<FenceViolation>)
        requires
            fence_handles_schedule(self.config(), old_schedule@),
        ensures
            fence_violation_views(v@) == fence_violations(self.config(), old_schedule@.assignments, new_schedule@.assignments),
    {
        let ghost olds = old_schedule@.assignments;
        let ghost news = new_schedule@.assignments;
        let mut violations: Vec<FenceViolation> = Vec::new();
        let mut i: usize = 0;
        while i < old_schedule.assignments.len()
            invariant
                i <= old_schedule.assignments.len(),
                olds == old_schedule@.assignments,
                news == new_schedule@.assignments,
                fence_handles_schedule(self.config(), old_schedule@),
                fence_violation_views(violations@) == fence_violations(self.config(), olds.take(i as int), news),
            decreases old_schedule.assignments.len() - i,
        {
            let old_assign = &old_schedule.assignments[i];
            let ghost ov = olds[i as int];
            assert(old_assign@ == ov);
            assert(self.config.handles(olds[i as int].start_ms));
            let ghost before = fence_violation_views(violations@);
            let zone = self.config.get_zone(old_assign.start_ms);
            let k = Self::find_new(new_schedule, &old_assign.operation_id);
            if k < new_schedule.assignments.len() {
                let new_assign = &new_schedule.assignments[k];
                assert(new_assign@ == news[k as int]);
                if old_assign.start_ms != new_assign.start_ms && !zone.can_modify() {
                    violations.push(FenceViolation {
                        operation_id: old_assign.operation_id.clone(),
                        zone,
                        time_ms: old_assign.start_ms,
                        violation_type: FenceViolationType::TimeChanged {
                            old_start: old_assign.start_ms,
                            new_start: new_assign.start_ms,
                        },
                    });
                }
                let ghost mid = fence_violation_views(violations@);
                if !str_eq(old_assign.resource_id.as_str(), new_assign.resource_id.as_str()) && !zone.can_modify() {
                    violations.push(FenceViolation {
                        operation_id: old_assign.operation_id.clone(),
                        zone,
                        time_ms: old_assign.start_ms,
                        violation_type: FenceViolationType::ResourceChanged {
                            old: old_assign.resource_id.clone(),
                            new: new_assign.resource_id.clone(),
                        },
                    });
                }
            } else {
                if !zone.can_modify() {
                    violations.push(FenceViolation {
                        operation_id: old_assign.operation_id.clone(),
                        zone,
                        time_ms: old_assign.start_ms,
                        violation_type: FenceViolationType::OperationDeleted,
                    });
                }
            }
            assert(olds.take(i + 1).drop_last() =~= olds.take(i as int));
            assert(fence_violation_views(violations@) =~= before + fence_violations_of(self.config(), ov, news));
            i += 1;
        }
        assert(olds.take(old_schedule.assignments.len() as int) =~= olds);
        violations
    }

    /// The forbidden change of moving one operation from `old_start` to `new_start`:
    /// a moved start inside the frozen zone.
    pub fn check_single_change(&self, operation_id: &str, old_start: i64, new_start: i64) -> (v: Option<FenceViolation>)
        requires
            self.config().handles(old_start as int),
        ensures
            match v {
                Some(x) => x@ == (FenceViolationView {
                    operation_id: operation_id@,
                    zone: FenceZone::Frozen,
                    time_ms: old_start as int,
                    violation_type: FenceViolationTypeView::TimeChanged { old_start: old_start as int, new_start: new_start as int },
                }),
                None => true,
            },
            v is Some <==> (zone_of(self.config(), old_start as int) == FenceZone::Frozen && old_start != new_start),
    {
        let zone = self.config.get_zone(old_start);
        if !zone.can_modify() && old_start != new_start {
            Some(FenceViolation {
                operation_id: String::from_str(operation_id),
                zone,
                time_ms: old_start,
                violation_type: FenceViolationType::TimeChanged { old_start, new_start },
            })
        } else {
            None
        }
    }
}

/// Whether no two assignments belong to the same operation.
pub open spec fn distinct_operations(s: Seq<AssignmentView>) -> bool {
    forall|i: int, j: int| 0 <= i < s.len() && 0 <= j < s.len() && i != j
        ==> #[trigger] s[i].operation_id != #[trigger] s[j].operation_id
}

pub proof fn lemma_first_index_found(s: Seq<AssignmentView>, i: int)
    requires
        distinct_operations(s),
        0 <= i < s.len(),
    ensures
        first_index_of_operation(s, s[i].operation_id) == i,
    decreases s.len(),
{
    if i > 0 {
        let t = s.drop_first();
        assert(t[i - 1] == s[i]);
        assert(s[0].operation_id != s[i].operation_id);
        assert forall|a: int, b: int| 0 <= a < t.len() && 0 <= b < t.len() && a != b
            implies #[trigger] t[a].operation_id != #[trigger] t[b].operation_id by {
            assert(t[a] == s[a + 1]);
            assert(t[b] == s[b + 1]);
        }
        lemma_first_index_found(t, i - 1);
    }
}

/// A schedule whose operations each appear once, compared with itself, violates
/// no fence: every operation is found again with the same start and resource.
pub proof fn law_unchanged_schedule_no_fence_violation(c: TimeFenceConfig, s: Seq<AssignmentView>)
    requires
        distinct_operations(s),
    ensures
        fence_violations(c, s, s).len() == 0,
{
    lemma_unchanged_prefix(c, s, s.len() as int);
    assert(s.take(s.len() as int) =~= s);
}

proof fn lemma_unchanged_prefix(c: TimeFenceConfig, s: Seq<AssignmentView>, n: int)
    requires
        distinct_operations(s),
        0 <= n <= s.len(),
    ensures
        fence_violations(c, s.take(n), s).len() == 0,
    decreases n,
{
    if n > 0 {
        lemma_unchanged_prefix(c, s, n - 1);
        assert(s.take(n).drop_last() =~= s.take(n - 1));
        assert(s.take(n).last() == s[n - 1]);
        lemma_first_index_found(s, n - 1);
    }
}

} // verus!
