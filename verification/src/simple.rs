//! The list scheduler: jobs in priority order (or an order given), their
//! operations by sequence number, each placed as early as its job, its
//! resources, its daily window and its calendar allow; missed due dates are
//! recorded as violations.

use vstd::prelude::*;
use crate::constraint::{ConstraintType, Violation, ViolationView};
use crate::job::{Job, JobView, OperationView, Resource, ResourceView};
use crate::kpi::jobs_in_bound;
use crate::rescheduler::{assignments_in_bound, in_bound, max2};
use crate::schedule::{AssignmentView, Schedule, ScheduleView};
use crate::setup::{collection_setup, matrix_views, SetupMatrixCollection, SetupMatrixView};
use crate::strings::{find_last, find_last_text, lookup_last, lookup_last_text, str_eq};
use crate::text::int_text;
use crate::time_fence::first_index_of_operation;
use crate::validation::{job_views, resource_views, string_views};
use crate::calendar::{advance_to_daily_window, lemma_advance_not_before, Calendar, DailyWorkWindow};
use crate::campaign::{lemma_setup_bounded, setup_times_bounded};
use crate::job::{Operation, ResourceKind, ResourceType};
use crate::rescheduler::{contains_str, MAX_ASSIGNMENTS, TIME_BOUND};
use crate::schedule::Assignment;
use crate::task_splitter::{split_operation_by_calendar, SPLIT_DURATION_LIMIT};

verus! {

/// The list scheduler.
#[derive(Debug, Clone, Copy)]
pub struct SimpleScheduler;

impl Default for SimpleScheduler {
    fn default() -> (s: SimpleScheduler)
        ensures
            s == SimpleScheduler,
    {
        SimpleScheduler
    }
}

/// When a resource is next free: its recorded time, or 0.
pub open spec fn next_free(next_available: Seq<(String, i64)>, id: Seq<char>) -> int {
    match lookup_last(next_available, id) {
        Some(t) => t as int,
        None => 0,
    }
}

/// Whether a resource with this id exists.
pub open spec fn resource_known(resources: Seq<ResourceView>, id: Seq<char>) -> bool {
    exists|i: int| 0 <= i < resources.len() && #[trigger] resources[i].id == id
}

/// Whether candidate `k` is the one chosen: it exists, it is free before the
/// end of time, no existing candidate is free earlier, and it comes first among
/// those free as early.
pub open spec fn earliest_candidate(candidates: Seq<String>, resources: Seq<ResourceView>, next_available: Seq<(String, i64)>, k: int) -> bool {
    &&& 0 <= k < candidates.len()
    &&& resource_known(resources, candidates[k]@)
    &&& next_free(next_available, candidates[k]@) < i64::MAX
    &&& forall|j: int| 0 <= j < candidates.len() && #[trigger] resource_known(resources, candidates[j]@) ==> {
            ||| next_free(next_available, candidates[j]@) > next_free(next_available, candidates[k]@)
            ||| (next_free(next_available, candidates[j]@) == next_free(next_available, candidates[k]@) && k <= j)
        }
}

/// The end of the first assignment of an operation, if it is scheduled.
pub open spec fn first_end_of(s: Seq<AssignmentView>, op: Seq<char>) -> Option<int> {
    let k = first_index_of_operation(s, op);
    if 0 <= k < s.len() { Some(s[k].end_ms) } else { None }
}

/// The latest end of the scheduled operations of a job, if any is scheduled.
pub open spec fn job_end_time(s: Seq<AssignmentView>, ops: Seq<OperationView>) -> Option<int>
    decreases ops.len(),
{
    if ops.len() == 0 {
        None
    } else {
        let r = job_end_time(s, ops.drop_last());
        match first_end_of(s, ops.last().id) {
            Some(e) => Some(match r { Some(x) => max2(x, e), None => e }),
            None => r,
        }
    }
}

/// The violation recorded for a job that finished `delay` after its due date.
pub open spec fn due_violation(job_id: Seq<char>, delay: int) -> ViolationView {
    ViolationView {
        constraint_id: "DUE-"@ + job_id,
        constraint_type: ConstraintType::DueDate,
        target_id: job_id,
        amount: delay,
        message: "Job "@ + job_id + " is late by "@ + int_text(delay) + "ms"@,
    }
}

/// The violation of one job: one when it has a due date and its scheduled
/// operations end (or 0 when none is scheduled) after it, none otherwise.
pub open spec fn job_due_violations(s: Seq<AssignmentView>, j: JobView) -> Seq<ViolationView> {
    let end = match job_end_time(s, j.operations) { Some(e) => e, None => 0 };
    match j.due_date {
        Some(d) => if end > d { seq![due_violation(j.id, end - d)] } else { Seq::empty() },
        None => Seq::empty(),
    }
}

/// The due-date violations of the jobs, in job order.
pub open spec fn due_violations(s: Seq<AssignmentView>, jobs: Seq<JobView>) -> Seq<ViolationView>
    decreases jobs.len(),
{
    if jobs.len() == 0 {
        Seq::empty()
    } else {
        due_violations(s, jobs.drop_last()) + job_due_violations(s, jobs.last())
    }
}

proof fn lemma_first_index_in_range(s: Seq<AssignmentView>, op: Seq<char>)
    ensures
        0 <= first_index_of_operation(s, op) <= s.len(),
    decreases s.len(),
{
    if s.len() > 0 && s[0].operation_id != op {
        lemma_first_index_in_range(s.drop_first(), op);
    }
}

impl SimpleScheduler {
    /// A list scheduler.
    pub fn new() -> (s: SimpleScheduler)
        ensures
            s == SimpleScheduler,
    {
        SimpleScheduler
    }

    /// The existing candidate resource that is free first (the first listed among
    /// equals) with the time it is free, or no resource and `i64::MAX`.
    pub fn find_earliest_resource(&self, candidates: &[String], resources: &[Resource], next_available: &Vec<(String, i64)>) -> (r: (Option<String>, i64))
        ensures
            match r.0 {
                Some(id) => exists|k: int| earliest_candidate(candidates@, resource_views(resources@), next_available@, k)
                    && id@ == candidates@[k]@ && r.1 == next_free(next_available@, candidates@[k]@),
                None => r.1 == i64::MAX && forall|j: int| 0 <= j < candidates@.len()
                    && #[trigger] resource_known(resource_views(resources@), candidates@[j]@)
                    ==> next_free(next_available@, candidates@[j]@) == i64::MAX,
            },
    {
        let ghost rs = resource_views(resources@);
        let ghost cs = candidates@;
        let ghost na = next_available@;
        let mut best: Option<usize> = None;
        let mut best_time: i64 = i64::MAX;
        let mut i: usize = 0;
        while i < candidates.len()
            invariant
                i <= candidates.len(),
                rs == resource_views(resources@),
                cs == candidates@,
                na == next_available@,
                match best {
                    Some(b) => b < i && resource_known(rs, cs[b as int]@) && best_time == next_free(na, cs[b as int]@)
                        && best_time < i64::MAX
                        && forall|j: int| 0 <= j < i && #[trigger] resource_known(rs, cs[j]@) ==> {
                            ||| next_free(na, cs[j]@) > best_time
                            ||| (next_free(na, cs[j]@) == best_time && b <= j)
                        },
                    None => best_time == i64::MAX && forall|j: int| 0 <= j < i && #[trigger] resource_known(rs, cs[j]@)
                        ==> next_free(na, cs[j]@) == i64::MAX,
                },
            decreases candidates.len() - i,
        {
            let mut known = false;
            let mut k: usize = 0;
            while k < resources.len()
                invariant
                    k <= resources.len(),
                    rs == resource_views(resources@),
                    i < candidates.len(),
                    known ==> resource_known(rs, candidates@[i as int]@),
                    !known ==> forall|m: int| 0 <= m < k ==> #[trigger] rs[m].id != candidates@[i as int]@,
                decreases resources.len() - k,
            {
                assert(rs[k as int] == resources@[k as int]@);
                if str_eq(resources[k].id.as_str(), candidates[i].as_str()) {
                    assert(rs[k as int].id == candidates@[i as int]@);
                    known = true;
                }
                k += 1;
            }
            if known {
                let available = match find_last(next_available, candidates[i].as_str()) {
                    Some(t) => t,
                    None => 0,
                };
                if available < best_time {
                    best_time = available;
                    best = Some(i);
                }
            }
            i += 1;
        }
        match best {
            Some(b) => {
                assert(earliest_candidate(cs, rs, na, b as int));
                (Some(candidates[b].clone()), best_time)
            }
            None => (None, best_time),
        }
    }

    /// Records a due-date violation for every job with a due date whose
    /// scheduled operations end after it (a job with nothing scheduled ends at 0).
    pub fn check_due_dates(&self, schedule: &mut Schedule, jobs: &[Job])
        requires
            assignments_in_bound(old(schedule)@.assignments),
            jobs_in_bound(job_views(jobs@)),
        ensures
            final(schedule)@ == (ScheduleView {
                violations: old(schedule)@.violations + due_violations(old(schedule)@.assignments, job_views(jobs@)),
                ..old(schedule)@
            }),
    {
        let ghost s0 = schedule@;
        let ghost js = job_views(jobs@);
        let mut i: usize = 0;
        assert(js.take(0) =~= Seq::<JobView>::empty());
        assert(s0.violations + due_violations(s0.assignments, js.take(0)) =~= s0.violations);
        while i < jobs.len()
            invariant
                i <= jobs.len(),
                js == job_views(jobs@),
                js.len() == jobs.len(),
                jobs_in_bound(js),
                assignments_in_bound(s0.assignments),
                schedule@ == (ScheduleView {
                    violations: s0.violations + due_violations(s0.assignments, js.take(i as int)),
                    ..s0
                }),
            decreases jobs.len() - i,
        {
            assert(js.take(i + 1).drop_last() =~= js.take(i as int));
            assert(js[i as int] == jobs@[i as int]@);
            assert(js[i as int].due_date matches Some(d) ==> in_bound(d));
            self.record_due_date(schedule, &jobs[i]);
            assert(schedule@.violations =~= s0.violations + due_violations(s0.assignments, js.take(i + 1)));
            i += 1;
        }
        assert(js.take(jobs.len() as int) =~= js);
    }

    /// Records the due-date violation of one job, if it has one.
    fn record_due_date(&self, schedule: &mut Schedule, job: &Job)
        requires
            assignments_in_bound(old(schedule)@.assignments),
            job@.due_date matches Some(d) ==> in_bound(d),
        ensures
            final(schedule)@ == (ScheduleView {
                violations: old(schedule)@.violations + job_due_violations(old(schedule)@.assignments, job@),
                ..old(schedule)@
            }),
    {
        let ghost s0 = schedule@;
        match job.due_date {
            Some(due_ms) => {
                let ghost ops = job@.operations;
                let mut end: Option<i64> = None;
                let mut k: usize = 0;
                assert(ops.take(0) =~= Seq::<OperationView>::empty());
                while k < job.operations.len()
                    invariant
                        k <= job.operations.len(),
                        ops == job@.operations,
                        ops.len() == job.operations.len(),
                        schedule@ == s0,
                        assignments_in_bound(s0.assignments),
                        match end {
                            Some(e) => job_end_time(s0.assignments, ops.take(k as int)) == Some(e as int) && in_bound(e as int),
                            None => job_end_time(s0.assignments, ops.take(k as int)) is None,
                        },
                    decreases job.operations.len() - k,
                {
                    assert(ops.take(k + 1).drop_last() =~= ops.take(k as int));
                    assert(ops[k as int] == job.operations@[k as int]@);
                    proof {
                        lemma_first_index_in_range(s0.assignments, ops[k as int].id);
                    }
                    match schedule.assignment_for_operation(job.operations[k].id.as_str()) {
                        Some(a) => {
                            proof {
                                let idx = choose|idx: int| 0 <= idx < schedule@.assignments.len()
                                    && #[trigger] schedule@.assignments[idx] == a@
                                    && schedule@.assignments[idx].operation_id == job.operations@[k as int].id@
                                    && forall|j: int| 0 <= j < idx ==> schedule@.assignments[j].operation_id != job.operations@[k as int].id@;
                                lemma_first_index_is(s0.assignments, ops[k as int].id, idx);
                                assert(in_bound(s0.assignments[idx].start_ms));
                                assert(in_bound(s0.assignments[idx].end_ms));
                            }
                            end = Some(match end {
                                Some(x) => if x >= a.end_ms { x } else { a.end_ms },
                                None => a.end_ms,
                            });
                        }
                        None => {
                            proof {
                                lemma_first_index_absent(s0.assignments, ops[k as int].id);
                            }
                        }
                    }
                    k += 1;
                }
                assert(ops.take(ops.len() as int) =~= ops);
                let job_end: i64 = match end {
                    Some(e) => e,
                    None => 0,
                };
                if job_end > due_ms {
                    let delay = job_end - due_ms;
                    schedule.add_violation(Violation::due_date_violation(job.id.as_str(), delay));
                    assert(schedule@.violations =~= s0.violations + job_due_violations(s0.assignments, job@));
                } else {
                    assert(s0.violations + job_due_violations(s0.assignments, job@) =~= s0.violations);
                }
            }
            None => {
                assert(s0.violations + job_due_violations(s0.assignments, job@) =~= s0.violations);
            }
        }
    }
}

proof fn lemma_first_index_is(s: Seq<AssignmentView>, op: Seq<char>, idx: int)
    requires
        0 <= idx < s.len(),
        s[idx].operation_id == op,
        forall|j: int| 0 <= j < idx ==> s[j].operation_id != op,
    ensures
        first_index_of_operation(s, op) == idx,
    decreases idx,
{
    if idx > 0 {
        let t = s.drop_first();
        assert forall|j: int| 0 <= j < idx - 1 implies t[j].operation_id != op by {
            assert(t[j] == s[j + 1]);
        }
        assert(s[0].operation_id != op);
        lemma_first_index_is(t, op, idx - 1);
    }
}

proof fn lemma_first_index_absent(s: Seq<AssignmentView>, op: Seq<char>)
    requires
        forall|j: int| 0 <= j < s.len() ==> #[trigger] s[j].operation_id != op,
    ensures
        first_index_of_operation(s, op) == s.len(),
    decreases s.len(),
{
    if s.len() > 0 {
        let t = s.drop_first();
        assert forall|j: int| 0 <= j < t.len() implies #[trigger] t[j].operation_id != op by {
            assert(t[j] == s[j + 1]);
        }
        assert(s[0].operation_id != op);
        lemma_first_index_absent(t, op);
    }
}

/// The efficiency (thousandths) of the first resource with this id, 0 when none has it.
pub open spec fn first_efficiency(resources: Seq<ResourceView>, id: Seq<char>) -> int
    decreases resources.len(),
{
    if resources.len() == 0 {
        0
    } else if resources[0].id == id {
        resources[0].efficiency_milli
    } else {
        first_efficiency(resources.drop_first(), id)
    }
}

/// Setup time of a resource before the current product, after the product it
/// ran last; none without a current product.
pub open spec fn candidate_setup(ms: Seq<SetupMatrixView>, last_product: Seq<(String, String)>, id: Seq<char>, current: Option<Seq<char>>) -> int {
    match current {
        Some(c) => collection_setup(ms, id, lookup_last_text(last_product, id), c),
        None => 0,
    }
}

/// When a resource would be ready to process: when it is free, plus its setup.
pub open spec fn ready_after_setup(next_available: Seq<(String, i64)>, ms: Seq<SetupMatrixView>, last_product: Seq<(String, String)>, id: Seq<char>, current: Option<Seq<char>>) -> int {
    next_free(next_available, id) + candidate_setup(ms, last_product, id, current)
}

/// Whether finishing setup at `c1` with efficiency `e1` beats `c2` with `e2`:
/// earlier, or as early with a higher efficiency.
pub open spec fn preferred(c1: int, e1: int, c2: int, e2: int) -> bool {
    c1 < c2 || (c1 == c2 && e1 > e2)
}

/// Whether candidate `k` is the one chosen with setup times: it exists, it beats
/// the end of time with efficiency 0, no existing candidate beats it, and it beats
/// every existing candidate listed before it.
pub open spec fn best_with_setup(
    candidates: Seq<String>,
    resources: Seq<ResourceView>,
    next_available: Seq<(String, i64)>,
    last_product: Seq<(String, String)>,
    ms: Seq<SetupMatrixView>,
    current: Option<Seq<char>>,
    k: int,
) -> bool {
    let ck = ready_after_setup(next_available, ms, last_product, candidates[k]@, current);
    let ek = first_efficiency(resources, candidates[k]@);
    &&& 0 <= k < candidates.len()
    &&& resource_known(resources, candidates[k]@)
    &&& preferred(ck, ek, i64::MAX as int, 0)
    &&& forall|j: int| 0 <= j < candidates.len() && #[trigger] resource_known(resources, candidates[j]@) ==> {
            &&& !preferred(ready_after_setup(next_available, ms, last_product, candidates[j]@, current),
                    first_efficiency(resources, candidates[j]@), ck, ek)
            &&& (j < k ==> preferred(ck, ek, ready_after_setup(next_available, ms, last_product, candidates[j]@, current),
                    first_efficiency(resources, candidates[j]@)))
        }
}

impl SimpleScheduler {
    /// The existing candidate resource that is ready first once its setup for
    /// the current product is done (after the product it ran last), a higher
    /// efficiency breaking ties and the first listed among equals; with the time
    /// it is free, its setup time and its efficiency. Without one: no resource,
    /// `i64::MAX`, 0 and 0.
    pub fn find_earliest_resource_with_setup(
        &self,
        candidates: &[String],
        resources: &[Resource],
        next_available: &Vec<(String, i64)>,
        last_product: &Vec<(String, String)>,
        setup_matrices: &SetupMatrixCollection,
        current_product: Option<&str>,
    ) -> (r: (Option<String>, i64, i64, i64))
        requires
            forall|j: int| 0 <= j < candidates@.len() && #[trigger] resource_known(resource_views(resources@), candidates@[j]@)
                ==> i64::MIN <= ready_after_setup(next_available@, matrix_views(setup_matrices.matrices@), last_product@,
                    candidates@[j]@, crate::setup::opt_str_view(current_product)) <= i64::MAX,
        ensures
            match r.0 {
                Some(id) => exists|k: int| best_with_setup(candidates@, resource_views(resources@), next_available@, last_product@,
                        matrix_views(setup_matrices.matrices@), crate::setup::opt_str_view(current_product), k)
                    && id@ == candidates@[k]@
                    && r.1 == next_free(next_available@, candidates@[k]@)
                    && r.2 == candidate_setup(matrix_views(setup_matrices.matrices@), last_product@, candidates@[k]@,
                        crate::setup::opt_str_view(current_product))
                    && r.3 == first_efficiency(resource_views(resources@), candidates@[k]@),
                None => r.1 == i64::MAX && r.2 == 0 && r.3 == 0
                    && forall|j: int| 0 <= j < candidates@.len() && #[trigger] resource_known(resource_views(resources@), candidates@[j]@)
                        ==> !preferred(ready_after_setup(next_available@, matrix_views(setup_matrices.matrices@), last_product@,
                                candidates@[j]@, crate::setup::opt_str_view(current_product)),
                            first_efficiency(resource_views(resources@), candidates@[j]@), i64::MAX as int, 0),
            },
    {
        let ghost rs = resource_views(resources@);
        let ghost cs = candidates@;
        let ghost na = next_available@;
        let ghost lp = last_product@;
        let ghost ms = matrix_views(setup_matrices.matrices@);
        let ghost cur = crate::setup::opt_str_view(current_product);
        let mut best: Option<usize> = None;
        let mut best_available: i64 = i64::MAX;
        let mut best_setup: i64 = 0;
        let mut best_efficiency: i64 = 0;
        let mut best_completion: i64 = i64::MAX;
        let mut i: usize = 0;
        while i < candidates.len()
            invariant
                i <= candidates.len(),
                rs == resource_views(resources@),
                cs == candidates@,
                na == next_available@,
                lp == last_product@,
                ms == matrix_views(setup_matrices.matrices@),
                cur == crate::setup::opt_str_view(current_product),
                forall|j: int| 0 <= j < cs.len() && #[trigger] resource_known(rs, cs[j]@)
                    ==> i64::MIN <= ready_after_setup(na, ms, lp, cs[j]@, cur) <= i64::MAX,
                match best {
                    Some(b) => b < i && resource_known(rs, cs[b as int]@)
                        && best_completion == ready_after_setup(na, ms, lp, cs[b as int]@, cur)
                        && best_efficiency == first_efficiency(rs, cs[b as int]@)
                        && best_available == next_free(na, cs[b as int]@)
                        && best_setup == candidate_setup(ms, lp, cs[b as int]@, cur)
                        && preferred(best_completion as int, best_efficiency as int, i64::MAX as int, 0)
                        && forall|j: int| 0 <= j < i && #[trigger] resource_known(rs, cs[j]@) ==> {
                            &&& !preferred(ready_after_setup(na, ms, lp, cs[j]@, cur), first_efficiency(rs, cs[j]@),
                                    best_completion as int, best_efficiency as int)
                            &&& (j < b ==> preferred(best_completion as int, best_efficiency as int,
                                    ready_after_setup(na, ms, lp, cs[j]@, cur), first_efficiency(rs, cs[j]@)))
                        },
                    None => best_completion == i64::MAX && best_efficiency == 0 && best_available == i64::MAX && best_setup == 0
                        && forall|j: int| 0 <= j < i && #[trigger] resource_known(rs, cs[j]@)
                            ==> !preferred(ready_after_setup(na, ms, lp, cs[j]@, cur), first_efficiency(rs, cs[j]@), i64::MAX as int, 0),
                },
            decreases candidates.len() - i,
        {
            let id = candidates[i].as_str();
            let mut known = false;
            let mut efficiency: i64 = 0;
            let mut k: usize = 0;
            assert(rs.skip(0) =~= rs);
            while k < resources.len() && !known
                invariant
                    k <= resources.len(),
                    rs == resource_views(resources@),
                    i < cs.len(),
                    id@ == cs[i as int]@,
                    known ==> resource_known(rs, id@) && efficiency == first_efficiency(rs, id@),
                    !known ==> first_efficiency(rs, id@) == first_efficiency(rs.skip(k as int), id@)
                        && forall|m: int| 0 <= m < k ==> #[trigger] rs[m].id != id@,
                decreases resources.len() - k,
            {
                assert(rs[k as int] == resources@[k as int]@);
                assert(rs.skip(k as int)[0] == rs[k as int]);
                assert(rs.skip(k as int).drop_first() =~= rs.skip(k + 1));
                if str_eq(resources[k].id.as_str(), id) {
                    assert(rs[k as int].id == id@);
                    known = true;
                    efficiency = resources[k].efficiency_milli;
                }
                k += 1;
            }
            proof {
                if !known {
                    assert(k == resources.len());
                    assert forall|m: int| 0 <= m < rs.len() implies #[trigger] rs[m].id != id@ by {}
                }
            }
            if known {
                let available = match find_last(next_available, id) {
                    Some(t) => t,
                    None => 0,
                };
                let prev = find_last_text(last_product, id);
                assert(crate::setup::opt_str_view(prev) == lookup_last_text(lp, id@));
                let setup = match current_product {
                    Some(curr) => setup_matrices.get_setup_time(id, prev, curr),
                    None => 0,
                };
                assert(setup as int == candidate_setup(ms, lp, id@, cur));
                assert(i64::MIN <= ready_after_setup(na, ms, lp, cs[i as int]@, cur) <= i64::MAX);
                let completion = available + setup;
                if completion < best_completion || (completion == best_completion && efficiency > best_efficiency) {
                    best = Some(i);
                    best_available = available;
                    best_setup = setup;
                    best_efficiency = efficiency;
                    best_completion = completion;
                }
            } else {
                assert(!resource_known(rs, cs[i as int]@));
            }
            i += 1;
        }
        match best {
            Some(b) => {
                assert(best_with_setup(cs, rs, na, lp, ms, cur, b as int));
                (Some(candidates[b].clone()), best_available, best_setup, best_efficiency)
            }
            None => (None, best_available, best_setup, best_efficiency),
        }
    }
}

/// Whether index `a` comes before index `b`: a smaller key, or an equal key and
/// a smaller index.
pub open spec fn key_precedes(keys: Seq<int>, a: int, b: int) -> bool {
    keys[a] < keys[b] || (keys[a] == keys[b] && a < b)
}

/// Whether `order` lists the indices of `keys` by key, equal keys in index
/// order: as many entries as keys, each an index, each before the next (so each
/// index once).
pub open spec fn stably_sorted(keys: Seq<int>, order: Seq<usize>) -> bool {
    &&& order.len() == keys.len()
    &&& forall|k: int| 0 <= k < order.len() ==> (#[trigger] order[k]) < keys.len()
    &&& forall|k: int, l: int| 0 <= k < l < order.len()
        ==> key_precedes(keys, #[trigger] order[k] as int, #[trigger] order[l] as int)
}

/// The priorities of the jobs.
pub open spec fn job_priorities(jobs: Seq<JobView>) -> Seq<int> {
    jobs.map_values(|j: JobView| j.priority)
}

/// The sequence numbers of the operations.
pub open spec fn operation_sequences(ops: Seq<OperationView>) -> Seq<int> {
    ops.map_values(|o: OperationView| o.sequence)
}

/// The jobs taken in an order of their indices.
pub open spec fn ordered_jobs(jobs: Seq<JobView>, order: Seq<usize>) -> Seq<JobView> {
    order.map_values(|i: usize| jobs[i as int])
}

/// Whether no two of the jobs share an id.
pub open spec fn job_ids_distinct(jobs: Seq<JobView>) -> bool {
    forall|p: int, q: int| 0 <= p < q < jobs.len() ==> (#[trigger] jobs[p]).id != (#[trigger] jobs[q]).id
}

/// The indices of `keys` by key, equal keys in index order.
fn stable_order(keys: &Vec<i64>) -> (order: Vec<usize>)
    ensures
        stably_sorted(keys@.map_values(|k: i64| k as int), order@),
{
    let ghost ks = keys@.map_values(|k: i64| k as int);
    let mut order: Vec<usize> = Vec::new();
    let mut i: usize = 0;
    while i < keys.len()
        invariant
            i <= keys.len(),
            ks == keys@.map_values(|k: i64| k as int),
            order.len() == i,
            forall|k: int| 0 <= k < order.len() ==> (#[trigger] order@[k]) < i,
            forall|k: int, l: int| 0 <= k < l < order.len()
                ==> key_precedes(ks, #[trigger] order@[k] as int, #[trigger] order@[l] as int),
        decreases keys.len() - i,
    {
        let key = keys[i];
        let mut pos: usize = 0;
        while pos < order.len() && keys[order[pos]] <= key
            invariant
                i < keys.len(),
                pos <= order.len(),
                order.len() == i,
                ks == keys@.map_values(|k: i64| k as int),
                forall|k: int| 0 <= k < order.len() ==> (#[trigger] order@[k]) < i,
                forall|k: int| 0 <= k < pos ==> ks[#[trigger] order@[k] as int] <= key,
            decreases order.len() - pos,
        {
            assert(order@[pos as int] < i);
            assert(ks[order@[pos as int] as int] == keys@[order@[pos as int] as int]);
            pos += 1;
        }
        let ghost before = order@;
        proof {
            if pos < order.len() {
                assert(before[pos as int] < i);
                assert(ks[before[pos as int] as int] == keys@[before[pos as int] as int]);
            }
            assert forall|m: int| pos <= m < before.len() implies ks[#[trigger] before[m] as int] > key by {
                if m > pos {
                    assert(key_precedes(ks, before[pos as int] as int, before[m] as int));
                }
            }
            assert(ks[i as int] == key);
        }
        order.insert(pos, i);
        proof {
            assert forall|k: int| 0 <= k < order.len() implies (#[trigger] order@[k]) < i + 1 by {
                if k < pos { assert(order@[k] == before[k]); }
                else if k > pos { assert(order@[k] == before[k - 1]); }
            }
            assert forall|k: int, l: int| 0 <= k < l < order.len()
                implies key_precedes(ks, #[trigger] order@[k] as int, #[trigger] order@[l] as int) by {
                if l < pos {
                    assert(order@[k] == before[k] && order@[l] == before[l]);
                } else if l == pos {
                    assert(order@[k] == before[k] && order@[l] == i);
                } else if k < pos {
                    assert(order@[k] == before[k] && order@[l] == before[l - 1]);
                } else if k == pos {
                    assert(order@[k] == i && order@[l] == before[l - 1]);
                    assert(ks[before[l - 1] as int] > key);
                } else {
                    assert(order@[k] == before[k - 1] && order@[l] == before[l - 1]);
                }
            }
        }
        i += 1;
    }
    order
}

/// The order in which jobs are taken: by priority (a lower value first), equal
/// priorities in the order given.
pub fn priority_order(jobs: &[Job]) -> (order: Vec<usize>)
    ensures
        stably_sorted(job_priorities(job_views(jobs@)), order@),
{
    let mut keys: Vec<i64> = Vec::new();
    let mut i: usize = 0;
    while i < jobs.len()
        invariant
            i <= jobs.len(),
            keys.len() == i,
            forall|k: int| 0 <= k < i ==> #[trigger] keys@[k] as int == job_views(jobs@)[k].priority,
        decreases jobs.len() - i,
    {
        keys.push(jobs[i].priority as i64);
        i += 1;
    }
    assert(keys@.map_values(|k: i64| k as int) =~= job_priorities(job_views(jobs@)));
    stable_order(&keys)
}

/// The order in which a job's operations are taken: by sequence number, equal
/// numbers in the order given.
fn sequence_order(ops: &Vec<Operation>) -> (order: Vec<usize>)
    ensures
        stably_sorted(operation_sequences(crate::validation::operation_views(ops@)), order@),
{
    let mut keys: Vec<i64> = Vec::new();
    let mut i: usize = 0;
    while i < ops.len()
        invariant
            i <= ops.len(),
            keys.len() == i,
            forall|k: int| 0 <= k < i ==> #[trigger] keys@[k] as int == crate::validation::operation_views(ops@)[k].sequence,
        decreases ops.len() - i,
    {
        keys.push(ops[i].sequence as i64);
        i += 1;
    }
    assert(keys@.map_values(|k: i64| k as int) =~= operation_sequences(crate::validation::operation_views(ops@)));
    stable_order(&keys)
}

/// What the list scheduler is given: the jobs and resources, when scheduling
/// starts, the setup matrices and the calendars the resources refer to.
pub struct ScheduleRequest {
    pub jobs: Vec<Job>,
    pub resources: Vec<Resource>,
    pub start_time_ms: i64,
    pub setup_matrices: SetupMatrixCollection,
    pub calendars: Vec<Calendar>,
}

impl ScheduleRequest {
    /// A request starting at 0, without setup matrices or calendars.
    pub fn new(jobs: Vec<Job>, resources: Vec<Resource>) -> (r: ScheduleRequest)
        ensures
            r.jobs@ == jobs@,
            r.resources@ == resources@,
            r.start_time_ms == 0,
            r.setup_matrices.matrices@.len() == 0,
            r.calendars@.len() == 0,
    {
        ScheduleRequest { jobs, resources, start_time_ms: 0, setup_matrices: SetupMatrixCollection::new(), calendars: Vec::new() }
    }

    /// The request starting at another time.
    pub fn with_start_time(self, start_time_ms: i64) -> (r: ScheduleRequest)
        ensures
            r == (ScheduleRequest { start_time_ms, ..self }),
    {
        ScheduleRequest { start_time_ms, ..self }
    }

    /// The request with these setup matrices.
    pub fn with_setup_matrices(self, matrices: SetupMatrixCollection) -> (r: ScheduleRequest)
        ensures
            r == (ScheduleRequest { setup_matrices: matrices, ..self }),
    {
        ScheduleRequest { setup_matrices: matrices, ..self }
    }

    /// The request with these calendars.
    pub fn with_calendars(self, calendars: Vec<Calendar>) -> (r: ScheduleRequest)
        ensures
            r == (ScheduleRequest { calendars, ..self }),
    {
        ScheduleRequest { calendars, ..self }
    }

    /// The request with one more calendar.
    pub fn with_calendar(self, calendar: Calendar) -> (r: ScheduleRequest)
        ensures
            r.calendars@ == self.calendars@.push(calendar),
            r.jobs == self.jobs,
            r.resources == self.resources,
            r.start_time_ms == self.start_time_ms,
            r.setup_matrices == self.setup_matrices,
    {
        let mut r = self;
        r.calendars.push(calendar);
        r
    }

    /// Whether the request is one the scheduler handles: its calendars and the
    /// daily windows of its operations are well formed, its setup times, start
    /// time and due dates lie within the time bound, and it has at most
    /// `MAX_ASSIGNMENTS` jobs.
    pub open spec fn valid(&self) -> bool {
        &&& forall|c: int| 0 <= c < self.calendars@.len() ==> (#[trigger] self.calendars@[c]).well_formed()
        &&& forall|j: int, k: int| 0 <= j < self.jobs@.len() && 0 <= k < self.jobs@[j].operations@.len()
            ==> match (#[trigger] self.jobs@[j].operations@[k]).daily_work_window {
                Some(w) => w.well_formed(),
                None => true,
            }
        &&& setup_times_bounded(matrix_views(self.setup_matrices.matrices@))
        &&& in_bound(self.start_time_ms as int)
        &&& jobs_in_bound(job_views(self.jobs@))
    }
}

/// Whether two assignments on one resource (other than "NONE") of different
/// operations never overlap: the earlier recorded ends before the later starts.
pub open spec fn resources_sequenced(a: Seq<AssignmentView>) -> bool {
    forall|i: int, j: int| 0 <= i < j < a.len()
        && (#[trigger] a[i]).resource_id == (#[trigger] a[j]).resource_id
        && a[i].resource_id != "NONE"@
        && (a[i].operation_id != a[j].operation_id || a[i].job_id != a[j].job_id)
        ==> a[i].end_ms <= a[j].start_ms
}

/// Whether the operations of each job follow one another: of two assignments
/// of a job for different operations, the earlier recorded ends before the
/// later starts.
pub open spec fn jobs_sequenced(a: Seq<AssignmentView>) -> bool {
    forall|i: int, j: int| 0 <= i < j < a.len()
        && (#[trigger] a[i]).job_id == (#[trigger] a[j]).job_id
        && a[i].operation_id != a[j].operation_id
        ==> a[i].end_ms <= a[j].start_ms
}

/// Whether every recorded assignment on a resource ends no later than the time
/// the resource is recorded free.
spec fn tracked_free(a: Seq<AssignmentView>, na: Seq<(String, i64)>) -> bool {
    forall|i: int| 0 <= i < a.len() && (#[trigger] a[i]).resource_id != "NONE"@
        ==> a[i].end_ms <= next_free(na, a[i].resource_id)
}

/// Whether every recorded free time lies within the time bound.
spec fn free_times_in_bound(na: Seq<(String, i64)>) -> bool {
    forall|k: int| 0 <= k < na.len() ==> in_bound((#[trigger] na[k]).1 as int)
}

/// Whether `t` is the request start, 0, or the end of one of the assignments.
pub open spec fn start_or_end(t: int, t0: int, a: Seq<AssignmentView>) -> bool {
    t == t0 || t == 0 || exists|j: int| 0 <= j < a.len() && (#[trigger] a[j]).end_ms == t
}

/// Whether each assignment starts at the request start, at 0, or at the end of
/// an earlier assignment: no time is left idle without a cause.
pub open spec fn starts_without_idle(a: Seq<AssignmentView>, t0: int) -> bool {
    forall|i: int| 0 <= i < a.len() ==> {
        ||| (#[trigger] a[i]).start_ms == t0
        ||| a[i].start_ms == 0
        ||| exists|j: int| 0 <= j < i && a[j].end_ms == a[i].start_ms
    }
}

/// Whether every recorded free time is the request start, 0, or the end of an
/// assignment.
spec fn free_times_from(na: Seq<(String, i64)>, t0: int, a: Seq<AssignmentView>) -> bool {
    forall|key: Seq<char>| #![trigger next_free(na, key)] start_or_end(next_free(na, key), t0, a)
}

/// Whether no operation of the request has a daily window.
pub open spec fn no_daily_windows(jobs: Seq<Job>) -> bool {
    forall|j: int, k: int| 0 <= j < jobs.len() && 0 <= k < jobs[j].operations@.len()
        ==> (#[trigger] jobs[j].operations@[k]).daily_work_window is None
}

proof fn lemma_next_free_initial(na: Seq<(String, i64)>, t0: i64, id: Seq<char>)
    requires
        forall|k: int| 0 <= k < na.len() ==> (#[trigger] na[k]).1 == t0,
    ensures
        next_free(na, id) == t0 || next_free(na, id) == 0,
    decreases na.len(),
{
    if na.len() > 0 && na.last().0@ != id {
        assert forall|k: int| 0 <= k < na.drop_last().len() implies (#[trigger] na.drop_last()[k]).1 == t0 by {
            assert(na.drop_last()[k] == na[k]);
        }
        lemma_next_free_initial(na.drop_last(), t0, id);
    } else if na.len() > 0 {
        assert(na.last() == na[na.len() - 1]);
    }
}

proof fn lemma_next_free_bound(na: Seq<(String, i64)>, id: Seq<char>)
    requires
        free_times_in_bound(na),
    ensures
        in_bound(next_free(na, id)),
    decreases na.len(),
{
    if na.len() > 0 && na.last().0@ != id {
        assert forall|k: int| 0 <= k < na.drop_last().len() implies in_bound((#[trigger] na.drop_last()[k]).1 as int) by {
            assert(na.drop_last()[k] == na[k]);
        }
        lemma_next_free_bound(na.drop_last(), id);
    } else if na.len() > 0 {
        assert(na.last() == na[na.len() - 1]);
    }
}

proof fn lemma_next_free_push(na: Seq<(String, i64)>, key: String, t: i64, id: Seq<char>)
    ensures
        next_free(na.push((key, t)), id) == if key@ == id { t as int } else { next_free(na, id) },
{
    assert(na.push((key, t)).drop_last() =~= na);
}

/// When a resource is next free, computed.
fn free_time_of(na: &Vec<(String, i64)>, id: &str) -> (t: i64)
    ensures
        t == next_free(na@, id@),
{
    match find_last(na, id) {
        Some(t) => t,
        None => 0,
    }
}

/// Whether a resource with this id exists, computed.
fn resource_exists(resources: &Vec<Resource>, id: &str) -> (b: bool)
    ensures
        b == resource_known(resource_views(resources@), id@),
{
    let ghost rs = resource_views(resources@);
    let mut k: usize = 0;
    while k < resources.len()
        invariant
            k <= resources.len(),
            rs == resource_views(resources@),
            forall|m: int| 0 <= m < k ==> #[trigger] rs[m].id != id@,
        decreases resources.len() - k,
    {
        assert(rs[k as int] == resources@[k as int]@);
        if str_eq(resources[k].id.as_str(), id) {
            assert(rs[k as int].id == id@);
            return true;
        }
        k += 1;
    }
    false
}

/// Whether some resource with this id is equipment.
fn is_equipment(resources: &Vec<Resource>, id: &str) -> (b: bool)
    ensures
        b == exists|m: int| 0 <= m < resources@.len() && (#[trigger] resources@[m]).id@ == id@
            && resources@[m].kind == ResourceKind::Equipment,
{
    let mut k: usize = 0;
    while k < resources.len()
        invariant
            k <= resources.len(),
            forall|m: int| 0 <= m < k ==> !((#[trigger] resources@[m]).id@ == id@ && resources@[m].kind == ResourceKind::Equipment),
        decreases resources.len() - k,
    {
        if str_eq(resources[k].id.as_str(), id) && matches!(resources[k].kind, ResourceKind::Equipment) {
            assert(resources@[k as int].id@ == id@);
            return true;
        }
        k += 1;
    }
    false
}

/// Whether a resource with this id is a worker.
pub open spec fn is_worker(rs: Seq<ResourceView>, id: Seq<char>) -> bool {
    exists|m: int| 0 <= m < rs.len() && (#[trigger] rs[m]).id == id && rs[m].kind == ResourceKind::Worker
}

/// Whether the resources held include `quantity` distinct workers, or every
/// worker there is.
pub open spec fn workers_held(rs: Seq<ResourceView>, quantity: nat, held: Set<Seq<char>>) -> bool {
    ||| exists|got: Seq<Seq<char>>| got.no_duplicates() && got.len() == quantity
        && forall|g: int| 0 <= g < got.len() ==> is_worker(rs, #[trigger] got[g]) && held.contains(got[g])
    ||| forall|id: Seq<char>| #![trigger is_worker(rs, id)] is_worker(rs, id) ==> held.contains(id)
}

/// Whether the resources held include `quantity` of the listed candidates that
/// name a resource (taken at distinct positions of the list), or every listed
/// candidate that names one.
pub open spec fn candidates_held(rs: Seq<ResourceView>, quantity: nat, cands: Seq<Seq<char>>, held: Set<Seq<char>>) -> bool {
    ||| exists|idx: Seq<int>| idx.len() == quantity
        && (forall|g: int, h: int| 0 <= g < h < idx.len() ==> #[trigger] idx[g] < #[trigger] idx[h])
        && forall|g: int| 0 <= g < idx.len() ==> 0 <= #[trigger] idx[g] < cands.len()
            && resource_known(rs, cands[idx[g]]) && held.contains(cands[idx[g]])
    ||| forall|c: int| 0 <= c < cands.len() && resource_known(rs, #[trigger] cands[c]) ==> held.contains(cands[c])
}

proof fn lemma_candidates_held_grows(rs: Seq<ResourceView>, quantity: nat, cands: Seq<Seq<char>>, h1: Set<Seq<char>>, h2: Set<Seq<char>>)
    requires
        candidates_held(rs, quantity, cands, h1),
        forall|x: Seq<char>| #[trigger] h1.contains(x) ==> h2.contains(x),
    ensures
        candidates_held(rs, quantity, cands, h2),
{
    if exists|idx: Seq<int>| idx.len() == quantity
        && (forall|g: int, h: int| 0 <= g < h < idx.len() ==> #[trigger] idx[g] < #[trigger] idx[h])
        && forall|g: int| 0 <= g < idx.len() ==> 0 <= #[trigger] idx[g] < cands.len()
            && resource_known(rs, cands[idx[g]]) && h1.contains(cands[idx[g]]) {
        let idx = choose|idx: Seq<int>| idx.len() == quantity
            && (forall|g: int, h: int| 0 <= g < h < idx.len() ==> #[trigger] idx[g] < #[trigger] idx[h])
            && forall|g: int| 0 <= g < idx.len() ==> 0 <= #[trigger] idx[g] < cands.len()
                && resource_known(rs, cands[idx[g]]) && h1.contains(cands[idx[g]]);
        assert forall|g: int| 0 <= g < idx.len() implies 0 <= #[trigger] idx[g] < cands.len()
            && resource_known(rs, cands[idx[g]]) && h2.contains(cands[idx[g]]) by {
            assert(h1.contains(cands[idx[g]]));
        }
    } else {
        assert forall|c: int| 0 <= c < cands.len() && resource_known(rs, #[trigger] cands[c]) implies h2.contains(cands[c]) by {
            assert(h1.contains(cands[c]));
        }
    }
}

/// The resources of the assignments from position `from` on.
pub open spec fn held_resources(a: Seq<AssignmentView>, from: int) -> Set<Seq<char>> {
    Set::new(|r: Seq<char>| exists|i: int| from <= i < a.len() && (#[trigger] a[i]).resource_id == r)
}

/// The resources of the assignments of an operation of a job.
pub open spec fn ids_held(a: Seq<AssignmentView>, job_id: Seq<char>, op_id: Seq<char>) -> Set<Seq<char>> {
    Set::new(|r: Seq<char>| exists|i: int| 0 <= i < a.len() && (#[trigger] a[i]).job_id == job_id
        && a[i].operation_id == op_id && a[i].resource_id == r)
}

/// Whether an operation of a job that needs an operator holds, for each worker
/// requirement without candidates, as many distinct workers as required (or
/// every worker there is), and for each with candidates, as many of its
/// candidates that name a resource (or all of them).
pub open spec fn workers_ok(a: Seq<AssignmentView>, rs: Seq<ResourceView>, job_id: Seq<char>, o: OperationView) -> bool {
    o.requires_operator ==> forall|q: int| 0 <= q < o.required_resources.len()
        && (#[trigger] o.required_resources[q]).resource_type == ResourceType::Worker
        ==> if o.required_resources[q].candidates.len() == 0 {
            workers_held(rs, o.required_resources[q].quantity, ids_held(a, job_id, o.id))
        } else {
            candidates_held(rs, o.required_resources[q].quantity, o.required_resources[q].candidates, ids_held(a, job_id, o.id))
        }
}

proof fn lemma_workers_ok_grows(a1: Seq<AssignmentView>, a2: Seq<AssignmentView>, rs: Seq<ResourceView>, job_id: Seq<char>, o: OperationView)
    requires
        workers_ok(a1, rs, job_id, o),
        a1.len() <= a2.len(),
        forall|i: int| 0 <= i < a1.len() ==> #[trigger] a2[i] == a1[i],
    ensures
        workers_ok(a2, rs, job_id, o),
{
    assert forall|x: Seq<char>| #[trigger] ids_held(a1, job_id, o.id).contains(x) implies ids_held(a2, job_id, o.id).contains(x) by {
        let i = choose|i: int| 0 <= i < a1.len() && (#[trigger] a1[i]).job_id == job_id
            && a1[i].operation_id == o.id && a1[i].resource_id == x;
        assert(a2[i] == a1[i]);
    }
    if o.requires_operator {
        assert forall|q: int| 0 <= q < o.required_resources.len()
            && (#[trigger] o.required_resources[q]).resource_type == ResourceType::Worker
            implies (if o.required_resources[q].candidates.len() == 0 {
                workers_held(rs, o.required_resources[q].quantity, ids_held(a2, job_id, o.id))
            } else {
                candidates_held(rs, o.required_resources[q].quantity, o.required_resources[q].candidates, ids_held(a2, job_id, o.id))
            }) by {
            if o.required_resources[q].candidates.len() == 0 {
                lemma_workers_held_grows(rs, o.required_resources[q].quantity, ids_held(a1, job_id, o.id), ids_held(a2, job_id, o.id));
            } else {
                lemma_candidates_held_grows(rs, o.required_resources[q].quantity, o.required_resources[q].candidates,
                    ids_held(a1, job_id, o.id), ids_held(a2, job_id, o.id));
            }
        }
    }
}

proof fn lemma_workers_held_grows(rs: Seq<ResourceView>, quantity: nat, h1: Set<Seq<char>>, h2: Set<Seq<char>>)
    requires
        workers_held(rs, quantity, h1),
        forall|x: Seq<char>| #[trigger] h1.contains(x) ==> h2.contains(x),
    ensures
        workers_held(rs, quantity, h2),
{
    if exists|got: Seq<Seq<char>>| got.no_duplicates() && got.len() == quantity
        && forall|g: int| 0 <= g < got.len() ==> is_worker(rs, #[trigger] got[g]) && h1.contains(got[g]) {
        let got = choose|got: Seq<Seq<char>>| got.no_duplicates() && got.len() == quantity
            && forall|g: int| 0 <= g < got.len() ==> is_worker(rs, #[trigger] got[g]) && h1.contains(got[g]);
        assert forall|g: int| 0 <= g < got.len() implies is_worker(rs, #[trigger] got[g]) && h2.contains(got[g]) by {
            assert(h1.contains(got[g]));
        }
    } else {
        assert forall|id: Seq<char>| #![trigger is_worker(rs, id)] is_worker(rs, id) implies h2.contains(id) by {
            assert(h1.contains(id));
        }
    }
}

proof fn lemma_push_keeps(v: Seq<String>, x: String)
    ensures
        forall|y: Seq<char>| #[trigger] string_views(v).contains(y) ==> string_views(v.push(x)).contains(y),
        string_views(v.push(x)).contains(x@),
{
    assert forall|y: Seq<char>| #[trigger] string_views(v).contains(y) implies string_views(v.push(x)).contains(y) by {
        let i = choose|i: int| 0 <= i < string_views(v).len() && string_views(v)[i] == y;
        assert(string_views(v.push(x))[i] == y);
    }
    assert(string_views(v.push(x))[v.len() as int] == x@);
}

/// The workers with when each is free, by that time, equals in resource order.
fn free_workers(resources: &Vec<Resource>, na: &Vec<(String, i64)>) -> (pool: Vec<(String, i64)>)
    ensures
        forall|c: int| 0 <= c < pool.len() ==> (#[trigger] pool@[c]).1 == next_free(na@, pool@[c].0@),
        forall|c: int| 0 <= c < pool.len() ==> is_worker(resource_views(resources@), (#[trigger] pool@[c]).0@),
        forall|id: Seq<char>| #![trigger is_worker(resource_views(resources@), id)] is_worker(resource_views(resources@), id)
            ==> exists|c: int| 0 <= c < pool.len() && (#[trigger] pool@[c]).0@ == id,
{
    let ghost rs = resource_views(resources@);
    let mut pool: Vec<(String, i64)> = Vec::new();
    let mut k: usize = 0;
    while k < resources.len()
        invariant
            k <= resources.len(),
            rs == resource_views(resources@),
            forall|c: int| 0 <= c < pool.len() ==> (#[trigger] pool@[c]).1 == next_free(na@, pool@[c].0@),
            forall|c: int| 0 <= c < pool.len() ==> is_worker(rs, (#[trigger] pool@[c]).0@),
            forall|m: int| 0 <= m < k && (#[trigger] rs[m]).kind == ResourceKind::Worker
                ==> exists|c: int| 0 <= c < pool.len() && (#[trigger] pool@[c]).0@ == rs[m].id,
        decreases resources.len() - k,
    {
        assert(rs[k as int] == resources@[k as int]@);
        if matches!(resources[k].kind, ResourceKind::Worker) {
            let t = free_time_of(na, resources[k].id.as_str());
            let mut pos: usize = 0;
            while pos < pool.len() && pool[pos].1 <= t
                invariant
                    pos <= pool.len(),
                decreases pool.len() - pos,
            {
                pos += 1;
            }
            let ghost before = pool@;
            pool.insert(pos, (resources[k].id.clone(), t));
            assert forall|c: int| 0 <= c < pool.len() implies (#[trigger] pool@[c]).1 == next_free(na@, pool@[c].0@) by {
                if c < pos { assert(pool@[c] == before[c]); }
                else if c > pos { assert(pool@[c] == before[c - 1]); }
            }
            assert forall|c: int| 0 <= c < pool.len() implies is_worker(rs, (#[trigger] pool@[c]).0@) by {
                if c < pos { assert(pool@[c] == before[c]); }
                else if c > pos { assert(pool@[c] == before[c - 1]); }
                else { assert(rs[k as int].id == pool@[c].0@); }
            }
            assert forall|m: int| 0 <= m < k + 1 && (#[trigger] rs[m]).kind == ResourceKind::Worker
                implies exists|c: int| 0 <= c < pool.len() && (#[trigger] pool@[c]).0@ == rs[m].id by {
                if m == k {
                    assert(pool@[pos as int].0@ == rs[m].id);
                } else {
                    let c = choose|c: int| 0 <= c < before.len() && (#[trigger] before[c]).0@ == rs[m].id;
                    if c < pos { assert(pool@[c] == before[c]); } else { assert(pool@[c + 1] == before[c]); }
                }
            }
        }
        k += 1;
    }
    assert forall|id: Seq<char>| #![trigger is_worker(rs, id)] is_worker(rs, id)
        implies exists|c: int| 0 <= c < pool.len() && (#[trigger] pool@[c]).0@ == id by {
        let m = choose|m: int| 0 <= m < rs.len() && (#[trigger] rs[m]).id == id && rs[m].kind == ResourceKind::Worker;
    }
    pool
}

/// Pairs of a resource and the resource linked to it, for the resources that
/// have one, in resource order.
fn linked_pairs(resources: &Vec<Resource>) -> (r: Vec<(String, String)>) {
    let mut out: Vec<(String, String)> = Vec::new();
    let mut k: usize = 0;
    while k < resources.len()
        decreases resources.len() - k,
    {
        match &resources[k].linked_resource_id {
            Some(l) => out.push((resources[k].id.clone(), l.clone())),
            None => {},
        }
        k += 1;
    }
    out
}

/// Pairs of a resource and its site, for the resources that have one.
fn site_pairs(resources: &Vec<Resource>) -> (r: Vec<(String, String)>) {
    let mut out: Vec<(String, String)> = Vec::new();
    let mut k: usize = 0;
    while k < resources.len()
        decreases resources.len() - k,
    {
        match &resources[k].site_id {
            Some(s) => out.push((resources[k].id.clone(), s.clone())),
            None => {},
        }
        k += 1;
    }
    out
}

/// Pairs of a resource and the index of its calendar (the last calendar with
/// the id it names), for the resources whose calendar is listed.
fn calendar_pairs(resources: &Vec<Resource>, calendars: &Vec<Calendar>) -> (r: Vec<(String, i64)>) {
    let mut out: Vec<(String, i64)> = Vec::new();
    let mut k: usize = 0;
    while k < resources.len()
        decreases resources.len() - k,
    {
        match &resources[k].calendar_id {
            Some(cid) => {
                let mut c: usize = calendars.len();
                let mut found: Option<usize> = None;
                while c > 0 && found.is_none()
                    invariant
                        c <= calendars.len(),
                    decreases c,
                {
                    c -= 1;
                    if str_eq(calendars[c].id.as_str(), cid.as_str()) {
                        found = Some(c);
                    }
                }
                match found {
                    Some(ci) => {
                        if ci < 0x1000_0000 {
                            out.push((resources[k].id.clone(), ci as i64));
                        }
                    },
                    None => {},
                }
            },
            None => {},
        }
        k += 1;
    }
    out
}

/// The text of an optional string.
fn opt_as_str(o: &Option<String>) -> (r: Option<&str>)
    ensures
        crate::setup::opt_str_view(r) == match o { Some(s) => Some(s@), None => None::<Seq<char>> },
{
    match o {
        Some(s) => Some(s.as_str()),
        None => None,
    }
}

/// The maps the scheduler looks resources up in.
struct ResourceMaps {
    linked: Vec<(String, String)>,
    sites: Vec<(String, String)>,
    calendar_of: Vec<(String, i64)>,
}

/// Whether an operation's daily window, if any, is well formed.
spec fn op_window_ok(op: &Operation) -> bool {
    match op.daily_work_window {
        Some(w) => w.well_formed(),
        None => true,
    }
}

impl SimpleScheduler {
    /// Places one operation of a job that may start at `job_time`: on the
    /// earliest equipment after setup and the workers it needs, once all of them
    /// (and the resources linked to them) are free, moved into its daily window
    /// and the working time of the first resource's calendar; then splits it and
    /// records an assignment per resource. Without resources it only advances
    /// time, under the first calendar. Returns when the job's next operation may
    /// start, or nothing, with nothing recorded, when the operation would leave
    /// the time bound.
    #[verifier::rlimit(100)]
    fn schedule_operation(
        &self,
        request: &ScheduleRequest,
        job: &Job,
        op: &Operation,
        job_time: i64,
        maps: &ResourceMaps,
        schedule: &mut Schedule,
        next_available: &mut Vec<(String, i64)>,
        last_product: &mut Vec<(String, String)>,
    ) -> (r: Option<i64>)
        requires
            request.valid(),
            op_window_ok(op),
            in_bound(job_time as int),
            free_times_in_bound(old(next_available)@),
            assignments_in_bound(old(schedule)@.assignments),
            resources_sequenced(old(schedule)@.assignments),
            tracked_free(old(schedule)@.assignments, old(next_available)@),
            free_times_from(old(next_available)@, request.start_time_ms as int, old(schedule)@.assignments),
            start_or_end(job_time as int, request.start_time_ms as int, old(schedule)@.assignments),
        ensures
            free_times_from(final(next_available)@, request.start_time_ms as int, final(schedule)@.assignments),
            op@.daily_work_window is None && request.calendars@.len() == 0 ==> forall|i: int|
                old(schedule)@.assignments.len() <= i < final(schedule)@.assignments.len()
                ==> start_or_end((#[trigger] final(schedule)@.assignments[i]).start_ms, request.start_time_ms as int,
                    old(schedule)@.assignments),
            free_times_in_bound(final(next_available)@),
            assignments_in_bound(final(schedule)@.assignments),
            resources_sequenced(final(schedule)@.assignments),
            tracked_free(final(schedule)@.assignments, final(next_available)@),
            final(schedule)@.violations == old(schedule)@.violations,
            old(schedule)@.assignments.len() <= final(schedule)@.assignments.len(),
            forall|i: int| 0 <= i < old(schedule)@.assignments.len()
                ==> #[trigger] final(schedule)@.assignments[i] == old(schedule)@.assignments[i],
            forall|i: int| old(schedule)@.assignments.len() <= i < final(schedule)@.assignments.len() ==> {
                &&& (#[trigger] final(schedule)@.assignments[i]).job_id == job@.id
                &&& final(schedule)@.assignments[i].operation_id == op@.id
                &&& job_time <= final(schedule)@.assignments[i].start_ms <= final(schedule)@.assignments[i].end_ms
            },
            r is Some ==> old(schedule)@.assignments.len() < final(schedule)@.assignments.len(),
            r is Some && op@.requires_operator ==> forall|q: int| 0 <= q < op@.required_resources.len()
                && (#[trigger] op@.required_resources[q]).resource_type == ResourceType::Worker
                && op@.required_resources[q].candidates.len() == 0
                ==> workers_held(resource_views(request.resources@), op@.required_resources[q].quantity,
                    held_resources(final(schedule)@.assignments, old(schedule)@.assignments.len() as int)),
            r is Some && op@.requires_operator ==> forall|q: int| 0 <= q < op@.required_resources.len()
                && (#[trigger] op@.required_resources[q]).resource_type == ResourceType::Worker
                && op@.required_resources[q].candidates.len() > 0
                ==> candidates_held(resource_views(request.resources@), op@.required_resources[q].quantity,
                    op@.required_resources[q].candidates,
                    held_resources(final(schedule)@.assignments, old(schedule)@.assignments.len() as int)),
            forall|i: int| old(schedule)@.assignments.len() <= i < final(schedule)@.assignments.len()
                && (#[trigger] final(schedule)@.assignments[i]).resource_id != "NONE"@
                ==> next_free(old(next_available)@, final(schedule)@.assignments[i].resource_id)
                    <= final(schedule)@.assignments[i].start_ms,
            r matches Some(t) ==> final(schedule)@.assignments[old(schedule)@.assignments.len() as int].end_ms == t,
            match r {
                Some(t) => in_bound(t as int) && job_time <= t && forall|i: int|
                    old(schedule)@.assignments.len() <= i < final(schedule)@.assignments.len()
                    ==> (#[trigger] final(schedule)@.assignments[i]).end_ms <= t,
                None => final(schedule)@.assignments == old(schedule)@.assignments,
            },
    {
        let ghost a0 = schedule@.assignments;
        let ghost na0 = next_available@;
        let ghost ms = matrix_views(request.setup_matrices.matrices@);
        let ghost t0 = request.start_time_ms as int;
        let ghost rs = resource_views(request.resources@);
        let ghost reqs = op@.required_resources;
        let mut allocated: Vec<String> = Vec::new();
        let mut workers: Vec<String> = Vec::new();
        let mut latest: i64 = job_time;
        let mut matrix_setup: i64 = 0;
        let mut efficiency: i64 = 1000;
        let product = opt_as_str(&job.product_name);
        // 1. the equipment that is ready first after its setup
        let mut q: usize = 0;
        let mut equipment: Option<usize> = None;
        while q < op.required_resources.len() && equipment.is_none()
            invariant
                equipment matches Some(e) ==> e < op.required_resources.len(),
            decreases op.required_resources.len() - q,
        {
            if matches!(op.required_resources[q].resource_type, ResourceType::Equipment) {
                equipment = Some(q);
            }
            q += 1;
        }
        match equipment {
            Some(e) => {
                let req = &op.required_resources[e];
                let mut candidates: Vec<String> = Vec::new();
                let mut c: usize = 0;
                while c < req.candidates.len()
                    decreases req.candidates.len() - c,
                {
                    let keep = match &job.target_site_id {
                        Some(ts) => match find_last_text(&maps.sites, req.candidates[c].as_str()) {
                            Some(site) => str_eq(site, ts.as_str()),
                            None => true,
                        },
                        None => true,
                    };
                    if keep {
                        candidates.push(req.candidates[c].clone());
                    }
                    c += 1;
                }
                proof {
                    assert forall|j: int| 0 <= j < candidates@.len()
                        && #[trigger] resource_known(resource_views(request.resources@), candidates@[j]@)
                        implies i64::MIN <= ready_after_setup(next_available@, ms, last_product@, candidates@[j]@,
                            crate::setup::opt_str_view(product)) <= i64::MAX by {
                        lemma_next_free_bound(next_available@, candidates@[j]@);
                        match crate::setup::opt_str_view(product) {
                            Some(cur) => lemma_setup_bounded(ms, candidates@[j]@,
                                lookup_last_text(last_product@, candidates@[j]@), cur),
                            None => {},
                        }
                    }
                }
                let (rid, avail, setup, eff) = self.find_earliest_resource_with_setup(
                    candidates.as_slice(), request.resources.as_slice(), next_available, last_product,
                    &request.setup_matrices, product);
                match rid {
                    Some(id) => {
                        proof {
                            lemma_next_free_bound(next_available@, id@);
                            match crate::setup::opt_str_view(product) {
                                Some(cur) => lemma_setup_bounded(ms, id@, lookup_last_text(last_product@, id@), cur),
                                None => {},
                            }
                        }
                        assert(start_or_end(next_free(next_available@, id@), t0, a0));
                        if avail > latest {
                            latest = avail;
                        }
                        allocated.push(id);
                        matrix_setup = setup;
                        efficiency = eff;
                    },
                    None => {},
                }
            },
            None => {},
        }
        // 2. the workers, each dedicated to the operation
        if op.requires_operator {
            let mut w: usize = 0;
            while w < op.required_resources.len()
                invariant
                    next_available@ == na0,
                    free_times_in_bound(na0),
                    in_bound(latest as int),
                    job_time <= latest,
                    in_bound(matrix_setup as int),
                    forall|m: int| 0 <= m < allocated.len() ==> next_free(na0, #[trigger] allocated@[m]@) <= latest,
                    free_times_from(na0, t0, a0),
                    start_or_end(latest as int, t0, a0),
                    w <= op.required_resources.len(),
                    rs == resource_views(request.resources@),
                    reqs == op@.required_resources,
                    forall|q: int| 0 <= q < w && (#[trigger] reqs[q]).resource_type == ResourceType::Worker
                        && reqs[q].candidates.len() == 0
                        ==> workers_held(rs, reqs[q].quantity, string_views(allocated@).to_set()),
                    forall|q: int| 0 <= q < w && (#[trigger] reqs[q]).resource_type == ResourceType::Worker
                        && reqs[q].candidates.len() > 0
                        ==> candidates_held(rs, reqs[q].quantity, reqs[q].candidates, string_views(allocated@).to_set()),
                decreases op.required_resources.len() - w,
            {
                let req = &op.required_resources[w];
                assert(reqs[w as int] == req@);
                if matches!(req.resource_type, ResourceType::Worker) {
                    let mut assigned: u32 = 0;
                    if req.candidates.len() > 0 {
                        let ghost mut idx: Seq<int> = Seq::empty();
                        let mut c: usize = 0;
                        while c < req.candidates.len() && assigned < req.quantity
                            invariant
                                next_available@ == na0,
                                free_times_in_bound(na0),
                                in_bound(latest as int),
                                job_time <= latest,
                                forall|m: int| 0 <= m < allocated.len() ==> next_free(na0, #[trigger] allocated@[m]@) <= latest,
                                free_times_from(na0, t0, a0),
                                start_or_end(latest as int, t0, a0),
                                forall|q: int| 0 <= q < w && (#[trigger] reqs[q]).resource_type == ResourceType::Worker
                                    && reqs[q].candidates.len() == 0
                                    ==> workers_held(rs, reqs[q].quantity, string_views(allocated@).to_set()),
                                forall|q: int| 0 <= q < w && (#[trigger] reqs[q]).resource_type == ResourceType::Worker
                        && reqs[q].candidates.len() > 0
                        ==> candidates_held(rs, reqs[q].quantity, reqs[q].candidates, string_views(allocated@).to_set()),
                                rs == resource_views(request.resources@),
                                reqs[w as int] == req@,
                                c <= req.candidates.len(),
                                assigned <= req.quantity,
                                idx.len() == assigned,
                                forall|g: int, h: int| 0 <= g < h < idx.len() ==> #[trigger] idx[g] < #[trigger] idx[h],
                                forall|g: int| 0 <= g < idx.len() ==> 0 <= #[trigger] idx[g] < c
                                    && resource_known(rs, req@.candidates[idx[g]])
                                    && string_views(allocated@).to_set().contains(req@.candidates[idx[g]]),
                                forall|x: int| 0 <= x < c && resource_known(rs, #[trigger] req@.candidates[x])
                                    ==> string_views(allocated@).to_set().contains(req@.candidates[x]),
                            decreases req.candidates.len() - c,
                        {
                            if resource_exists(&request.resources, req.candidates[c].as_str()) {
                                let t = free_time_of(next_available, req.candidates[c].as_str());
                                proof {
                                    lemma_next_free_bound(na0, req.candidates@[c as int]@);
                                    assert(start_or_end(next_free(na0, req.candidates@[c as int]@), t0, a0));
                                }
                                if t > latest {
                                    latest = t;
                                }
                                let ghost before = allocated@;
                                allocated.push(req.candidates[c].clone());
                                proof {
                                    lemma_push_keeps(before, allocated@.last());
                                    assert(allocated@ == before.push(allocated@.last()));
                                    assert(allocated@.last()@ == req@.candidates[c as int]);
                                    assert forall|q: int| 0 <= q < w && (#[trigger] reqs[q]).resource_type == ResourceType::Worker
                                        && reqs[q].candidates.len() == 0
                                        implies workers_held(rs, reqs[q].quantity, string_views(allocated@).to_set()) by {
                                        lemma_workers_held_grows(rs, reqs[q].quantity, string_views(before).to_set(), string_views(allocated@).to_set());
                                    }
                                    assert forall|q: int| 0 <= q < w && (#[trigger] reqs[q]).resource_type == ResourceType::Worker
                                        && reqs[q].candidates.len() > 0
                                        implies candidates_held(rs, reqs[q].quantity, reqs[q].candidates, string_views(allocated@).to_set()) by {
                                        lemma_candidates_held_grows(rs, reqs[q].quantity, reqs[q].candidates,
                                            string_views(before).to_set(), string_views(allocated@).to_set());
                                    }
                                    let old_idx = idx;
                                    idx = idx.push(c as int);
                                    assert forall|g: int| 0 <= g < idx.len() implies 0 <= #[trigger] idx[g] < c + 1
                                        && resource_known(rs, req@.candidates[idx[g]])
                                        && string_views(allocated@).to_set().contains(req@.candidates[idx[g]]) by {
                                        if g < old_idx.len() {
                                            assert(idx[g] == old_idx[g]);
                                            assert(string_views(before).contains(req@.candidates[old_idx[g]]));
                                        }
                                    }
                                    assert forall|g: int, h: int| 0 <= g < h < idx.len() implies #[trigger] idx[g] < #[trigger] idx[h] by {
                                        if h < old_idx.len() {
                                            assert(idx[g] == old_idx[g] && idx[h] == old_idx[h]);
                                        } else {
                                            assert(idx[g] == old_idx[g]);
                                        }
                                    }
                                    assert forall|x: int| 0 <= x < c + 1 && resource_known(rs, #[trigger] req@.candidates[x])
                                        implies string_views(allocated@).to_set().contains(req@.candidates[x]) by {
                                        if x < c {
                                            assert(string_views(before).contains(req@.candidates[x]));
                                        }
                                    }
                                }
                                workers.push(req.candidates[c].clone());
                                assigned += 1;
                            }
                            c += 1;
                        }
                        proof {
                            if assigned == req.quantity {
                                assert(idx.len() == req@.quantity);
                            }
                            assert(candidates_held(rs, req@.quantity, req@.candidates, string_views(allocated@).to_set()));
                        }
                    } else {
                        let ghost mut got: Seq<Seq<char>> = Seq::empty();
                        let pool = free_workers(&request.resources, next_available);
                        let mut c: usize = 0;
                        while c < pool.len() && assigned < req.quantity
                            invariant
                                next_available@ == na0,
                                free_times_in_bound(na0),
                                in_bound(latest as int),
                                job_time <= latest,
                                forall|x: int| 0 <= x < pool.len() ==> (#[trigger] pool@[x]).1 == next_free(na0, pool@[x].0@),
                                forall|m: int| 0 <= m < allocated.len() ==> next_free(na0, #[trigger] allocated@[m]@) <= latest,
                                free_times_from(na0, t0, a0),
                                start_or_end(latest as int, t0, a0),
                                c <= pool.len(),
                                assigned <= req.quantity,
                                forall|x: int| 0 <= x < pool.len() ==> is_worker(rs, (#[trigger] pool@[x]).0@),
                                forall|id: Seq<char>| #![trigger is_worker(rs, id)] is_worker(rs, id)
                                    ==> exists|x: int| 0 <= x < pool.len() && (#[trigger] pool@[x]).0@ == id,
                                forall|x: int| 0 <= x < c ==> string_views(allocated@).contains((#[trigger] pool@[x]).0@),
                                got.no_duplicates(),
                                got.len() == assigned,
                                forall|g: int| 0 <= g < got.len() ==> is_worker(rs, #[trigger] got[g])
                                    && string_views(allocated@).contains(got[g]),
                                forall|q: int| 0 <= q < w && (#[trigger] reqs[q]).resource_type == ResourceType::Worker
                                    && reqs[q].candidates.len() == 0
                                    ==> workers_held(rs, reqs[q].quantity, string_views(allocated@).to_set()),
                                forall|q: int| 0 <= q < w && (#[trigger] reqs[q]).resource_type == ResourceType::Worker
                        && reqs[q].candidates.len() > 0
                        ==> candidates_held(rs, reqs[q].quantity, reqs[q].candidates, string_views(allocated@).to_set()),
                            decreases pool.len() - c,
                        {
                            if !contains_str(&allocated, pool[c].0.as_str()) {
                                proof {
                                    lemma_next_free_bound(na0, pool@[c as int].0@);
                                    assert(start_or_end(next_free(na0, pool@[c as int].0@), t0, a0));
                                }
                                if pool[c].1 > latest {
                                    latest = pool[c].1;
                                }
                                let ghost before = allocated@;
                                let ghost g = pool@[c as int].0@;
                                allocated.push(pool[c].0.clone());
                                proof {
                                    lemma_push_keeps(before, allocated@.last());
                                    assert(allocated@ == before.push(allocated@.last()));
                                    assert(allocated@.last()@ == g);
                                    assert forall|q: int| 0 <= q < w && (#[trigger] reqs[q]).resource_type == ResourceType::Worker
                                        && reqs[q].candidates.len() == 0
                                        implies workers_held(rs, reqs[q].quantity, string_views(allocated@).to_set()) by {
                                        lemma_workers_held_grows(rs, reqs[q].quantity, string_views(before).to_set(), string_views(allocated@).to_set());
                                    }
                                    assert forall|q: int| 0 <= q < w && (#[trigger] reqs[q]).resource_type == ResourceType::Worker
                                        && reqs[q].candidates.len() > 0
                                        implies candidates_held(rs, reqs[q].quantity, reqs[q].candidates, string_views(allocated@).to_set()) by {
                                        lemma_candidates_held_grows(rs, reqs[q].quantity, reqs[q].candidates,
                                            string_views(before).to_set(), string_views(allocated@).to_set());
                                    }
                                    assert(!got.contains(g)) by {
                                        if got.contains(g) {
                                            let i = choose|i: int| 0 <= i < got.len() && got[i] == g;
                                            assert(string_views(before).contains(got[i]));
                                        }
                                    }
                                    let old_got = got;
                                    got = got.push(g);
                                    assert forall|g2: int| 0 <= g2 < got.len() implies is_worker(rs, #[trigger] got[g2])
                                        && string_views(allocated@).contains(got[g2]) by {
                                        if g2 < old_got.len() {
                                            assert(got[g2] == old_got[g2]);
                                        }
                                    }
                                    assert forall|i: int, j: int| 0 <= i < got.len() && 0 <= j < got.len() && i != j
                                        implies got[i] != got[j] by {
                                        if i < old_got.len() && j < old_got.len() {
                                            assert(got[i] == old_got[i] && got[j] == old_got[j]);
                                        } else if i < old_got.len() {
                                            assert(got[i] == old_got[i]);
                                            assert(old_got.contains(old_got[i]));
                                        } else {
                                            assert(got[j] == old_got[j]);
                                            assert(old_got.contains(old_got[j]));
                                        }
                                    }
                                }
                                workers.push(pool[c].0.clone());
                                assigned += 1;
                            }
                            c += 1;
                        }
                        proof {
                            if assigned < req.quantity {
                                assert forall|id: Seq<char>| #![trigger is_worker(rs, id)] is_worker(rs, id)
                                    implies string_views(allocated@).contains(id) by {
                                    let x = choose|x: int| 0 <= x < pool.len() && (#[trigger] pool@[x]).0@ == id;
                                }
                            }
                            assert(workers_held(rs, req@.quantity, string_views(allocated@).to_set()));
                        }
                    }
                }
                w += 1;
            }
        }
        let ghost alloc_views = string_views(allocated@).to_set();
        assert(op@.requires_operator ==> forall|q: int| 0 <= q < reqs.len()
            && (#[trigger] reqs[q]).resource_type == ResourceType::Worker && reqs[q].candidates.len() == 0
            ==> workers_held(rs, reqs[q].quantity, alloc_views));
        assert(op@.requires_operator ==> forall|q: int| 0 <= q < reqs.len()
            && (#[trigger] reqs[q]).resource_type == ResourceType::Worker && reqs[q].candidates.len() > 0
            ==> candidates_held(rs, reqs[q].quantity, reqs[q].candidates, alloc_views));
        // 3. the resources linked to those allocated are taken along
        let mut linked_ids: Vec<String> = Vec::new();
        let mut x: usize = 0;
        while x < allocated.len()
            invariant
                next_available@ == na0,
                free_times_in_bound(na0),
                in_bound(latest as int),
                job_time <= latest,
                forall|m: int| 0 <= m < allocated.len() ==> next_free(na0, #[trigger] allocated@[m]@) <= latest,
                forall|m: int| 0 <= m < linked_ids.len() ==> next_free(na0, #[trigger] linked_ids@[m]@) <= latest,
                free_times_from(na0, t0, a0),
                start_or_end(latest as int, t0, a0),
            decreases allocated.len() - x,
        {
            match find_last_text(&maps.linked, allocated[x].as_str()) {
                Some(l) => {
                    let t = free_time_of(next_available, l);
                    proof {
                        lemma_next_free_bound(na0, l@);
                        assert(start_or_end(next_free(na0, l@), t0, a0));
                    }
                    if t > latest {
                        latest = t;
                    }
                    linked_ids.push(l.to_owned());
                },
                None => {},
            }
            x += 1;
        }
        let window = op.daily_work_window;
        let op_setup = op.time.setup_ms;
        let process = op.time.process_ms;
        let wait = op.time.wait_ms;
        let limit: i64 = SPLIT_DURATION_LIMIT;
        if process < -limit || process > limit || wait < -limit || wait > limit || op_setup < -limit || op_setup > limit {
            return None;
        }
        if allocated.len() > 0 {
            // 4. start: the daily window, then the primary resource's calendar
            let after_window = match window {
                Some(w) => {
                    proof { lemma_advance_not_before(latest as int, w); }
                    advance_to_daily_window(latest, w)
                },
                None => latest,
            };
            let cal_idx: Option<usize> = match find_last(&maps.calendar_of, allocated[0].as_str()) {
                Some(ci) => if 0 <= ci && ci < 0x1000_0000 && (ci as usize) < request.calendars.len() { Some(ci as usize) } else { None },
                None => None,
            };
            let start: i64 = match cal_idx {
                Some(ci) => {
                    let cs = request.calendars[ci].next_working_time(after_window);
                    match window {
                        Some(w) => {
                            proof { lemma_advance_not_before(cs as int, w); }
                            advance_to_daily_window(cs, w)
                        },
                        None => cs,
                    }
                },
                None => after_window,
            };
            if efficiency <= 0 || start > TIME_BOUND {
                return None;
            }
            let adjusted: i64 = process * 1000 / efficiency;
            let process_time: i64 = adjusted + wait;
            let effective_setup: i64 = if op_setup >= matrix_setup { op_setup } else { matrix_setup };
            if process_time < -limit || process_time > limit || effective_setup < -limit || effective_setup > limit {
                return None;
            }
            let calendar: Option<&Calendar> = match cal_idx {
                Some(ci) => Some(&request.calendars[ci]),
                None => None,
            };
            let split = split_operation_by_calendar(op.id.as_str(), job.id.as_str(), product, start,
                effective_setup, process_time, op.is_splittable, calendar, window);
            // the end: under a daily window the end of the last piece; under a
            // calendar alone where working time from the start covers the work
            let end: i64 = if window.is_some() {
                split.final_end_ms
            } else if cal_idx.is_some() {
                split_operation_by_calendar(op.id.as_str(), job.id.as_str(), product, start,
                    effective_setup, process_time, true, calendar, None).final_end_ms
            } else {
                start + effective_setup + process_time
            };
            if end < start || end > TIME_BOUND || allocated.len() > MAX_ASSIGNMENTS
                || schedule.assignments.len() > MAX_ASSIGNMENTS - allocated.len() {
                return None;
            }
            // 5. one assignment per allocated resource
            let mut y: usize = 0;
            while y < allocated.len()
                invariant
                    next_available@ == na0,
                    y <= allocated.len(),
                    schedule@.violations == old(schedule)@.violations,
                    schedule@.assignments.len() == a0.len() + y,
                    a0.len() + allocated.len() <= MAX_ASSIGNMENTS,
                    in_bound(start as int),
                    in_bound(end as int),
                    job_time <= latest <= start <= end,
                    forall|m: int| 0 <= m < allocated.len() ==> next_free(na0, #[trigger] allocated@[m]@) <= latest,
                    forall|i: int| 0 <= i < a0.len() ==> #[trigger] schedule@.assignments[i] == a0[i],
                    forall|i: int| a0.len() <= i < schedule@.assignments.len() ==> {
                        &&& (#[trigger] schedule@.assignments[i]).job_id == job@.id
                        &&& schedule@.assignments[i].operation_id == op@.id
                        &&& schedule@.assignments[i].start_ms == start
                        &&& schedule@.assignments[i].end_ms == end
                        &&& schedule@.assignments[i].resource_id == allocated@[i - a0.len()]@
                    },
                    assignments_in_bound(a0),
                    resources_sequenced(a0),
                    tracked_free(a0, na0),
                decreases allocated.len() - y,
            {
                let mut a = Assignment::with_setup(op.id.as_str(), job.id.as_str(), allocated[y].as_str(), start, end, effective_setup);
                a.site_id = match find_last_text(&maps.sites, allocated[y].as_str()) {
                    Some(site) => Some(site.to_owned()),
                    None => None,
                };
                schedule.add_assignment(a);
                y += 1;
            }
            proof {
                let s = schedule@.assignments;
                assert forall|i: int, j: int| 0 <= i < j < s.len()
                    && (#[trigger] s[i]).resource_id == (#[trigger] s[j]).resource_id
                    && s[i].resource_id != "NONE"@
                    && (s[i].operation_id != s[j].operation_id || s[i].job_id != s[j].job_id)
                    implies s[i].end_ms <= s[j].start_ms by {
                    if j < a0.len() {
                        assert(s[i] == a0[i] && s[j] == a0[j]);
                    } else if i < a0.len() {
                        assert(s[i] == a0[i]);
                        assert(a0[i].end_ms <= next_free(na0, a0[i].resource_id));
                        assert(s[j].resource_id == allocated@[j - a0.len()]@);
                    }
                }
                assert forall|i: int| 0 <= i < s.len() implies in_bound((#[trigger] s[i]).start_ms) && in_bound(s[i].end_ms) by {
                    if i < a0.len() { assert(s[i] == a0[i]); }
                }
            }
            let ghost s_after = schedule@.assignments;
            // 6. the tasks carry the primary resource and the workers
            let mut required_workers: u32 = 0;
            let mut w: usize = 0;
            let mut seen = false;
            while w < op.required_resources.len() && !seen
                decreases op.required_resources.len() - w,
            {
                if matches!(op.required_resources[w].resource_type, ResourceType::Worker) {
                    required_workers = op.required_resources[w].quantity;
                    seen = true;
                }
                w += 1;
            }
            let mut t: usize = 0;
            while t < split.tasks.len()
                invariant
                    schedule@.assignments == s_after,
                    schedule@.violations == old(schedule)@.violations,
                    allocated.len() > 0,
                decreases split.tasks.len() - t,
            {
                let mut task = split.tasks[t].clone();
                task.equipment_id = Some(allocated[0].clone());
                if workers.len() > 0 {
                    task.worker_ids = crate::strings::copy_strings(&workers);
                    task.required_workers = required_workers;
                }
                schedule.add_task(task);
                t += 1;
            }
            // 7. the resources are busy until the end
            let mut z: usize = 0;
            while z < allocated.len()
                invariant
                    z <= allocated.len(),
                    schedule@.assignments == s_after,
                    free_times_in_bound(next_available@),
                    in_bound(end as int),
                    latest <= end,
                    forall|m: int| 0 <= m < allocated.len() ==> next_free(na0, #[trigger] allocated@[m]@) <= latest,
                    forall|key: Seq<char>| #![trigger next_free(next_available@, key)]
                        (next_free(next_available@, key) == next_free(na0, key) || next_free(next_available@, key) == end)
                        && next_free(na0, key) <= next_free(next_available@, key),
                    forall|m: int| 0 <= m < z ==> next_free(next_available@, #[trigger] allocated@[m]@) >= end,
                decreases allocated.len() - z,
            {
                let ghost before = next_available@;
                next_available.push((allocated[z].clone(), end));
                proof {
                    assert forall|key: Seq<char>| #![trigger next_free(next_available@, key)]
                        (next_free(next_available@, key) == next_free(na0, key) || next_free(next_available@, key) == end)
                        && next_free(na0, key) <= next_free(next_available@, key) by {
                        lemma_next_free_push(before, allocated@[z as int], end, key);
                        assert(next_free(before, key) == next_free(before, key));
                    }
                    assert forall|m: int| 0 <= m < z + 1 implies next_free(next_available@, #[trigger] allocated@[m]@) >= end by {
                        lemma_next_free_push(before, allocated@[z as int], end, allocated@[m]@);
                        assert(next_free(before, allocated@[m]@) == next_free(before, allocated@[m]@));
                    }
                    assert forall|k: int| 0 <= k < next_available@.len() implies in_bound((#[trigger] next_available@[k]).1 as int) by {
                        if k < before.len() { assert(next_available@[k] == before[k]); }
                    }
                }
                z += 1;
            }
            let mut v: usize = 0;
            while v < linked_ids.len()
                invariant
                    v <= linked_ids.len(),
                    schedule@.assignments == s_after,
                    free_times_in_bound(next_available@),
                    in_bound(end as int),
                    latest <= end,
                    forall|m: int| 0 <= m < linked_ids.len() ==> next_free(na0, #[trigger] linked_ids@[m]@) <= latest,
                    forall|key: Seq<char>| #![trigger next_free(next_available@, key)]
                        (next_free(next_available@, key) == next_free(na0, key) || next_free(next_available@, key) == end)
                        && next_free(na0, key) <= next_free(next_available@, key),
                    forall|m: int| 0 <= m < allocated.len() ==> next_free(next_available@, #[trigger] allocated@[m]@) >= end,
                decreases linked_ids.len() - v,
            {
                let ghost before = next_available@;
                next_available.push((linked_ids[v].clone(), end));
                proof {
                    assert forall|key: Seq<char>| #![trigger next_free(next_available@, key)]
                        (next_free(next_available@, key) == next_free(na0, key) || next_free(next_available@, key) == end)
                        && next_free(na0, key) <= next_free(next_available@, key) by {
                        lemma_next_free_push(before, linked_ids@[v as int], end, key);
                        assert(next_free(before, key) == next_free(before, key));
                    }
                    assert forall|m: int| 0 <= m < allocated.len() implies next_free(next_available@, #[trigger] allocated@[m]@) >= end by {
                        lemma_next_free_push(before, linked_ids@[v as int], end, allocated@[m]@);
                        assert(next_free(before, allocated@[m]@) == next_free(before, allocated@[m]@));
                    }
                    assert forall|k: int| 0 <= k < next_available@.len() implies in_bound((#[trigger] next_available@[k]).1 as int) by {
                        if k < before.len() { assert(next_available@[k] == before[k]); }
                    }
                }
                v += 1;
            }
            proof {
                let s = schedule@.assignments;
                assert forall|i: int| 0 <= i < s.len() && (#[trigger] s[i]).resource_id != "NONE"@
                    implies s[i].end_ms <= next_free(next_available@, s[i].resource_id) by {
                    assert(next_free(next_available@, s[i].resource_id) == next_free(next_available@, s[i].resource_id));
                    if i < a0.len() {
                        assert(s[i] == a0[i]);
                    } else {
                        assert(s[i].resource_id == allocated@[i - a0.len()]@);
                    }
                }
            }
            proof {
                let s = schedule@.assignments;
                assert(s[a0.len() as int].end_ms == end);
                assert forall|key: Seq<char>| #![trigger next_free(next_available@, key)]
                    start_or_end(next_free(next_available@, key), t0, s) by {
                    assert(next_free(next_available@, key) == next_free(next_available@, key));
                    if next_free(next_available@, key) == next_free(na0, key) {
                        assert(start_or_end(next_free(na0, key), t0, a0));
                        if next_free(na0, key) != t0 && next_free(na0, key) != 0 {
                            let j = choose|j: int| 0 <= j < a0.len() && (#[trigger] a0[j]).end_ms == next_free(na0, key);
                            assert(s[j] == a0[j]);
                        }
                    }
                }
                if op@.daily_work_window is None && request.calendars@.len() == 0 {
                    assert(start == latest);
                }
            }
            proof {
                let s = schedule@.assignments;
                let held = held_resources(s, a0.len() as int);
                assert forall|x: Seq<char>| #[trigger] alloc_views.contains(x) implies held.contains(x) by {
                    let sv = string_views(allocated@);
                    assert(sv.contains(x));
                    let k = choose|k: int| 0 <= k < sv.len() && sv[k] == x;
                    assert(s[a0.len() + k].resource_id == allocated@[k]@);
                }
                assert forall|q: int| 0 <= q < reqs.len() && op@.requires_operator
                    && (#[trigger] reqs[q]).resource_type == ResourceType::Worker && reqs[q].candidates.len() == 0
                    implies workers_held(rs, reqs[q].quantity, held) by {
                    lemma_workers_held_grows(rs, reqs[q].quantity, alloc_views, held);
                }
                assert forall|q: int| 0 <= q < reqs.len() && op@.requires_operator
                    && (#[trigger] reqs[q]).resource_type == ResourceType::Worker && reqs[q].candidates.len() > 0
                    implies candidates_held(rs, reqs[q].quantity, reqs[q].candidates, held) by {
                    lemma_candidates_held_grows(rs, reqs[q].quantity, reqs[q].candidates, alloc_views, held);
                }
                assert forall|i: int| a0.len() <= i < s.len() && (#[trigger] s[i]).resource_id != "NONE"@
                    implies next_free(na0, s[i].resource_id) <= s[i].start_ms by {
                    assert(s[i].resource_id == allocated@[i - a0.len()]@);
                }
            }
            // the product the equipment ran last
            match &job.product_name {
                Some(p) => {
                    if is_equipment(&request.resources, allocated[0].as_str()) {
                        last_product.push((allocated[0].clone(), p.clone()));
                    }
                },
                None => {},
            }
            Some(end)
        } else {
            // without resources only time advances, under the first calendar
            let mut start: i64 = job_time;
            match window {
                Some(w) => {
                    proof { lemma_advance_not_before(start as int, w); }
                    start = advance_to_daily_window(start, w);
                },
                None => {},
            }
            let calendar: Option<&Calendar> = if request.calendars.len() > 0 { Some(&request.calendars[0]) } else { None };
            match calendar {
                Some(c) => {
                    start = c.next_working_time(start);
                    match window {
                        Some(w) => {
                            proof { lemma_advance_not_before(start as int, w); }
                            start = advance_to_daily_window(start, w);
                        },
                        None => {},
                    }
                },
                None => {},
            }
            if start > TIME_BOUND {
                return None;
            }
            let process_time: i64 = process + wait;
            if process_time < -limit || process_time > limit {
                return None;
            }
            let split = split_operation_by_calendar(op.id.as_str(), job.id.as_str(), product, start,
                op_setup, process_time, op.is_splittable, calendar, window);
            let end = split.final_end_ms;
            if end < start || end > TIME_BOUND || schedule.assignments.len() >= MAX_ASSIGNMENTS {
                return None;
            }
            schedule.add_assignment(Assignment::new(op.id.as_str(), job.id.as_str(), "NONE", start, end));
            let ghost s_after = schedule@.assignments;
            proof {
                let s = schedule@.assignments;
                assert(s[a0.len() as int].resource_id == "NONE"@);
                let held = held_resources(s, a0.len() as int);
                assert(string_views(allocated@).len() == 0);
                assert(alloc_views =~= Set::<Seq<char>>::empty());
                assert forall|q: int| 0 <= q < reqs.len() && op@.requires_operator
                    && (#[trigger] reqs[q]).resource_type == ResourceType::Worker && reqs[q].candidates.len() == 0
                    implies workers_held(rs, reqs[q].quantity, held) by {
                    lemma_workers_held_grows(rs, reqs[q].quantity, alloc_views, held);
                }
                assert forall|q: int| 0 <= q < reqs.len() && op@.requires_operator
                    && (#[trigger] reqs[q]).resource_type == ResourceType::Worker && reqs[q].candidates.len() > 0
                    implies candidates_held(rs, reqs[q].quantity, reqs[q].candidates, held) by {
                    lemma_candidates_held_grows(rs, reqs[q].quantity, reqs[q].candidates, alloc_views, held);
                }
                assert forall|i: int, j: int| 0 <= i < j < s.len()
                    && (#[trigger] s[i]).resource_id == (#[trigger] s[j]).resource_id
                    && s[i].resource_id != "NONE"@
                    && (s[i].operation_id != s[j].operation_id || s[i].job_id != s[j].job_id)
                    implies s[i].end_ms <= s[j].start_ms by {
                    assert(s[i] == a0[i]);
                    if j < a0.len() {
                        assert(s[j] == a0[j]);
                    }
                }
                assert forall|i: int| 0 <= i < s.len() implies in_bound((#[trigger] s[i]).start_ms) && in_bound(s[i].end_ms) by {
                    if i < a0.len() { assert(s[i] == a0[i]); }
                }
                assert forall|i: int| 0 <= i < s.len() && (#[trigger] s[i]).resource_id != "NONE"@
                    implies s[i].end_ms <= next_free(next_available@, s[i].resource_id) by {
                    assert(s[i] == a0[i]);
                }
                assert forall|key: Seq<char>| #![trigger next_free(next_available@, key)]
                    start_or_end(next_free(next_available@, key), t0, s) by {
                    assert(start_or_end(next_free(na0, key), t0, a0));
                    if next_free(na0, key) != t0 && next_free(na0, key) != 0 {
                        let j = choose|j: int| 0 <= j < a0.len() && (#[trigger] a0[j]).end_ms == next_free(na0, key);
                        assert(s[j] == a0[j]);
                    }
                }
            }
            let mut t: usize = 0;
            while t < split.tasks.len()
                invariant
                    schedule@.assignments == s_after,
                    schedule@.violations == old(schedule)@.violations,
                decreases split.tasks.len() - t,
            {
                schedule.add_task(split.tasks[t].clone());
                t += 1;
            }
            Some(end)
        }
    }
}

/// The violation recorded when an operation cannot be placed within the time
/// range the scheduler handles.
pub open spec fn range_violation(op: Seq<char>) -> ViolationView {
    ViolationView {
        constraint_id: "RANGE-"@ + op,
        constraint_type: ConstraintType::TimeRange,
        target_id: op,
        amount: 0,
        message: "Operation "@ + op + " cannot be placed within the supported time range"@,
    }
}

/// Whether an operation of a job has an assignment.
pub open spec fn op_scheduled(a: Seq<AssignmentView>, job_id: Seq<char>, op_id: Seq<char>) -> bool {
    exists|i: int| 0 <= i < a.len() && (#[trigger] a[i]).job_id == job_id && a[i].operation_id == op_id
}

/// Whether every operation of every job has an assignment.
pub open spec fn all_scheduled(a: Seq<AssignmentView>, jobs: Seq<JobView>) -> bool {
    forall|k: int, m: int| 0 <= k < jobs.len() && 0 <= m < jobs[k].operations.len()
        ==> op_scheduled(a, jobs[k].id, (#[trigger] jobs[k].operations[m]).id)
}

/// What the list scheduler promises of a schedule of the jobs taken in `order`:
/// every operation scheduled and the due-date violations of those jobs, in that
/// order, as the only violations; or, when an operation of the jobs could not be
/// placed within the time range handled, a range violation for it first;
/// no overlap on a resource; each job's operations one after another (where the
/// job ids differ); every assignment within `[request start, its end]`; every
/// assignment for one of the jobs; without calendars and daily windows, every
/// assignment starting at the request start, at 0 or at the end of an earlier one;
/// when all was placed, every operation that needs an operator holding the
/// workers each requirement without candidates asks for.
pub open spec fn scheduled_in_order(request: &ScheduleRequest, order: Seq<usize>, s: ScheduleView) -> bool {
    let jobs = ordered_jobs(job_views(request.jobs@), order);
    let due = due_violations(s.assignments, jobs);
    &&& (s.violations == due && all_scheduled(s.assignments, jobs))
        || exists|k: int, m: int| 0 <= k < jobs.len() && 0 <= m < jobs[k].operations.len()
            && s.violations == seq![range_violation(#[trigger] jobs[k].operations[m].id)] + due
    &&& resources_sequenced(s.assignments)
    &&& job_ids_distinct(jobs) ==> jobs_sequenced(s.assignments)
    &&& forall|i: int| 0 <= i < s.assignments.len()
        ==> request.start_time_ms <= (#[trigger] s.assignments[i]).start_ms <= s.assignments[i].end_ms
    &&& forall|i: int| 0 <= i < s.assignments.len()
        ==> exists|q: int| 0 <= q < jobs.len() && (#[trigger] s.assignments[i]).job_id == jobs[q].id
    &&& request.calendars@.len() == 0 && no_daily_windows(request.jobs@)
        ==> starts_without_idle(s.assignments, request.start_time_ms as int)
    &&& s.violations == due ==> forall|k: int, m: int| 0 <= k < jobs.len() && 0 <= m < jobs[k].operations.len()
        ==> workers_ok(s.assignments, resource_views(request.resources@), jobs[k].id, #[trigger] jobs[k].operations[m])
}

/// A stably sorted order lists every index.
proof fn lemma_order_covers(keys: Seq<int>, order: Seq<usize>, idx: int)
    requires
        stably_sorted(keys, order),
        0 <= idx < keys.len(),
    ensures
        exists|x: int| 0 <= x < order.len() && order[x] as int == idx,
{
    let s = order.map_values(|x: usize| x as int);
    assert forall|i: int, j: int| 0 <= i < s.len() && 0 <= j < s.len() && i != j implies s[i] != s[j] by {
        if i < j {
            assert(key_precedes(keys, order[i] as int, order[j] as int));
        } else {
            assert(key_precedes(keys, order[j] as int, order[i] as int));
        }
    }
    assert(s.no_duplicates());
    s.unique_seq_to_set();
    vstd::seq_lib::seq_to_set_is_finite(s);
    let r = vstd::set_lib::set_int_range(0, keys.len() as int);
    vstd::set_lib::lemma_int_range(0, keys.len() as int);
    assert forall|v: int| s.to_set().contains(v) implies r.contains(v) by {
        let i = choose|i: int| 0 <= i < s.len() && s[i] == v;
        assert(order[i] < keys.len());
    }
    vstd::set_lib::lemma_subset_equality(s.to_set(), r);
    assert(r.contains(idx));
    assert(s.to_set().contains(idx));
    let i = choose|i: int| 0 <= i < s.len() && s[i] == idx;
    assert(order[i] as int == idx);
}

impl SimpleScheduler {
    /// Schedules the jobs taken in `order`, each job's operations by sequence
    /// number, each operation as early as its job, its resources, its daily
    /// window and its calendar allow; then records the due-date violations.
    /// Scheduling stops at the first operation that would leave the time bound.
    #[verifier::rlimit(100)]
    pub fn schedule_in_order(&self, request: &ScheduleRequest, order: &[usize]) -> (s: Schedule)
        requires
            request.valid(),
            order@.len() <= request.jobs@.len(),
            forall|k: int| 0 <= k < order@.len() ==> (#[trigger] order@[k]) < request.jobs@.len(),
        ensures
            scheduled_in_order(request, order@, s@),
    {
        let ghost js = job_views(request.jobs@);
        let ghost oj = ordered_jobs(js, order@);
        let ghost distinct = job_ids_distinct(oj);
        let ghost t0 = request.start_time_ms as int;
        let ghost nw = request.calendars@.len() == 0 && no_daily_windows(request.jobs@);
        let ghost mut stop_op: Seq<char> = Seq::empty();
        let mut schedule = Schedule::new();
        let mut next_available: Vec<(String, i64)> = Vec::new();
        let mut last_product: Vec<(String, String)> = Vec::new();
        let maps = ResourceMaps {
            linked: linked_pairs(&request.resources),
            sites: site_pairs(&request.resources),
            calendar_of: calendar_pairs(&request.resources, &request.calendars),
        };
        let mut r: usize = 0;
        while r < request.resources.len()
            invariant
                request.valid(),
                free_times_in_bound(next_available@),
                forall|x: int| 0 <= x < next_available@.len() ==> (#[trigger] next_available@[x]).1 == request.start_time_ms,
            decreases request.resources.len() - r,
        {
            let ghost before = next_available@;
            next_available.push((request.resources[r].id.clone(), request.start_time_ms));
            assert forall|k: int| 0 <= k < next_available@.len() implies in_bound((#[trigger] next_available@[k]).1 as int) by {
                if k < before.len() { assert(next_available@[k] == before[k]); }
            }
            assert forall|x: int| 0 <= x < next_available@.len() implies (#[trigger] next_available@[x]).1 == request.start_time_ms by {
                if x < before.len() { assert(next_available@[x] == before[x]); }
            }
            r += 1;
        }
        proof {
            assert forall|key: Seq<char>| #![trigger next_free(next_available@, key)]
                start_or_end(next_free(next_available@, key), t0, schedule@.assignments) by {
                lemma_next_free_initial(next_available@, request.start_time_ms, key);
            }
        }
        let mut k: usize = 0;
        let mut stopped = false;
        assert(schedule@.violations =~= Seq::<ViolationView>::empty());
        while k < order.len() && !stopped
            invariant
                request.valid(),
                k <= order.len(),
                order@.len() <= request.jobs@.len(),
                forall|x: int| 0 <= x < order@.len() ==> (#[trigger] order@[x]) < request.jobs@.len(),
                js == job_views(request.jobs@),
                oj == ordered_jobs(js, order@),
                distinct == job_ids_distinct(oj),
                schedule@.violations == (if stopped { seq![range_violation(stop_op)] } else { Seq::<ViolationView>::empty() }),
                stopped ==> exists|q: int, m: int| 0 <= q < oj.len() && 0 <= m < oj[q].operations.len()
                    && stop_op == (#[trigger] oj[q].operations[m]).id,
                !stopped ==> forall|q: int, m: int| 0 <= q < k && 0 <= m < oj[q].operations.len()
                    ==> op_scheduled(schedule@.assignments, oj[q].id, (#[trigger] oj[q].operations[m]).id),
                !stopped ==> forall|q: int, m: int| 0 <= q < k && 0 <= m < oj[q].operations.len()
                    ==> workers_ok(schedule@.assignments, resource_views(request.resources@), oj[q].id, #[trigger] oj[q].operations[m]),
                free_times_in_bound(next_available@),
                assignments_in_bound(schedule@.assignments),
                resources_sequenced(schedule@.assignments),
                tracked_free(schedule@.assignments, next_available@),
                distinct ==> jobs_sequenced(schedule@.assignments),
                forall|i: int| 0 <= i < schedule@.assignments.len()
                    ==> request.start_time_ms <= (#[trigger] schedule@.assignments[i]).start_ms <= schedule@.assignments[i].end_ms,
                forall|i: int| 0 <= i < schedule@.assignments.len()
                    ==> exists|q: int| 0 <= q < k && (#[trigger] schedule@.assignments[i]).job_id == oj[q].id,
                t0 == request.start_time_ms,
                nw == (request.calendars@.len() == 0 && no_daily_windows(request.jobs@)),
                free_times_from(next_available@, t0, schedule@.assignments),
                nw ==> starts_without_idle(schedule@.assignments, t0),
            decreases order.len() - k,
        {
            let j = order[k];
            let job = &request.jobs[j];
            assert(job@ == oj[k as int]);
            let ops_order = sequence_order(&job.operations);
            let mut job_time: i64 = request.start_time_ms;
            proof {
                assert forall|i: int| 0 <= i < schedule@.assignments.len() && distinct
                    implies (#[trigger] schedule@.assignments[i]).job_id != job@.id by {
                    let q = choose|q: int| 0 <= q < k && schedule@.assignments[i].job_id == oj[q].id;
                    assert(oj[q].id != oj[k as int].id);
                }
            }
            let mut m: usize = 0;
            while m < ops_order.len() && !stopped
                invariant
                    request.valid(),
                    k < order.len(),
                    j < request.jobs@.len(),
                    job == &request.jobs@[j as int],
                    job@ == oj[k as int],
                    js == job_views(request.jobs@),
                    oj == ordered_jobs(js, order@),
                    distinct == job_ids_distinct(oj),
                    stably_sorted(operation_sequences(crate::validation::operation_views(job.operations@)), ops_order@),
                    ops_order@.len() == job.operations@.len(),
                    forall|x: int| 0 <= x < ops_order@.len() ==> (#[trigger] ops_order@[x]) < job.operations@.len(),
                    in_bound(job_time as int),
                    request.start_time_ms <= job_time,
                    schedule@.violations == (if stopped { seq![range_violation(stop_op)] } else { Seq::<ViolationView>::empty() }),
                    stopped ==> exists|q: int, mm: int| 0 <= q < oj.len() && 0 <= mm < oj[q].operations.len()
                        && stop_op == (#[trigger] oj[q].operations[mm]).id,
                    !stopped ==> forall|q: int, mm: int| 0 <= q < k && 0 <= mm < oj[q].operations.len()
                        ==> op_scheduled(schedule@.assignments, oj[q].id, (#[trigger] oj[q].operations[mm]).id),
                    !stopped ==> forall|x: int| 0 <= x < m
                        ==> op_scheduled(schedule@.assignments, job@.id, job@.operations[#[trigger] ops_order@[x] as int].id),
                    !stopped ==> forall|q: int, mm: int| 0 <= q < k && 0 <= mm < oj[q].operations.len()
                        ==> workers_ok(schedule@.assignments, resource_views(request.resources@), oj[q].id, #[trigger] oj[q].operations[mm]),
                    !stopped ==> forall|x: int| 0 <= x < m
                        ==> workers_ok(schedule@.assignments, resource_views(request.resources@), job@.id,
                            job@.operations[#[trigger] ops_order@[x] as int]),
                    m <= ops_order@.len(),
                    free_times_in_bound(next_available@),
                    assignments_in_bound(schedule@.assignments),
                    resources_sequenced(schedule@.assignments),
                    tracked_free(schedule@.assignments, next_available@),
                    distinct ==> jobs_sequenced(schedule@.assignments),
                    distinct ==> forall|i: int| 0 <= i < schedule@.assignments.len()
                        && (#[trigger] schedule@.assignments[i]).job_id == job@.id ==> schedule@.assignments[i].end_ms <= job_time,
                    forall|i: int| 0 <= i < schedule@.assignments.len()
                        ==> request.start_time_ms <= (#[trigger] schedule@.assignments[i]).start_ms <= schedule@.assignments[i].end_ms,
                    forall|i: int| 0 <= i < schedule@.assignments.len()
                        ==> exists|q: int| 0 <= q < k + 1 && (#[trigger] schedule@.assignments[i]).job_id == oj[q].id,
                    t0 == request.start_time_ms,
                    nw == (request.calendars@.len() == 0 && no_daily_windows(request.jobs@)),
                    free_times_from(next_available@, t0, schedule@.assignments),
                    start_or_end(job_time as int, t0, schedule@.assignments),
                    nw ==> starts_without_idle(schedule@.assignments, t0),
                decreases ops_order.len() - m,
            {
                let op = &job.operations[ops_order[m]];
                assert(op_window_ok(op)) by {
                    assert(request.jobs@[j as int].operations@[ops_order@[m as int] as int] == *op);
                }
                assert(op@ == job@.operations[ops_order@[m as int] as int]);
                assert(nw ==> op@.daily_work_window is None) by {
                    if nw {
                        assert(request.jobs@[j as int].operations@[ops_order@[m as int] as int] == *op);
                    }
                }
                let ghost a_before = schedule@.assignments;
                let ghost was_stopped = stopped;
                match self.schedule_operation(request, job, op, job_time, &maps, &mut schedule, &mut next_available, &mut last_product) {
                    Some(t) => {
                        job_time = t;
                    },
                    None => {
                        schedule.add_violation(Violation::time_range_violation(op.id.as_str()));
                        proof {
                            stop_op = op@.id;
                            assert(oj[k as int].operations[ops_order@[m as int] as int].id == stop_op);
                        }
                        stopped = true;
                    },
                }
                proof {
                    let sa = schedule@.assignments;
                    if sa.len() > a_before.len() {
                        assert(start_or_end(job_time as int, t0, sa)) by {
                            assert(sa[a_before.len() as int].end_ms == job_time);
                        }
                    } else {
                        assert(sa == a_before);
                    }
                    if nw {
                        assert forall|i: int| 0 <= i < sa.len() implies {
                            ||| (#[trigger] sa[i]).start_ms == t0
                            ||| sa[i].start_ms == 0
                            ||| exists|x: int| 0 <= x < i && sa[x].end_ms == sa[i].start_ms
                        } by {
                            if i < a_before.len() {
                                assert(sa[i] == a_before[i]);
                                if a_before[i].start_ms != t0 && a_before[i].start_ms != 0 {
                                    let x = choose|x: int| 0 <= x < i && a_before[x].end_ms == a_before[i].start_ms;
                                    assert(sa[x] == a_before[x]);
                                }
                            } else {
                                assert(start_or_end(sa[i].start_ms, t0, a_before));
                                if sa[i].start_ms != t0 && sa[i].start_ms != 0 {
                                    let x = choose|x: int| 0 <= x < a_before.len() && (#[trigger] a_before[x]).end_ms == sa[i].start_ms;
                                    assert(sa[x] == a_before[x]);
                                }
                            }
                        }
                    }
                    assert forall|i: int| 0 <= i < sa.len()
                        implies exists|q: int| 0 <= q < k + 1 && (#[trigger] sa[i]).job_id == oj[q].id by {
                        if i < a_before.len() {
                            assert(sa[i] == a_before[i]);
                        } else {
                            assert(sa[i].job_id == oj[k as int].id);
                        }
                    }
                    assert forall|i: int| 0 <= i < sa.len()
                        implies request.start_time_ms <= (#[trigger] sa[i]).start_ms <= sa[i].end_ms by {
                        if i < a_before.len() {
                            assert(sa[i] == a_before[i]);
                        }
                    }
                    if !stopped {
                        let rsv = resource_views(request.resources@);
                        assert forall|q: int, mm: int| 0 <= q < k && 0 <= mm < oj[q].operations.len()
                            implies workers_ok(sa, rsv, oj[q].id, #[trigger] oj[q].operations[mm]) by {
                            lemma_workers_ok_grows(a_before, sa, rsv, oj[q].id, oj[q].operations[mm]);
                        }
                        assert(held_resources(sa, a_before.len() as int).subset_of(ids_held(sa, job@.id, op@.id))) by {
                            assert forall|x: Seq<char>| #[trigger] held_resources(sa, a_before.len() as int).contains(x)
                                implies ids_held(sa, job@.id, op@.id).contains(x) by {
                                let i = choose|i: int| a_before.len() <= i < sa.len() && (#[trigger] sa[i]).resource_id == x;
                            }
                        }
                        if op@.requires_operator {
                            assert forall|q: int| 0 <= q < op@.required_resources.len()
                                && (#[trigger] op@.required_resources[q]).resource_type == ResourceType::Worker
                                && op@.required_resources[q].candidates.len() == 0
                                implies workers_held(rsv, op@.required_resources[q].quantity, ids_held(sa, job@.id, op@.id)) by {
                                lemma_workers_held_grows(rsv, op@.required_resources[q].quantity,
                                    held_resources(sa, a_before.len() as int), ids_held(sa, job@.id, op@.id));
                            }
                        }
                        assert(workers_ok(sa, rsv, job@.id, op@));
                        assert forall|x: int| 0 <= x < m + 1
                            implies workers_ok(sa, rsv, job@.id, job@.operations[#[trigger] ops_order@[x] as int]) by {
                            if x < m {
                                lemma_workers_ok_grows(a_before, sa, rsv, job@.id, job@.operations[ops_order@[x] as int]);
                            }
                        }
                        assert forall|q: int, mm: int| 0 <= q < k && 0 <= mm < oj[q].operations.len()
                            implies op_scheduled(sa, oj[q].id, (#[trigger] oj[q].operations[mm]).id) by {
                            assert(op_scheduled(a_before, oj[q].id, oj[q].operations[mm].id));
                            let i = choose|i: int| 0 <= i < a_before.len() && (#[trigger] a_before[i]).job_id == oj[q].id
                                && a_before[i].operation_id == oj[q].operations[mm].id;
                            assert(sa[i] == a_before[i]);
                        }
                        assert forall|x: int| 0 <= x < m + 1
                            implies op_scheduled(sa, job@.id, job@.operations[#[trigger] ops_order@[x] as int].id) by {
                            if x < m {
                                assert(op_scheduled(a_before, job@.id, job@.operations[ops_order@[x] as int].id));
                                let i = choose|i: int| 0 <= i < a_before.len() && (#[trigger] a_before[i]).job_id == job@.id
                                    && a_before[i].operation_id == job@.operations[ops_order@[x] as int].id;
                                assert(sa[i] == a_before[i]);
                            } else {
                                let i = a_before.len() as int;
                                assert(sa[i].job_id == job@.id && sa[i].operation_id == op@.id);
                            }
                        }
                    }
                    if distinct {
                        assert forall|i: int, x: int| 0 <= i < x < sa.len()
                            && (#[trigger] sa[i]).job_id == (#[trigger] sa[x]).job_id
                            && sa[i].operation_id != sa[x].operation_id
                            implies sa[i].end_ms <= sa[x].start_ms by {
                            if x < a_before.len() {
                                assert(sa[i] == a_before[i] && sa[x] == a_before[x]);
                            } else if i < a_before.len() {
                                assert(sa[i] == a_before[i]);
                                assert(sa[x].job_id == job@.id);
                            }
                        }
                        assert forall|i: int| 0 <= i < sa.len() && (#[trigger] sa[i]).job_id == job@.id
                            implies sa[i].end_ms <= job_time by {
                            if i < a_before.len() {
                                assert(sa[i] == a_before[i]);
                            }
                        }
                    }
                }
                m += 1;
            }
            proof {
                if !stopped {
                    assert forall|q: int, mm: int| 0 <= q < k + 1 && 0 <= mm < oj[q].operations.len()
                        implies workers_ok(schedule@.assignments, resource_views(request.resources@), oj[q].id,
                            #[trigger] oj[q].operations[mm]) by {
                        if q == k {
                            lemma_order_covers(operation_sequences(crate::validation::operation_views(job.operations@)), ops_order@, mm);
                            let x = choose|x: int| 0 <= x < ops_order@.len() && ops_order@[x] as int == mm;
                            assert(workers_ok(schedule@.assignments, resource_views(request.resources@), job@.id,
                                job@.operations[ops_order@[x] as int]));
                        }
                    }
                    assert forall|q: int, mm: int| 0 <= q < k + 1 && 0 <= mm < oj[q].operations.len()
                        implies op_scheduled(schedule@.assignments, oj[q].id, (#[trigger] oj[q].operations[mm]).id) by {
                        if q == k {
                            lemma_order_covers(operation_sequences(crate::validation::operation_views(job.operations@)), ops_order@, mm);
                            let x = choose|x: int| 0 <= x < ops_order@.len() && ops_order@[x] as int == mm;
                            assert(op_scheduled(schedule@.assignments, job@.id, job@.operations[ops_order@[x] as int].id));
                        }
                    }
                }
            }
            k += 1;
        }
        let ghost a_final = schedule@.assignments;
        let ghost v0 = schedule@.violations;
        proof {
            if !stopped {
                assert(k == order.len());
                assert(all_scheduled(a_final, oj));
            }
        }
        let mut k2: usize = 0;
        assert(oj.take(0) =~= Seq::<JobView>::empty());
        assert(v0 + due_violations(a_final, oj.take(0)) =~= v0);
        while k2 < order.len()
            invariant
                request.valid(),
                k2 <= order.len(),
                forall|x: int| 0 <= x < order@.len() ==> (#[trigger] order@[x]) < request.jobs@.len(),
                js == job_views(request.jobs@),
                oj == ordered_jobs(js, order@),
                schedule@.assignments == a_final,
                assignments_in_bound(a_final),
                schedule@.violations == v0 + due_violations(a_final, oj.take(k2 as int)),
            decreases order.len() - k2,
        {
            let job = &request.jobs[order[k2]];
            assert(job@ == oj[k2 as int]);
            assert(js[order@[k2 as int] as int].due_date matches Some(d) ==> in_bound(d));
            self.record_due_date(&mut schedule, job);
            assert(oj.take(k2 + 1).drop_last() =~= oj.take(k2 as int));
            assert(schedule@.violations =~= v0 + due_violations(a_final, oj.take(k2 + 1)));
            k2 += 1;
        }
        assert(oj.take(order.len() as int) =~= oj);
        proof {
            if stopped {
                let (q, mm) = choose|q: int, mm: int| 0 <= q < oj.len() && 0 <= mm < oj[q].operations.len()
                    && stop_op == (#[trigger] oj[q].operations[mm]).id;
                assert(schedule@.violations == seq![range_violation(oj[q].operations[mm].id)] + due_violations(a_final, oj));
            } else {
                assert(schedule@.violations =~= due_violations(a_final, oj));
            }
        }
        schedule
    }

    /// Schedules the jobs by priority (a lower value first, equal priorities in
    /// the order given): see `schedule_in_order`.
    pub fn schedule(&self, request: &ScheduleRequest) -> (s: Schedule)
        requires
            request.valid(),
        ensures
            exists|order: Seq<usize>| stably_sorted(job_priorities(job_views(request.jobs@)), order)
                && scheduled_in_order(request, order, s@),
            job_ids_distinct(job_views(request.jobs@)) ==> jobs_sequenced(s@.assignments),
    {
        let order = priority_order(request.jobs.as_slice());
        proof {
            let js = job_views(request.jobs@);
            let oj = ordered_jobs(js, order@);
            if job_ids_distinct(js) {
                assert forall|p: int, q: int| 0 <= p < q < oj.len() implies (#[trigger] oj[p]).id != (#[trigger] oj[q]).id by {
                    assert(key_precedes(job_priorities(js), order@[p] as int, order@[q] as int));
                    if order@[p] < order@[q] {
                        assert(js[order@[p] as int].id != js[order@[q] as int].id);
                    } else {
                        assert(js[order@[q] as int].id != js[order@[p] as int].id);
                    }
                }
            }
        }
        let s = self.schedule_in_order(request, order.as_slice());
        s
    }
}

} // verus!
