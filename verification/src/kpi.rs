//! Integer schedule indicators: makespan and tardiness.

use vstd::prelude::*;
use crate::job::{Job, JobView};
use crate::rescheduler::{in_bound, max2, max_end_or_zero, MAX_ASSIGNMENTS, assignments_in_bound};
use crate::schedule::{AssignmentView, Schedule};
use crate::strings::str_eq;
use crate::validation::job_views;

verus! {

/// Computes indicators of a schedule over a planning horizon.
#[derive(Debug, Clone, Copy)]
pub struct KpiCalculator {
    /// Total available time (ms).
    pub horizon_ms: i64,
}

/// Lateness of the jobs of a schedule.
#[derive(Debug, Clone, Copy, PartialEq, Eq, Structural)]
pub struct TardinessSummary {
    /// Sum of the tardiness of the jobs (ms).
    pub total_tardiness_ms: i64,
    /// Largest tardiness of a job (ms), 0 when none is late.
    pub max_tardiness_ms: i64,
    /// Jobs with a due date and scheduled work that finish on time.
    pub on_time_count: usize,
    /// Jobs with a due date and scheduled work.
    pub job_count: usize,
}

/// The completion of a job: the latest end of its assignments (at least 0), if
/// it has any.
pub open spec fn job_completion(s: Seq<AssignmentView>, job: Seq<char>) -> Option<int>
    decreases s.len(),
{
    if s.len() == 0 {
        None
    } else {
        let r = job_completion(s.drop_last(), job);
        if s.last().job_id == job {
            Some(max2(match r { Some(c) => c, None => 0 }, s.last().end_ms))
        } else {
            r
        }
    }
}

/// The tardiness of a job that has a due date and scheduled work.
pub open spec fn job_tardiness(s: Seq<AssignmentView>, j: JobView) -> Option<int> {
    match (job_completion(s, j.id), j.due_date) {
        (Some(c), Some(d)) => Some(max2(c - d, 0)),
        _ => None,
    }
}

/// Tardiness totals over a list of jobs: (sum, maximum, on-time jobs, counted jobs).
pub open spec fn tardiness_totals(s: Seq<AssignmentView>, jobs: Seq<JobView>) -> (int, int, int, int)
    decreases jobs.len(),
{
    if jobs.len() == 0 {
        (0, 0, 0, 0)
    } else {
        let r = tardiness_totals(s, jobs.drop_last());
        match job_tardiness(s, jobs.last()) {
            Some(t) => (r.0 + t, max2(r.1, t), r.2 + if t == 0 { 1int } else { 0int }, r.3 + 1),
            None => r,
        }
    }
}

/// Whether the jobs are few enough and their due dates within bounds.
pub open spec fn jobs_in_bound(jobs: Seq<JobView>) -> bool {
    &&& jobs.len() <= MAX_ASSIGNMENTS
    &&& forall|i: int| 0 <= i < jobs.len() ==> (#[trigger] jobs[i].due_date matches Some(d) ==> in_bound(d))
}

/// The completion of a job in a schedule, if it has assignments.
fn completion_of(schedule: &Schedule, job_id: &str) -> (r: Option<i64>)
    requires
        assignments_in_bound(schedule@.assignments),
    ensures
        match r {
            Some(c) => job_completion(schedule@.assignments, job_id@) == Some(c as int) && 0 <= c <= crate::rescheduler::TIME_BOUND,
            None => job_completion(schedule@.assignments, job_id@) is None,
        },
{
    let ghost s = schedule@.assignments;
    let mut r: Option<i64> = None;
    let mut i: usize = 0;
    while i < schedule.assignments.len()
        invariant
            i <= schedule.assignments.len(),
            s == schedule@.assignments,
            s.len() == schedule.assignments.len(),
            assignments_in_bound(s),
            match r {
                Some(c) => job_completion(s.take(i as int), job_id@) == Some(c as int) && 0 <= c <= crate::rescheduler::TIME_BOUND,
                None => job_completion(s.take(i as int), job_id@) is None,
            },
        decreases schedule.assignments.len() - i,
    {
        assert(s.take(i + 1).drop_last() =~= s.take(i as int));
        let a = &schedule.assignments[i];
        assert(s[i as int] == a@);
        assert(assignments_in_bound(s));
        assert(i < s.len());
        assert(in_bound(s[i as int].start_ms));
        assert(in_bound(s[i as int].end_ms));
        if str_eq(a.job_id.as_str(), job_id) {
            let prev: i64 = match r {
                Some(c) => c,
                None => 0,
            };
            r = Some(if prev >= a.end_ms { prev } else { a.end_ms });
        }
        i += 1;
    }
    assert(s.take(s.len() as int) =~= s);
    r
}

impl KpiCalculator {
    /// A calculator for a planning horizon.
    pub fn new(horizon_ms: i64) -> (k: KpiCalculator)
        ensures
            k.horizon_ms == horizon_ms,
    {
        KpiCalculator { horizon_ms }
    }

    /// The makespan: the latest end of the assignments, or 0 when there are none.
    pub fn calculate_makespan(&self, schedule: &Schedule) -> (m: i64)
        ensures
            m == max_end_or_zero(schedule@.assignments),
    {
        let ghost s = schedule@.assignments;
        let mut m: i64 = 0;
        let mut i: usize = 0;
        while i < schedule.assignments.len()
            invariant
                i <= schedule.assignments.len(),
                s == schedule@.assignments,
                m == max_end_or_zero(s.take(i as int)),
            decreases schedule.assignments.len() - i,
        {
            assert(s.take(i + 1).drop_last() =~= s.take(i as int));
            assert(s[i as int] == schedule.assignments@[i as int]@);
            if i == 0 || schedule.assignments[i].end_ms > m {
                m = schedule.assignments[i].end_ms;
            }
            i += 1;
        }
        assert(s.take(s.len() as int) =~= s);
        m
    }

    /// Tardiness of the jobs: for every job with a due date and scheduled work,
    /// how far its completion lies past the due date (0 when on time).
    pub fn calculate_tardiness(&self, schedule: &Schedule, jobs: &[Job]) -> (t: TardinessSummary)
        requires
            assignments_in_bound(schedule@.assignments),
            jobs_in_bound(job_views(jobs@)),
        ensures
            t.total_tardiness_ms == tardiness_totals(schedule@.assignments, job_views(jobs@)).0,
            t.max_tardiness_ms == tardiness_totals(schedule@.assignments, job_views(jobs@)).1,
            t.on_time_count == tardiness_totals(schedule@.assignments, job_views(jobs@)).2,
            t.job_count == tardiness_totals(schedule@.assignments, job_views(jobs@)).3,
    {
        let ghost s = schedule@.assignments;
        let ghost js = job_views(jobs@);
        let mut total: i64 = 0;
        let mut max_t: i64 = 0;
        let mut on_time: usize = 0;
        let mut count: usize = 0;
        let mut i: usize = 0;
        while i < jobs.len()
            invariant
                i <= jobs.len(),
                s == schedule@.assignments,
                js == job_views(jobs@),
                js.len() == jobs.len(),
                assignments_in_bound(s),
                jobs_in_bound(js),
                (total as int, max_t as int, on_time as int, count as int) == tardiness_totals(s, js.take(i as int)),
                0 <= total <= i * 0x1000_0000_0000,
                0 <= max_t <= 0x1000_0000_0000,
                on_time <= i,
                count <= i,
            decreases jobs.len() - i,
        {
            assert(js.take(i + 1).drop_last() =~= js.take(i as int));
            let j = &jobs[i];
            assert(js[i as int] == j@);
            match (completion_of(schedule, j.id.as_str()), j.due_date) {
                (Some(c), Some(d)) => {
                    assert(js[i as int].due_date matches Some(d) ==> in_bound(d));
                    let diff = c - d;
                    let t = if diff >= 0 { diff } else { 0 };
                    total = total + t;
                    if t > max_t {
                        max_t = t;
                    }
                    if t == 0 {
                        on_time = on_time + 1;
                    }
                    count = count + 1;
                }
                _ => {}
            }
            i += 1;
        }
        assert(js.take(jobs.len() as int) =~= js);
        TardinessSummary { total_tardiness_ms: total, max_tardiness_ms: max_t, on_time_count: on_time, job_count: count }
    }
}

/// Tardiness is never negative: the total is at least the maximum, which is at
/// least 0, and no more jobs are on time than are counted.
pub proof fn law_tardiness_totals_consistent(s: Seq<AssignmentView>, jobs: Seq<JobView>)
    ensures
        ({
            let t = tardiness_totals(s, jobs);
            &&& 0 <= t.1 <= t.0
            &&& 0 <= t.2 <= t.3 <= jobs.len()
            &&& (t.3 == 0 ==> t.0 == 0)
        }),
    decreases jobs.len(),
{
    if jobs.len() > 0 {
        law_tardiness_totals_consistent(s, jobs.drop_last());
    }
}


/// A job's completion is the latest end of its assignments, at least 0: it
/// exists exactly when the job has an assignment, no assignment of the job ends
/// after it, and it is 0 or the end of one of them.
pub proof fn law_completion_is_latest_end(s: Seq<AssignmentView>, job: Seq<char>)
    ensures
        job_completion(s, job) is Some <==> exists|i: int| 0 <= i < s.len() && (#[trigger] s[i]).job_id == job,
        match job_completion(s, job) {
            Some(c) => {
                &&& c >= 0
                &&& forall|i: int| 0 <= i < s.len() && (#[trigger] s[i]).job_id == job ==> s[i].end_ms <= c
                &&& (c == 0 || exists|i: int| 0 <= i < s.len() && (#[trigger] s[i]).job_id == job && s[i].end_ms == c)
            },
            None => true,
        },
    decreases s.len(),
{
    if s.len() > 0 {
        let d = s.drop_last();
        law_completion_is_latest_end(d, job);
        assert forall|i: int| 0 <= i < d.len() implies #[trigger] d[i] == s[i] by {}
        let last = s.len() - 1;
        assert(s[last] == s.last());
        if exists|i: int| 0 <= i < d.len() && (#[trigger] d[i]).job_id == job {
            let i = choose|i: int| 0 <= i < d.len() && (#[trigger] d[i]).job_id == job;
            assert(s[i].job_id == job);
        }
        match job_completion(d, job) {
            Some(c) => {
                if c != 0 {
                    let i = choose|i: int| 0 <= i < d.len() && (#[trigger] d[i]).job_id == job && d[i].end_ms == c;
                    assert(s[i].job_id == job && s[i].end_ms == c);
                }
            },
            None => {},
        }
        assert forall|i: int| 0 <= i < s.len() && (#[trigger] s[i]).job_id == job && i < last implies d[i].job_id == job by {
            assert(d[i] == s[i]);
        }
    }
}

} // verus!
