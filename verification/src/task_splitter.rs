//! Splitting an operation into tasks along working windows.
//!
//! The working time of a resource comes from its calendar (shifts, breaks,
//! holidays) and, optionally, from a daily work window of the operation; only
//! their intersection is used. A splittable operation is cut at the end of each
//! working window; a non-splittable one is delayed to the first window long enough
//! to hold it whole.

use vstd::prelude::*;
use crate::calendar::{day_index, BreakTime, Shift, spec_minute_of_day, TIME_LIMIT, advance_to_daily_window, floor_to_midnight, remaining_in_daily_window, spec_remaining_in_daily_window, spec_floor_to_midnight, lemma_advance_not_before, in_time_range, Calendar, DailyWorkWindow, WorkingWindowEndReason, MS_PER_DAY, MS_PER_MINUTE};
use crate::schedule::task_views;
use crate::task::{task_id_for, task_id_text, SplitReason, Task, TaskView};

verus! {

/// Most pieces an operation is split into.
pub const MAX_SPLIT_PIECES: usize = 100;

/// Most rounds the calendar-based splitter works for before it gives up
/// (a calendar whose working time never meets the daily window would otherwise be
/// searched forever).
pub const MAX_SPLIT_ROUNDS: u32 = 10_000;

/// Bound on the start instant accepted by the splitter (about 35,000 years).
pub const SPLIT_START_LIMIT: i64 = 0x4_0000_0000_0000;

/// Bound on the setup and processing times accepted by the splitter (about 34 years).
pub const SPLIT_DURATION_LIMIT: i64 = 0x100_0000_0000;

/// Result of splitting an operation.
#[derive(Debug, Clone)]
pub struct SplitResult {
    /// The pieces, in time order.
    pub tasks: Vec<Task>,
    /// End of the last piece (the start when there is none).
    pub final_end_ms: i64,
}

/// Whether the pieces are numbered in order, each knows the number of pieces, and a
/// single piece is marked as not split.
pub open spec fn pieces_numbered(tasks: Seq<TaskView>) -> bool {
    &&& forall|i: int| 0 <= i < tasks.len() ==> (#[trigger] tasks[i]).split_index == i
    &&& forall|i: int| 0 <= i < tasks.len() ==> (#[trigger] tasks[i]).total_splits == tasks.len()
    &&& tasks.len() == 1 ==> tasks[0].split_reason == SplitReason::NotSplit
}

/// Whether all pieces belong to the given operation and job.
pub open spec fn pieces_of(tasks: Seq<TaskView>, operation_id: Seq<char>, job_id: Seq<char>) -> bool {
    forall|i: int| 0 <= i < tasks.len() ==> (#[trigger] tasks[i]).operation_id == operation_id
        && tasks[i].job_id == job_id
}

/// Whether the inputs are within the bounds the splitter handles.
pub open spec fn split_inputs_ok(start_ms: int, setup_ms: int, process_ms: int) -> bool {
    &&& -SPLIT_START_LIMIT <= start_ms <= SPLIT_START_LIMIT
    &&& -SPLIT_DURATION_LIMIT <= setup_ms <= SPLIT_DURATION_LIMIT
    &&& -SPLIT_DURATION_LIMIT <= process_ms <= SPLIT_DURATION_LIMIT
}

fn with_product(task: Task, product_name: Option<&str>) -> (t: Task)
    ensures
        t@ == (match product_name {
            Some(p) => TaskView { product_name: Some(p@), ..task@ },
            None => task@,
        }),
{
    match product_name {
        Some(name) => task.with_product_name(name),
        None => task,
    }
}

/// Numbers the pieces in order, records their count, and marks a single piece as not split.
fn number_pieces(tasks: Vec<Task>) -> (r: Vec<Task>)
    requires
        tasks.len() <= 1000,
    ensures
        r.len() == tasks.len(),
        pieces_numbered(task_views(r@)),
        forall|i: int| 0 <= i < r.len() ==> {
            let a = #[trigger] task_views(r@)[i];
            let b = task_views(tasks@)[i];
            &&& a.id == b.id && a.operation_id == b.operation_id && a.job_id == b.job_id
            &&& a.product_name == b.product_name
            &&& a.plan_begin_ms == b.plan_begin_ms && a.plan_end_ms == b.plan_end_ms
            &&& a.setup_ms == b.setup_ms && a.process_ms == b.process_ms
            &&& a.is_splittable == b.is_splittable
            &&& a.split_reason == (if tasks.len() == 1 { SplitReason::NotSplit } else { b.split_reason })
        },
{
    let total = tasks.len() as u32;
    let mut r: Vec<Task> = Vec::new();
    let mut i: usize = 0;
    while i < tasks.len()
        invariant
            i <= tasks.len(),
            total == tasks.len(),
            tasks.len() <= 1000,
            r.len() == i,
            forall|k: int| 0 <= k < i ==> {
                let a = #[trigger] r@[k]@;
                let b = tasks@[k]@;
                &&& a.split_index == k && a.total_splits == total
                &&& a.id == b.id && a.operation_id == b.operation_id && a.job_id == b.job_id
                &&& a.product_name == b.product_name
                &&& a.plan_begin_ms == b.plan_begin_ms && a.plan_end_ms == b.plan_end_ms
                &&& a.setup_ms == b.setup_ms && a.process_ms == b.process_ms
                &&& a.is_splittable == b.is_splittable
                &&& a.split_reason == (if total == 1 { SplitReason::NotSplit } else { b.split_reason })
            },
        decreases tasks.len() - i,
    {
        let t = tasks[i].copy();
        let reason = if total == 1 { SplitReason::NotSplit } else { t.split_reason };
        let t = t.with_split_info(i as u32, total, reason);
        r.push(t);
        i += 1;
    }
    proof {
        assert forall|k: int| 0 <= k < r.len() implies #[trigger] task_views(r@)[k] == r@[k]@ by {}
    }
    r
}


/// Length of a daily window.
pub open spec fn window_length_ms(w: DailyWorkWindow) -> int {
    if w.end_minute > w.begin_minute {
        (w.end_minute - w.begin_minute) * MS_PER_MINUTE
    } else {
        (1440 - w.begin_minute + w.end_minute) * MS_PER_MINUTE
    }
}

/// The next start of the daily window after `t` (at or after the epoch): later
/// on the day of `t` when the window opens after `t` (a window crossing midnight
/// reopens the same evening), else on the following day. Before the epoch, the
/// start on the following day.
pub open spec fn next_window_begin(t: int, w: DailyWorkWindow) -> int {
    let same_day = spec_floor_to_midnight(t) + w.begin_minute * MS_PER_MINUTE;
    if t >= 0 && same_day > t { same_day } else { same_day + MS_PER_DAY }
}

/// The next start of the daily window after `t`, computed.
fn following_window_begin(t: i64, w: DailyWorkWindow) -> (r: i64)
    requires
        in_time_range(t as int),
        w.well_formed(),
    ensures
        r == next_window_begin(t as int, w),
        t < r <= t + 3 * MS_PER_DAY,
{
    proof { crate::calendar::lemma_floor_bounds(t as int); }
    let same_day = floor_to_midnight(t) + w.begin_minute as i64 * 60_000;
    if t >= 0 && same_day > t { same_day } else { same_day + 86_400_000 }
}

/// At the next start of the daily window the whole window lies ahead.
proof fn lemma_window_begin_full(t: int, w: DailyWorkWindow)
    requires
        0 <= t <= TIME_LIMIT,
        w.well_formed(),
    ensures
        spec_remaining_in_daily_window(next_window_begin(t, w), w) == window_length_ms(w),
{
    let d = lemma_instant_parts(t);
    let u = next_window_begin(t, w);
    let e = if u == d * MS_PER_DAY + w.begin_minute * MS_PER_MINUTE { d } else { d + 1 };
    assert(u == e * MS_PER_DAY + w.begin_minute * MS_PER_MINUTE);
    assert(e * MS_PER_DAY <= u < (e + 1) * MS_PER_DAY);
    crate::calendar::lemma_day_decomposition(u, e);
    assert((w.begin_minute * 60_000) / 60_000 == w.begin_minute) by (nonlinear_arith)
        requires 0 <= w.begin_minute;
    assert(spec_minute_of_day(u) == w.begin_minute);
}

/// Whether the pieces follow each other in time, none starting before `start`.
pub open spec fn pieces_in_order(tasks: Seq<TaskView>, start: int) -> bool {
    &&& forall|i: int| 0 <= i < tasks.len() ==> (#[trigger] tasks[i]).plan_begin_ms >= start
    &&& forall|i: int, j: int| 0 <= i < j < tasks.len() ==> (#[trigger] tasks[i]).plan_end_ms <= (#[trigger] tasks[j]).plan_begin_ms
}

/// The setup time carried by the pieces.
pub open spec fn total_setup(tasks: Seq<TaskView>) -> int
    decreases tasks.len(),
{
    if tasks.len() == 0 { 0 } else { total_setup(tasks.drop_last()) + tasks.last().setup_ms }
}

/// The processing time carried by the pieces.
pub open spec fn total_process(tasks: Seq<TaskView>) -> int
    decreases tasks.len(),
{
    if tasks.len() == 0 { 0 } else { total_process(tasks.drop_last()) + tasks.last().process_ms }
}

/// Whether no piece carries negative setup or processing time (so none ends
/// before it begins, its length being their sum).
pub open spec fn pieces_nonnegative(tasks: Seq<TaskView>) -> bool {
    forall|i: int| 0 <= i < tasks.len() ==> (#[trigger] tasks[i]).setup_ms >= 0 && tasks[i].process_ms >= 0
}

/// Sequences of pieces that agree on setup and processing times carry the same totals.
proof fn lemma_totals_pointwise(a: Seq<TaskView>, b: Seq<TaskView>)
    requires
        a.len() == b.len(),
        forall|i: int| 0 <= i < a.len() ==> (#[trigger] a[i]).setup_ms == b[i].setup_ms && a[i].process_ms == b[i].process_ms,
    ensures
        total_setup(a) == total_setup(b),
        total_process(a) == total_process(b),
    decreases a.len(),
{
    if a.len() > 0 {
        let a2 = a.drop_last();
        let b2 = b.drop_last();
        assert forall|i: int| 0 <= i < a2.len() implies (#[trigger] a2[i]).setup_ms == b2[i].setup_ms && a2[i].process_ms == b2[i].process_ms by {
            assert(a2[i] == a[i] && b2[i] == b[i]);
        }
        lemma_totals_pointwise(a2, b2);
        assert(a.last() == a[a.len() - 1]);
    }
}

/// The stretch of a daily window that contains an instant ends no later than the
/// start of the next day's window.
proof fn lemma_window_end_before_next(t: int, w: DailyWorkWindow)
    requires
        w.well_formed(),
        in_time_range(t),
        spec_remaining_in_daily_window(t, w) > 0,
    ensures
        t + spec_remaining_in_daily_window(t, w) <= next_window_begin(t, w),
{
    if t >= 0 {
        let d = t / (MS_PER_DAY as int);
        vstd::arithmetic::div_mod::lemma_fundamental_div_mod(t, MS_PER_DAY as int);
        assert(d * MS_PER_DAY <= t < (d + 1) * MS_PER_DAY) by (nonlinear_arith)
            requires t == 86_400_000 * d + t % 86_400_000, 0 <= t % 86_400_000 < 86_400_000;
        assert(d >= 0) by (nonlinear_arith)
            requires t >= 0, d == t / 86_400_000;
        crate::calendar::lemma_day_decomposition(t, d);
        let midnight = d * MS_PER_DAY;
        let m = spec_minute_of_day(t);
        assert(m * 60_000 <= t - midnight < (m + 1) * 60_000) by (nonlinear_arith)
            requires m == (t - midnight) / 60_000, 0 <= t - midnight;
    }
}


/// The minute and midnight of an instant at or after the epoch, as bounds.
proof fn lemma_instant_parts(t: int) -> (d: int)
    requires
        0 <= t <= TIME_LIMIT,
    ensures
        d >= 0,
        spec_floor_to_midnight(t) == d * MS_PER_DAY,
        d * MS_PER_DAY <= t < (d + 1) * MS_PER_DAY,
        0 <= spec_minute_of_day(t) < 1440,
        spec_minute_of_day(t) * MS_PER_MINUTE <= t - d * MS_PER_DAY < (spec_minute_of_day(t) + 1) * MS_PER_MINUTE,
{
    let d = t / (MS_PER_DAY as int);
    vstd::arithmetic::div_mod::lemma_fundamental_div_mod(t, MS_PER_DAY as int);
    assert(d * MS_PER_DAY <= t < (d + 1) * MS_PER_DAY) by (nonlinear_arith)
        requires t == 86_400_000 * d + t % 86_400_000, 0 <= t % 86_400_000 < 86_400_000;
    assert(d >= 0) by (nonlinear_arith)
        requires t >= 0, d == t / 86_400_000;
    crate::calendar::lemma_day_decomposition(t, d);
    let m = spec_minute_of_day(t);
    let midnight = d * MS_PER_DAY;
    assert(m * 60_000 <= t - midnight < (m + 1) * 60_000) by (nonlinear_arith)
        requires m == (t - midnight) / 60_000, 0 <= t - midnight;
    d
}

/// Between an instant and the next start of the daily window, the window holds
/// no more time than what was left at that instant: at each later instant the time
/// left is none, or what was left less the time passed.
proof fn lemma_no_longer_stretch_before_next(c: int, t: int, w: DailyWorkWindow)
    requires
        w.well_formed(),
        0 <= c <= t,
        t < next_window_begin(c, w),
        c <= TIME_LIMIT / 2,
    ensures
        spec_remaining_in_daily_window(t, w) == 0
            || spec_remaining_in_daily_window(t, w) <= spec_remaining_in_daily_window(c, w) - (t - c),
{
    let dc = lemma_instant_parts(c);
    let dt = lemma_instant_parts(t);
    assert(dt == dc || dt == dc + 1) by (nonlinear_arith)
        requires
            dc * 86_400_000 <= c < (dc + 1) * 86_400_000,
            dt * 86_400_000 <= t < (dt + 1) * 86_400_000,
            c <= t,
            t < dc * 86_400_000 + 2 * 86_400_000,
    {
        if dt > dc + 1 {
            assert(dt * 86_400_000 >= (dc + 2) * 86_400_000);
        }
        if dt < dc {
            assert((dt + 1) * 86_400_000 <= dc * 86_400_000);
        }
    }
}

/// Whether work of length `d` starting at `y` fits the daily window: `y` lies in
/// the window and the window holds `d` more from there.
pub open spec fn fits_window_at(y: int, w: DailyWorkWindow, d: int) -> bool {
    w.spec_contains_minute(spec_minute_of_day(y)) && spec_remaining_in_daily_window(y, w) >= d
}

/// Whether a piece lies within one stretch of the daily window.
pub open spec fn piece_in_window(t: TaskView, w: DailyWorkWindow) -> bool {
    spec_remaining_in_daily_window(t.plan_begin_ms, w) >= t.plan_end_ms - t.plan_begin_ms
}

/// Whether a piece that starts in working time of the calendar lies entirely in
/// working time (and within one stretch of the daily window, if any).
pub open spec fn piece_in_working_time(cal: &Calendar, t: TaskView, w: Option<DailyWorkWindow>) -> bool {
    cal.is_working(t.plan_begin_ms) ==> fits_working_time(cal, t.plan_begin_ms, t.plan_end_ms - t.plan_begin_ms, w)
}

/// Splits an operation along a daily work window alone (no calendar).
///
/// Not splittable: one piece at the first window start (searching a year of days)
/// where the remaining window holds setup and processing; when a whole window is
/// too short, at the current candidate; when the search runs out, at `start_ms`.
/// Splittable: pieces filling each window from `start_ms` on, setup first, for at
/// most a year of windows.
#[verifier::rlimit(60)]
fn split_by_daily_window_only(
    operation_id: &str,
    job_id: &str,
    product_name: Option<&str>,
    start_ms: i64,
    setup_ms: i64,
    process_ms: i64,
    is_splittable: bool,
    window: DailyWorkWindow,
) -> (r: SplitResult)
    requires
        -2 * SPLIT_START_LIMIT <= start_ms <= 2 * SPLIT_START_LIMIT,
        -SPLIT_DURATION_LIMIT <= setup_ms <= SPLIT_DURATION_LIMIT,
        -SPLIT_DURATION_LIMIT <= process_ms <= SPLIT_DURATION_LIMIT,
        window.well_formed(),
    ensures
        pieces_numbered(task_views(r.tasks@)),
        pieces_of(task_views(r.tasks@), operation_id@, job_id@),
        r.tasks.len() <= 365,
        r.final_end_ms == (if r.tasks.len() == 0 { start_ms as int } else { r.tasks@.last().plan_end_ms as int }),
        !is_splittable ==> r.tasks.len() == 1 && task_views(r.tasks@)[0].setup_ms == setup_ms
            && task_views(r.tasks@)[0].plan_end_ms - task_views(r.tasks@)[0].plan_begin_ms == setup_ms + process_ms
            && task_views(r.tasks@)[0].id == task_id_text(operation_id@, 1),
        is_splittable ==> forall|i: int| 0 <= i < r.tasks.len() ==> piece_in_window(#[trigger] task_views(r.tasks@)[i], window),
        pieces_in_order(task_views(r.tasks@), start_ms as int),
        forall|i: int| 0 <= i < r.tasks.len() ==> {
            let t = #[trigger] task_views(r.tasks@)[i];
            t.plan_end_ms - t.plan_begin_ms == t.setup_ms + t.process_ms
        },
        !is_splittable && start_ms >= 0 ==> {
            let b = task_views(r.tasks@)[0].plan_begin_ms;
            let d = setup_ms + process_ms;
            &&& forall|y: int| start_ms <= y < b ==> !#[trigger] fits_window_at(y, window, d)
            &&& (spec_remaining_in_daily_window(b, window) >= d || window_length_ms(window) < d)
        },
        is_splittable && setup_ms >= 0 && process_ms >= 0 ==> pieces_nonnegative(task_views(r.tasks@))
            && forall|i: int| 0 <= i < r.tasks.len() ==> fits_window_at((#[trigger] task_views(r.tasks@)[i]).plan_begin_ms, window,
                task_views(r.tasks@)[i].setup_ms + task_views(r.tasks@)[i].process_ms),
        is_splittable && setup_ms >= 0 && process_ms > 0 && start_ms >= 0 ==> {
            ||| (total_setup(task_views(r.tasks@)) == setup_ms && total_process(task_views(r.tasks@)) == process_ms)
            ||| (r.tasks.len() == 365 && total_process(task_views(r.tasks@)) < process_ms)
        },
{
    let ms_per_minute: i64 = 60 * 1000i64;
    let ms_per_day: i64 = 24 * 60 * ms_per_minute;

    if !is_splittable {
        let total_duration = setup_ms + process_ms;
        let window_duration: i64 = if window.end_minute > window.begin_minute {
            (window.end_minute - window.begin_minute) as i64 * ms_per_minute
        } else {
            (24 * 60 - window.begin_minute + window.end_minute) as i64 * ms_per_minute
        };
        let mut candidate = start_ms;
        let mut n: u32 = 0;
        while n < 365
            invariant
                n <= 365,
                -2 * SPLIT_START_LIMIT <= start_ms <= 2 * SPLIT_START_LIMIT,
                -SPLIT_DURATION_LIMIT <= setup_ms <= SPLIT_DURATION_LIMIT,
                -SPLIT_DURATION_LIMIT <= process_ms <= SPLIT_DURATION_LIMIT,
                window.well_formed(),
                total_duration == setup_ms + process_ms,
                !is_splittable,
                start_ms <= candidate <= start_ms + n * 259_200_000,
                window_duration == window_length_ms(window),
                start_ms >= 0 ==> forall|y: int| start_ms <= y < candidate ==> !#[trigger] fits_window_at(y, window, total_duration as int),
                start_ms >= 0 ==> n <= 1,
                start_ms >= 0 && n >= 1 ==> spec_remaining_in_daily_window(candidate as int, window) == window_length_ms(window)
                    && window_duration >= total_duration,
            decreases 365 - n,
        {
            let daily_remaining = remaining_in_daily_window(candidate, window);
            if daily_remaining >= total_duration {
                let end_ms = candidate + total_duration;
                let task = Task::from_operation(operation_id, job_id, product_name, candidate, end_ms, setup_ms, false);
                let mut tasks: Vec<Task> = Vec::new();
                tasks.push(task);
                assert(task_views(tasks@)[0] == tasks@[0]@);
                return SplitResult { tasks, final_end_ms: end_ms };
            }
            if window_duration < total_duration {
                let end_ms = candidate + total_duration;
                let task = Task::from_operation(operation_id, job_id, product_name, candidate, end_ms, setup_ms, false);
                let mut tasks: Vec<Task> = Vec::new();
                tasks.push(task);
                assert(task_views(tasks@)[0] == tasks@[0]@);
                return SplitResult { tasks, final_end_ms: end_ms };
            }
            let ghost c = candidate;
            candidate = following_window_begin(candidate, window);
            proof {
                if start_ms >= 0 {
                    lemma_window_begin_full(c as int, window);
                    assert forall|y: int| start_ms <= y < candidate implies !#[trigger] fits_window_at(y, window, total_duration as int) by {
                        if y >= c {
                            lemma_no_longer_stretch_before_next(c as int, y, window);
                        }
                    }
                }
            }
            n += 1;
        }
        let end_ms = start_ms + total_duration;
        let task = Task::from_operation(operation_id, job_id, product_name, start_ms, end_ms, setup_ms, false);
        let mut tasks: Vec<Task> = Vec::new();
        tasks.push(task);
        assert(task_views(tasks@)[0] == tasks@[0]@);
        return SplitResult { tasks, final_end_ms: end_ms };
    }

    let mut tasks: Vec<Task> = Vec::new();
    let mut remaining_process = process_ms;
    let mut current_ms = start_ms;
    let mut task_index: u32 = 0;
    let mut setup_remaining = setup_ms;
    let mut n: u32 = 0;
    while n < 365
        invariant
            n <= 365,
            tasks.len() <= n,
            task_index <= n,
            -2 * SPLIT_START_LIMIT <= start_ms <= 2 * SPLIT_START_LIMIT,
            -SPLIT_DURATION_LIMIT <= setup_ms <= SPLIT_DURATION_LIMIT,
            -SPLIT_DURATION_LIMIT <= process_ms <= SPLIT_DURATION_LIMIT,
            window.well_formed(),
            start_ms <= current_ms <= start_ms + n * 259_200_000,
            -SPLIT_DURATION_LIMIT <= setup_remaining <= SPLIT_DURATION_LIMIT,
            -SPLIT_DURATION_LIMIT <= remaining_process <= SPLIT_DURATION_LIMIT,
            pieces_of(task_views(tasks@), operation_id@, job_id@),
            forall|i: int| 0 <= i < tasks.len() ==> piece_in_window(#[trigger] task_views(tasks@)[i], window),
            pieces_in_order(task_views(tasks@), start_ms as int),
            remaining_process != 0 ==> forall|i: int| 0 <= i < tasks.len() ==> (#[trigger] task_views(tasks@)[i]).plan_end_ms <= current_ms,
            forall|i: int| 0 <= i < tasks.len() ==> {
                let t = #[trigger] task_views(tasks@)[i];
                t.plan_end_ms - t.plan_begin_ms == t.setup_ms + t.process_ms
            },
            is_splittable,
            total_process(task_views(tasks@)) + remaining_process == process_ms,
            remaining_process != 0 ==> total_setup(task_views(tasks@)) + setup_remaining == setup_ms,
            setup_ms >= 0 && process_ms > 0 && remaining_process == 0 ==> total_setup(task_views(tasks@)) == setup_ms,
            setup_ms >= 0 && process_ms >= 0 ==> setup_remaining >= 0 && remaining_process >= 0
                && pieces_nonnegative(task_views(tasks@))
                && forall|i: int| 0 <= i < tasks.len() ==> (#[trigger] task_views(tasks@)[i]).setup_ms + task_views(tasks@)[i].process_ms > 0,
            setup_ms >= 0 && process_ms > 0 && start_ms >= 0 && remaining_process != 0 ==> tasks.len() == n,
        ensures
            remaining_process == 0 || n == 365,
        decreases 365 - n,
    {
        if remaining_process == 0 {
            break;
        }
        n += 1;
        proof { lemma_advance_not_before(current_ms as int, window); }
        let ghost before_advance = current_ms;
        current_ms = advance_to_daily_window(current_ms, window);
        let daily_remaining = remaining_in_daily_window(current_ms, window);
        proof {
            if setup_ms >= 0 && process_ms > 0 && start_ms >= 0 {
                crate::calendar::law_advance_is_earliest_in_window(before_advance as int, window);
                crate::calendar::law_remaining_stays_in_window(current_ms as int, window);
            }
        }
        if daily_remaining == 0 {
            current_ms += 1;
            continue;
        }
        proof { crate::calendar::lemma_remaining_bound(current_ms as int, window); }
        let needed = setup_remaining + remaining_process;
        if needed <= daily_remaining {
            let task_end = current_ms + needed;
            let task_id = task_id_for(operation_id, task_index + 1);
            let task = Task::new(task_id.as_str(), operation_id, job_id, current_ms, task_end)
                .with_splittable(true)
                .with_setup(setup_remaining)
                .with_process(remaining_process);
            let task = with_product(task, product_name);
            let ghost before = task_views(tasks@);
            tasks.push(task);
            assert(task_views(tasks@) =~= before.push(task@));
            assert(task_views(tasks@).drop_last() =~= before);
            remaining_process = 0;
        } else {
            let this_setup = if setup_remaining < daily_remaining { setup_remaining } else { daily_remaining };
            let after_setup = daily_remaining - this_setup;
            let task_process = if after_setup < remaining_process { after_setup } else { remaining_process };
            if this_setup > 0 || task_process > 0 {
                let task_end = current_ms + this_setup + task_process;
                let task_id = task_id_for(operation_id, task_index + 1);
                let task = Task::new(task_id.as_str(), operation_id, job_id, current_ms, task_end)
                    .with_splittable(true)
                    .with_setup(this_setup)
                    .with_process(task_process)
                    .with_split_info(task_index, 0, SplitReason::ShiftEnd);
                let task = with_product(task, product_name);
                let ghost before = task_views(tasks@);
                tasks.push(task);
                assert(task_views(tasks@) =~= before.push(task@));
            assert(task_views(tasks@).drop_last() =~= before);
                setup_remaining = setup_remaining - this_setup;
                remaining_process = remaining_process - task_process;
            }
            task_index += 1;
            proof {
                lemma_window_end_before_next(current_ms as int, window);
            }
            current_ms = following_window_begin(current_ms, window);
        }
    }
    let pieces = number_pieces(tasks);
    assert forall|i: int| 0 <= i < pieces.len() implies piece_in_window(#[trigger] task_views(pieces@)[i], window) by {
        assert(piece_in_window(task_views(tasks@)[i], window));
    }
    proof {
        assert forall|i: int| 0 <= i < pieces.len() implies (#[trigger] task_views(pieces@)[i]).setup_ms == task_views(tasks@)[i].setup_ms
            && task_views(pieces@)[i].process_ms == task_views(tasks@)[i].process_ms by {}
        lemma_totals_pointwise(task_views(pieces@), task_views(tasks@));
    }
    assert forall|i: int, j: int| 0 <= i < j < pieces.len() implies
        (#[trigger] task_views(pieces@)[i]).plan_end_ms <= (#[trigger] task_views(pieces@)[j]).plan_begin_ms by {
        assert(task_views(tasks@)[i].plan_end_ms <= task_views(tasks@)[j].plan_begin_ms);
    }
    assert forall|i: int| 0 <= i < pieces.len() implies {
        let t = #[trigger] task_views(pieces@)[i];
        t.plan_end_ms - t.plan_begin_ms == t.setup_ms + t.process_ms
    } by {
        let t0 = task_views(tasks@)[i];
        assert(t0.plan_end_ms - t0.plan_begin_ms == t0.setup_ms + t0.process_ms);
    }
    let final_end = if pieces.len() == 0 { start_ms } else { pieces[pieces.len() - 1].plan_end_ms };
    SplitResult { tasks: pieces, final_end_ms: final_end }
}


/// Bound on instants used by the calendar-based splitter.
pub open spec fn splitter_time_ok(t: int) -> bool {
    -0x10_0000_0000_0000 <= t <= 0x10_0000_0000_0000
}

/// The span `[begin, begin + duration)` is working time of the calendar and, with a
/// daily window, lies in one stretch of that window.
pub open spec fn fits_working_time(cal: &Calendar, begin: int, duration: int, window: Option<DailyWorkWindow>) -> bool {
    &&& forall|y: int| begin <= y < begin + duration ==> cal.is_working(y)
    &&& match window {
        Some(w) => spec_remaining_in_daily_window(begin, w) >= duration,
        None => true,
    }
}

/// Whether work of length `d` starting at `y` fits working time of the calendar
/// (and the daily window) without running past the end of `y`'s day.
pub open spec fn fits_in_day(cal: &Calendar, y: int, d: int, window: Option<DailyWorkWindow>) -> bool {
    fits_working_time(cal, y, d, window) && y + d <= (crate::calendar::day_index(y) + 1) * MS_PER_DAY
}

/// Times of day at which a stretch of working time of a calendar can end: the
/// end of a shift, the start of a break, or midnight.
pub open spec fn stretch_end_times(cal: &Calendar) -> Seq<int> {
    cal.shifts@.map_values(|s: Shift| s.end_minute * MS_PER_MINUTE)
        + cal.breaks@.map_values(|b: BreakTime| b.start_minute * MS_PER_MINUTE)
        + seq![MS_PER_DAY as int]
}

/// How many stretches of working time of a calendar can end within one day,
/// at most.
pub open spec fn stretch_ends_per_day(cal: &Calendar) -> int {
    cal.shifts@.len() as int + cal.breaks@.len() as int + 1
}

/// A stretch of working time that ends at a non-working instant (or at
/// midnight) ends at one of the calendar's stretch end times.
proof fn lemma_stretch_end(cal: &Calendar, t: int, e: int)
    requires
        t < e <= (day_index(t) + 1) * MS_PER_DAY,
        forall|y: int| t <= y < e ==> cal.is_working(y),
        e == (day_index(t) + 1) * MS_PER_DAY || !cal.is_working(e),
    ensures
        day_index(e - 1) == day_index(t),
        stretch_end_times(cal).contains(e - day_index(t) * MS_PER_DAY),
{
    let dd = day_index(t);
    crate::calendar::lemma_day_bounds(t);
    crate::calendar::lemma_day_of_instant(e - 1, dd);
    let sv = stretch_end_times(cal);
    let ns = cal.shifts@.len() as int;
    let nb = cal.breaks@.len() as int;
    assert(cal.is_working(e - 1));
    if e == (dd + 1) * MS_PER_DAY {
        assert(sv[ns + nb] == MS_PER_DAY);
    } else {
        crate::calendar::lemma_day_of_instant(e, dd);
        let tod = e - dd * MS_PER_DAY;
        assert(cal.working_at(dd, tod - 1));
        assert(!cal.working_at(dd, tod));
        if !cal.in_shift(dd, tod) {
            let i = choose|i: int| 0 <= i < ns && #[trigger] cal.shifts@[i].covers(dd, tod - 1);
            assert(!cal.shifts@[i].covers(dd, tod));
            assert(tod == cal.shifts@[i].end_minute * MS_PER_MINUTE);
            assert(sv[i] == tod);
        } else {
            let j = choose|j: int| 0 <= j < nb && #[trigger] cal.breaks@[j].covers(tod);
            assert(!cal.breaks@[j].covers(tod - 1));
            assert(tod == cal.breaks@[j].start_minute * MS_PER_MINUTE);
            assert(sv[ns + j] == tod);
        }
    }
}

/// Whether a calendar has no working time for the search horizon of days from `b` on.
pub open spec fn no_working_within(cal: &Calendar, b: int) -> bool {
    forall|y: int| b <= y < b + crate::calendar::SEARCH_DAYS * MS_PER_DAY ==> !#[trigger] cal.is_working(y)
}

proof fn lemma_seen_bound(cal: &Calendar, seen: Set<int>)
    requires
        seen.subset_of(stretch_end_times(cal).to_set()),
    ensures
        seen.finite(),
        seen.len() <= stretch_ends_per_day(cal),
{
    let sv = stretch_end_times(cal);
    vstd::seq_lib::seq_to_set_is_finite(sv);
    sv.lemma_cardinality_of_set();
    vstd::set_lib::lemma_len_subset(seen, sv.to_set());
    assert(sv.len() == stretch_ends_per_day(cal));
}

proof fn lemma_day_monotone(y1: int, y2: int)
    requires
        y1 <= y2,
    ensures
        day_index(y1) <= day_index(y2),
{
    crate::calendar::lemma_day_bounds(y1);
    crate::calendar::lemma_day_bounds(y2);
}

/// The first span of `duration_ms` of continuous working time from `start_ms` on
/// (calendar and daily window, within one day), trying up to 720 stretches of
/// working time; when none is found, `(start_ms, start_ms + duration_ms)`.
fn find_continuous_window(
    calendar: &Calendar,
    start_ms: i64,
    duration_ms: i64,
    daily_work_window: Option<DailyWorkWindow>,
) -> (r: (i64, i64))
    requires
        calendar.well_formed(),
        splitter_time_ok(start_ms as int),
        -2 * SPLIT_DURATION_LIMIT <= duration_ms <= 2 * SPLIT_DURATION_LIMIT,
        match daily_work_window { Some(w) => w.well_formed(), None => true },
    ensures
        r.1 == r.0 + duration_ms,
        r.0 >= start_ms,
        r.0 <= start_ms + 720 * 0x40_0000_0000,
        r.0 == start_ms || fits_working_time(calendar, r.0 as int, duration_ms as int, daily_work_window)
            || !calendar.is_working(r.0 as int),
        duration_ms > 0 && start_ms >= 0 ==> forall|y: int| start_ms <= y < r.0
            ==> !#[trigger] fits_in_day(calendar, y, duration_ms as int, daily_work_window),
        daily_work_window is None && duration_ms > 0 && start_ms >= 0 ==> {
            ||| fits_in_day(calendar, r.0 as int, duration_ms as int, None)
            ||| no_working_within(calendar, r.0 as int)
            ||| forall|y: int| start_ms <= y < (day_index(start_ms as int) + 720int / stretch_ends_per_day(calendar) - 1) * MS_PER_DAY
                ==> !#[trigger] fits_in_day(calendar, y, duration_ms as int, None)
        },
{
    let ghost d = duration_ms as int;
    let ghost kk = stretch_ends_per_day(calendar);
    let ghost mut lastday: int = 0;
    let ghost mut lastv: int = 0;
    let ghost mut seen: Set<int> = Set::empty();
    let mut current_start = start_ms;
    let mut n: u32 = 0;
    while n < 720
        invariant
            n <= 720,
            calendar.well_formed(),
            splitter_time_ok(start_ms as int),
            -2 * SPLIT_DURATION_LIMIT <= duration_ms <= 2 * SPLIT_DURATION_LIMIT,
            d == duration_ms,
            match daily_work_window { Some(w) => w.well_formed(), None => true },
            start_ms <= current_start <= start_ms + n * 0x40_0000_0000,
            duration_ms > 0 && start_ms >= 0 ==> forall|y: int| start_ms <= y < current_start
                ==> !#[trigger] fits_in_day(calendar, y, d, daily_work_window),
            kk == stretch_ends_per_day(calendar),
            daily_work_window is None && n > 0 ==> {
                &&& current_start == lastday * MS_PER_DAY + lastv
                &&& 0 < lastv
                &&& seen.finite()
                &&& seen.subset_of(stretch_end_times(calendar).to_set())
                &&& forall|v: int| seen.contains(v) ==> v <= lastv
                &&& lastday * kk + seen.len() >= day_index(start_ms as int) * kk + n
            },
        decreases 720 - n,
    {
        n += 1;
        let ghost cur = current_start as int;
        let cal_start = calendar.next_working_time(current_start);
        let ghost cs = cal_start as int;
        let working_start = match daily_work_window {
            Some(window) => {
                proof { lemma_advance_not_before(cal_start as int, window); }
                advance_to_daily_window(cal_start, window)
            }
            None => cal_start,
        };
        let ghost adv = working_start as int;
        proof {
            if duration_ms > 0 && start_ms >= 0 {
                match daily_work_window {
                    Some(w) => { crate::calendar::law_advance_is_earliest_in_window(cs, w); }
                    None => {}
                }
            }
        }
        let working_start = match daily_work_window {
            Some(_) => calendar.next_working_time(working_start),
            None => working_start,
        };
        let ghost ws = working_start as int;
        proof {
            if duration_ms > 0 && start_ms >= 0 {
                assert forall|y: int| start_ms <= y < ws implies !#[trigger] fits_in_day(calendar, y, d, daily_work_window) by {
                    if y >= cur && y < cs {
                        assert(!calendar.is_working(y));
                    } else if y >= cs && y < adv {
                        match daily_work_window {
                            Some(w) => { assert(!w.spec_contains_minute(spec_minute_of_day(y))); }
                            None => {}
                        }
                    } else if y >= adv {
                        assert(!calendar.is_working(y));
                    }
                }
            }
        }
        match calendar.find_working_window_end(working_start) {
            Some((cal_window_end, _)) => {
                let effective_end = match daily_work_window {
                    Some(window) => {
                        let daily_remaining = remaining_in_daily_window(working_start, window);
                        if daily_remaining == 0 {
                            current_start = working_start + 1;
                            proof {
                                if duration_ms > 0 && start_ms >= 0 {
                                    assert forall|y: int| start_ms <= y < current_start implies !#[trigger] fits_in_day(calendar, y, d, daily_work_window) by {
                                        if y == ws {}
                                    }
                                }
                            }
                            continue;
                        }
                        proof { crate::calendar::lemma_remaining_bound(working_start as int, window); }
                        let daily_end = working_start + daily_remaining;
                        if cal_window_end < daily_end { cal_window_end } else { daily_end }
                    }
                    None => cal_window_end,
                };
                let available_time = effective_end - working_start;
                if available_time >= duration_ms {
                    proof {
                        if daily_work_window is None && duration_ms > 0 {
                            assert(fits_in_day(calendar, ws, d, None));
                        }
                    }
                    return (working_start, working_start + duration_ms);
                }
                proof {
                    if duration_ms > 0 && start_ms >= 0 {
                        match daily_work_window {
                            Some(w) => { lemma_window_end_before_next(ws, w); }
                            None => {}
                        }
                        assert forall|y: int| start_ms <= y < effective_end implies !#[trigger] fits_in_day(calendar, y, d, daily_work_window) by {
                            if y >= ws {
                                if effective_end == cal_window_end {
                                    if cal_window_end == (crate::calendar::day_index(ws) + 1) * MS_PER_DAY {
                                        assert(crate::calendar::day_index(y) == crate::calendar::day_index(ws)) by (nonlinear_arith)
                                            requires
                                                ws <= y < (crate::calendar::day_index(ws) + 1) * 86_400_000,
                                                crate::calendar::day_index(ws) == ws / 86_400_000,
                                                crate::calendar::day_index(y) == y / 86_400_000;
                                    } else {
                                        assert(!calendar.is_working(cal_window_end as int));
                                    }
                                } else {
                                    match daily_work_window {
                                        Some(w) => { lemma_no_longer_stretch_before_next(ws, y, w); }
                                        None => {}
                                    }
                                }
                            }
                        }
                    }
                }
                current_start = effective_end;
                proof {
                    if daily_work_window is None {
                        let e = cal_window_end as int;
                        lemma_stretch_end(calendar, ws, e);
                        let dd = day_index(ws);
                        let v = e - dd * MS_PER_DAY;
                        let sv = stretch_end_times(calendar);
                        crate::calendar::lemma_day_bounds(ws);
                        assert(sv.to_set().contains(v));
                        lemma_day_monotone(start_ms as int, ws);
                        if n == 1 {
                            assert(dd * kk >= day_index(start_ms as int) * kk) by (nonlinear_arith)
                                requires dd >= day_index(start_ms as int), kk >= 1;
                            seen = Set::empty().insert(v);
                            assert(seen.len() == 1);
                        } else {
                            lemma_day_monotone(lastday * MS_PER_DAY, ws);
                            crate::calendar::lemma_day_of_instant(lastday * MS_PER_DAY, lastday);
                            lemma_seen_bound(calendar, seen);
                            if dd == lastday {
                                assert(v > lastv);
                                assert(!seen.contains(v));
                                seen = seen.insert(v);
                            } else {
                                let old_len = seen.len();
                                assert(dd * kk >= (lastday + 1) * kk) by (nonlinear_arith)
                                    requires dd >= lastday + 1, kk >= 1;
                                assert(lastday * kk + old_len <= (lastday + 1) * kk) by (nonlinear_arith)
                                    requires old_len <= kk;
                                seen = Set::empty().insert(v);
                                assert(seen.len() == 1);
                            }
                        }
                        lastday = dd;
                        lastv = v;
                        assert(seen.subset_of(sv.to_set()));
                    }
                }
            }
            None => {
                match daily_work_window {
                    Some(window) => {
                        let daily_remaining = remaining_in_daily_window(working_start, window);
                        if daily_remaining == 0 {
                            current_start = working_start + 1;
                            proof {
                                if duration_ms > 0 && start_ms >= 0 {
                                    assert forall|y: int| start_ms <= y < current_start implies !#[trigger] fits_in_day(calendar, y, d, daily_work_window) by {
                                        if y == ws {}
                                    }
                                }
                            }
                            continue;
                        }
                        if daily_remaining >= duration_ms {
                            return (working_start, working_start + duration_ms);
                        }
                        proof { crate::calendar::lemma_floor_bounds(working_start as int); }
                        current_start = floor_to_midnight(working_start) + 86_400_000 + window.begin_minute as i64 * 60_000;
                        proof {
                            if duration_ms > 0 && start_ms >= 0 {
                                assert forall|y: int| start_ms <= y < current_start implies !#[trigger] fits_in_day(calendar, y, d, daily_work_window) by {
                                    if y >= ws {
                                        assert(crate::calendar::day_index(adv) * MS_PER_DAY <= adv) by (nonlinear_arith)
                                            requires crate::calendar::day_index(adv) == adv / 86_400_000, adv >= 0;
                                        assert(!calendar.is_working(y));
                                    }
                                }
                            }
                        }
                    }
                    None => {
                        proof {
                            assert(ws == cur);
                            crate::calendar::lemma_day_bounds(ws);
                            assert forall|y: int| ws <= y < ws + crate::calendar::SEARCH_DAYS * MS_PER_DAY
                                implies !#[trigger] calendar.is_working(y) by {
                                assert(y < (day_index(cur) + crate::calendar::SEARCH_DAYS + 1) * MS_PER_DAY);
                            }
                        }
                        return (working_start, working_start + duration_ms);
                    }
                }
            }
        }
    }
    proof {
        if daily_work_window is None && duration_ms > 0 && start_ms >= 0 {
            lemma_seen_bound(calendar, seen);
            let h = day_index(start_ms as int) + 720int / kk - 1;
            let sl = seen.len() as int;
            assert(lastday >= h) by (nonlinear_arith)
                requires lastday * kk + sl >= day_index(start_ms as int) * kk + 720, sl <= kk, kk >= 1,
                    h == day_index(start_ms as int) + 720int / kk - 1;
            assert(h * MS_PER_DAY <= lastday * MS_PER_DAY);
        }
    }
    (start_ms, start_ms + duration_ms)
}


/// The split reason for a working window ending for a given reason.
pub open spec fn reason_for(r: WorkingWindowEndReason) -> SplitReason {
    match r {
        WorkingWindowEndReason::BreakStart => SplitReason::BreakStart,
        WorkingWindowEndReason::ShiftEnd => SplitReason::ShiftEnd,
        WorkingWindowEndReason::Holiday => SplitReason::Holiday,
    }
}

fn split_reason_of(r: WorkingWindowEndReason) -> (s: SplitReason)
    ensures
        s == reason_for(r),
{
    match r {
        WorkingWindowEndReason::BreakStart => SplitReason::BreakStart,
        WorkingWindowEndReason::ShiftEnd => SplitReason::ShiftEnd,
        WorkingWindowEndReason::Holiday => SplitReason::Holiday,
    }
}

/// Largest amount of processing time the calendar splitter can have left (it grows
/// only when a piece is cut before its setup is done, see below).
pub open spec fn process_bound(rounds: int) -> int {
    SPLIT_DURATION_LIMIT * (rounds + 1)
}

/// Splits an operation along the working windows of a calendar (and a daily window).
///
/// From `start_ms`, each round moves to the next working time, takes the working
/// window there (the calendar window cut at the end of the daily window) and either
/// finishes the remaining setup and processing in it or fills it and continues after
/// it. Setup comes first; a window that the remaining setup fills entirely yields a
/// piece with the remaining setup as its setup. At most
/// `MAX_SPLIT_PIECES` pieces are made and `MAX_SPLIT_ROUNDS` rounds are run.
#[verifier::rlimit(100)]
fn split_into_tasks(
    operation_id: &str,
    job_id: &str,
    product_name: Option<&str>,
    start_ms: i64,
    setup_ms: i64,
    process_ms: i64,
    calendar: &Calendar,
    daily_work_window: Option<DailyWorkWindow>,
) -> (r: SplitResult)
    requires
        calendar.well_formed(),
        -2 * SPLIT_START_LIMIT <= start_ms <= 2 * SPLIT_START_LIMIT,
        -SPLIT_DURATION_LIMIT <= setup_ms <= SPLIT_DURATION_LIMIT,
        -SPLIT_DURATION_LIMIT <= process_ms <= SPLIT_DURATION_LIMIT,
        match daily_work_window { Some(w) => w.well_formed(), None => true },
    ensures
        pieces_numbered(task_views(r.tasks@)),
        pieces_of(task_views(r.tasks@), operation_id@, job_id@),
        r.tasks.len() <= MAX_SPLIT_PIECES,
        r.final_end_ms == (if r.tasks.len() == 0 { start_ms as int } else { r.tasks@.last().plan_end_ms as int }),
        forall|i: int| 0 <= i < r.tasks.len() ==> piece_in_working_time(calendar, #[trigger] task_views(r.tasks@)[i], daily_work_window),
        pieces_in_order(task_views(r.tasks@), start_ms as int),
        daily_work_window is None && setup_ms >= 0 && process_ms > 0 ==>
            total_process(task_views(r.tasks@)) == process_ms || r.tasks.len() == MAX_SPLIT_PIECES,
{
    let ghost simple = daily_work_window is None && setup_ms >= 0 && process_ms > 0;
    let ghost mut skipped: int = 0;
    let mut tasks: Vec<Task> = Vec::new();
    let mut remaining_process = process_ms;
    let mut current_ms = start_ms;
    let mut task_index: u32 = 0;
    let mut setup_remaining = setup_ms;
    let mut rounds: u32 = 0;
    while remaining_process > 0 && tasks.len() < MAX_SPLIT_PIECES && rounds < MAX_SPLIT_ROUNDS
        invariant
            rounds <= MAX_SPLIT_ROUNDS,
            task_index <= rounds,
            tasks.len() <= MAX_SPLIT_PIECES,
            calendar.well_formed(),
            match daily_work_window { Some(w) => w.well_formed(), None => true },
            -2 * SPLIT_START_LIMIT <= start_ms <= 2 * SPLIT_START_LIMIT,
            start_ms - SPLIT_DURATION_LIMIT <= current_ms <= start_ms + rounds * 0x40_0000_0000,
            remaining_process > 0 ==> start_ms <= current_ms,
            -SPLIT_DURATION_LIMIT <= setup_ms <= SPLIT_DURATION_LIMIT,
            -SPLIT_DURATION_LIMIT <= setup_remaining <= SPLIT_DURATION_LIMIT,
            -SPLIT_DURATION_LIMIT <= remaining_process <= process_bound(rounds as int),
            pieces_of(task_views(tasks@), operation_id@, job_id@),
            forall|i: int| 0 <= i < tasks.len() ==> piece_in_working_time(calendar, #[trigger] task_views(tasks@)[i], daily_work_window),
            pieces_in_order(task_views(tasks@), start_ms as int),
            remaining_process > 0 ==> forall|i: int| 0 <= i < tasks.len() ==> (#[trigger] task_views(tasks@)[i]).plan_end_ms <= current_ms,
            simple == (daily_work_window is None && setup_ms >= 0 && process_ms > 0),
            simple ==> total_process(task_views(tasks@)) + remaining_process == process_ms
                && setup_remaining >= 0 && remaining_process >= 0
                && 0 <= skipped <= 1 && (skipped == 1 ==> setup_remaining == 0)
                && (remaining_process > 0 ==> tasks.len() + skipped == rounds),
        ensures
            remaining_process <= 0 || tasks.len() >= MAX_SPLIT_PIECES || rounds >= MAX_SPLIT_ROUNDS,
        decreases MAX_SPLIT_ROUNDS - rounds,
    {
        rounds += 1;
        current_ms = calendar.next_working_time(current_ms);
        match daily_work_window {
            Some(window) => {
                proof { lemma_advance_not_before(current_ms as int, window); }
                current_ms = advance_to_daily_window(current_ms, window);
                current_ms = calendar.next_working_time(current_ms);
            }
            None => {}
        }
        let found = calendar.find_working_window_end(current_ms);
        let ghost before = task_views(tasks@);
        let (cal_window_end, split_reason) = match found {
            Some(x) => x,
            None => {
                match daily_work_window {
                    Some(window) => {
                        let daily_remaining = remaining_in_daily_window(current_ms, window);
                        if daily_remaining > 0 {
                            proof { crate::calendar::lemma_remaining_bound(current_ms as int, window); }
                            let daily_end = current_ms + daily_remaining;
                            let needed_time = setup_remaining + remaining_process;
                            if needed_time <= daily_remaining {
                                let task_end = current_ms + needed_time;
                                let task_id = task_id_for(operation_id, task_index + 1);
                                let task = Task::new(task_id.as_str(), operation_id, job_id, current_ms, task_end)
                                    .with_splittable(true)
                                    .with_setup(setup_remaining)
                                    .with_process(remaining_process);
                                let task = with_product(task, product_name);
                                tasks.push(task);
                                assert(task_views(tasks@) =~= before.push(task@));
                        assert(task_views(tasks@).drop_last() =~= before);
                                remaining_process = 0;
                            } else {
                                let task_start = current_ms;
                                let diff = daily_remaining - setup_remaining;
                                let task_process = if diff < remaining_process { diff } else { remaining_process };
                                let this_setup = if setup_remaining < daily_remaining { setup_remaining } else { daily_remaining };
                                let task_end = task_start + this_setup + task_process;
                                if task_process > 0 || this_setup > 0 {
                                    let task_id = task_id_for(operation_id, task_index + 1);
                                    let task = Task::new(task_id.as_str(), operation_id, job_id, task_start, task_end)
                                        .with_splittable(true)
                                        .with_setup(this_setup)
                                        .with_process(task_process)
                                        .with_split_info(task_index, 0, SplitReason::ShiftEnd);
                                    let task = with_product(task, product_name);
                                    tasks.push(task);
                                    assert(task_views(tasks@) =~= before.push(task@));
                        assert(task_views(tasks@).drop_last() =~= before);
                                    setup_remaining = setup_remaining - this_setup;
                                    remaining_process = remaining_process - task_process;
                                }
                                task_index += 1;
                                current_ms = daily_end;
                            }
                            continue;
                        }
                        proof { crate::calendar::lemma_floor_bounds(current_ms as int); }
                        current_ms = floor_to_midnight(current_ms) + 86_400_000 + window.begin_minute as i64 * 60_000;
                        continue;
                    }
                    None => {
                        let task_start = current_ms;
                        let task_end = current_ms + setup_remaining + remaining_process;
                        let task_id = task_id_for(operation_id, task_index + 1);
                        let task = Task::new(task_id.as_str(), operation_id, job_id, task_start, task_end)
                            .with_splittable(true)
                            .with_setup(setup_remaining)
                            .with_process(remaining_process);
                        let task = with_product(task, product_name);
                        tasks.push(task);
                        assert(task_views(tasks@) =~= before.push(task@));
                        assert(task_views(tasks@).drop_last() =~= before);
                        remaining_process = 0;
                        break;
                    }
                }
            }
        };
        let window_end = match daily_work_window {
            Some(window) => {
                let daily_remaining = remaining_in_daily_window(current_ms, window);
                if daily_remaining == 0 {
                    proof { lemma_advance_not_before(current_ms + 1, window); }
                    current_ms = advance_to_daily_window(current_ms + 1, window);
                    continue;
                }
                proof { crate::calendar::lemma_remaining_bound(current_ms as int, window); }
                let daily_end = current_ms + daily_remaining;
                if cal_window_end < daily_end { cal_window_end } else { daily_end }
            }
            None => cal_window_end,
        };
        let available_time = window_end - current_ms;
        let task_start = current_ms;
        let needed_time = setup_remaining + remaining_process;
        if needed_time <= available_time {
            let task_end = current_ms + needed_time;
            let task_id = task_id_for(operation_id, task_index + 1);
            let task = Task::new(task_id.as_str(), operation_id, job_id, task_start, task_end)
                .with_splittable(true)
                .with_setup(setup_remaining)
                .with_process(remaining_process);
            let task = with_product(task, product_name);
            tasks.push(task);
            assert(task_views(tasks@) =~= before.push(task@));
                        assert(task_views(tasks@).drop_last() =~= before);
            remaining_process = 0;
            current_ms = task_end;
        } else {
            let task_process = if setup_remaining > 0 {
                if setup_remaining >= available_time {
                    setup_remaining = setup_remaining - available_time;
                    0
                } else {
                    let after_setup = available_time - setup_remaining;
                    let setup_this_task = setup_remaining;
                    setup_remaining = 0;
                    remaining_process = remaining_process - after_setup;
                    let task_end = task_start + setup_this_task + after_setup;
                    let task_id = task_id_for(operation_id, task_index + 1);
                    let reason = split_reason_of(split_reason);
                    let task = Task::new(task_id.as_str(), operation_id, job_id, task_start, task_end)
                        .with_splittable(true)
                        .with_setup(setup_this_task)
                        .with_process(after_setup)
                        .with_split_info(task_index, 0, reason);
                    let task = with_product(task, product_name);
                    tasks.push(task);
                    assert(task_views(tasks@) =~= before.push(task@));
                        assert(task_views(tasks@).drop_last() =~= before);
                    task_index += 1;
                    current_ms = window_end;
                    continue;
                }
            } else {
                if available_time < remaining_process { available_time } else { remaining_process }
            };
            if task_process > 0 || setup_remaining > 0 {
                let this_setup = if setup_remaining > 0 {
                    let consumed = setup_ms - (setup_ms - setup_remaining);
                    if available_time < consumed { available_time } else { consumed }
                } else {
                    0
                };
                let task_end = task_start + available_time;
                let task_id = task_id_for(operation_id, task_index + 1);
                let reason = split_reason_of(split_reason);
                let task = Task::new(task_id.as_str(), operation_id, job_id, task_start, task_end)
                    .with_splittable(true)
                    .with_setup(this_setup)
                    .with_process(task_process)
                    .with_split_info(task_index, 0, reason);
                let task = with_product(task, product_name);
                tasks.push(task);
                assert(task_views(tasks@) =~= before.push(task@));
                        assert(task_views(tasks@).drop_last() =~= before);
                remaining_process = remaining_process - task_process;
            } else {
                proof {
                    skipped = skipped + 1;
                }
            }
            task_index += 1;
            current_ms = window_end;
        }
    }
    let pieces = number_pieces(tasks);
    assert forall|i: int| 0 <= i < pieces.len() implies piece_in_working_time(calendar, #[trigger] task_views(pieces@)[i], daily_work_window) by {
        assert(piece_in_working_time(calendar, task_views(tasks@)[i], daily_work_window));
    }
    proof {
        assert forall|i: int| 0 <= i < pieces.len() implies (#[trigger] task_views(pieces@)[i]).setup_ms == task_views(tasks@)[i].setup_ms
            && task_views(pieces@)[i].process_ms == task_views(tasks@)[i].process_ms by {}
        lemma_totals_pointwise(task_views(pieces@), task_views(tasks@));
    }
    assert forall|i: int, j: int| 0 <= i < j < pieces.len() implies
        (#[trigger] task_views(pieces@)[i]).plan_end_ms <= (#[trigger] task_views(pieces@)[j]).plan_begin_ms by {
        assert(task_views(tasks@)[i].plan_end_ms <= task_views(tasks@)[j].plan_begin_ms);
    }
    let final_end = if pieces.len() == 0 { start_ms } else { pieces[pieces.len() - 1].plan_end_ms };
    SplitResult { tasks: pieces, final_end_ms: final_end }
}


/// Whether a piece respects the working time it was cut along: with a calendar
/// with shifts, a piece starting in working time lies in working time (and in one
/// stretch of the daily window); with a daily window alone, it lies in one stretch
/// of the window.
pub open spec fn piece_respects_time(calendar: Option<&Calendar>, window: Option<DailyWorkWindow>, t: TaskView) -> bool {
    let window_only = match window {
        Some(w) => piece_in_window(t, w),
        None => true,
    };
    match calendar {
        Some(c) => if c.shifts@.len() > 0 { piece_in_working_time(c, t, window) } else { window_only },
        None => window_only,
    }
}

/// Splits an operation into tasks along the working time of a calendar and a daily
/// work window.
///
/// The start first moves into the daily window. Without a calendar with shifts, a
/// daily window alone splits the operation (`split_by_daily_window_only`); without
/// either, the operation is one task `[start, start + setup + process)`. With a
/// calendar, the start moves to the next working time (inside the daily window); a
/// non-splittable operation then waits for the first stretch of working time long
/// enough to hold it whole, a splittable one is cut along working windows.
pub fn split_operation_by_calendar(
    operation_id: &str,
    job_id: &str,
    product_name: Option<&str>,
    start_ms: i64,
    setup_ms: i64,
    process_ms: i64,
    is_splittable: bool,
    calendar: Option<&Calendar>,
    daily_work_window: Option<DailyWorkWindow>,
) -> (r: SplitResult)
    requires
        split_inputs_ok(start_ms as int, setup_ms as int, process_ms as int),
        match calendar { Some(c) => c.well_formed(), None => true },
        match daily_work_window { Some(w) => w.well_formed(), None => true },
    ensures
        pieces_numbered(task_views(r.tasks@)),
        pieces_of(task_views(r.tasks@), operation_id@, job_id@),
        r.tasks.len() <= 365,
        r.tasks.len() > 0 ==> r.final_end_ms == r.tasks@.last().plan_end_ms,
        !is_splittable ==> r.tasks.len() == 1
            && task_views(r.tasks@)[0].plan_end_ms - task_views(r.tasks@)[0].plan_begin_ms == setup_ms + process_ms
            && task_views(r.tasks@)[0].setup_ms == setup_ms
            && task_views(r.tasks@)[0].id == task_id_text(operation_id@, 1),
        !is_splittable && (match calendar { Some(c) => c.shifts@.len() > 0, None => false }) ==> {
            let t = task_views(r.tasks@)[0];
            let cal = calendar.unwrap();
            let d = setup_ms + process_ms;
            &&& t.plan_begin_ms >= start_ms
            &&& (fits_working_time(cal, t.plan_begin_ms, d, daily_work_window)
                || !cal.is_working(t.plan_begin_ms)
                || t.plan_begin_ms <= start_ms + 63_244_800_000 + 4 * MS_PER_DAY)
            &&& (d > 0 && start_ms >= 0 ==> forall|y: int| start_ms <= y < t.plan_begin_ms
                ==> !#[trigger] fits_in_day(cal, y, d, daily_work_window))
        },
        !is_splittable && daily_work_window is None && (match calendar { Some(c) => c.shifts@.len() > 0, None => false })
            && setup_ms + process_ms > 0 && start_ms >= 0 ==> {
            let t = task_views(r.tasks@)[0];
            let cal = calendar.unwrap();
            let d = setup_ms + process_ms;
            ||| fits_in_day(cal, t.plan_begin_ms, d, None)
            ||| no_working_within(cal, t.plan_begin_ms)
            ||| forall|y: int| start_ms <= y < (day_index(start_ms as int) + 720int / stretch_ends_per_day(cal) - 1) * MS_PER_DAY
                ==> !#[trigger] fits_in_day(cal, y, d, None)
        },
        (match calendar { Some(c) => c.shifts@.len() == 0, None => true }) && daily_work_window is None ==> {
            &&& r.tasks.len() == 1
            &&& task_views(r.tasks@)[0].id == task_id_text(operation_id@, 1)
            &&& task_views(r.tasks@)[0].plan_begin_ms == start_ms
            &&& task_views(r.tasks@)[0].plan_end_ms == start_ms + setup_ms + process_ms
            &&& task_views(r.tasks@)[0].setup_ms == setup_ms
            &&& task_views(r.tasks@)[0].process_ms == process_ms
            &&& task_views(r.tasks@)[0].is_splittable == is_splittable
            &&& r.final_end_ms == start_ms + setup_ms + process_ms
        },
        is_splittable ==> forall|i: int| 0 <= i < r.tasks.len()
            ==> piece_respects_time(calendar, daily_work_window, #[trigger] task_views(r.tasks@)[i]),
        pieces_in_order(task_views(r.tasks@), start_ms as int),
        (match calendar { Some(c) => c.shifts@.len() == 0, None => true }) ==> forall|i: int| 0 <= i < r.tasks.len() ==> {
            let t = #[trigger] task_views(r.tasks@)[i];
            t.plan_end_ms - t.plan_begin_ms == t.setup_ms + t.process_ms
        },
        (match calendar { Some(c) => c.shifts@.len() == 0, None => true }) && daily_work_window is Some && is_splittable
            && setup_ms >= 0 && process_ms >= 0 ==> pieces_nonnegative(task_views(r.tasks@))
            && forall|i: int| 0 <= i < r.tasks.len() ==> fits_window_at((#[trigger] task_views(r.tasks@)[i]).plan_begin_ms,
                daily_work_window.unwrap(), task_views(r.tasks@)[i].setup_ms + task_views(r.tasks@)[i].process_ms),
        (match calendar { Some(c) => c.shifts@.len() > 0, None => false }) && daily_work_window is None && is_splittable
            && setup_ms >= 0 && process_ms > 0 ==>
            total_process(task_views(r.tasks@)) == process_ms || r.tasks.len() == MAX_SPLIT_PIECES,
        (match calendar { Some(c) => c.shifts@.len() == 0, None => true }) && daily_work_window is Some && !is_splittable
            && start_ms >= 0 ==> {
            let w = daily_work_window.unwrap();
            let b = task_views(r.tasks@)[0].plan_begin_ms;
            let d = setup_ms + process_ms;
            &&& forall|y: int| start_ms <= y < b ==> !#[trigger] fits_window_at(y, w, d)
            &&& (spec_remaining_in_daily_window(b, w) >= d || window_length_ms(w) < d)
        },
        (match calendar { Some(c) => c.shifts@.len() == 0, None => true }) && daily_work_window is Some && is_splittable
            && setup_ms >= 0 && process_ms > 0 && start_ms >= 0 ==> {
            ||| (total_setup(task_views(r.tasks@)) == setup_ms && total_process(task_views(r.tasks@)) == process_ms)
            ||| (r.tasks.len() == 365 && total_process(task_views(r.tasks@)) < process_ms)
        },
{
    let requested_start = start_ms;
    let start_ms = match daily_work_window {
        Some(window) => {
            proof {
                crate::calendar::lemma_advance_not_before(start_ms as int, window);
            }
            advance_to_daily_window(start_ms, window)
        }
        None => start_ms,
    };
    let cal = match calendar {
        Some(c) => {
            if c.shifts.len() == 0 {
                None
            } else {
                Some(c)
            }
        }
        None => None,
    };
    match cal {
        None => {
            match daily_work_window {
                Some(window) => {
                    let r = split_by_daily_window_only(
                        operation_id, job_id, product_name, start_ms, setup_ms, process_ms, is_splittable, window,
                    );
                    proof {
                        if !is_splittable && requested_start >= 0 {
                            crate::calendar::law_advance_is_earliest_in_window(requested_start as int, window);
                            let b = task_views(r.tasks@)[0].plan_begin_ms;
                            let d = setup_ms + process_ms;
                            assert forall|y: int| requested_start <= y < b implies !#[trigger] fits_window_at(y, window, d) by {
                                if y >= start_ms {
                                    assert(!fits_window_at(y, window, d));
                                }
                            }
                        }
                    }
                    return r;
                }
                None => {
                    let end_ms = start_ms + setup_ms + process_ms;
                    let task = Task::from_operation(operation_id, job_id, product_name, start_ms, end_ms, setup_ms, is_splittable);
                    let mut tasks: Vec<Task> = Vec::new();
                    tasks.push(task);
                    assert(task_views(tasks@)[0] == tasks@[0]@);
                    return SplitResult { tasks, final_end_ms: end_ms };
                }
            }
        }
        Some(cal) => {
            let cal_start = cal.next_working_time(start_ms);
            let actual_start = match daily_work_window {
                Some(window) => {
                    proof { crate::calendar::lemma_advance_not_before(cal_start as int, window); }
                    advance_to_daily_window(cal_start, window)
                }
                None => cal_start,
            };
            if !is_splittable {
                let total_duration = setup_ms + process_ms;
                let (delay_start, end_ms) = find_continuous_window(cal, actual_start, total_duration, daily_work_window);
                proof {
                    let d = total_duration as int;
                    if d > 0 && requested_start >= 0 {
                        match daily_work_window {
                            Some(w) => {
                                crate::calendar::law_advance_is_earliest_in_window(requested_start as int, w);
                                crate::calendar::law_advance_is_earliest_in_window(cal_start as int, w);
                            }
                            None => {}
                        }
                        assert forall|y: int| requested_start <= y < delay_start implies !#[trigger] fits_in_day(cal, y, d, daily_work_window) by {
                            if y < start_ms {
                                match daily_work_window {
                                    Some(w) => { assert(!w.spec_contains_minute(spec_minute_of_day(y))); }
                                    None => {}
                                }
                            } else if y < cal_start {
                                assert(!cal.is_working(y));
                            } else if y < actual_start {
                                match daily_work_window {
                                    Some(w) => { assert(!w.spec_contains_minute(spec_minute_of_day(y))); }
                                    None => {}
                                }
                            }
                        }
                        if daily_work_window is None {
                            lemma_day_monotone(requested_start as int, actual_start as int);
                            let kk = stretch_ends_per_day(cal);
                            let h0 = day_index(requested_start as int) + 720int / kk - 1;
                            let h1 = day_index(actual_start as int) + 720int / kk - 1;
                            assert(h0 * MS_PER_DAY <= h1 * MS_PER_DAY);
                            if !fits_in_day(cal, delay_start as int, d, None) && !no_working_within(cal, delay_start as int) {
                                assert forall|y: int| requested_start <= y < h0 * MS_PER_DAY
                                    implies !#[trigger] fits_in_day(cal, y, d, None) by {
                                    if y < delay_start {
                                        assert(!fits_in_day(cal, y, d, daily_work_window));
                                    } else if y < actual_start {
                                        assert(false);
                                    }
                                }
                            }
                        }
                    }
                }
                let task = Task::from_operation(operation_id, job_id, product_name, delay_start, end_ms, setup_ms, false);
                let mut tasks: Vec<Task> = Vec::new();
                tasks.push(task);
                assert(task_views(tasks@)[0] == tasks@[0]@);
                return SplitResult { tasks, final_end_ms: end_ms };
            }
            split_into_tasks(operation_id, job_id, product_name, actual_start, setup_ms, process_ms, cal, daily_work_window)
        }
    }
}

} // verus!
