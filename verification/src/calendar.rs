//! Working time: daily work windows and shift calendars.

use vstd::prelude::*;
use vstd::arithmetic::div_mod::{lemma_div_is_ordered, lemma_fundamental_div_mod, lemma_fundamental_div_mod_converse_div, lemma_fundamental_div_mod_converse_mod};

verus! {

/// Milliseconds in one minute.
pub const MS_PER_MINUTE: i64 = 60_000;

/// Milliseconds in one day.
pub const MS_PER_DAY: i64 = 86_400_000;

/// Minutes in one day.
pub const MINUTES_PER_DAY: i32 = 1440;

/// Truncating remainder, as Rust's `%` on signed integers.
pub open spec fn trunc_rem(a: int, b: int) -> int {
    if a >= 0 { a % b } else { -((-a) % b) }
}

/// Truncating quotient, as Rust's `/` on signed integers.
pub open spec fn trunc_div(a: int, b: int) -> int {
    if a >= 0 { a / b } else { -((-a) / b) }
}

/// Minute of the (UTC) day of an instant, as computed with truncating arithmetic
/// (negative before the epoch).
pub open spec fn spec_minute_of_day(epoch_ms: int) -> int {
    trunc_div(trunc_rem(epoch_ms, MS_PER_DAY as int), MS_PER_MINUTE as int)
}

/// The instant rounded to a multiple of a day towards zero (UTC midnight for instants after the epoch).
pub open spec fn spec_floor_to_midnight(epoch_ms: int) -> int {
    trunc_div(epoch_ms, MS_PER_DAY as int) * MS_PER_DAY
}

/// Converts an instant to its minute of the UTC day.
pub fn minute_of_day(epoch_ms: i64) -> (m: i32)
    ensures
        m == spec_minute_of_day(epoch_ms as int),
        -1440 < m < 1440,
{
    let ms_per_minute: i64 = 60 * 1000;
    let ms_per_day: i64 = 24 * 60 * ms_per_minute;
    let r = epoch_ms % ms_per_day;
    assert(r == trunc_rem(epoch_ms as int, MS_PER_DAY as int));
    let q = r / ms_per_minute;
    assert(q == trunc_div(r as int, MS_PER_MINUTE as int));
    q as i32
}

/// Rounds an instant to a multiple of a day towards zero.
pub fn floor_to_midnight(epoch_ms: i64) -> (m: i64)
    ensures
        m == spec_floor_to_midnight(epoch_ms as int),
{
    let ms_per_day: i64 = 24 * 60 * 60 * 1000i64;
    let q = epoch_ms / ms_per_day;
    assert(q == trunc_div(epoch_ms as int, MS_PER_DAY as int));
    proof { lemma_trunc_div_mul_bound(epoch_ms as int); }
    q * ms_per_day
}

proof fn lemma_trunc_div_mul_bound(a: int)
    requires
        i64::MIN <= a <= i64::MAX,
    ensures
        i64::MIN <= trunc_div(a, MS_PER_DAY as int) * MS_PER_DAY <= i64::MAX,
        a >= 0 ==> 0 <= a - trunc_div(a, MS_PER_DAY as int) * MS_PER_DAY < MS_PER_DAY,
        a < 0 ==> -MS_PER_DAY < a - trunc_div(a, MS_PER_DAY as int) * MS_PER_DAY <= 0,
{
    if a >= 0 {
        assert(0 <= a - (a / 86_400_000) * 86_400_000 < 86_400_000) by (nonlinear_arith)
            requires a >= 0;
        assert((a / 86_400_000) * 86_400_000 <= a) by (nonlinear_arith) requires a >= 0;
    } else {
        let b = -a;
        assert(0 <= b - (b / 86_400_000) * 86_400_000 < 86_400_000) by (nonlinear_arith)
            requires b > 0;
        assert((b / 86_400_000) * 86_400_000 <= b) by (nonlinear_arith) requires b > 0;
        assert(trunc_div(a, MS_PER_DAY as int) * MS_PER_DAY == -((b / 86_400_000) * 86_400_000)) by (nonlinear_arith)
            requires b == -a, a < 0;
    }
}

/// A daily window of working minutes `[begin, end)`; when `end <= begin` the window
/// runs over midnight.
#[derive(Debug, Clone, Copy, PartialEq, Eq, Structural)]
pub struct DailyWorkWindow {
    /// First minute of the day inside the window (0..1440).
    pub begin_minute: i32,
    /// First minute of the day after the window (0..1440).
    pub end_minute: i32,
}

impl DailyWorkWindow {
    /// Whether the minutes lie within a day.
    pub open spec fn well_formed(self) -> bool {
        0 <= self.begin_minute < 1440 && 0 <= self.end_minute < 1440
    }

    /// Whether a minute of the day is inside the window.
    pub open spec fn spec_contains_minute(self, m: int) -> bool {
        if self.end_minute > self.begin_minute {
            self.begin_minute <= m < self.end_minute
        } else {
            m >= self.begin_minute || m < self.end_minute
        }
    }

    /// The window from `begin_hour:begin_min` to `end_hour:end_min`.
    pub fn from_hm(begin_hour: i32, begin_min: i32, end_hour: i32, end_min: i32) -> (w: DailyWorkWindow)
        requires
            0 <= begin_hour < 24,
            0 <= begin_min < 60,
            0 <= end_hour < 24,
            0 <= end_min < 60,
        ensures
            w.begin_minute == begin_hour * 60 + begin_min,
            w.end_minute == end_hour * 60 + end_min,
            w.well_formed(),
    {
        DailyWorkWindow { begin_minute: begin_hour * 60 + begin_min, end_minute: end_hour * 60 + end_min }
    }

    /// Whether a minute of the day is inside the window.
    pub fn contains_minute(&self, m: i32) -> (b: bool)
        ensures
            b == self.spec_contains_minute(m as int),
    {
        if self.end_minute > self.begin_minute {
            self.begin_minute <= m && m < self.end_minute
        } else {
            m >= self.begin_minute || m < self.end_minute
        }
    }
}

/// The instant at which work may start under a daily window: itself when inside the
/// window, otherwise the next start of the window.
pub open spec fn spec_advance_to_daily_window(epoch_ms: int, w: DailyWorkWindow) -> int {
    let m = spec_minute_of_day(epoch_ms);
    let midnight = spec_floor_to_midnight(epoch_ms);
    if w.end_minute > w.begin_minute {
        if m < w.begin_minute {
            midnight + w.begin_minute * MS_PER_MINUTE
        } else if m >= w.end_minute {
            midnight + MS_PER_DAY + w.begin_minute * MS_PER_MINUTE
        } else {
            epoch_ms
        }
    } else if w.spec_contains_minute(m) {
        epoch_ms
    } else {
        let candidate = midnight + w.begin_minute * MS_PER_MINUTE;
        if candidate >= epoch_ms { candidate } else { candidate + MS_PER_DAY }
    }
}

/// Time left in the daily window from an instant (0 outside the window).
pub open spec fn spec_remaining_in_daily_window(epoch_ms: int, w: DailyWorkWindow) -> int {
    let m = spec_minute_of_day(epoch_ms);
    let midnight = spec_floor_to_midnight(epoch_ms);
    if !w.spec_contains_minute(m) {
        0
    } else {
        let end_ms = if w.end_minute > w.begin_minute {
            midnight + w.end_minute * MS_PER_MINUTE
        } else if m >= w.begin_minute {
            midnight + MS_PER_DAY + w.end_minute * MS_PER_MINUTE
        } else {
            midnight + w.end_minute * MS_PER_MINUTE
        };
        if end_ms - epoch_ms > 0 { end_ms - epoch_ms } else { 0 }
    }
}

/// Bound on instants handled by the working-time arithmetic (about 36 million years).
pub const TIME_LIMIT: i64 = 0x1000_0000_0000_0000;

/// Whether an instant is within the bound handled by the working-time arithmetic.
pub open spec fn in_time_range(t: int) -> bool {
    -TIME_LIMIT <= t <= TIME_LIMIT
}

/// Moves an instant forward to the earliest valid time under a daily window.
pub fn advance_to_daily_window(epoch_ms: i64, window: DailyWorkWindow) -> (r: i64)
    requires
        in_time_range(epoch_ms as int),
        window.well_formed(),
    ensures
        r == spec_advance_to_daily_window(epoch_ms as int, window),
{
    let ms_per_minute: i64 = 60 * 1000i64;
    let ms_per_day: i64 = 24 * 60 * ms_per_minute;
    let mod_of_day = minute_of_day(epoch_ms);
    let midnight = floor_to_midnight(epoch_ms);
    proof { lemma_trunc_div_mul_bound(epoch_ms as int); }
    if window.end_minute > window.begin_minute {
        if mod_of_day < window.begin_minute {
            midnight + window.begin_minute as i64 * ms_per_minute
        } else if mod_of_day >= window.end_minute {
            midnight + ms_per_day + window.begin_minute as i64 * ms_per_minute
        } else {
            epoch_ms
        }
    } else {
        if window.contains_minute(mod_of_day) {
            epoch_ms
        } else {
            let candidate = midnight + window.begin_minute as i64 * ms_per_minute;
            if candidate >= epoch_ms {
                candidate
            } else {
                candidate + ms_per_day
            }
        }
    }
}

/// Time left from an instant until the end of the daily window (0 outside the window).
pub fn remaining_in_daily_window(epoch_ms: i64, window: DailyWorkWindow) -> (r: i64)
    requires
        in_time_range(epoch_ms as int),
        window.well_formed(),
    ensures
        r == spec_remaining_in_daily_window(epoch_ms as int, window),
        r >= 0,
{
    let ms_per_minute: i64 = 60 * 1000i64;
    let mod_of_day = minute_of_day(epoch_ms);
    if !window.contains_minute(mod_of_day) {
        return 0;
    }
    let midnight = floor_to_midnight(epoch_ms);
    proof { lemma_trunc_div_mul_bound(epoch_ms as int); }
    if window.end_minute > window.begin_minute {
        let end_ms = midnight + window.end_minute as i64 * ms_per_minute;
        if end_ms - epoch_ms > 0 { end_ms - epoch_ms } else { 0 }
    } else {
        let ms_per_day: i64 = 24 * 60 * ms_per_minute;
        let end_ms = if mod_of_day >= window.begin_minute {
            midnight + ms_per_day + window.end_minute as i64 * ms_per_minute
        } else {
            midnight + window.end_minute as i64 * ms_per_minute
        };
        if end_ms - epoch_ms > 0 { end_ms - epoch_ms } else { 0 }
    }
}


/// Euclidean day index of an instant (days since the epoch, rounded down).
pub open spec fn day_index(t: int) -> int {
    t / (MS_PER_DAY as int)
}

/// Milliseconds since the (UTC) midnight starting the instant's day.
pub open spec fn time_of_day(t: int) -> int {
    t % (MS_PER_DAY as int)
}

/// Day of the week of a day index: 0 is Sunday, 1 Monday, ..., 6 Saturday
/// (the epoch, day 0, was a Thursday).
pub open spec fn weekday_of_day(day: int) -> int {
    (day + 4) % 7
}

/// A recurring shift: working minutes `[start_minute, end_minute)` on the listed
/// days of the week (0 = Sunday, ..., 6 = Saturday).
#[derive(Debug, Clone)]
pub struct Shift {
    pub id: String,
    pub name: String,
    pub start_minute: i32,
    pub end_minute: i32,
    pub days: Vec<u8>,
}

/// A daily break `[start_minute, end_minute)` during which no one works.
#[derive(Debug, Clone)]
pub struct BreakTime {
    pub name: String,
    pub start_minute: i32,
    pub end_minute: i32,
}

/// Why a working window ends.
#[derive(Debug, Clone, Copy, PartialEq, Eq, Structural)]
pub enum WorkingWindowEndReason {
    /// A break starts.
    BreakStart,
    /// The shift ends (or the day ends).
    ShiftEnd,
    /// A holiday starts.
    Holiday,
}

/// An operating calendar: shifts, daily breaks and holidays (given by any instant of
/// the day, usually its midnight).
#[derive(Debug, Clone)]
pub struct Calendar {
    pub id: String,
    pub name: String,
    pub shifts: Vec<Shift>,
    pub breaks: Vec<BreakTime>,
    pub holidays: Vec<i64>,
}

impl Shift {
    /// Whether the shift's minutes lie within a day.
    pub open spec fn well_formed(&self) -> bool {
        0 <= self.start_minute <= 1440 && 0 <= self.end_minute <= 1440
    }

    /// Whether the shift runs on a day.
    pub open spec fn runs_on(&self, day: int) -> bool {
        exists|k: int| 0 <= k < self.days@.len() && self.days@[k] as int == weekday_of_day(day)
    }

    /// Whether the shift covers a time of day on a day.
    pub open spec fn covers(&self, day: int, tod: int) -> bool {
        &&& self.runs_on(day)
        &&& self.start_minute * MS_PER_MINUTE <= tod < self.end_minute * MS_PER_MINUTE
    }

    /// A shift.
    pub fn new(id: &str, name: &str, start_minute: i32, end_minute: i32, days: Vec<u8>) -> (s: Shift)
        ensures
            s.id@ == id@,
            s.name@ == name@,
            s.start_minute == start_minute,
            s.end_minute == end_minute,
            s.days@ == days@,
    {
        Shift { id: String::from_str(id), name: String::from_str(name), start_minute, end_minute, days }
    }

    /// The day shift: 08:00 to 17:00, Monday to Friday.
    pub fn day_shift() -> (s: Shift)
        ensures
            s.start_minute == 480,
            s.end_minute == 1020,
            s.days@ == seq![1u8, 2u8, 3u8, 4u8, 5u8],
            s.well_formed(),
    {
        let mut days: Vec<u8> = Vec::new();
        days.push(1);
        days.push(2);
        days.push(3);
        days.push(4);
        days.push(5);
        assert(days@ =~= seq![1u8, 2u8, 3u8, 4u8, 5u8]);
        Shift::new("DAY", "Day Shift", 480, 1020, days)
    }
}

impl BreakTime {
    /// Whether the break's minutes lie within a day.
    pub open spec fn well_formed(&self) -> bool {
        0 <= self.start_minute <= 1440 && 0 <= self.end_minute <= 1440
    }

    /// Whether the break covers a time of day.
    pub open spec fn covers(&self, tod: int) -> bool {
        self.start_minute * MS_PER_MINUTE <= tod < self.end_minute * MS_PER_MINUTE
    }

    /// A break.
    pub fn new(name: &str, start_minute: i32, end_minute: i32) -> (b: BreakTime)
        ensures
            b.name@ == name@,
            b.start_minute == start_minute,
            b.end_minute == end_minute,
    {
        BreakTime { name: String::from_str(name), start_minute, end_minute }
    }

    /// The lunch break: 12:00 to 13:00.
    pub fn lunch() -> (b: BreakTime)
        ensures
            b.start_minute == 720,
            b.end_minute == 780,
            b.well_formed(),
    {
        BreakTime::new("Lunch", 720, 780)
    }
}

impl Calendar {
    /// Whether all shifts and breaks lie within a day and holidays are in range.
    pub open spec fn well_formed(&self) -> bool {
        &&& forall|i: int| 0 <= i < self.shifts@.len() ==> #[trigger] self.shifts@[i].well_formed()
        &&& forall|j: int| 0 <= j < self.breaks@.len() ==> #[trigger] self.breaks@[j].well_formed()
    }

    /// Whether a day is a holiday.
    pub open spec fn is_holiday(&self, day: int) -> bool {
        exists|h: int| 0 <= h < self.holidays@.len() && day_index(self.holidays@[h] as int) == day
    }

    /// Whether some shift covers a time of day on a day.
    pub open spec fn in_shift(&self, day: int, tod: int) -> bool {
        exists|i: int| 0 <= i < self.shifts@.len() && #[trigger] self.shifts@[i].covers(day, tod)
    }

    /// Whether some break covers a time of day.
    pub open spec fn in_break(&self, tod: int) -> bool {
        exists|j: int| 0 <= j < self.breaks@.len() && #[trigger] self.breaks@[j].covers(tod)
    }

    /// Whether a time of day on a day is working time.
    pub open spec fn working_at(&self, day: int, tod: int) -> bool {
        !self.is_holiday(day) && self.in_shift(day, tod) && !self.in_break(tod)
    }

    /// Whether an instant is working time.
    pub open spec fn is_working(&self, t: int) -> bool {
        self.working_at(day_index(t), time_of_day(t))
    }

    /// An empty calendar (no shifts: work at any time).
    pub fn new(id: &str, name: &str) -> (c: Calendar)
        ensures
            c.id@ == id@,
            c.name@ == name@,
            c.shifts@.len() == 0,
            c.breaks@.len() == 0,
            c.holidays@.len() == 0,
            c.well_formed(),
    {
        Calendar {
            id: String::from_str(id),
            name: String::from_str(name),
            shifts: Vec::new(),
            breaks: Vec::new(),
            holidays: Vec::new(),
        }
    }

    /// Adds a shift.
    pub fn with_shift(self, shift: Shift) -> (c: Calendar)
        ensures
            c.id == self.id,
            c.name == self.name,
            c.shifts@ == self.shifts@.push(shift),
            c.breaks@ == self.breaks@,
            c.holidays@ == self.holidays@,
    {
        let mut c = self;
        c.shifts.push(shift);
        c
    }

    /// Adds a break.
    pub fn with_break(self, b: BreakTime) -> (c: Calendar)
        ensures
            c.id == self.id,
            c.name == self.name,
            c.shifts@ == self.shifts@,
            c.breaks@ == self.breaks@.push(b),
            c.holidays@ == self.holidays@,
    {
        let mut c = self;
        c.breaks.push(b);
        c
    }

    /// Adds a holiday (any instant of the day).
    pub fn with_holiday(self, day_ms: i64) -> (c: Calendar)
        ensures
            c.id == self.id,
            c.name == self.name,
            c.shifts@ == self.shifts@,
            c.breaks@ == self.breaks@,
            c.holidays@ == self.holidays@.push(day_ms),
    {
        let mut c = self;
        c.holidays.push(day_ms);
        c
    }

    /// The default day calendar `CAL-DAY`: day shift 08:00-17:00 Monday to Friday,
    /// lunch break 12:00-13:00.
    pub fn default_day() -> (c: Calendar)
        ensures
            c.shifts@.len() == 1,
            c.shifts@[0].start_minute == 480,
            c.shifts@[0].end_minute == 1020,
            c.shifts@[0].days@ == seq![1u8, 2u8, 3u8, 4u8, 5u8],
            c.breaks@.len() == 1,
            c.breaks@[0].start_minute == 720,
            c.breaks@[0].end_minute == 780,
            c.holidays@.len() == 0,
            c.well_formed(),
    {
        Calendar::new("CAL-DAY", "Day Calendar").with_shift(Shift::day_shift()).with_break(BreakTime::lunch())
    }
}


// ---------------------------------------------------------------------------
// Interval end points of working time within a day
// ---------------------------------------------------------------------------

/// Latest break end at or before `y`, or `init` when none is later.
pub open spec fn max_break_end_upto(bs: Seq<BreakTime>, y: int, init: int) -> int
    decreases bs.len(),
{
    if bs.len() == 0 {
        init
    } else {
        let r = max_break_end_upto(bs.drop_last(), y, init);
        let e = bs.last().end_minute * MS_PER_MINUTE;
        if e <= y && e > r { e } else { r }
    }
}

proof fn lemma_max_break_end_upto(bs: Seq<BreakTime>, y: int, init: int)
    ensures
        max_break_end_upto(bs, y, init) >= init,
        init <= y ==> max_break_end_upto(bs, y, init) <= y,
        max_break_end_upto(bs, y, init) == init || exists|j: int| 0 <= j < bs.len()
            && max_break_end_upto(bs, y, init) == #[trigger] bs[j].end_minute * MS_PER_MINUTE,
        forall|j: int| 0 <= j < bs.len() && #[trigger] bs[j].end_minute * MS_PER_MINUTE <= y
            ==> max_break_end_upto(bs, y, init) >= bs[j].end_minute * MS_PER_MINUTE,
    decreases bs.len(),
{
    if bs.len() > 0 {
        let t = bs.drop_last();
        lemma_max_break_end_upto(t, y, init);
        let r = max_break_end_upto(t, y, init);
        assert forall|j: int| 0 <= j < bs.len() && #[trigger] bs[j].end_minute * MS_PER_MINUTE <= y
            implies max_break_end_upto(bs, y, init) >= bs[j].end_minute * MS_PER_MINUTE by {
            if j < bs.len() - 1 {
                assert(t[j] == bs[j]);
            }
        }
        if max_break_end_upto(bs, y, init) != init {
            if max_break_end_upto(bs, y, init) == r {
                let j = choose|j: int| 0 <= j < t.len() && r == #[trigger] t[j].end_minute * MS_PER_MINUTE;
                assert(t[j] == bs[j]);
            } else {
                assert(bs[bs.len() - 1] == bs.last());
            }
        }
    }
}

/// Latest end at or before `y` of a shift running on `day`, or `init` when none is later.
pub open spec fn max_shift_end_upto(ss: Seq<Shift>, day: int, y: int, init: int) -> int
    decreases ss.len(),
{
    if ss.len() == 0 {
        init
    } else {
        let r = max_shift_end_upto(ss.drop_last(), day, y, init);
        let e = ss.last().end_minute * MS_PER_MINUTE;
        if ss.last().runs_on(day) && e <= y && e > r { e } else { r }
    }
}

proof fn lemma_max_shift_end_upto(ss: Seq<Shift>, day: int, y: int, init: int)
    ensures
        max_shift_end_upto(ss, day, y, init) >= init,
        init <= y ==> max_shift_end_upto(ss, day, y, init) <= y,
        max_shift_end_upto(ss, day, y, init) == init || exists|i: int| 0 <= i < ss.len()
            && ss[i].runs_on(day)
            && max_shift_end_upto(ss, day, y, init) == #[trigger] ss[i].end_minute * MS_PER_MINUTE,
        forall|i: int| 0 <= i < ss.len() && ss[i].runs_on(day) && #[trigger] ss[i].end_minute * MS_PER_MINUTE <= y
            ==> max_shift_end_upto(ss, day, y, init) >= ss[i].end_minute * MS_PER_MINUTE,
    decreases ss.len(),
{
    if ss.len() > 0 {
        let t = ss.drop_last();
        lemma_max_shift_end_upto(t, day, y, init);
        let r = max_shift_end_upto(t, day, y, init);
        assert forall|i: int| 0 <= i < ss.len() && ss[i].runs_on(day) && #[trigger] ss[i].end_minute * MS_PER_MINUTE <= y
            implies max_shift_end_upto(ss, day, y, init) >= ss[i].end_minute * MS_PER_MINUTE by {
            if i < ss.len() - 1 {
                assert(t[i] == ss[i]);
            }
        }
        if max_shift_end_upto(ss, day, y, init) != init {
            if max_shift_end_upto(ss, day, y, init) == r {
                let i = choose|i: int| 0 <= i < t.len() && t[i].runs_on(day) && r == #[trigger] t[i].end_minute * MS_PER_MINUTE;
                assert(t[i] == ss[i]);
            } else {
                assert(ss[ss.len() - 1] == ss.last());
            }
        }
    }
}

/// Latest break start at or before `y`, or `init` when none is later.
pub open spec fn max_break_start_upto(bs: Seq<BreakTime>, y: int, init: int) -> int
    decreases bs.len(),
{
    if bs.len() == 0 {
        init
    } else {
        let r = max_break_start_upto(bs.drop_last(), y, init);
        let e = bs.last().start_minute * MS_PER_MINUTE;
        if e <= y && e > r { e } else { r }
    }
}

proof fn lemma_max_break_start_upto(bs: Seq<BreakTime>, y: int, init: int)
    ensures
        max_break_start_upto(bs, y, init) >= init,
        init <= y ==> max_break_start_upto(bs, y, init) <= y,
        max_break_start_upto(bs, y, init) == init || exists|j: int| 0 <= j < bs.len()
            && max_break_start_upto(bs, y, init) == #[trigger] bs[j].start_minute * MS_PER_MINUTE,
        forall|j: int| 0 <= j < bs.len() && #[trigger] bs[j].start_minute * MS_PER_MINUTE <= y
            ==> max_break_start_upto(bs, y, init) >= bs[j].start_minute * MS_PER_MINUTE,
    decreases bs.len(),
{
    if bs.len() > 0 {
        let t = bs.drop_last();
        lemma_max_break_start_upto(t, y, init);
        let r = max_break_start_upto(t, y, init);
        assert forall|j: int| 0 <= j < bs.len() && #[trigger] bs[j].start_minute * MS_PER_MINUTE <= y
            implies max_break_start_upto(bs, y, init) >= bs[j].start_minute * MS_PER_MINUTE by {
            if j < bs.len() - 1 {
                assert(t[j] == bs[j]);
            }
        }
        if max_break_start_upto(bs, y, init) != init {
            if max_break_start_upto(bs, y, init) == r {
                let j = choose|j: int| 0 <= j < t.len() && r == #[trigger] t[j].start_minute * MS_PER_MINUTE;
                assert(t[j] == bs[j]);
            } else {
                assert(bs[bs.len() - 1] == bs.last());
            }
        }
    }
}

impl Calendar {
    /// A point where working time may begin: a shift start or a break end.
    pub open spec fn is_left_candidate(&self, c: int) -> bool {
        ||| exists|i: int| 0 <= i < self.shifts@.len() && c == #[trigger] self.shifts@[i].start_minute * MS_PER_MINUTE
        ||| exists|j: int| 0 <= j < self.breaks@.len() && c == #[trigger] self.breaks@[j].end_minute * MS_PER_MINUTE
    }

    /// A point where working time may end on a day: the end of a shift running that
    /// day, or a break start.
    pub open spec fn is_right_candidate(&self, day: int, c: int) -> bool {
        ||| exists|i: int| 0 <= i < self.shifts@.len() && self.shifts@[i].runs_on(day)
                && c == #[trigger] self.shifts@[i].end_minute * MS_PER_MINUTE
        ||| exists|j: int| 0 <= j < self.breaks@.len() && c == #[trigger] self.breaks@[j].start_minute * MS_PER_MINUTE
    }
}

/// When `from` is not working time but a later instant `y` of the same day is, some
/// shift start or break end in `(from, y]` is working time.
proof fn lemma_left_endpoint(cal: &Calendar, day: int, from: int, y: int)
    requires
        from <= y,
        cal.working_at(day, y),
        !cal.working_at(day, from),
    ensures
        exists|c: int| from < c <= y && cal.is_left_candidate(c) && cal.working_at(day, c),
{
    let i = choose|i: int| 0 <= i < cal.shifts@.len() && #[trigger] cal.shifts@[i].covers(day, y);
    let sh = cal.shifts@[i];
    let bs = cal.breaks@;
    let init = sh.start_minute * MS_PER_MINUTE;
    lemma_max_break_end_upto(bs, y, init);
    let q = max_break_end_upto(bs, y, init);
    assert(sh.covers(day, q));
    assert(cal.in_shift(day, q));
    if cal.in_break(q) {
        let j = choose|j: int| 0 <= j < bs.len() && #[trigger] bs[j].covers(q);
        if bs[j].end_minute * MS_PER_MINUTE <= y {
            assert(q >= bs[j].end_minute * MS_PER_MINUTE);
        } else {
            assert(bs[j].covers(y));
        }
    }
    assert(cal.working_at(day, q));
    if q <= from {
        assert(sh.covers(day, from));
        assert(cal.in_shift(day, from));
        let k = choose|k: int| 0 <= k < bs.len() && #[trigger] bs[k].covers(from);
        if bs[k].end_minute * MS_PER_MINUTE <= y {
            assert(q >= bs[k].end_minute * MS_PER_MINUTE);
        } else {
            assert(bs[k].covers(y));
        }
    }
    if q == init {
        assert(cal.is_left_candidate(q));
    } else {
        let j = choose|j: int| 0 <= j < bs.len() && q == #[trigger] bs[j].end_minute * MS_PER_MINUTE;
        assert(cal.is_left_candidate(q));
    }
}

/// When `t` is working time but a later instant `y` of the same day is not, some
/// end of a shift running that day or break start in `(t, y]` is not working time.
proof fn lemma_right_endpoint(cal: &Calendar, day: int, t: int, y: int)
    requires
        t < y,
        cal.working_at(day, t),
        !cal.working_at(day, y),
    ensures
        exists|c: int| t < c <= y && cal.is_right_candidate(day, c) && !cal.working_at(day, c),
{
    let ss = cal.shifts@;
    let bs = cal.breaks@;
    lemma_max_shift_end_upto(ss, day, y, t);
    let r1 = max_shift_end_upto(ss, day, y, t);
    lemma_max_break_start_upto(bs, y, r1);
    let l = max_break_start_upto(bs, y, r1);
    assert(t <= l <= y);
    // `l` lies after `t`
    if l == t {
        if cal.in_break(y) {
            let j = choose|j: int| 0 <= j < bs.len() && #[trigger] bs[j].covers(y);
            assert(l >= bs[j].start_minute * MS_PER_MINUTE);
            assert(bs[j].covers(t));
        } else {
            let a = choose|a: int| 0 <= a < ss.len() && #[trigger] ss[a].covers(day, t);
            assert(!ss[a].covers(day, y));
            assert(ss[a].end_minute * MS_PER_MINUTE <= y);
            assert(r1 >= ss[a].end_minute * MS_PER_MINUTE);
        }
    }
    // `l` is not working time
    if cal.working_at(day, l) {
        if cal.in_break(y) {
            let j = choose|j: int| 0 <= j < bs.len() && #[trigger] bs[j].covers(y);
            assert(l >= bs[j].start_minute * MS_PER_MINUTE);
            assert(bs[j].covers(l));
        } else {
            let a = choose|a: int| 0 <= a < ss.len() && #[trigger] ss[a].covers(day, l);
            assert(!ss[a].covers(day, y));
            assert(ss[a].end_minute * MS_PER_MINUTE <= y);
            assert(r1 >= ss[a].end_minute * MS_PER_MINUTE);
        }
    }
    // `l` is a candidate
    if l == r1 {
        if r1 == t {
            assert(false);
        } else {
            let a = choose|a: int| 0 <= a < ss.len() && ss[a].runs_on(day) && r1 == #[trigger] ss[a].end_minute * MS_PER_MINUTE;
            assert(cal.is_right_candidate(day, l));
        }
    } else {
        let j = choose|j: int| 0 <= j < bs.len() && l == #[trigger] bs[j].start_minute * MS_PER_MINUTE;
        assert(cal.is_right_candidate(day, l));
    }
}


// ---------------------------------------------------------------------------
// Executable working-time queries
// ---------------------------------------------------------------------------

/// Number of days after the start day that the search for working time looks at.
pub const SEARCH_DAYS: i64 = 731;

/// An instant lies in day `d` exactly when it is in `[d * day, (d + 1) * day)`.
pub proof fn lemma_day_of_instant(y: int, d: int)
    requires
        d * MS_PER_DAY <= y < (d + 1) * MS_PER_DAY,
    ensures
        day_index(y) == d,
        time_of_day(y) == y - d * MS_PER_DAY,
{
    lemma_fundamental_div_mod_converse_div(y, MS_PER_DAY as int, d, y - d * MS_PER_DAY);
    lemma_fundamental_div_mod_converse_mod(y, MS_PER_DAY as int, d, y - d * MS_PER_DAY);
}

pub(crate) proof fn lemma_day_bounds(t: int)
    ensures
        day_index(t) * MS_PER_DAY <= t < (day_index(t) + 1) * MS_PER_DAY,
        t == day_index(t) * MS_PER_DAY + time_of_day(t),
        0 <= time_of_day(t) < MS_PER_DAY,
{
    lemma_fundamental_div_mod(t, MS_PER_DAY as int);
}

/// Splits an instant into its day index and its time of day.
pub fn day_and_time(t: i64) -> (r: (i64, i64))
    ensures
        r.0 == day_index(t as int),
        r.1 == time_of_day(t as int),
        0 <= r.1 < MS_PER_DAY,
        r.0 * MS_PER_DAY + r.1 == t,
{
    let d: i64 = 86_400_000;
    let q = t / d;
    let r = t % d;
    proof {
        if t >= 0 {
            lemma_fundamental_div_mod(t as int, d as int);
        } else {
            lemma_fundamental_div_mod(-(t as int), d as int);
        }
        assert(t == q * d + r);
    }
    let (day, tod) = if r < 0 { (q - 1, r + d) } else { (q, r) };
    proof {
        lemma_fundamental_div_mod_converse_div(t as int, d as int, day as int, tod as int);
        lemma_fundamental_div_mod_converse_mod(t as int, d as int, day as int, tod as int);
    }
    (day, tod)
}

/// Day of the week of a day index (0 = Sunday).
pub fn weekday(day: i64) -> (w: i64)
    requires
        day <= i64::MAX - 4,
    ensures
        w == weekday_of_day(day as int),
        0 <= w < 7,
{
    let a = day + 4;
    let q = a / 7;
    let r = a % 7;
    proof {
        if a >= 0 {
            lemma_fundamental_div_mod(a as int, 7);
        } else {
            lemma_fundamental_div_mod(-(a as int), 7);
        }
        assert(a == q * 7 + r);
    }
    let (q2, w) = if r < 0 { (q - 1, r + 7) } else { (q, r) };
    proof {
        lemma_fundamental_div_mod_converse_mod(a as int, 7, q2 as int, w as int);
    }
    w
}

impl Shift {
    /// Whether the shift runs on a day.
    pub fn runs_on_day(&self, day: i64) -> (b: bool)
        requires
            day <= i64::MAX - 4,
        ensures
            b == self.runs_on(day as int),
    {
        let w = weekday(day);
        let mut k: usize = 0;
        while k < self.days.len()
            invariant
                k <= self.days.len(),
                w == weekday_of_day(day as int),
                forall|m: int| 0 <= m < k ==> self.days@[m] as int != w,
            decreases self.days.len() - k,
        {
            if self.days[k] as i64 == w {
                return true;
            }
            k += 1;
        }
        false
    }
}

impl Calendar {
    /// Whether a day is a holiday.
    pub fn holiday_on(&self, day: i64) -> (b: bool)
        ensures
            b == self.is_holiday(day as int),
    {
        let mut h: usize = 0;
        while h < self.holidays.len()
            invariant
                h <= self.holidays.len(),
                forall|m: int| 0 <= m < h ==> day_index(self.holidays@[m] as int) != day,
            decreases self.holidays.len() - h,
        {
            let (hd, _) = day_and_time(self.holidays[h]);
            if hd == day {
                return true;
            }
            h += 1;
        }
        false
    }

    /// Whether some shift covers a time of day on a day.
    pub fn in_shift_at(&self, day: i64, tod: i64) -> (b: bool)
        requires
            self.well_formed(),
            day <= i64::MAX - 4,
        ensures
            b == self.in_shift(day as int, tod as int),
    {
        let mut i: usize = 0;
        while i < self.shifts.len()
            invariant
                i <= self.shifts.len(),
                self.well_formed(),
                day <= i64::MAX - 4,
                forall|m: int| 0 <= m < i ==> !(#[trigger] self.shifts@[m].covers(day as int, tod as int)),
            decreases self.shifts.len() - i,
        {
            let sh = &self.shifts[i];
            assert(sh.well_formed());
            if sh.start_minute as i64 * 60_000 <= tod && tod < sh.end_minute as i64 * 60_000 && sh.runs_on_day(day) {
                assert(self.shifts@[i as int].covers(day as int, tod as int));
                return true;
            }
            i += 1;
        }
        false
    }

    /// Whether some break covers a time of day.
    pub fn in_break_at(&self, tod: i64) -> (b: bool)
        requires
            self.well_formed(),
        ensures
            b == self.in_break(tod as int),
    {
        let mut j: usize = 0;
        while j < self.breaks.len()
            invariant
                j <= self.breaks.len(),
                self.well_formed(),
                forall|m: int| 0 <= m < j ==> !(#[trigger] self.breaks@[m].covers(tod as int)),
            decreases self.breaks.len() - j,
        {
            let b = &self.breaks[j];
            assert(b.well_formed());
            if b.start_minute as i64 * 60_000 <= tod && tod < b.end_minute as i64 * 60_000 {
                assert(self.breaks@[j as int].covers(tod as int));
                return true;
            }
            j += 1;
        }
        false
    }

    /// Whether some break starts at a time of day.
    pub fn break_starts_at(&self, tod: i64) -> (b: bool)
        requires
            self.well_formed(),
        ensures
            b == exists|j: int| 0 <= j < self.breaks@.len()
                && #[trigger] self.breaks@[j].start_minute * MS_PER_MINUTE == tod,
    {
        let mut k: usize = 0;
        while k < self.breaks.len()
            invariant
                k <= self.breaks.len(),
                self.well_formed(),
                forall|m: int| 0 <= m < k ==> #[trigger] self.breaks@[m].start_minute * MS_PER_MINUTE != tod,
            decreases self.breaks.len() - k,
        {
            assert(self.breaks@[k as int].well_formed());
            if self.breaks[k].start_minute as i64 * 60_000 == tod {
                return true;
            }
            k += 1;
        }
        false
    }

    /// Whether a time of day on a day is working time.
    pub fn working_at_exec(&self, day: i64, tod: i64) -> (b: bool)
        requires
            self.well_formed(),
            day <= i64::MAX - 4,
        ensures
            b == self.working_at(day as int, tod as int),
    {
        !self.holiday_on(day) && self.in_shift_at(day, tod) && !self.in_break_at(tod)
    }

    /// Whether an instant is working time.
    pub fn is_working_time(&self, t: i64) -> (b: bool)
        requires
            self.well_formed(),
        ensures
            b == self.is_working(t as int),
    {
        let (day, tod) = day_and_time(t);
        proof { lemma_day_bounds(t as int); }
        self.working_at_exec(day, tod)
    }

    /// The earliest working time of day in `[from, day end)` on a day, if any.
    fn first_working_in_day(&self, day: i64, from: i64) -> (r: Option<i64>)
        requires
            self.well_formed(),
            day <= i64::MAX - 4,
            0 <= from < MS_PER_DAY,
        ensures
            match r {
                Some(c) => from <= c < MS_PER_DAY && self.working_at(day as int, c as int)
                    && forall|y: int| from <= y < c ==> !self.working_at(day as int, y),
                None => forall|y: int| from <= y < MS_PER_DAY ==> !self.working_at(day as int, y),
            },
    {
        let ghost wf = self.well_formed();
        let mut best: Option<i64> = None;
        if self.working_at_exec(day, from) {
            best = Some(from);
        }
        let mut i: usize = 0;
        while i < self.shifts.len()
            invariant
                i <= self.shifts.len(),
                self.well_formed(),
                day <= i64::MAX - 4,
                0 <= from < MS_PER_DAY,
                match best {
                    Some(b) => from <= b < MS_PER_DAY && self.working_at(day as int, b as int),
                    None => true,
                },
                self.working_at(day as int, from as int) ==> best is Some && best.unwrap() <= from,
                forall|m: int| 0 <= m < i ==> {
                    let c = #[trigger] self.shifts@[m].start_minute * MS_PER_MINUTE;
                    from <= c < MS_PER_DAY && self.working_at(day as int, c) ==> best is Some && best.unwrap() <= c
                },
            decreases self.shifts.len() - i,
        {
            let ghost old_best = best;
            assert(self.shifts@[i as int].well_formed());
            let c = self.shifts[i].start_minute as i64 * 60_000;
            if from <= c && c < 86_400_000 && self.working_at_exec(day, c) {
                match best {
                    Some(b) => { if c < b { best = Some(c); } }
                    None => { best = Some(c); }
                }
            }
            i += 1;
        }
        let mut j: usize = 0;
        while j < self.breaks.len()
            invariant
                j <= self.breaks.len(),
                self.well_formed(),
                day <= i64::MAX - 4,
                0 <= from < MS_PER_DAY,
                match best {
                    Some(b) => from <= b < MS_PER_DAY && self.working_at(day as int, b as int),
                    None => true,
                },
                self.working_at(day as int, from as int) ==> best is Some && best.unwrap() <= from,
                forall|m: int| 0 <= m < self.shifts@.len() ==> {
                    let c = #[trigger] self.shifts@[m].start_minute * MS_PER_MINUTE;
                    from <= c < MS_PER_DAY && self.working_at(day as int, c) ==> best is Some && best.unwrap() <= c
                },
                forall|m: int| 0 <= m < j ==> {
                    let c = #[trigger] self.breaks@[m].end_minute * MS_PER_MINUTE;
                    from <= c < MS_PER_DAY && self.working_at(day as int, c) ==> best is Some && best.unwrap() <= c
                },
            decreases self.breaks.len() - j,
        {
            assert(self.breaks@[j as int].well_formed());
            let c = self.breaks[j].end_minute as i64 * 60_000;
            if from <= c && c < 86_400_000 && self.working_at_exec(day, c) {
                match best {
                    Some(b) => { if c < b { best = Some(c); } }
                    None => { best = Some(c); }
                }
            }
            j += 1;
        }
        proof {
            let bound = match best { Some(b) => b as int, None => MS_PER_DAY as int };
            assert forall|y: int| from <= y < bound implies !self.working_at(day as int, y) by {
                if self.working_at(day as int, y) {
                    if !self.working_at(day as int, from as int) {
                        lemma_left_endpoint(self, day as int, from as int, y);
                        let c = choose|c: int| from < c <= y && self.is_left_candidate(c) && self.working_at(day as int, c);
                        if exists|m: int| 0 <= m < self.shifts@.len() && c == #[trigger] self.shifts@[m].start_minute * MS_PER_MINUTE {
                            let m = choose|m: int| 0 <= m < self.shifts@.len() && c == #[trigger] self.shifts@[m].start_minute * MS_PER_MINUTE;
                            assert(best is Some && best.unwrap() <= c);
                        } else {
                            let m = choose|m: int| 0 <= m < self.breaks@.len() && c == #[trigger] self.breaks@[m].end_minute * MS_PER_MINUTE;
                            assert(best is Some && best.unwrap() <= c);
                        }
                    }
                }
            }
        }
        best
    }

    /// The earliest working time at or after `t`, searching the day of `t` and the
    /// following `SEARCH_DAYS` days; `t` itself when none is found.
    pub fn next_working_time(&self, t: i64) -> (r: i64)
        requires
            self.well_formed(),
            in_time_range(t as int),
        ensures
            r >= t,
            r == t || self.is_working(r as int),
            forall|y: int| t <= y < r ==> !self.is_working(y),
            !self.is_working(r as int) ==> forall|y: int| t <= y < (day_index(t as int) + SEARCH_DAYS + 1) * MS_PER_DAY
                ==> !self.is_working(y),
            r - t <= 63_244_800_000,
    {
        let (day, tod) = day_and_time(t);
        proof { lemma_day_bounds(t as int); }
        match self.first_working_in_day(day, tod) {
            Some(c) => {
                proof {
                    lemma_day_of_instant(day * MS_PER_DAY + c, day as int);
                    assert forall|y: int| t <= y < day * MS_PER_DAY + c implies !self.is_working(y) by {
                        lemma_day_of_instant(y, day as int);
                    }
                }
                return day * 86_400_000 + c;
            }
            None => {}
        }
        assert forall|y: int| t <= y < (day + 1) * MS_PER_DAY implies !self.is_working(y) by {
            lemma_day_of_instant(y, day as int);
        }
        let mut k: i64 = 1;
        while k <= SEARCH_DAYS
            invariant
                1 <= k <= SEARCH_DAYS + 1,
                self.well_formed(),
                in_time_range(t as int),
                day == day_index(t as int),
                day * MS_PER_DAY <= t,
                forall|y: int| t <= y < (day + k) * MS_PER_DAY ==> !self.is_working(y),
            decreases SEARCH_DAYS + 1 - k,
        {
            match self.first_working_in_day(day + k, 0) {
                Some(c) => {
                    proof {
                        lemma_day_of_instant((day + k) * MS_PER_DAY + c, (day + k) as int);
                        assert forall|y: int| t <= y < (day + k) * MS_PER_DAY + c implies !self.is_working(y) by {
                            if y >= (day + k) * MS_PER_DAY {
                                lemma_day_of_instant(y, (day + k) as int);
                            }
                        }
                    }
                    return (day + k) * 86_400_000 + c;
                }
                None => {
                    proof {
                        assert forall|y: int| t <= y < (day + k + 1) * MS_PER_DAY implies !self.is_working(y) by {
                            if y >= (day + k) * MS_PER_DAY {
                                lemma_day_of_instant(y, (day + k) as int);
                            }
                        }
                    }
                }
            }
            k += 1;
        }
        t
    }

    /// The end of the working window containing `t` (within its day) and why it ends;
    /// `None` when `t` is not working time.
    pub fn find_working_window_end(&self, t: i64) -> (r: Option<(i64, WorkingWindowEndReason)>)
        requires
            self.well_formed(),
            in_time_range(t as int),
        ensures
            r is Some <==> self.is_working(t as int),
            match r {
                Some((e, reason)) => {
                    &&& t < e <= (day_index(t as int) + 1) * MS_PER_DAY
                    &&& e <= t + 86_400_000
                    &&& forall|y: int| t <= y < e ==> self.is_working(y)
                    &&& e == (day_index(t as int) + 1) * MS_PER_DAY || !self.is_working(e as int)
                    &&& (reason == WorkingWindowEndReason::BreakStart) == (
                        e < (day_index(t as int) + 1) * MS_PER_DAY
                        && exists|j: int| 0 <= j < self.breaks@.len()
                            && #[trigger] self.breaks@[j].start_minute * MS_PER_MINUTE == time_of_day(e as int))
                    &&& reason != WorkingWindowEndReason::Holiday
                },
                None => true,
            },
    {
        let (day, tod) = day_and_time(t);
        proof { lemma_day_bounds(t as int); }
        if !self.working_at_exec(day, tod) {
            return None;
        }
        let mut e: i64 = 86_400_000;
        let mut i: usize = 0;
        while i < self.shifts.len()
            invariant
                i <= self.shifts.len(),
                self.well_formed(),
                day <= i64::MAX - 4,
                0 <= tod < e <= MS_PER_DAY,
                e == MS_PER_DAY || !self.working_at(day as int, e as int),
                forall|m: int| 0 <= m < i ==> {
                    let c = #[trigger] self.shifts@[m].end_minute * MS_PER_MINUTE;
                    self.shifts@[m].runs_on(day as int) && tod < c < MS_PER_DAY
                        && !self.working_at(day as int, c) ==> e <= c
                },
            decreases self.shifts.len() - i,
        {
            assert(self.shifts@[i as int].well_formed());
            let c = self.shifts[i].end_minute as i64 * 60_000;
            if tod < c && c < e && self.shifts[i].runs_on_day(day) && !self.working_at_exec(day, c) {
                e = c;
            }
            i += 1;
        }
        let mut j: usize = 0;
        while j < self.breaks.len()
            invariant
                j <= self.breaks.len(),
                self.well_formed(),
                day <= i64::MAX - 4,
                0 <= tod < e <= MS_PER_DAY,
                e == MS_PER_DAY || !self.working_at(day as int, e as int),
                forall|m: int| 0 <= m < self.shifts@.len() ==> {
                    let c = #[trigger] self.shifts@[m].end_minute * MS_PER_MINUTE;
                    self.shifts@[m].runs_on(day as int) && tod < c < MS_PER_DAY
                        && !self.working_at(day as int, c) ==> e <= c
                },
                forall|m: int| 0 <= m < j ==> {
                    let c = #[trigger] self.breaks@[m].start_minute * MS_PER_MINUTE;
                    tod < c < MS_PER_DAY && !self.working_at(day as int, c) ==> e <= c
                },
            decreases self.breaks.len() - j,
        {
            assert(self.breaks@[j as int].well_formed());
            let c = self.breaks[j].start_minute as i64 * 60_000;
            if tod < c && c < e && !self.working_at_exec(day, c) {
                e = c;
            }
            j += 1;
        }
        proof {
            assert forall|y: int| tod <= y < e implies self.working_at(day as int, y) by {
                if !self.working_at(day as int, y) {
                    lemma_right_endpoint(self, day as int, tod as int, y);
                    let c = choose|c: int| tod < c <= y && self.is_right_candidate(day as int, c) && !self.working_at(day as int, c);
                    if exists|m: int| 0 <= m < self.shifts@.len() && self.shifts@[m].runs_on(day as int)
                        && c == #[trigger] self.shifts@[m].end_minute * MS_PER_MINUTE {
                        let m = choose|m: int| 0 <= m < self.shifts@.len() && self.shifts@[m].runs_on(day as int)
                            && c == #[trigger] self.shifts@[m].end_minute * MS_PER_MINUTE;
                        assert(e <= c);
                    } else {
                        let m = choose|m: int| 0 <= m < self.breaks@.len() && c == #[trigger] self.breaks@[m].start_minute * MS_PER_MINUTE;
                        assert(e <= c);
                    }
                }
            }
        }
        let starts_break = e < 86_400_000 && self.break_starts_at(e);
        let end = day * 86_400_000 + e;
        proof {
            if e < MS_PER_DAY {
                lemma_day_of_instant(end as int, day as int);
            }
            assert forall|y: int| t <= y < end implies self.is_working(y) by {
                lemma_day_of_instant(y, day as int);
            }
        }
        let reason = if starts_break { WorkingWindowEndReason::BreakStart } else { WorkingWindowEndReason::ShiftEnd };
        Some((end, reason))
    }
}


/// Advancing to a daily window never moves an instant backwards.
pub proof fn lemma_advance_not_before(epoch_ms: int, w: DailyWorkWindow)
    requires
        w.well_formed(),
        in_time_range(epoch_ms),
    ensures
        spec_advance_to_daily_window(epoch_ms, w) >= epoch_ms,
        spec_advance_to_daily_window(epoch_ms, w) <= epoch_ms + 2 * MS_PER_DAY,
{
    lemma_trunc_div_mul_bound(epoch_ms);
    let m = spec_minute_of_day(epoch_ms);
    let midnight = spec_floor_to_midnight(epoch_ms);
    let r = epoch_ms - midnight;
    assert(r == trunc_rem(epoch_ms, MS_PER_DAY as int)) by {
        if epoch_ms >= 0 {
            lemma_fundamental_div_mod(epoch_ms, MS_PER_DAY as int);
        } else {
            lemma_fundamental_div_mod(-epoch_ms, MS_PER_DAY as int);
        }
    }
    if r >= 0 {
        lemma_fundamental_div_mod(r, MS_PER_MINUTE as int);
        assert(m == r / (MS_PER_MINUTE as int));
        assert(m * MS_PER_MINUTE <= r < (m + 1) * MS_PER_MINUTE);
    } else {
        lemma_fundamental_div_mod(-r, MS_PER_MINUTE as int);
        assert(m == -((-r) / (MS_PER_MINUTE as int)));
        assert((m - 1) * MS_PER_MINUTE < r <= m * MS_PER_MINUTE);
    }
}


/// Rounding to a day towards zero moves an instant by less than a day.
pub proof fn lemma_floor_bounds(t: int)
    requires
        in_time_range(t),
    ensures
        t - MS_PER_DAY < spec_floor_to_midnight(t) <= t + MS_PER_DAY,
        t >= 0 ==> spec_floor_to_midnight(t) <= t,
{
    lemma_trunc_div_mul_bound(t);
}

/// The time left in a daily window is at most two days.
pub proof fn lemma_remaining_bound(t: int, w: DailyWorkWindow)
    requires
        in_time_range(t),
        w.well_formed(),
    ensures
        0 <= spec_remaining_in_daily_window(t, w) <= 2 * MS_PER_DAY,
{
    lemma_trunc_div_mul_bound(t);
}

/// An instant of day `d` (after the epoch) has that day's midnight and its minute
/// within the day.
pub proof fn lemma_day_decomposition(y: int, d: int)
    requires
        0 <= d,
        d * MS_PER_DAY <= y < (d + 1) * MS_PER_DAY,
    ensures
        spec_floor_to_midnight(y) == d * MS_PER_DAY,
        spec_minute_of_day(y) == (y - d * MS_PER_DAY) / (MS_PER_MINUTE as int),
        0 <= spec_minute_of_day(y) < 1440,
{
    lemma_fundamental_div_mod_converse_div(y, MS_PER_DAY as int, d, y - d * MS_PER_DAY);
    lemma_fundamental_div_mod_converse_mod(y, MS_PER_DAY as int, d, y - d * MS_PER_DAY);
    let x = y - d * MS_PER_DAY;
    assert(0 <= x / 60_000 < 1440) by (nonlinear_arith)
        requires 0 <= x < 86_400_000;
}

/// Under a daily window, work starting at or after the epoch is moved to the
/// earliest instant whose minute lies inside the window: the instant itself when it
/// does, otherwise the next start of the window.
pub proof fn law_advance_is_earliest_in_window(t: int, w: DailyWorkWindow)
    requires
        w.well_formed(),
        0 <= t <= TIME_LIMIT,
    ensures
        spec_advance_to_daily_window(t, w) >= t,
        w.spec_contains_minute(spec_minute_of_day(spec_advance_to_daily_window(t, w))),
        forall|y: int| t <= y < spec_advance_to_daily_window(t, w) ==> !w.spec_contains_minute(#[trigger] spec_minute_of_day(y)),
{
    let d = t / (MS_PER_DAY as int);
    lemma_fundamental_div_mod(t, MS_PER_DAY as int);
    assert(d * MS_PER_DAY <= t < (d + 1) * MS_PER_DAY) by (nonlinear_arith)
        requires t == 86_400_000 * d + t % 86_400_000, 0 <= t % 86_400_000 < 86_400_000;
    assert(d >= 0) by (nonlinear_arith)
        requires t >= 0, d == t / 86_400_000;
    lemma_day_decomposition(t, d);
    let midnight = d * MS_PER_DAY;
    let m = spec_minute_of_day(t);
    let r = spec_advance_to_daily_window(t, w);
    let b = w.begin_minute as int;
    let e = w.end_minute as int;
    assert(m * 60_000 <= t - midnight < (m + 1) * 60_000) by (nonlinear_arith)
        requires m == (t - midnight) / 60_000, 0 <= t - midnight;
    if e > b {
        if m < b {
            lemma_day_decomposition(midnight + b * MS_PER_MINUTE, d);
            assert(spec_minute_of_day(r) == b) by (nonlinear_arith)
                requires spec_minute_of_day(r) == (r - midnight) / 60_000, r - midnight == b * 60_000;
            assert forall|y: int| t <= y < r implies !w.spec_contains_minute(#[trigger] spec_minute_of_day(y)) by {
                lemma_day_decomposition(y, d);
                assert((y - midnight) / 60_000 < b) by (nonlinear_arith)
                    requires 0 <= y - midnight < b * 60_000;
            }
        } else if m >= e {
            lemma_day_decomposition(r, d + 1);
            assert(spec_minute_of_day(r) == b) by (nonlinear_arith)
                requires spec_minute_of_day(r) == (r - (d + 1) * 86_400_000) / 60_000, r - (d + 1) * 86_400_000 == b * 60_000;
            assert forall|y: int| t <= y < r implies !w.spec_contains_minute(#[trigger] spec_minute_of_day(y)) by {
                if y < (d + 1) * MS_PER_DAY {
                    lemma_day_decomposition(y, d);
                    lemma_div_is_ordered(t - midnight, y - midnight, 60_000);
                } else {
                    lemma_day_decomposition(y, d + 1);
                    assert((y - (d + 1) * 86_400_000) / 60_000 < b) by (nonlinear_arith)
                        requires 0 <= y - (d + 1) * 86_400_000 < b * 60_000;
                }
            }
        }
    } else if !w.spec_contains_minute(m) {
        let candidate = midnight + b * MS_PER_MINUTE;
        assert(candidate > t);
        lemma_day_decomposition(candidate, d);
        assert(spec_minute_of_day(candidate) == b) by (nonlinear_arith)
            requires spec_minute_of_day(candidate) == (candidate - midnight) / 60_000, candidate - midnight == b * 60_000;
        assert forall|y: int| t <= y < r implies !w.spec_contains_minute(#[trigger] spec_minute_of_day(y)) by {
            lemma_day_decomposition(y, d);
            lemma_div_is_ordered(t - midnight, y - midnight, 60_000);
            assert((y - midnight) / 60_000 < b) by (nonlinear_arith)
                requires 0 <= y - midnight < b * 60_000;
        }
    }
}

/// From an instant (at or after the epoch) inside a daily window, the time left in
/// the window is spent inside it, and the window closes right after: every instant
/// before `t + remaining` lies inside the window and the instant `t + remaining`
/// does not (unless the window covers the whole day).
pub proof fn law_remaining_stays_in_window(t: int, w: DailyWorkWindow)
    requires
        w.well_formed(),
        0 <= t <= TIME_LIMIT,
        w.spec_contains_minute(spec_minute_of_day(t)),
    ensures
        spec_remaining_in_daily_window(t, w) > 0,
        forall|y: int| t <= y < t + spec_remaining_in_daily_window(t, w) ==> w.spec_contains_minute(#[trigger] spec_minute_of_day(y)),
        w.end_minute != w.begin_minute ==> !w.spec_contains_minute(spec_minute_of_day(t + spec_remaining_in_daily_window(t, w))),
{
    let d = t / (MS_PER_DAY as int);
    lemma_fundamental_div_mod(t, MS_PER_DAY as int);
    assert(d * MS_PER_DAY <= t < (d + 1) * MS_PER_DAY) by (nonlinear_arith)
        requires t == 86_400_000 * d + t % 86_400_000, 0 <= t % 86_400_000 < 86_400_000;
    assert(d >= 0) by (nonlinear_arith)
        requires t >= 0, d == t / 86_400_000;
    lemma_day_decomposition(t, d);
    let midnight = d * MS_PER_DAY;
    let m = spec_minute_of_day(t);
    let b = w.begin_minute as int;
    let e = w.end_minute as int;
    let rem = spec_remaining_in_daily_window(t, w);
    assert(m * 60_000 <= t - midnight < (m + 1) * 60_000) by (nonlinear_arith)
        requires m == (t - midnight) / 60_000, 0 <= t - midnight;
    if e > b {
        let end = midnight + e * MS_PER_MINUTE;
        assert(rem == end - t);
        lemma_day_decomposition(end, d);
        assert(spec_minute_of_day(end) == e) by (nonlinear_arith)
            requires spec_minute_of_day(end) == (end - midnight) / 60_000, end - midnight == e * 60_000;
        assert forall|y: int| t <= y < t + rem implies w.spec_contains_minute(#[trigger] spec_minute_of_day(y)) by {
            lemma_day_decomposition(y, d);
            lemma_div_is_ordered(t - midnight, y - midnight, 60_000);
            assert((y - midnight) / 60_000 < e) by (nonlinear_arith)
                requires 0 <= y - midnight < e * 60_000;
        }
    } else if m >= b {
        let end = midnight + MS_PER_DAY + e * MS_PER_MINUTE;
        assert(rem == end - t);
        lemma_day_decomposition(end, d + 1);
        assert(spec_minute_of_day(end) == e) by (nonlinear_arith)
            requires spec_minute_of_day(end) == (end - (d + 1) * 86_400_000) / 60_000, end - (d + 1) * 86_400_000 == e * 60_000;
        assert forall|y: int| t <= y < t + rem implies w.spec_contains_minute(#[trigger] spec_minute_of_day(y)) by {
            if y < (d + 1) * MS_PER_DAY {
                lemma_day_decomposition(y, d);
                lemma_div_is_ordered(t - midnight, y - midnight, 60_000);
            } else {
                lemma_day_decomposition(y, d + 1);
                assert((y - (d + 1) * 86_400_000) / 60_000 < e) by (nonlinear_arith)
                    requires 0 <= y - (d + 1) * 86_400_000 < e * 60_000;
            }
        }
    } else {
        let end = midnight + e * MS_PER_MINUTE;
        assert(m < e);
        assert(rem == end - t);
        lemma_day_decomposition(end, d);
        assert(spec_minute_of_day(end) == e) by (nonlinear_arith)
            requires spec_minute_of_day(end) == (end - midnight) / 60_000, end - midnight == e * 60_000;
        assert forall|y: int| t <= y < t + rem implies w.spec_contains_minute(#[trigger] spec_minute_of_day(y)) by {
            lemma_day_decomposition(y, d);
            assert((y - midnight) / 60_000 < e) by (nonlinear_arith)
                requires 0 <= y - midnight < e * 60_000;
        }
    }
}

} // verus!
