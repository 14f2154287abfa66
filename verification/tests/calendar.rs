use uaps_engine::calendar::{day_and_time, floor_to_midnight, minute_of_day, weekday, Calendar, WorkingWindowEndReason};

const MONDAY: i64 = 1705881600000;
const HOUR: i64 = 3_600_000;
const DAY: i64 = 86_400_000;

#[test]
fn minute_and_midnight() {
    assert_eq!(minute_of_day(MONDAY + 9 * HOUR + 30 * 60_000), 570);
    assert_eq!(floor_to_midnight(MONDAY + 9 * HOUR), MONDAY);
    assert_eq!(day_and_time(MONDAY + 5), (MONDAY / DAY, 5));
    assert_eq!(day_and_time(-1), (-1, DAY - 1));
    assert_eq!(weekday(MONDAY / DAY), 1);
    assert_eq!(weekday(0), 4);
}

#[test]
fn working_time_of_the_day_calendar() {
    let c = Calendar::default_day();
    assert!(c.is_working_time(MONDAY + 9 * HOUR));
    assert!(!c.is_working_time(MONDAY + 12 * HOUR + 30 * 60_000));
    assert!(!c.is_working_time(MONDAY + 17 * HOUR));
    assert!(!c.is_working_time(MONDAY - DAY + 10 * HOUR));
}

#[test]
fn next_working_time_skips_breaks_nights_and_weekends() {
    let c = Calendar::default_day();
    assert_eq!(c.next_working_time(MONDAY + 12 * HOUR + 10), MONDAY + 13 * HOUR);
    assert_eq!(c.next_working_time(MONDAY + 18 * HOUR), MONDAY + DAY + 8 * HOUR);
    let friday_evening = MONDAY + 4 * DAY + 18 * HOUR;
    assert_eq!(c.next_working_time(friday_evening), MONDAY + 7 * DAY + 8 * HOUR);
    assert_eq!(c.next_working_time(MONDAY + 9 * HOUR), MONDAY + 9 * HOUR);
}

#[test]
fn holidays_are_skipped() {
    let c = Calendar::default_day().with_holiday(MONDAY + DAY + 3 * HOUR);
    assert!(!c.is_working_time(MONDAY + DAY + 9 * HOUR));
    assert_eq!(c.next_working_time(MONDAY + 18 * HOUR), MONDAY + 2 * DAY + 8 * HOUR);
}

#[test]
fn working_window_ends_at_break_or_shift_end() {
    let c = Calendar::default_day();
    assert_eq!(c.find_working_window_end(MONDAY + 9 * HOUR), Some((MONDAY + 12 * HOUR, WorkingWindowEndReason::BreakStart)));
    assert_eq!(c.find_working_window_end(MONDAY + 14 * HOUR), Some((MONDAY + 17 * HOUR, WorkingWindowEndReason::ShiftEnd)));
    assert_eq!(c.find_working_window_end(MONDAY + 20 * HOUR), None);
}
