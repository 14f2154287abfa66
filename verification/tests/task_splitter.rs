use uaps_engine::calendar::{advance_to_daily_window, remaining_in_daily_window, BreakTime, Calendar, DailyWorkWindow, Shift};
use uaps_engine::task::SplitReason;
use uaps_engine::task_splitter::split_operation_by_calendar;

fn create_day_calendar() -> Calendar {
    Calendar::new("CAL-DAY", "주간 근무")
        .with_shift(Shift::day_shift())
        .with_break(BreakTime::lunch())
}

fn monday_midnight() -> i64 {
    1705881600000i64
}

#[test]
fn test_no_calendar_single_task() {
    let result = split_operation_by_calendar("OP-001", "JOB-001", Some("Product-A"), 0, 10000, 50000, true, None, None);
    assert_eq!(result.tasks.len(), 1);
    assert_eq!(result.tasks[0].id, "OP-001-T001");
    assert_eq!(result.tasks[0].setup_ms, 10000);
    assert_eq!(result.tasks[0].process_ms, 50000);
}

#[test]
fn test_non_splittable_finds_continuous_window() {
    let calendar = create_day_calendar();
    let monday_midnight = 1705881600000i64;
    let monday_4pm = monday_midnight + 16 * 60 * 60 * 1000;
    let result = split_operation_by_calendar("OP-001", "JOB-001", None, monday_4pm, 0, 3 * 60 * 60 * 1000, false, Some(&calendar), None);
    assert_eq!(result.tasks.len(), 1);
    let tuesday_8am = monday_midnight + 24 * 60 * 60 * 1000 + 8 * 60 * 60 * 1000;
    assert_eq!(result.tasks[0].plan_begin_ms, tuesday_8am);
}

#[test]
fn test_splittable_splits_at_break() {
    let calendar = create_day_calendar();
    let monday_midnight = 1705881600000i64;
    let monday_11am = monday_midnight + 11 * 60 * 60 * 1000;
    let result = split_operation_by_calendar("OP-001", "JOB-001", Some("Widget"), monday_11am, 0, 3 * 60 * 60 * 1000, true, Some(&calendar), None);
    assert_eq!(result.tasks.len(), 2);
    assert_eq!(result.tasks[0].split_index, 0);
    assert_eq!(result.tasks[0].total_splits, 2);
    assert_eq!(result.tasks[0].split_reason, SplitReason::BreakStart);
    assert_eq!(result.tasks[1].split_index, 1);
    assert_eq!(result.tasks[1].split_reason, SplitReason::NotSplit);
}

#[test]
fn test_splittable_with_setup() {
    let calendar = create_day_calendar();
    let monday_midnight = 1705881600000i64;
    let monday_1130 = monday_midnight + (11 * 60 + 30) * 60 * 1000;
    let result = split_operation_by_calendar("OP-001", "JOB-001", None, monday_1130, 45 * 60 * 1000, 2 * 60 * 60 * 1000, true, Some(&calendar), None);
    assert!(result.tasks.len() >= 2);
    assert!(result.tasks[0].setup_ms > 0 || result.tasks.iter().any(|t| t.setup_ms > 0));
}

#[test]
fn test_fits_in_single_window() {
    let calendar = create_day_calendar();
    let monday_midnight = 1705881600000i64;
    let monday_9am = monday_midnight + 9 * 60 * 60 * 1000;
    let result = split_operation_by_calendar("OP-001", "JOB-001", None, monday_9am, 0, 2 * 60 * 60 * 1000, true, Some(&calendar), None);
    assert_eq!(result.tasks.len(), 1);
    assert_eq!(result.tasks[0].split_reason, SplitReason::NotSplit);
}

#[test]
fn test_daily_work_window_advance_before_begin() {
    let monday_7am = monday_midnight() + 7 * 60 * 60 * 1000;
    let window = DailyWorkWindow::from_hm(9, 0, 18, 0);
    let advanced = advance_to_daily_window(monday_7am, window);
    let monday_9am = monday_midnight() + 9 * 60 * 60 * 1000;
    assert_eq!(advanced, monday_9am);
}

#[test]
fn test_daily_work_window_advance_after_end() {
    let monday_7pm = monday_midnight() + 19 * 60 * 60 * 1000;
    let window = DailyWorkWindow::from_hm(9, 0, 18, 0);
    let advanced = advance_to_daily_window(monday_7pm, window);
    let tuesday_9am = monday_midnight() + 24 * 60 * 60 * 1000 + 9 * 60 * 60 * 1000;
    assert_eq!(advanced, tuesday_9am);
}

#[test]
fn test_daily_work_window_advance_within() {
    let monday_10am = monday_midnight() + 10 * 60 * 60 * 1000;
    let window = DailyWorkWindow::from_hm(9, 0, 18, 0);
    let advanced = advance_to_daily_window(monday_10am, window);
    assert_eq!(advanced, monday_10am);
}

#[test]
fn test_split_no_calendar_daily_window_moves_start() {
    let monday_7am = monday_midnight() + 7 * 60 * 60 * 1000;
    let monday_9am = monday_midnight() + 9 * 60 * 60 * 1000;
    let window = DailyWorkWindow::from_hm(9, 0, 18, 0);
    let result = split_operation_by_calendar("OP-001", "JOB-001", None, monday_7am, 0, 60 * 60 * 1000, true, None, Some(window));
    assert_eq!(result.tasks.len(), 1);
    assert_eq!(result.tasks[0].plan_begin_ms, monday_9am);
}

#[test]
fn test_split_no_calendar_daily_window_splits_long_task() {
    let monday_9am = monday_midnight() + 9 * 60 * 60 * 1000;
    let window = DailyWorkWindow::from_hm(9, 0, 18, 0);
    let result = split_operation_by_calendar("OP-001", "JOB-001", None, monday_9am, 0, 12 * 60 * 60 * 1000, true, None, Some(window));
    assert!(result.tasks.len() >= 2, "a twelve-hour task is split");
    assert_eq!(result.tasks[0].plan_begin_ms, monday_9am);
    let first_task_duration = result.tasks[0].plan_end_ms - result.tasks[0].plan_begin_ms;
    assert!(first_task_duration <= 9 * 60 * 60 * 1000, "first piece exceeds the window: {}ms", first_task_duration);
}

#[test]
fn test_split_no_calendar_daily_window_nosplit_moves_to_next_window() {
    let monday_9am = monday_midnight() + 9 * 60 * 60 * 1000;
    let window = DailyWorkWindow::from_hm(9, 0, 18, 0);
    let result = split_operation_by_calendar("OP-001", "JOB-001", None, monday_9am, 0, 8 * 60 * 60 * 1000, false, None, Some(window));
    assert_eq!(result.tasks.len(), 1);
    assert_eq!(result.tasks[0].plan_begin_ms, monday_9am);
}

#[test]
fn test_split_no_calendar_daily_window_nosplit_fits_next_day() {
    let monday_4pm = monday_midnight() + 16 * 60 * 60 * 1000;
    let tuesday_9am = monday_midnight() + 24 * 60 * 60 * 1000 + 9 * 60 * 60 * 1000;
    let window = DailyWorkWindow::from_hm(9, 0, 18, 0);
    let result = split_operation_by_calendar("OP-001", "JOB-001", None, monday_4pm, 0, 4 * 60 * 60 * 1000, false, None, Some(window));
    assert_eq!(result.tasks.len(), 1);
    assert_eq!(result.tasks[0].plan_begin_ms, tuesday_9am, "four hours do not fit; the next day's window is used");
}

#[test]
fn test_remaining_in_daily_window() {
    let window = DailyWorkWindow::from_hm(9, 0, 18, 0);
    let ms_per_minute = 60 * 1000i64;
    let at_9am = monday_midnight() + 9 * 60 * 60 * 1000;
    assert_eq!(remaining_in_daily_window(at_9am, window), 9 * 60 * ms_per_minute);
    let at_5pm = monday_midnight() + 17 * 60 * 60 * 1000;
    assert_eq!(remaining_in_daily_window(at_5pm, window), 60 * ms_per_minute);
    let at_6pm = monday_midnight() + 18 * 60 * 60 * 1000;
    assert_eq!(remaining_in_daily_window(at_6pm, window), 0);
    let at_8am = monday_midnight() + 8 * 60 * 60 * 1000;
    assert_eq!(remaining_in_daily_window(at_8am, window), 0);
}

#[test]
fn splitting_keeps_total_work_and_ids() {
    let calendar = create_day_calendar();
    let monday_11am = monday_midnight() + 11 * 60 * 60 * 1000;
    let result = split_operation_by_calendar("OP-9", "JOB-9", None, monday_11am, 0, 3 * 60 * 60 * 1000, true, Some(&calendar), None);
    let total: i64 = result.tasks.iter().map(|t| t.process_ms + t.setup_ms).sum();
    assert_eq!(total, 3 * 60 * 60 * 1000);
    assert_eq!(result.tasks[0].id, "OP-9-T001");
    assert_eq!(result.tasks[1].id, "OP-9-T002");
    assert_eq!(result.final_end_ms, result.tasks[1].plan_end_ms);
    assert_eq!(result.tasks[1].plan_end_ms, monday_midnight() + 15 * 60 * 60 * 1000);
}

#[test]
fn overnight_window_advances_into_evening() {
    let window = DailyWorkWindow::from_hm(22, 0, 6, 0);
    let noon = monday_midnight() + 12 * 60 * 60 * 1000;
    assert_eq!(advance_to_daily_window(noon, window), monday_midnight() + 22 * 60 * 60 * 1000);
    let at_2am = monday_midnight() + 2 * 60 * 60 * 1000;
    assert_eq!(advance_to_daily_window(at_2am, window), at_2am);
    assert_eq!(remaining_in_daily_window(at_2am, window), 4 * 60 * 60 * 1000);
}

#[test]
fn daily_window_pieces_carry_all_the_work() {
    let m = monday_midnight();
    let h = 3_600_000i64;
    let window = DailyWorkWindow::from_hm(9, 0, 18, 0);
    let r = split_operation_by_calendar("OP-001", "JOB-001", None, m + 7 * h, 2 * h, 20 * h, true, None, Some(window));
    let setup: i64 = r.tasks.iter().map(|t| t.setup_ms).sum();
    let process: i64 = r.tasks.iter().map(|t| t.process_ms).sum();
    assert_eq!(setup, 2 * h);
    assert_eq!(process, 20 * h);
    assert_eq!(r.tasks.len(), 3);
    assert_eq!(r.tasks[0].plan_begin_ms, m + 9 * h);
    assert_eq!(r.tasks[0].plan_end_ms, m + 18 * h);
    assert_eq!(r.tasks[2].plan_end_ms, m + 48 * h + 13 * h);
    assert_eq!(r.final_end_ms, m + 61 * h);
}

#[test]
fn night_window_reopens_the_same_evening() {
    let m = monday_midnight();
    let h = 3_600_000i64;
    let night = DailyWorkWindow::from_hm(22, 0, 6, 0);
    let whole = split_operation_by_calendar("OP-001", "JOB-001", None, m + 5 * h, 0, 3 * h, false, None, Some(night));
    assert_eq!(whole.tasks.len(), 1);
    assert_eq!(whole.tasks[0].plan_begin_ms, m + 22 * h);
    assert_eq!(whole.final_end_ms, m + 25 * h);
    let split = split_operation_by_calendar("OP-001", "JOB-001", None, m + 5 * h, 0, 3 * h, true, None, Some(night));
    assert_eq!(split.tasks.len(), 2);
    assert_eq!((split.tasks[0].plan_begin_ms, split.tasks[0].plan_end_ms), (m + 5 * h, m + 6 * h));
    assert_eq!((split.tasks[1].plan_begin_ms, split.tasks[1].plan_end_ms), (m + 22 * h, m + 24 * h));
}

#[test]
fn calendar_pieces_carry_all_the_processing() {
    let cal = create_day_calendar();
    let m = monday_midnight();
    let h = 3_600_000i64;
    let r = split_operation_by_calendar("OP-001", "JOB-001", None, m + 9 * h, 0, 10 * h, true, Some(&cal), None);
    let process: i64 = r.tasks.iter().map(|t| t.process_ms).sum();
    assert_eq!(process, 10 * h);
    assert!(r.tasks.len() >= 2);
    assert_eq!(r.tasks[0].split_reason, SplitReason::BreakStart);
}

#[test]
fn calendar_pieces_carry_all_the_processing_after_setup() {
    let calendar = create_day_calendar();
    let monday_1130 = 1705881600000i64 + (11 * 60 + 30) * 60 * 1000;
    let result = split_operation_by_calendar("OP-001", "JOB-001", None, monday_1130, 45 * 60 * 1000, 2 * 60 * 60 * 1000, true, Some(&calendar), None);
    let processing: i64 = result.tasks.iter().map(|t| t.process_ms).sum();
    assert_eq!(processing, 2 * 60 * 60 * 1000);
}

#[test]
fn non_splittable_work_waits_for_the_next_long_enough_stretch() {
    let calendar = create_day_calendar();
    let m = 1705881600000i64;
    let h = 3_600_000i64;
    let result = split_operation_by_calendar("OP-001", "JOB-001", None, m + 16 * h, 0, 3 * h, false, Some(&calendar), None);
    assert_eq!(result.tasks.len(), 1);
    assert_eq!(result.tasks[0].plan_begin_ms, m + 32 * h);
    assert_eq!(result.final_end_ms, m + 35 * h);
}
