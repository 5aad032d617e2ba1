use chrono::{Datelike, NaiveDate};
use crontab_manager::calendar::{format_instant, Instant};
use crontab_manager::error::Error;
use crontab_manager::recurrence::{get_next_runs, next_runs};

fn at(y: i32, m: u32, d: u32, h: u32, mi: u32, s: u32) -> Instant {
    let days = NaiveDate::from_ymd_opt(y, m, d).unwrap().num_days_from_ce();
    Instant::new(days, h * 3600 + mi * 60 + s).unwrap()
}

fn texts(expression: &str, from: Instant, count: usize) -> Vec<String> {
    next_runs(expression, &from, count)
        .unwrap()
        .iter()
        .map(format_instant)
        .collect()
}

#[test]
fn weekday_range_from_a_saturday_gives_monday_morning() {
    // 16 March 2024 is a Saturday.
    let runs = texts("0 9 * * 1-5", at(2024, 3, 16, 10, 30, 0), 1);
    assert_eq!(runs, vec!["2024-03-18 09:00:00"]);
}

#[test]
fn four_fields_are_refused() {
    let r = next_runs("1 2 3 4", &at(2024, 3, 16, 10, 30, 0), 1);
    assert_eq!(
        r,
        Err(Error::InvalidExpression(
            "无效的 cron 表达式 '1 2 3 4': Invalid expression: Invalid cron expression."
                .to_string()
        ))
    );
}

#[test]
fn daily_runs_are_a_day_apart() {
    let from = at(2024, 2, 27, 13, 45, 12);
    let runs = next_runs("@daily", &from, 5).unwrap();
    assert_eq!(runs.len(), 5);
    let from_seconds = from.seconds();
    assert_eq!(
        from_seconds,
        from.day() as i64 * 86_400 + from.second_of_day() as i64
    );
    let mut last = from_seconds;
    for (k, run) in runs.iter().enumerate() {
        let seconds = run.seconds();
        assert!(seconds > from_seconds);
        if k > 0 {
            assert_eq!(seconds - last, 86_400);
        }
        last = seconds;
    }
    assert_eq!(
        runs.iter().map(format_instant).collect::<Vec<_>>(),
        vec![
            "2024-02-28 00:00:00",
            "2024-02-29 00:00:00",
            "2024-03-01 00:00:00",
            "2024-03-02 00:00:00",
            "2024-03-03 00:00:00"
        ]
    );
}

#[test]
fn midnight_is_daily() {
    let from = at(2023, 12, 31, 0, 0, 0);
    assert_eq!(texts("@midnight", from, 2), texts("@daily", from, 2));
    assert_eq!(texts("@midnight", from, 1), vec!["2024-01-01 00:00:00"]);
}

#[test]
fn a_boundary_itself_is_not_a_run() {
    let from = at(2024, 5, 1, 0, 0, 0);
    assert_eq!(texts("@monthly", from, 1), vec!["2024-06-01 00:00:00"]);
    assert_eq!(texts("@hourly", from, 1), vec!["2024-05-01 01:00:00"]);
    assert_eq!(texts("@daily", from, 1), vec!["2024-05-02 00:00:00"]);
}

#[test]
fn hourly_runs() {
    assert_eq!(
        texts("@hourly", at(2024, 12, 31, 22, 10, 5), 3),
        vec![
            "2024-12-31 23:00:00",
            "2025-01-01 00:00:00",
            "2025-01-01 01:00:00"
        ]
    );
}

#[test]
fn weekly_runs_fall_on_sundays() {
    // 13 March 2024 is a Wednesday, 17 March a Sunday.
    assert_eq!(
        texts("@weekly", at(2024, 3, 13, 8, 0, 0), 2),
        vec!["2024-03-17 00:00:00", "2024-03-24 00:00:00"]
    );
    assert_eq!(
        texts("@weekly", at(2024, 3, 17, 0, 0, 0), 1),
        vec!["2024-03-24 00:00:00"]
    );
}

#[test]
fn monthly_runs_cross_the_year() {
    assert_eq!(
        texts("@monthly", at(2024, 10, 15, 8, 0, 0), 5),
        vec![
            "2024-11-01 00:00:00",
            "2024-12-01 00:00:00",
            "2025-01-01 00:00:00",
            "2025-02-01 00:00:00",
            "2025-03-01 00:00:00"
        ]
    );
}

#[test]
fn yearly_and_annually_agree() {
    let from = at(2023, 6, 1, 12, 0, 0);
    assert_eq!(
        texts("@yearly", from, 3),
        vec![
            "2024-01-01 00:00:00",
            "2025-01-01 00:00:00",
            "2026-01-01 00:00:00"
        ]
    );
    assert_eq!(texts("@annually", from, 3), texts("@yearly", from, 3));
}

#[test]
fn unknown_shorthand_is_unsupported() {
    let r = next_runs("@reboot", &at(2024, 1, 1, 0, 0, 0), 5);
    assert_eq!(
        r,
        Err(Error::UnsupportedExpression(
            "不支持的特殊表达式: @reboot".to_string()
        ))
    );
}

#[test]
fn blank_expression_is_invalid() {
    let from = at(2024, 1, 1, 0, 0, 0);
    let expected = Err(Error::InvalidExpression("Cron 表达式不能为空".to_string()));
    assert_eq!(next_runs("", &from, 5), expected);
    assert_eq!(next_runs(" \t ", &from, 5), expected);
}

#[test]
fn count_zero_gives_nothing() {
    let from = at(2024, 1, 1, 0, 0, 0);
    assert_eq!(next_runs("@daily", &from, 0), Ok(vec![]));
    assert_eq!(next_runs("*/5 * * * *", &from, 0), Ok(vec![]));
    assert_eq!(next_runs("0 9 * * *", &from, 0), Ok(vec![]));
}

#[test]
fn either_day_of_month_or_day_of_week() {
    // Both restricted: the 13th of a month, or any Friday.
    // 9 September 2024 is a Monday; the 13th is the Friday of that week.
    assert_eq!(
        texts("0 0 13 * 5", at(2024, 9, 9, 0, 0, 0), 4),
        vec![
            "2024-09-13 00:00:00",
            "2024-09-20 00:00:00",
            "2024-09-27 00:00:00",
            "2024-10-04 00:00:00"
        ]
    );
    assert_eq!(
        texts("0 0 13 * 5", at(2024, 10, 11, 0, 0, 0), 2),
        vec!["2024-10-13 00:00:00", "2024-10-18 00:00:00"]
    );
}

#[test]
fn lists_ranges_and_steps() {
    assert_eq!(
        texts("15,45 8-10/2 * * *", at(2024, 1, 1, 8, 15, 0), 4),
        vec![
            "2024-01-01 08:45:00",
            "2024-01-01 10:15:00",
            "2024-01-01 10:45:00",
            "2024-01-02 08:15:00"
        ]
    );
    assert_eq!(
        texts("30 6 1 1,7 *", at(2024, 1, 1, 6, 30, 0), 2),
        vec!["2024-07-01 06:30:00", "2025-01-01 06:30:00"]
    );
}

#[test]
fn seven_is_sunday() {
    assert_eq!(
        texts("0 12 * * 7", at(2024, 3, 13, 8, 0, 0), 1),
        texts("0 12 * * 0", at(2024, 3, 13, 8, 0, 0), 1)
    );
    assert_eq!(
        texts("0 12 * * 7", at(2024, 3, 13, 8, 0, 0), 1),
        vec!["2024-03-17 12:00:00"]
    );
}

#[test]
fn leap_day_only() {
    assert_eq!(
        texts("0 0 29 2 *", at(2024, 3, 1, 0, 0, 0), 2),
        vec!["2028-02-29 00:00:00", "2032-02-29 00:00:00"]
    );
}

#[test]
fn a_day_that_never_comes_gives_nothing() {
    assert_eq!(
        next_runs("0 0 31 2 *", &at(2024, 3, 1, 0, 0, 0), 3),
        Ok(vec![])
    );
}

#[test]
fn malformed_fields_are_refused() {
    let from = at(2024, 1, 1, 0, 0, 0);
    for expression in [
        "60 * * * *",
        "* 24 * * *",
        "* * 0 * *",
        "* * * 13 *",
        "* * * * 8",
        "a * * * *",
        "1- * * * *",
        "5-1 * * * *",
        "1,,2 * * * *",
        "1/0 * * * *",
        "1/2/3 * * * *",
    ] {
        assert_eq!(
            next_runs(expression, &from, 1),
            Err(Error::InvalidExpression(format!(
                "无效的 cron 表达式 '{}': Invalid expression: Invalid cron expression.",
                expression
            ))),
            "{}",
            expression
        );
    }
}

#[test]
fn minute_step_zeroes_the_minute() {
    assert_eq!(
        texts("*/5 * * * *", at(2024, 1, 1, 10, 37, 42), 3),
        vec![
            "2024-01-01 10:00:00",
            "2024-01-01 11:00:00",
            "2024-01-01 12:00:00"
        ]
    );
}

#[test]
fn hour_step_rounds_up_and_rolls_over() {
    assert_eq!(
        texts("* */6 * * *", at(2024, 1, 31, 10, 37, 42), 4),
        vec![
            "2024-01-31 12:37:00",
            "2024-01-31 18:37:00",
            "2024-02-01 00:37:00",
            "2024-02-01 06:37:00"
        ]
    );
    assert_eq!(
        texts("*/10 */5 * * *", at(2024, 1, 31, 21, 5, 0), 2),
        vec!["2024-02-01 00:00:00", "2024-02-01 05:00:00"]
    );
}

#[test]
fn steps_in_other_fields_are_ignored() {
    assert_eq!(
        texts("0 0 */2 * *", at(2024, 1, 1, 10, 37, 42), 2),
        vec!["2024-01-01 10:37:00", "2024-01-01 11:37:00"]
    );
    assert_eq!(
        texts("*/x * * * *", at(2024, 1, 1, 10, 37, 42), 1),
        vec!["2024-01-01 10:37:00"]
    );
}

#[test]
fn step_expressions_need_five_fields() {
    let from = at(2024, 1, 1, 0, 0, 0);
    assert_eq!(
        next_runs("*/5 * * *", &from, 1),
        Err(Error::InvalidExpression(
            "Cron 表达式必须包含5个字段".to_string()
        ))
    );
    assert_eq!(
        next_runs("* */0 * * *", &from, 1),
        Err(Error::InvalidExpression(
            "无效的 cron 表达式 '* */0 * * *': Invalid expression: Invalid cron expression."
                .to_string()
        ))
    );
}

#[test]
fn runs_stop_at_the_last_day() {
    let from = at(9999, 12, 30, 12, 0, 0);
    assert_eq!(
        texts("@daily", from, 5),
        vec!["9999-12-31 00:00:00"]
    );
    assert_eq!(
        texts("* */12 * * *", at(9999, 12, 31, 3, 0, 0), 5),
        vec!["9999-12-31 12:00:00"]
    );
    assert_eq!(Instant::new(3_652_059, 86_399), Some(at(9999, 12, 31, 23, 59, 59)));
    assert_eq!(Instant::new(3_652_060, 0), None);
    assert_eq!(Instant::new(1, 0), Some(at(1, 1, 1, 0, 0, 0)));
    assert_eq!(Instant::new(0, 0), None);
    assert_eq!(Instant::new(1, 86_400), None);
}

#[test]
fn the_next_five_runs_as_texts() {
    assert_eq!(
        get_next_runs("@daily", &at(2024, 2, 27, 13, 45, 12)),
        Ok(vec![
            "2024-02-28 00:00:00".to_string(),
            "2024-02-29 00:00:00".to_string(),
            "2024-03-01 00:00:00".to_string(),
            "2024-03-02 00:00:00".to_string(),
            "2024-03-03 00:00:00".to_string(),
        ])
    );
    assert_eq!(
        get_next_runs("0 9 * * 1-5", &at(2024, 3, 16, 10, 30, 0)).unwrap(),
        vec![
            "2024-03-18 09:00:00",
            "2024-03-19 09:00:00",
            "2024-03-20 09:00:00",
            "2024-03-21 09:00:00",
            "2024-03-22 09:00:00"
        ]
    );
    assert_eq!(
        get_next_runs("*/5 * * * *", &at(2024, 1, 1, 10, 37, 42)).unwrap().len(),
        5
    );
}

#[test]
fn daily_runs_near_the_last_day() {
    assert_eq!(
        get_next_runs("@daily", &at(9999, 12, 29, 0, 0, 0)),
        Ok(vec![
            "9999-12-30 00:00:00".to_string(),
            "9999-12-31 00:00:00".to_string(),
        ])
    );
    assert_eq!(get_next_runs("@daily", &at(9999, 12, 31, 8, 0, 0)), Ok(vec![]));
    assert_eq!(
        next_runs("@daily", &at(9999, 12, 26, 23, 59, 59), 5).unwrap().len(),
        5
    );
    assert_eq!(
        next_runs("@daily", &at(9999, 12, 27, 0, 0, 0), 5).unwrap().len(),
        4
    );
}

#[test]
fn a_standard_expression_without_a_run_is_a_failure() {
    assert_eq!(
        get_next_runs("0 0 31 2 *", &at(2024, 3, 1, 0, 0, 0)),
        Err(Error::SyncError("无法计算下次执行时间".to_string()))
    );
}

#[test]
fn faults_of_an_expression_are_passed_on() {
    let now = at(2024, 3, 1, 0, 0, 0);
    assert_eq!(
        get_next_runs(" ", &now),
        Err(Error::InvalidExpression("Cron 表达式不能为空".to_string()))
    );
    assert_eq!(
        get_next_runs("@never", &now),
        Err(Error::UnsupportedExpression(
            "不支持的特殊表达式: @never".to_string()
        ))
    );
}
