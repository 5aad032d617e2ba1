use chrono::{Datelike, NaiveDate, TimeZone, Timelike, Utc};
use cron::Schedule;
use crontab_manager::calendar::Instant;
use crontab_manager::recurrence::next_runs;
use std::str::FromStr;

// Where day of the month or day of the week is left open, the five fields
// mean what the `cron` crate makes of them behind a seconds field of 0, with
// the days of the week written by name.
#[test]
fn standard_expressions_agree_with_the_cron_crate() {
    let cases = [
        ("* * * * *", "0 * * * * *"),
        ("0 9 * * *", "0 0 9 * * *"),
        ("15,45 8-18/2 * * *", "0 15,45 8-18/2 * * *"),
        ("0 0 1 * *", "0 0 0 1 * *"),
        ("30 6 1,15 1-6 *", "0 30 6 1,15 1-6 *"),
        ("0 0 31 * *", "0 0 0 31 * *"),
        ("0 0 29 2 *", "0 0 0 29 2 *"),
        ("0 9 * * 1-5", "0 0 9 * * Mon-Fri"),
        ("59 23 * * 0", "0 59 23 * * Sun"),
        ("0 12 * 3,6,9,12 6", "0 0 12 * 3,6,9,12 Sat"),
        ("5/20 1 * * *", "0 5/20 1 * * *"),
    ];
    let starts = [
        (2024, 2, 28, 23, 59, 59),
        (2023, 12, 31, 12, 0, 0),
        (2024, 3, 16, 10, 30, 0),
        (1999, 6, 15, 0, 0, 0),
    ];
    for (ours, theirs) in cases {
        let schedule = Schedule::from_str(theirs).unwrap();
        for (y, m, d, h, mi, s) in starts {
            let date = NaiveDate::from_ymd_opt(y, m, d).unwrap();
            let from = Instant::new(date.num_days_from_ce(), h * 3600 + mi * 60 + s).unwrap();
            let start = Utc.with_ymd_and_hms(y, m, d, h, mi, s).unwrap();
            let expected: Vec<(i32, u32)> = schedule
                .after(&start)
                .take(8)
                .map(|t| {
                    (
                        t.date_naive().num_days_from_ce(),
                        t.time().num_seconds_from_midnight(),
                    )
                })
                .collect();
            let got: Vec<(i32, u32)> = next_runs(ours, &from, 8)
                .unwrap()
                .iter()
                .map(|t| (t.day(), t.second_of_day()))
                .collect();
            assert_eq!(got, expected, "{} from {:?}", ours, (y, m, d, h, mi, s));
        }
    }
}

#[test]
fn the_cron_crate_wants_a_seconds_field() {
    assert!(Schedule::from_str("0 9 * * 1-5").is_err());
    assert!(Schedule::from_str("0 0 9 * * 1-5").is_ok());
}

// The step shorthand, worked out with the date arithmetic of `chrono`.
fn steps_with_chrono(expression: &str, from: chrono::NaiveDateTime, count: usize) -> Vec<String> {
    let parts: Vec<&str> = expression.split_whitespace().collect();
    let mut next = from.with_second(0).unwrap();
    let mut dates = Vec::new();
    for _ in 0..count {
        for (i, part) in parts.iter().enumerate() {
            if let Some(digits) = part.strip_prefix("*/") {
                if let Ok(interval) = digits.parse::<u32>() {
                    match i {
                        0 => {
                            next = next.with_minute(0).unwrap();
                        }
                        1 => {
                            let next_hour = ((next.hour() / interval) + 1) * interval;
                            if next_hour >= 24 {
                                next = next + chrono::Duration::days(1);
                                next = next.with_hour(0).unwrap();
                            } else {
                                next = next.with_hour(next_hour).unwrap();
                            }
                        }
                        _ => {}
                    }
                }
            }
        }
        dates.push(next.format("%Y-%m-%d %H:%M:%S").to_string());
        next = next + chrono::Duration::hours(1);
    }
    dates
}

#[test]
fn the_step_shorthand_agrees_with_chrono() {
    let expressions = [
        "*/5 * * * *",
        "* */2 * * *",
        "*/15 */6 * * *",
        "0 */23 * * *",
        "* */24 * * *",
        "* */100 * * *",
        "*/0 */1 * * *",
        "30 4 */2 * *",
    ];
    let starts = [
        (2024, 2, 28, 23, 59, 59),
        (2023, 12, 31, 22, 30, 1),
        (2024, 3, 16, 0, 0, 0),
        (1999, 6, 15, 11, 7, 42),
    ];
    for expression in expressions {
        for (y, m, d, h, mi, s) in starts {
            let date = NaiveDate::from_ymd_opt(y, m, d).unwrap();
            let from = Instant::new(date.num_days_from_ce(), h * 3600 + mi * 60 + s).unwrap();
            let got: Vec<String> = next_runs(expression, &from, 7)
                .unwrap()
                .iter()
                .map(crontab_manager::calendar::format_instant)
                .collect();
            let expected = steps_with_chrono(expression, date.and_hms_opt(h, mi, s).unwrap(), 7);
            assert_eq!(got, expected, "{} from {:?}", expression, (y, m, d, h, mi, s));
        }
    }
}

// The named shorthands, worked out with the date arithmetic of `chrono`.
#[test]
fn the_named_shorthands_agree_with_chrono() {
    let starts = [
        (2024, 2, 28, 23, 59, 59),
        (2023, 1, 1, 0, 0, 0),
        (2024, 3, 17, 0, 0, 0),
        (1999, 6, 15, 11, 7, 42),
    ];
    for (y, m, d, h, mi, s) in starts {
        let date = NaiveDate::from_ymd_opt(y, m, d).unwrap();
        let now = date.and_hms_opt(h, mi, s).unwrap();
        let from = Instant::new(date.num_days_from_ce(), h * 3600 + mi * 60 + s).unwrap();
        let ours = |expression: &str| -> Vec<String> {
            next_runs(expression, &from, 5)
                .unwrap()
                .iter()
                .map(crontab_manager::calendar::format_instant)
                .collect()
        };
        let text = |t: chrono::NaiveDateTime| t.format("%Y-%m-%d %H:%M:%S").to_string();

        let mut next = now.with_minute(0).unwrap().with_second(0).unwrap();
        if next <= now {
            next = next + chrono::Duration::hours(1);
        }
        let hourly: Vec<String> = (0..5).map(|k| text(next + chrono::Duration::hours(k))).collect();
        assert_eq!(ours("@hourly"), hourly);

        let mut next = date.and_hms_opt(0, 0, 0).unwrap();
        if next <= now {
            next = next + chrono::Duration::days(1);
        }
        let daily: Vec<String> = (0..5).map(|k| text(next + chrono::Duration::days(k))).collect();
        assert_eq!(ours("@daily"), daily);

        let days_until_sunday = (7 - now.weekday().num_days_from_sunday()) % 7;
        let mut next = (date + chrono::Duration::days(days_until_sunday as i64))
            .and_hms_opt(0, 0, 0)
            .unwrap();
        if next <= now {
            next = next + chrono::Duration::days(7);
        }
        let weekly: Vec<String> =
            (0..5).map(|k| text(next + chrono::Duration::days(7 * k))).collect();
        assert_eq!(ours("@weekly"), weekly);

        let mut year = y;
        let mut month = m;
        let mut monthly = Vec::new();
        for _ in 0..5 {
            month += 1;
            if month > 12 {
                month = 1;
                year += 1;
            }
            monthly.push(text(
                NaiveDate::from_ymd_opt(year, month, 1).unwrap().and_hms_opt(0, 0, 0).unwrap(),
            ));
        }
        assert_eq!(ours("@monthly"), monthly);

        let yearly: Vec<String> = (1..=5)
            .map(|k| {
                text(NaiveDate::from_ymd_opt(y + k, 1, 1).unwrap().and_hms_opt(0, 0, 0).unwrap())
            })
            .collect();
        assert_eq!(ours("@yearly"), yearly);
    }
}
