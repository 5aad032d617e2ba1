use chrono::{Datelike, NaiveDate, Timelike};
use crontab_manager::calendar::{format_instant, format_timestamp, CivilDate, Instant};
use crontab_manager::chars::{
    from_chars, join_chars, parse_number, split_chars, split_words, to_chars, trim_chars,
};
use crontab_manager::cron_expr::{parse_field, parse_item, Span};

#[test]
fn instants_are_written_in_fixed_width() {
    let day = NaiveDate::from_ymd_opt(2024, 2, 29).unwrap().num_days_from_ce();
    let t = Instant::new(day, 7 * 3600 + 5 * 60 + 9).unwrap();
    assert_eq!(format_instant(&t), "2024-02-29 07:05:09");
    let first = Instant::new(1, 0).unwrap();
    assert_eq!(format_instant(&first), "0001-01-01 00:00:00");
    let last = Instant::new(3_652_059, 86_399).unwrap();
    assert_eq!(format_instant(&last), "9999-12-31 23:59:59");
}

#[test]
fn formatting_agrees_with_chrono() {
    for (y, m, d, h, mi, s) in [
        (1970, 1, 1, 0, 0, 0),
        (1999, 12, 31, 23, 59, 59),
        (2000, 2, 29, 12, 30, 1),
        (2038, 1, 19, 3, 14, 7),
        (987, 6, 5, 4, 3, 2),
    ] {
        let date = NaiveDate::from_ymd_opt(y, m, d).unwrap();
        let stamp = date.and_hms_opt(h, mi, s).unwrap();
        let t = Instant::new(date.num_days_from_ce(), stamp.num_seconds_from_midnight()).unwrap();
        assert_eq!(
            format_instant(&t),
            stamp.format("%Y-%m-%d %H:%M:%S").to_string()
        );
    }
}

#[test]
fn the_date_of_an_instant() {
    // 16 March 2024 is a Saturday.
    let day = NaiveDate::from_ymd_opt(2024, 3, 16).unwrap().num_days_from_ce();
    let t = Instant::new(day, 37_800).unwrap();
    assert_eq!(
        t.date(),
        CivilDate { year: 2024, month: 3, day: 16, weekday: 6 }
    );
    assert_eq!(t.day(), day);
    assert_eq!(t.second_of_day(), 37_800);
    let sunday = Instant::new(day + 1, 0).unwrap();
    assert_eq!(sunday.date().weekday, 0);
}

#[test]
fn timestamps_from_plain_values() {
    let date = CivilDate { year: 7, month: 8, day: 9, weekday: 0 };
    assert_eq!(format_timestamp(&date, 3_661), "0007-08-09 01:01:01");
}

#[test]
fn splitting_and_joining() {
    let lines = split_chars(&to_chars("a\n\nb\n"), '\n');
    assert_eq!(
        lines,
        vec![to_chars("a"), to_chars(""), to_chars("b"), to_chars("")]
    );
    assert_eq!(from_chars(&join_chars(&lines, '\n')), "a\n\nb\n");
    assert_eq!(split_chars(&to_chars(""), ','), vec![to_chars("")]);
    assert_eq!(from_chars(&join_chars(&vec![], ',')), "");
}

#[test]
fn words_and_trimming() {
    assert_eq!(
        split_words(&to_chars("  0 9\t*  * \u{a0}1-5 ")),
        vec![
            to_chars("0"),
            to_chars("9"),
            to_chars("*"),
            to_chars("*"),
            to_chars("1-5")
        ]
    );
    assert_eq!(split_words(&to_chars(" \t ")), Vec::<Vec<char>>::new());
    assert_eq!(from_chars(&trim_chars(&to_chars(" \t a b \n"))), "a b");
    assert_eq!(from_chars(&trim_chars(&to_chars("   "))), "");
    assert_eq!(from_chars(&trim_chars(&to_chars(""))), "");
}

#[test]
fn numbers() {
    assert_eq!(parse_number(&to_chars("0")), Some(0));
    assert_eq!(parse_number(&to_chars("007")), Some(7));
    assert_eq!(parse_number(&to_chars("4294967295")), Some(4_294_967_295));
    assert_eq!(parse_number(&to_chars("4294967296")), None);
    assert_eq!(parse_number(&to_chars("99999999999999999999999")), None);
    assert_eq!(parse_number(&to_chars("")), None);
    assert_eq!(parse_number(&to_chars("+5")), None);
    assert_eq!(parse_number(&to_chars("1a")), None);
}

#[test]
fn items_of_a_field() {
    assert_eq!(
        parse_item(&to_chars("*"), 0, 59),
        Some(Span { first: 0, last: 59, step: 1 })
    );
    assert_eq!(
        parse_item(&to_chars("*/15"), 0, 59),
        Some(Span { first: 0, last: 59, step: 15 })
    );
    assert_eq!(
        parse_item(&to_chars("5"), 0, 59),
        Some(Span { first: 5, last: 5, step: 1 })
    );
    assert_eq!(
        parse_item(&to_chars("5/20"), 0, 59),
        Some(Span { first: 5, last: 59, step: 20 })
    );
    assert_eq!(
        parse_item(&to_chars("10-20/3"), 0, 59),
        Some(Span { first: 10, last: 20, step: 3 })
    );
    assert_eq!(parse_item(&to_chars("20-10"), 0, 59), None);
    assert_eq!(parse_item(&to_chars("0"), 1, 31), None);
    assert_eq!(parse_item(&to_chars("**"), 0, 59), None);
    assert_eq!(
        parse_field(&to_chars("1,2-3"), 0, 59),
        Some(vec![
            Span { first: 1, last: 1, step: 1 },
            Span { first: 2, last: 3, step: 1 }
        ])
    );
    assert_eq!(parse_field(&to_chars("1,"), 0, 59), None);
}

#[test]
fn every_day_has_its_place_in_the_week_and_the_calendar() {
    let mut before = chrono::NaiveDate::from_ymd_opt(0, 12, 31).unwrap();
    for day in 1..=3_652_059 {
        let date = Instant::new(day, 0).unwrap().date();
        assert_eq!(date.weekday, (day % 7) as u32, "day {}", day);
        let here = NaiveDate::from_ymd_opt(date.year, date.month, date.day).unwrap();
        assert_eq!(here, before.succ_opt().unwrap(), "day {}", day);
        assert!((1..=9999).contains(&date.year));
        before = here;
    }
    assert_eq!(before, NaiveDate::from_ymd_opt(9999, 12, 31).unwrap());
}
