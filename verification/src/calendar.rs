//! Instants of local wall-clock time, and the calendar behind them.
//!
//! An instant is a number of seconds: the day's number in the proleptic
//! Gregorian calendar (1 January of year 1 is day 1) times 86400, plus the
//! second of the day. Arithmetic on instants is arithmetic on integers; what
//! year, month and day of the month a day falls on is asked of `chrono`, and
//! so is its day of the week, which is the remainder of the day number by 7.

use vstd::prelude::*;

verus! {

/// The first day that an `Instant` can fall on: 1 January of year 1.
pub const MIN_DAY: i32 = 1;

/// The last day that an `Instant` can fall on: 31 December 9999.
pub const MAX_DAY: i32 = 3_652_059;

/// The seconds of a day.
pub const DAY_SECONDS: u32 = 86_400;

/// The year that day number `day` falls in, as `chrono` computes it.
pub uninterp spec fn year_of_day(day: int) -> int;

/// The month (1 to 12) that day number `day` falls in, as `chrono` computes it.
pub uninterp spec fn month_of_day(day: int) -> int;

/// The day of the month (1 to 31) of day number `day`, as `chrono` computes it.
pub uninterp spec fn day_of_month(day: int) -> int;

/// The day of the week of day number `day`, counted from Sunday as 0: day 1
/// is a Monday, and the days of the week follow each other without a gap.
pub open spec fn weekday_of_day(day: int) -> int {
    day % 7
}

/// A day of the calendar.
#[derive(Debug, Clone, Copy, PartialEq, Eq)]
pub struct CivilDate {
    pub year: i32,
    /// 1 to 12.
    pub month: u32,
    /// 1 to 31.
    pub day: u32,
    /// 0 (Sunday) to 6 (Saturday).
    pub weekday: u32,
}

impl CivilDate {
    /// The calendar date of day number `day`.
    pub open spec fn of_day(self, day: int) -> bool {
        &&& self.year == year_of_day(day)
        &&& self.month == month_of_day(day)
        &&& self.day == day_of_month(day)
        &&& self.weekday == weekday_of_day(day)
    }
}

/// Calls `chrono::NaiveDate::from_num_days_from_ce_opt` and reads the date
/// with `year`, `month`, `day` and `weekday().num_days_from_sunday()`.
///
/// Believed of `chrono`: every day from `MIN_DAY` to `MAX_DAY` is a date that
/// it can represent, in the years 1 to 9999; months count from 1 to 12 and
/// days of the month from 1 to 31; the day of the week, counted from Sunday
/// as 0, is the remainder of the day number by 7.
#[verifier::external_body]
pub(crate) fn civil_from_days(day: i32) -> (c: CivilDate)
    requires
        MIN_DAY <= day <= MAX_DAY,
    ensures
        c.year == year_of_day(day as int),
        c.month == month_of_day(day as int),
        c.day == day_of_month(day as int),
        c.weekday == day % 7,
        1 <= c.year <= 9999,
        1 <= c.month <= 12,
        1 <= c.day <= 31,
{
    let d = chrono::NaiveDate::from_num_days_from_ce_opt(day).unwrap();
    CivilDate {
        year: chrono::Datelike::year(&d),
        month: chrono::Datelike::month(&d),
        day: chrono::Datelike::day(&d),
        weekday: chrono::Datelike::weekday(&d).num_days_from_sunday(),
    }
}

/// Whether `t` seconds is an instant that the library can hold.
pub open spec fn is_instant(t: int) -> bool {
    MIN_DAY * 86_400 <= t < (MAX_DAY + 1) * 86_400
}

/// The last instant that the library can hold.
pub open spec fn last_instant() -> int {
    (MAX_DAY + 1) * 86_400 - 1
}

/// A second of local wall-clock time between 1 January of year 1 and
/// 31 December 9999.
#[derive(Debug, Clone, Copy, PartialEq, Eq)]
pub struct Instant {
    day: i32,
    second: u32,
}

impl View for Instant {
    type V = int;

    /// The seconds from the start of day 0 to this instant.
    closed spec fn view(&self) -> int {
        self.day as int * 86_400 + self.second as int
    }
}

impl Instant {
    /// The day lies in the range of the library, the second within its day.
    #[verifier::type_invariant]
    spec fn well_formed(self) -> bool {
        MIN_DAY <= self.day <= MAX_DAY && self.second < DAY_SECONDS
    }

    /// The instant at `second` seconds into day number `day`, where there is one.
    pub fn new(day: i32, second: u32) -> (r: Option<Instant>)
        ensures
            match r {
                Some(t) => MIN_DAY <= day <= MAX_DAY && second < DAY_SECONDS && t@ == day * 86_400
                    + second,
                None => !(MIN_DAY <= day <= MAX_DAY && second < DAY_SECONDS),
            },
    {
        if MIN_DAY <= day && day <= MAX_DAY && second < DAY_SECONDS {
            Some(Instant { day, second })
        } else {
            None
        }
    }

    /// The number of the day that the instant falls on.
    pub fn day(&self) -> (d: i32)
        ensures
            d == self@ / 86_400,
            MIN_DAY <= d <= MAX_DAY,
            is_instant(self@),
    {
        proof {
            use_type_invariant(self);
        }
        self.day
    }

    /// The seconds from midnight to the instant.
    pub fn second_of_day(&self) -> (s: u32)
        ensures
            s == self@ % 86_400,
            s < DAY_SECONDS,
            is_instant(self@),
    {
        proof {
            use_type_invariant(self);
        }
        self.second
    }

    /// The seconds from the start of day 0 to the instant.
    pub fn seconds(&self) -> (t: i64)
        ensures
            t == self@,
            is_instant(self@),
    {
        proof {
            use_type_invariant(self);
        }
        let day: i64 = self.day as i64;
        let second: i64 = self.second as i64;
        day * 86_400 + second
    }

    /// The calendar date that the instant falls on.
    pub fn date(&self) -> (c: CivilDate)
        ensures
            c.of_day(self@ / 86_400),
            1 <= c.year <= 9999,
            1 <= c.month <= 12,
            1 <= c.day <= 31,
            c.weekday <= 6,
    {
        civil_from_days(self.day())
    }
}


/// The character of the decimal digit `n`.
pub open spec fn digit_char(n: int) -> char {
    (n + '0' as int) as char
}

/// `n` in two decimal digits.
pub open spec fn two_digits(n: int) -> Seq<char> {
    seq![digit_char(n / 10), digit_char(n % 10)]
}

/// The text `YYYY-MM-DD HH:MM:SS` of a date and a second of the day.
pub open spec fn timestamp_text(year: int, month: int, day: int, second: int) -> Seq<char> {
    two_digits(year / 100) + two_digits(year % 100) + seq!['-'] + two_digits(month) + seq!['-']
        + two_digits(day) + seq![' '] + two_digits(second / 3600) + seq![':'] + two_digits(
        second / 60 % 60,
    ) + seq![':'] + two_digits(second % 60)
}

/// The text `YYYY-MM-DD HH:MM:SS` of the instant `t`.
pub open spec fn instant_text(t: int) -> Seq<char> {
    timestamp_text(
        year_of_day(t / 86_400),
        month_of_day(t / 86_400),
        day_of_month(t / 86_400),
        t % 86_400,
    )
}

/// Adds `n` in two decimal digits to the end of `out`.
fn push_two_digits(out: &mut String, n: u32)
    requires
        n < 100,
    ensures
        final(out)@ == old(out)@ + two_digits(n as int),
{
    let tens: u8 = (n / 10) as u8;
    let ones: u8 = (n % 10) as u8;
    let base: u8 = 48;
    assert('0' as int == 48);
    out.push((base + tens) as char);
    out.push((base + ones) as char);
    assert(out@ == old(out)@ + two_digits(n as int));
}

/// Writes a date and a second of the day as `YYYY-MM-DD HH:MM:SS`.
pub fn format_timestamp(date: &CivilDate, second: u32) -> (r: String)
    requires
        0 <= date.year <= 9999,
        date.month < 100,
        date.day < 100,
        second < DAY_SECONDS,
    ensures
        r@ == timestamp_text(date.year as int, date.month as int, date.day as int, second as int),
{
    let year: u32 = date.year as u32;
    let mut out = String::new();
    push_two_digits(&mut out, year / 100);
    push_two_digits(&mut out, year % 100);
    out.push('-');
    push_two_digits(&mut out, date.month);
    out.push('-');
    push_two_digits(&mut out, date.day);
    out.push(' ');
    push_two_digits(&mut out, second / 3600);
    out.push(':');
    push_two_digits(&mut out, second / 60 % 60);
    out.push(':');
    push_two_digits(&mut out, second % 60);
    assert(out@ == timestamp_text(
        date.year as int,
        date.month as int,
        date.day as int,
        second as int,
    ));
    out
}

/// Writes an instant as `YYYY-MM-DD HH:MM:SS`.
pub fn format_instant(t: &Instant) -> (r: String)
    ensures
        r@ == instant_text(t@),
{
    let date = t.date();
    format_timestamp(&date, t.second_of_day())
}

} // verus!
