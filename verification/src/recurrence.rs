//! When a recurrence fires next: the instants at which a schedule is due
//! after a given one, in ascending order.

use crate::calendar::{
    civil_from_days, format_instant, instant_text, is_instant, last_instant, weekday_of_day,
    Instant, MAX_DAY, MIN_DAY,
};
use crate::chars::{
    blank, contains, has_infix, has_prefix, is_blank, number_of, occurs_at, parse_number,
    slice_chars, split_words, starts_with, to_chars, words,
};
use crate::cron_expr::{all_of, schedule_of, shorthand_of, Schedule, ScheduleView};
use crate::error::{concat, Error, ErrorView};
use vstd::arithmetic::div_mod::{
    lemma_fundamental_div_mod, lemma_fundamental_div_mod_converse, lemma_mod_multiples_basic,
    lemma_mod_multiples_vanish,
};
use vstd::prelude::*;
use vstd::string::StringExecFns;

verus! {

/// `t` is the first instant after `after` at which `s` fires.
pub open spec fn is_next_run(s: ScheduleView, after: int, t: int) -> bool {
    &&& after < t
    &&& is_instant(t)
    &&& s.fires_at(t)
    &&& forall|u: int| after < u < t ==> !#[trigger] s.fires_at(u)
}

/// `s` fires at no instant after `after`.
pub open spec fn no_run_after(s: ScheduleView, after: int) -> bool {
    forall|u: int| after < u <= last_instant() ==> !#[trigger] s.fires_at(u)
}

/// The seconds of a row of instants.
pub open spec fn seconds_of(runs: Seq<Instant>) -> Seq<int> {
    runs.map_values(|t: Instant| t@)
}

/// `runs` are the first instants after `from` at which `s` fires, in order
/// and without a gap: `count` of them, or fewer where `s` fires no more.
pub open spec fn is_run_chain(s: ScheduleView, from: int, runs: Seq<int>, count: int) -> bool {
    &&& runs.len() <= count
    &&& forall|k: int|
        0 <= k < runs.len() ==> is_next_run(
            s,
            if k == 0 {
                from
            } else {
                runs[k - 1]
            },
            #[trigger] runs[k],
        )
    &&& runs.len() < count ==> no_run_after(
        s,
        if runs.len() == 0 {
            from
        } else {
            runs.last()
        },
    )
}

/// The first minute of a day, at or after minute `from`, at which `s` fires.
fn first_minute_from(s: &Schedule, from: u32) -> (r: Option<u32>)
    ensures
        match r {
            Some(m) => from <= m < 1440 && s@.minute_allowed(m as int) && forall|k: int|
                from <= k < m ==> !#[trigger] s@.minute_allowed(k),
            None => forall|k: int| from <= k < 1440 ==> !#[trigger] s@.minute_allowed(k),
        },
{
    let mut m: u32 = from;
    while m < 1440
        invariant
            from <= m,
            forall|k: int| from <= k < m && k < 1440 ==> !#[trigger] s@.minute_allowed(k),
        decreases 1440 - m,
    {
        if s.allows_minute(m) {
            return Some(m);
        }
        m += 1;
    }
    None
}

/// Within one day, an instant is a minute of the day and a second of the minute.
proof fn lemma_instant_of_day(u: int, day: int)
    requires
        day * 86_400 <= u < (day + 1) * 86_400,
    ensures
        u / 86_400 == day,
        u % 86_400 == u - day * 86_400,
        u % 60 == (u % 86_400) % 60,
        0 <= (u % 86_400) / 60 < 1440,
        u == day * 86_400 + ((u % 86_400) / 60) * 60 + u % 60,
{
    let r = u - day * 86_400;
    lemma_fundamental_div_mod_converse(u, 86_400, day, r);
    assert(u % 60 == r % 60) by {
        lemma_mod_multiples_vanish(day * 1440, r, 60);
    }
    lemma_fundamental_div_mod(r, 60);
}

/// The first instant after `after` at which `s` fires, if there is one.
pub fn next_run(s: &Schedule, after: &Instant) -> (r: Option<Instant>)
    ensures
        match r {
            Some(t) => is_next_run(s@, after@, t@),
            None => no_run_after(s@, after@),
        },
{
    let day0: i32 = after.day();
    let second0: u32 = after.second_of_day();
    let today = after.date();
    let ghost start: int = after@;
    let mut found: Option<u32> = None;
    if s.allows_date(&today) {
        found = first_minute_from(s, second0 / 60 + 1);
    }
    match found {
        Some(m) => {
            let r = Instant::new(day0, m * 60);
            let ghost t: int = day0 * 86_400 + m * 60;
            proof {
                lemma_instant_of_day(start, day0 as int);
                lemma_instant_of_day(t, day0 as int);
                assert forall|u: int| start < u < t implies !#[trigger] s@.fires_at(u) by {
                    lemma_instant_of_day(u, day0 as int);
                    let k = (u % 86_400) / 60;
                    if u % 60 == 0 {
                        assert(second0 / 60 + 1 <= k < m);
                        assert(!s@.minute_allowed(k));
                    }
                }
            }
            return r;
        },
        None => {},
    }
    proof {
        lemma_instant_of_day(start, day0 as int);
        assert forall|u: int| start < u < (day0 + 1) * 86_400 implies !#[trigger] s@.fires_at(
            u,
        ) by {
            lemma_instant_of_day(u, day0 as int);
            let k = (u % 86_400) / 60;
            if u % 60 == 0 && s@.day_allowed(day0 as int) {
                assert(second0 / 60 + 1 <= k < 1440);
                assert(!s@.minute_allowed(k));
            }
        }
    }
    let earliest = first_minute_from(s, 0);
    let m0: u32 = match earliest {
        Some(m) => m,
        None => {
            proof {
                assert forall|u: int| start < u <= last_instant() implies !#[trigger] s@.fires_at(
                    u,
                ) by {
                    let k = (u % 86_400) / 60;
                    assert(0 <= k < 1440);
                    assert(!s@.minute_allowed(k));
                }
            }
            return None;
        },
    };
    let mut day: i32 = day0;
    while day < MAX_DAY
        invariant
            day0 <= day <= MAX_DAY,
            start == after@,
            is_instant(start),
            start < (day0 + 1) * 86_400,
            m0 < 1440,
            s@.minute_allowed(m0 as int),
            forall|k: int| 0 <= k < m0 ==> !#[trigger] s@.minute_allowed(k),
            forall|u: int| start < u < (day + 1) * 86_400 ==> !#[trigger] s@.fires_at(u),
        decreases MAX_DAY - day,
    {
        day += 1;
        let date = civil_from_days(day);
        if s.allows_date(&date) {
            let r = Instant::new(day, m0 * 60);
            let ghost t: int = day * 86_400 + m0 * 60;
            proof {
                lemma_instant_of_day(t, day as int);
                assert forall|u: int| start < u < t implies !#[trigger] s@.fires_at(u) by {
                    if u >= day * 86_400 {
                        lemma_instant_of_day(u, day as int);
                        let k = (u % 86_400) / 60;
                        if u % 60 == 0 {
                            assert(0 <= k < m0);
                            assert(!s@.minute_allowed(k));
                        }
                    }
                }
            }
            return r;
        }
        proof {
            assert forall|u: int| start < u < (day + 1) * 86_400 implies !#[trigger] s@.fires_at(
                u,
            ) by {
                if u >= day * 86_400 {
                    lemma_instant_of_day(u, day as int);
                }
            }
        }
    }
    None
}

/// The first `count` instants after `from` at which `s` fires.
pub fn schedule_runs(s: &Schedule, from: &Instant, count: usize) -> (runs: Vec<Instant>)
    ensures
        is_run_chain(s@, from@, seconds_of(runs@), count as int),
{
    let mut runs: Vec<Instant> = Vec::new();
    let mut last: Instant = *from;
    while runs.len() < count
        invariant
            runs.len() <= count,
            last@ == if runs.len() == 0 {
                from@
            } else {
                seconds_of(runs@).last()
            },
            forall|k: int|
                0 <= k < runs.len() ==> is_next_run(
                    s@,
                    if k == 0 {
                        from@
                    } else {
                        seconds_of(runs@)[k - 1]
                    },
                    #[trigger] seconds_of(runs@)[k],
                ),
        decreases count - runs.len(),
    {
        match next_run(s, &last) {
            Some(t) => {
                let ghost before = seconds_of(runs@);
                runs.push(t);
                assert(seconds_of(runs@) =~= before.push(t@));
                last = t;
            },
            None => {
                return runs;
            },
        }
    }
    runs
}

/// What the step shorthand keeps of an expression: whether its minute field
/// is a step, and the step of its hour field where it is one.
#[derive(Debug, Clone, Copy, PartialEq, Eq)]
pub struct StepRule {
    pub zero_minute: bool,
    pub hour_step: Option<u32>,
}

/// `t` with its minute set to 0.
pub open spec fn at_minute_zero(t: int) -> int {
    t - t % 3600 + t % 60
}

/// `t` moved to the next hour that is a multiple of `n` and above the hour of
/// `t`; to hour 0 of the next day where that multiple is beyond 23.
pub open spec fn at_next_hour(t: int, n: int) -> int {
    let hour = (t % 86_400) / 3600;
    let next = (hour / n + 1) * n;
    if next >= 24 {
        (t / 86_400 + 1) * 86_400 + t % 3600
    } else {
        (t / 86_400) * 86_400 + next * 3600 + t % 3600
    }
}

impl StepRule {
    /// The rule is usable: a step of the hour is at least 1.
    pub open spec fn valid(self) -> bool {
        self.hour_step matches Some(n) ==> n >= 1
    }

    /// `t` after the minute rule, then the hour rule.
    pub open spec fn adjust(self, t: int) -> int {
        let a = if self.zero_minute {
            at_minute_zero(t)
        } else {
            t
        };
        match self.hour_step {
            Some(n) => at_next_hour(a, n as int),
            None => a,
        }
    }

    /// The run of index `k` after `from`: the first is `from` without its
    /// seconds, adjusted; each later one is the one before it plus an hour,
    /// adjusted.
    pub open spec fn run(self, from: int, k: nat) -> int
        decreases k,
    {
        if k == 0 {
            self.adjust(from - from % 60)
        } else {
            self.adjust(self.run(from, (k - 1) as nat) + 3600)
        }
    }
}

/// Applies the minute rule and the hour rule to second `second` of day `day`.
fn step_adjust(rule: &StepRule, day: i32, second: u32) -> (r: (i32, u32))
    requires
        rule.valid(),
        second < 86_400,
        day < i32::MAX,
    ensures
        r.0 * 86_400 + r.1 == rule.adjust(day * 86_400 + second),
        r.1 < 86_400,
        day <= r.0 <= day + 1,
{
    let ghost t: int = day * 86_400 + second;
    proof {
        lemma_fundamental_div_mod_converse(t, 86_400, day as int, second as int);
        assert(t % 3600 == second % 3600) by {
            lemma_mod_multiples_vanish(day * 24, second as int, 3600);
        }
        assert(t % 60 == second % 60) by {
            lemma_mod_multiples_vanish(day * 1440, second as int, 60);
        }
    }
    let a: u32 = if rule.zero_minute {
        second - second % 3600 + second % 60
    } else {
        second
    };
    let ghost ta: int = day * 86_400 + a;
    proof {
        lemma_fundamental_div_mod_converse(ta, 86_400, day as int, a as int);
        assert(ta % 3600 == a % 3600) by {
            lemma_mod_multiples_vanish(day * 24, a as int, 3600);
        }
    }
    match rule.hour_step {
        Some(n) => {
            let hour: u32 = a / 3600;
            let rounds: u64 = (hour / n + 1) as u64;
            assert(rounds * n <= 24 * 0xffff_ffff) by (nonlinear_arith)
                requires
                    rounds <= 24,
                    n <= 0xffff_ffff,
            ;
            let next: u64 = rounds * n as u64;
            if next >= 24 {
                (day + 1, a % 3600)
            } else {
                (day, next as u32 * 3600 + a % 3600)
            }
        },
        None => (day, a),
    }
}

/// One hour after second `second` of day `day`.
fn hour_later(day: i32, second: u32) -> (r: (i32, u32))
    requires
        second < 86_400,
        day < i32::MAX,
    ensures
        r.0 * 86_400 + r.1 == day * 86_400 + second + 3600,
        r.1 < 86_400,
        day <= r.0 <= day + 1,
{
    if second + 3600 >= 86_400 {
        (day + 1, second + 3600 - 86_400)
    } else {
        (day, second + 3600)
    }
}

/// The first `count` runs of the step shorthand after `from`, as far as they
/// are instants that the library can hold.
pub fn step_runs(rule: &StepRule, from: &Instant, count: usize) -> (runs: Vec<Instant>)
    requires
        rule.valid(),
    ensures
        runs.len() <= count,
        forall|k: int|
            0 <= k < runs.len() ==> (#[trigger] runs[k])@ == rule.run(from@, k as nat)
                && is_instant(runs[k]@),
        runs.len() < count ==> !is_instant(rule.run(from@, runs.len() as nat)),
{
    let mut runs: Vec<Instant> = Vec::new();
    let day0: i32 = from.day();
    let second0: u32 = from.second_of_day();
    let mut day: i32 = day0;
    let mut second: u32 = second0 - second0 % 60;
    proof {
        let t = from@;
        lemma_fundamental_div_mod(t, 86_400);
        assert(t % 60 == second0 % 60) by {
            lemma_mod_multiples_vanish(day0 * 1440, second0 as int, 60);
        }
    }
    while runs.len() < count
        invariant
            runs.len() <= count,
            rule.valid(),
            second < 86_400,
            MIN_DAY <= day <= MAX_DAY + 1,
            day * 86_400 + second >= 0,
            rule.adjust(day * 86_400 + second) == rule.run(from@, runs.len() as nat),
            forall|k: int|
                0 <= k < runs.len() ==> (#[trigger] runs[k])@ == rule.run(from@, k as nat)
                    && is_instant(runs[k]@),
        decreases count - runs.len(),
    {
        let ghost t0: int = day * 86_400 + second;
        let adjusted = step_adjust(rule, day, second);
        proof {
            lemma_adjust_grows(*rule, t0);
            lemma_fundamental_div_mod(t0, 3600);
        }
        match Instant::new(adjusted.0, adjusted.1) {
            Some(t) => {
                runs.push(t);
                let next = hour_later(adjusted.0, adjusted.1);
                day = next.0;
                second = next.1;
            },
            None => {
                return runs;
            },
        }
    }
    runs
}

/// The rules never move an instant back beyond the start of its hour.
pub proof fn lemma_adjust_grows(rule: StepRule, t: int)
    requires
        rule.valid(),
        t >= 0,
    ensures
        rule.adjust(t) >= t - t % 3600,
{
    let a = if rule.zero_minute {
        at_minute_zero(t)
    } else {
        t
    };
    lemma_fundamental_div_mod(t, 3600);
    lemma_fundamental_div_mod(t, 60);
    assert(a >= t - t % 3600);
    assert(a % 3600 == if rule.zero_minute {
        t % 60
    } else {
        t % 3600
    }) by {
        if rule.zero_minute {
            lemma_fundamental_div_mod_converse(a, 3600, t / 3600, t % 60);
        }
    }
    match rule.hour_step {
        Some(n) => {
            let hour = (a % 86_400) / 3600;
            let next = (hour / (n as int) + 1) * n;
            lemma_fundamental_div_mod(a, 86_400);
            lemma_fundamental_div_mod(a % 86_400, 3600);
            assert((a % 86_400) % 3600 == a % 3600) by {
                lemma_mod_multiples_vanish((a / 86_400) * 24, a % 86_400, 3600);
            }
            assert(next > hour) by {
                lemma_fundamental_div_mod(hour, n as int);
                assert((hour / (n as int) + 1) * n == (hour / (n as int)) * n + n)
                    by (nonlinear_arith);
                assert((n as int) * (hour / (n as int)) == (hour / (n as int)) * n)
                    by (nonlinear_arith);
            }
        },
        None => {},
    }
}


/// What a recurrence expression asks for.
pub enum RecurrenceView {
    /// The step shorthand: the expression holds a `*/n`.
    Steps(StepRule),
    /// A named shorthand or a standard expression: the instants at which a
    /// schedule fires.
    Clock(ScheduleView),
}

/// Why a recurrence expression is refused.
pub enum Fault {
    /// It is empty or blank.
    Empty,
    /// It holds a step and does not have five fields.
    StepFields,
    /// The hour step is 0.
    ZeroStep,
    /// It starts with `@` and is no known shorthand.
    Unsupported,
    /// It is a standard expression and does not have five fields.
    FieldCount,
    /// One of its five fields is ill formed.
    Malformed,
}

/// The step of a field of the form `*/n`.
pub open spec fn step_of(field: Seq<char>) -> Option<u32> {
    if has_prefix(field, seq!['*', '/']) {
        match number_of(field.skip(2)) {
            Some(n) => Some(n as u32),
            None => None,
        }
    } else {
        None
    }
}

/// What the expression `expr` asks for. An expression that holds `*/` goes by
/// the step shorthand, one that starts with `@` is a named shorthand, any
/// other has the five standard fields.
pub open spec fn recurrence_of(expr: Seq<char>) -> Result<RecurrenceView, Fault> {
    let fields = words(expr);
    if is_blank(expr) {
        Err(Fault::Empty)
    } else if has_infix(expr, seq!['*', '/']) {
        if fields.len() != 5 {
            Err(Fault::StepFields)
        } else if step_of(fields[1]) == Some(0u32) {
            Err(Fault::ZeroStep)
        } else {
            Ok(
                RecurrenceView::Steps(
                    StepRule {
                        zero_minute: step_of(fields[0]) is Some,
                        hour_step: step_of(fields[1]),
                    },
                ),
            )
        }
    } else if has_prefix(expr, seq!['@']) {
        match shorthand_of(expr) {
            Some(s) => Ok(RecurrenceView::Clock(s)),
            None => Err(Fault::Unsupported),
        }
    } else if fields.len() != 5 {
        Err(Fault::FieldCount)
    } else {
        match schedule_of(fields) {
            Some(s) => Ok(RecurrenceView::Clock(s)),
            None => Err(Fault::Malformed),
        }
    }
}

/// What is said of an expression that is not valid: the expression itself,
/// in quotes, and that it is invalid.
pub open spec fn invalid_text(expr: Seq<char>) -> Seq<char> {
    "无效的 cron 表达式 '"@ + expr + "': Invalid expression: Invalid cron expression."@
}

/// The error that reports the fault `fault` of the expression `expr`.
pub open spec fn fault_report(fault: Fault, expr: Seq<char>) -> ErrorView {
    match fault {
        Fault::Empty => ErrorView::InvalidExpression("Cron 表达式不能为空"@),
        Fault::StepFields => ErrorView::InvalidExpression("Cron 表达式必须包含5个字段"@),
        Fault::ZeroStep => ErrorView::InvalidExpression(invalid_text(expr)),
        Fault::Unsupported => ErrorView::UnsupportedExpression("不支持的特殊表达式: "@ + expr),
        Fault::FieldCount => ErrorView::InvalidExpression(invalid_text(expr)),
        Fault::Malformed => ErrorView::InvalidExpression(invalid_text(expr)),
    }
}

/// Whether the error `e` reports the fault `fault` of the expression `expr`.
pub open spec fn reports(e: Error, fault: Fault, expr: Seq<char>) -> bool {
    e@ == fault_report(fault, expr)
}

/// The error that says that `expression` is not valid.
fn invalid(expression: &str) -> (e: Error)
    ensures
        e@ == ErrorView::InvalidExpression(invalid_text(expression@)),
{
    let mut m = concat("无效的 cron 表达式 '", expression);
    m.append("': Invalid expression: Invalid cron expression.");
    Error::InvalidExpression(m)
}

/// A parsed recurrence expression.
#[derive(Debug, Clone, PartialEq, Eq)]
pub enum Recurrence {
    Steps(StepRule),
    Clock(Schedule),
}

impl View for Recurrence {
    type V = RecurrenceView;

    open spec fn view(&self) -> RecurrenceView {
        match self {
            Recurrence::Steps(rule) => RecurrenceView::Steps(*rule),
            Recurrence::Clock(s) => RecurrenceView::Clock(s@),
        }
    }
}

impl RecurrenceView {
    /// Whether the recurrence can be evaluated.
    pub open spec fn valid(self) -> bool {
        self matches RecurrenceView::Steps(rule) ==> rule.valid()
    }

    /// `runs` are the first `count` runs of the recurrence after `from`, or
    /// fewer where there are no more that the library can hold.
    pub open spec fn runs_are(self, from: int, runs: Seq<int>, count: int) -> bool {
        match self {
            RecurrenceView::Steps(rule) => {
                &&& runs.len() <= count
                &&& forall|k: int|
                    0 <= k < runs.len() ==> #[trigger] runs[k] == rule.run(from, k as nat)
                        && is_instant(runs[k])
                &&& runs.len() < count ==> !is_instant(rule.run(from, runs.len()))
            },
            RecurrenceView::Clock(s) => is_run_chain(s, from, runs, count),
        }
    }
}

/// Reads the step of a field of the form `*/n`.
fn step_in(field: &[char]) -> (r: Option<u32>)
    ensures
        r == step_of(field@),
{
    let mark = to_chars("*/");
    proof {
        reveal_strlit("*/");
        assert(mark@ =~= seq!['*', '/']);
    }
    if starts_with(field, mark.as_slice()) {
        let digits = slice_chars(field, 2, field.len());
        assert(digits@ == field@.skip(2));
        parse_number(digits.as_slice())
    } else {
        None
    }
}

/// Reads a recurrence expression.
pub fn parse_recurrence(expression: &str) -> (r: Result<Recurrence, Error>)
    ensures
        match r {
            Ok(rec) => recurrence_of(expression@) == Ok::<RecurrenceView, Fault>(rec@)
                && rec@.valid(),
            Err(e) => recurrence_of(expression@) matches Err(fault) && reports(
                e,
                fault,
                expression@,
            ),
        },
{
    let expr = to_chars(expression);
    if blank(expr.as_slice()) {
        return Err(Error::InvalidExpression(String::from_str("Cron 表达式不能为空")));
    }
    let fields = split_words(expr.as_slice());
    let mark = to_chars("*/");
    let at = to_chars("@");
    proof {
        reveal_strlit("*/");
        reveal_strlit("@");
        assert(mark@ =~= seq!['*', '/']);
        assert(at@ =~= seq!['@']);
    }
    if contains(expr.as_slice(), mark.as_slice()) {
        if fields.len() != 5 {
            return Err(Error::InvalidExpression(String::from_str("Cron 表达式必须包含5个字段")));
        }
        assert(fields.deep_view()[0] == fields@[0]@);
        assert(fields.deep_view()[1] == fields@[1]@);
        let minute_step = step_in(fields[0].as_slice());
        let hour_step = step_in(fields[1].as_slice());
        match hour_step {
            Some(n) => {
                if n == 0 {
                    return Err(invalid(expression));
                }
            },
            None => {},
        }
        return Ok(Recurrence::Steps(StepRule { zero_minute: minute_step.is_some(), hour_step }));
    }
    if starts_with(expr.as_slice(), at.as_slice()) {
        return match Schedule::shorthand(expr.as_slice()) {
            Some(s) => Ok(Recurrence::Clock(s)),
            None => Err(Error::UnsupportedExpression(concat("不支持的特殊表达式: ", expression))),
        };
    }
    if fields.len() != 5 {
        return Err(invalid(expression));
    }
    match Schedule::parse(&fields) {
        Some(s) => Ok(Recurrence::Clock(s)),
        None => Err(invalid(expression)),
    }
}

/// The first `count` runs of `rec` after `from`.
pub fn recurrence_runs(rec: &Recurrence, from: &Instant, count: usize) -> (runs: Vec<Instant>)
    requires
        rec@.valid(),
    ensures
        rec@.runs_are(from@, seconds_of(runs@), count as int),
{
    match rec {
        Recurrence::Steps(rule) => {
            let runs = step_runs(rule, from, count);
            assert forall|k: int| 0 <= k < runs.len() implies #[trigger] seconds_of(runs@)[k]
                == rule.run(from@, k as nat) && is_instant(seconds_of(runs@)[k]) by {
                assert(seconds_of(runs@)[k] == runs[k]@);
            }
            runs
        },
        Recurrence::Clock(s) => schedule_runs(s, from, count),
    }
}

/// The first `count` runs of the expression `expression` after `from`, in
/// ascending order.
pub fn next_runs(expression: &str, from: &Instant, count: usize) -> (r: Result<
    Vec<Instant>,
    Error,
>)
    ensures
        match r {
            Ok(runs) => recurrence_of(expression@) matches Ok(rec) && rec.runs_are(
                from@,
                seconds_of(runs@),
                count as int,
            ),
            Err(e) => recurrence_of(expression@) matches Err(fault) && reports(
                e,
                fault,
                expression@,
            ),
        },
{
    match parse_recurrence(expression) {
        Ok(rec) => Ok(recurrence_runs(&rec, from, count)),
        Err(e) => Err(e),
    }
}


/// Whether `s` fires exactly at the multiples of `period` seconds.
pub open spec fn fires_every(s: ScheduleView, period: int) -> bool {
    forall|t: int| t >= 0 ==> #[trigger] s.fires_at(t) == (t % period == 0)
}

/// A schedule that fires at every midnight and at no other time.
pub open spec fn fires_daily(s: ScheduleView) -> bool {
    &&& s.minutes == set![0int]
    &&& s.hours == set![0int]
    &&& s.any_day
    &&& s.any_month
    &&& s.any_weekday
}

/// A schedule that fires at the start of every hour and at no other time.
pub open spec fn fires_hourly(s: ScheduleView) -> bool {
    &&& s.minutes == set![0int]
    &&& s.hours == all_of(0, 23)
    &&& s.any_day
    &&& s.any_month
    &&& s.any_weekday
}

/// None of `@daily`, `@hourly` and `@weekly` is blank or holds a step, and
/// each starts with `@`.
proof fn lemma_shorthand_shape(e: Seq<char>)
    requires
        e == "@daily"@ || e == "@hourly"@ || e == "@weekly"@,
    ensures
        !is_blank(e),
        !has_infix(e, seq!['*', '/']),
        has_prefix(e, seq!['@']),
{
    reveal_strlit("@daily");
    reveal_strlit("@hourly");
    reveal_strlit("@weekly");
    assert(e[0] == '@');
    assert forall|i: int| !occurs_at(e, seq!['*', '/'], i) by {
        if occurs_at(e, seq!['*', '/'], i) {
            assert(e.subrange(i, i + 2)[0] == '*');
            assert(e[i] == '*');
        }
    }
    assert(e.subrange(0, 1) =~= seq!['@']);
}

/// `@daily` is a shorthand for a schedule that fires at every midnight.
pub proof fn lemma_daily_expression()
    ensures
        recurrence_of("@daily"@) matches Ok(RecurrenceView::Clock(s)) && fires_daily(s),
{
    lemma_shorthand_shape("@daily"@);
    reveal_strlit("@daily");
    reveal_strlit("@yearly");
    reveal_strlit("@annually");
    reveal_strlit("@monthly");
    reveal_strlit("@weekly");
}

/// `@hourly` is a shorthand for a schedule that fires at the start of every
/// hour.
pub proof fn lemma_hourly_expression()
    ensures
        recurrence_of("@hourly"@) matches Ok(RecurrenceView::Clock(s)) && fires_hourly(s),
{
    lemma_shorthand_shape("@hourly"@);
    reveal_strlit("@hourly");
    reveal_strlit("@yearly");
    reveal_strlit("@annually");
    reveal_strlit("@monthly");
    reveal_strlit("@weekly");
    reveal_strlit("@daily");
    reveal_strlit("@midnight");
    let e = "@hourly"@;
    assert(e[1] == 'h');
}

/// A schedule that fires at midnight of every Sunday and at no other time.
pub open spec fn fires_weekly(s: ScheduleView) -> bool {
    &&& s.minutes == set![0int]
    &&& s.hours == set![0int]
    &&& s.weekdays == set![0int]
    &&& s.any_day
    &&& s.any_month
    &&& !s.any_weekday
}

/// `@weekly` is a shorthand for a schedule that fires at midnight of every
/// Sunday.
pub proof fn lemma_weekly_expression()
    ensures
        recurrence_of("@weekly"@) matches Ok(RecurrenceView::Clock(s)) && fires_weekly(s),
{
    lemma_shorthand_shape("@weekly"@);
    reveal_strlit("@weekly");
    reveal_strlit("@yearly");
    reveal_strlit("@annually");
    reveal_strlit("@monthly");
    let e = "@weekly"@;
    assert(e[1] == 'w');
}

/// A schedule that fires weekly fires exactly at the starts of the weeks,
/// which begin on Sundays: at the multiples of seven days.
proof fn lemma_weekly_is_periodic(s: ScheduleView)
    requires
        fires_weekly(s),
    ensures
        fires_every(s, 604_800),
{
    assert forall|t: int| t >= 0 implies #[trigger] s.fires_at(t) == (t % 604_800 == 0) by {
        let day = t / 86_400;
        let r = t % 86_400;
        lemma_fundamental_div_mod(t, 86_400);
        lemma_fundamental_div_mod(r, 60);
        assert(t % 60 == r % 60) by {
            lemma_mod_multiples_vanish(day * 1440, r, 60);
        }
        let minute = r / 60;
        lemma_fundamental_div_mod(minute, 60);
        assert(s.minute_allowed(minute) == (minute / 60 == 0 && minute % 60 == 0));
        assert(s.day_allowed(day) == (day % 7 == 0));
        assert(s.fires_at(t) == (r == 0 && day % 7 == 0));
        lemma_fundamental_div_mod(day, 7);
        if r == 0 && day % 7 == 0 {
            lemma_fundamental_div_mod_converse(t, 604_800, day / 7, 0);
        }
        if t % 604_800 == 0 {
            lemma_fundamental_div_mod(t, 604_800);
            lemma_fundamental_div_mod_converse(t, 86_400, (t / 604_800) * 7, 0);
            lemma_fundamental_div_mod_converse(day, 7, t / 604_800, 0);
        }
    }
}

/// A schedule that fires daily fires exactly at the starts of the days.
proof fn lemma_daily_is_periodic(s: ScheduleView)
    requires
        fires_daily(s),
    ensures
        fires_every(s, 86_400),
{
    assert forall|t: int| t >= 0 implies #[trigger] s.fires_at(t) == (t % 86_400 == 0) by {
        let r = t % 86_400;
        lemma_fundamental_div_mod(t, 86_400);
        lemma_fundamental_div_mod(r, 60);
        assert(t % 60 == r % 60) by {
            lemma_mod_multiples_vanish((t / 86_400) * 1440, r, 60);
        }
        let minute = r / 60;
        lemma_fundamental_div_mod(minute, 60);
        assert(s.minute_allowed(minute) == (minute / 60 == 0 && minute % 60 == 0));
        assert(s.day_allowed(t / 86_400));
    }
}

/// A schedule that fires hourly fires exactly at the starts of the hours.
proof fn lemma_hourly_is_periodic(s: ScheduleView)
    requires
        fires_hourly(s),
    ensures
        fires_every(s, 3600),
{
    assert forall|t: int| t >= 0 implies #[trigger] s.fires_at(t) == (t % 3600 == 0) by {
        let r = t % 86_400;
        lemma_fundamental_div_mod(t, 86_400);
        lemma_fundamental_div_mod(r, 60);
        assert(t % 60 == r % 60) by {
            lemma_mod_multiples_vanish((t / 86_400) * 1440, r, 60);
        }
        assert(t % 3600 == r % 3600) by {
            lemma_mod_multiples_vanish((t / 86_400) * 24, r, 3600);
        }
        let minute = r / 60;
        lemma_fundamental_div_mod(minute, 60);
        lemma_fundamental_div_mod(r, 3600);
        assert(0 <= minute / 60 <= 23);
        assert(s.hours.contains(minute / 60));
        assert(s.minute_allowed(minute) == (minute % 60 == 0));
        assert(s.day_allowed(t / 86_400));
        assert((r % 60 == 0 && minute % 60 == 0) == (r % 3600 == 0)) by {
            if r % 60 == 0 && minute % 60 == 0 {
                lemma_fundamental_div_mod_converse(r, 3600, minute / 60, 0);
            }
            if r % 3600 == 0 {
                lemma_fundamental_div_mod_converse(r, 60, (r / 3600) * 60, 0);
                lemma_fundamental_div_mod_converse(minute, 60, r / 3600, 0);
            }
        }
    }
}

/// The first run after `after` of a schedule that fires at the multiples of
/// `period` is the next multiple.
proof fn lemma_periodic_next(s: ScheduleView, period: int, after: int, t: int)
    requires
        fires_every(s, period),
        period > 0,
        after >= 0,
        is_next_run(s, after, t),
    ensures
        t == (after / period + 1) * period,
{
    let q = after / period;
    let c = (q + 1) * period;
    lemma_fundamental_div_mod(after, period);
    lemma_fundamental_div_mod(t, period);
    lemma_mod_multiples_basic(q + 1, period);
    let ra = after % period;
    let qt = t / period;
    assert(0 <= ra < period) by {
        vstd::arithmetic::div_mod::lemma_mod_pos_bound(after, period);
    }
    assert(c > after && c >= 0) by (nonlinear_arith)
        requires
            c == (q + 1) * period,
            after == period * q + ra,
            0 <= ra < period,
            after >= 0,
    ;
    assert(s.fires_at(c));
    assert(s.fires_at(t));
    assert(t % period == 0);
    if t > c {
        assert(!s.fires_at(c));
    }
    assert(t == c) by (nonlinear_arith)
        requires
            period > 0,
            c == (q + 1) * period,
            after == period * q + ra,
            0 <= ra < period,
            t == period * qt,
            after < t <= c,
    ;
}

/// Run `k` after `from` of a schedule that fires at the multiples of
/// `period` is the multiple of index `k + 1` after `from`.
proof fn lemma_periodic_prefix(s: ScheduleView, period: int, from: int, runs: Seq<int>, k: int)
    requires
        fires_every(s, period),
        period > 0,
        from >= 0,
        0 <= k < runs.len(),
        forall|j: int|
            0 <= j < runs.len() ==> is_next_run(
                s,
                if j == 0 {
                    from
                } else {
                    runs[j - 1]
                },
                #[trigger] runs[j],
            ),
    ensures
        runs[k] == (from / period + 1 + k) * period,
    decreases k,
{
    if k == 0 {
        lemma_periodic_next(s, period, from, runs[0]);
    } else {
        lemma_periodic_prefix(s, period, from, runs, k - 1);
        let before = runs[k - 1];
        let index = from / period + 1 + (k - 1);
        let q = from / period + k;
        assert(index == q);
        assert(before == q * period);
        assert(before >= 0) by {
            assert(is_next_run(s, if k - 1 == 0 { from } else { runs[k - 2] }, runs[k - 1]));
        }
        lemma_fundamental_div_mod_converse(before, period, q, 0);
        assert(is_next_run(s, before, runs[k]));
        lemma_periodic_next(s, period, before, runs[k]);
        assert(before / period + 1 == from / period + 1 + k);
    }
}

/// How many multiples of `period` lie after `from` and not after the last
/// instant that the library can hold.
pub open spec fn periods_left(from: int, period: int) -> int {
    last_instant() / period - from / period
}

/// `count`, or `left` where that is less.
pub open spec fn at_most(count: int, left: int) -> int {
    if count <= left {
        count
    } else {
        left
    }
}

/// Asked for `count` runs after `from`, a schedule that fires at the
/// multiples of `period` yields the multiples that follow `from`, one after
/// the other: `count` of them, or as many as the library can hold where
/// those are fewer.
proof fn lemma_periodic_runs(s: ScheduleView, period: int, from: int, runs: Seq<int>, count: int)
    requires
        fires_every(s, period),
        period > 0,
        is_instant(from),
        is_run_chain(s, from, runs, count),
    ensures
        runs.len() == at_most(count, periods_left(from, period)),
        forall|k: int|
            0 <= k < runs.len() ==> #[trigger] runs[k] == (from / period + 1 + k) * period,
{
    assert forall|k: int| 0 <= k < runs.len() implies #[trigger] runs[k] == (from / period + 1
        + k) * period by {
        lemma_periodic_prefix(s, period, from, runs, k);
    }
    let n = runs.len() as int;
    let q = from / period;
    let ra = from % period;
    let end = last_instant();
    let l = end / period;
    let rl = end % period;
    lemma_fundamental_div_mod(from, period);
    lemma_fundamental_div_mod(end, period);
    vstd::arithmetic::div_mod::lemma_mod_pos_bound(from, period);
    vstd::arithmetic::div_mod::lemma_mod_pos_bound(end, period);
    if n > 0 {
        let last = runs[n - 1];
        assert(is_instant(last));
        assert(q + n <= l) by (nonlinear_arith)
            requires
                period > 0,
                last == (q + 1 + (n - 1)) * period,
                last <= end,
                end == period * l + rl,
                0 <= rl < period,
        ;
    } else {
        vstd::arithmetic::div_mod::lemma_div_is_ordered(from, end, period);
    }
    if n < count {
        let last = if n == 0 {
            from
        } else {
            runs.last()
        };
        let c = (q + 1 + n) * period;
        if n > 0 {
            assert(runs.last() == runs[n - 1]);
        }
        lemma_mod_multiples_basic(q + 1 + n, period);
        assert(last < c && c >= 0) by (nonlinear_arith)
            requires
                period > 0,
                c == (q + 1 + n) * period,
                from == period * q + ra,
                0 <= ra < period,
                from >= 0,
                0 <= n,
                n == 0 ==> last == from,
                n > 0 ==> last == (q + 1 + (n - 1)) * period,
        ;
        assert(s.fires_at(c));
        if c <= end {
            assert(!s.fires_at(c));
        }
        assert(q + 1 + n > l) by (nonlinear_arith)
            requires
                period > 0,
                c == (q + 1 + n) * period,
                c > end,
                end == period * l + rl,
                0 <= rl < period,
        ;
    }
}

/// Asked for `count` runs after `from`, `@daily` yields the midnights that
/// follow `from`, one after the other: the first is the next midnight,
/// strictly after `from`, and each later one comes exactly 24 hours after
/// the one before. There are `count` of them where `count` more days fit
/// before the last day of the library, else as many as fit.
pub proof fn lemma_daily_runs(from: int, runs: Seq<int>, count: int)
    requires
        is_instant(from),
        recurrence_of("@daily"@) matches Ok(rec) && rec.runs_are(from, runs, count),
    ensures
        runs.len() == at_most(count, MAX_DAY - from / 86_400),
        forall|k: int|
            0 <= k < runs.len() ==> #[trigger] runs[k] == (from / 86_400 + 1 + k) * 86_400,
        forall|k: int| 0 <= k < runs.len() ==> from < #[trigger] runs[k],
        forall|k: int| 1 <= k < runs.len() ==> #[trigger] runs[k] == runs[k - 1] + 86_400,
{
    lemma_daily_expression();
    let s = recurrence_of("@daily"@)->Ok_0->Clock_0;
    lemma_daily_is_periodic(s);
    lemma_periodic_runs(s, 86_400, from, runs, count);
    lemma_fundamental_div_mod(from, 86_400);
    assert(last_instant() / 86_400 == MAX_DAY);
}

/// Asked for `count` runs after `from`, `@hourly` yields the starts of the
/// hours that follow `from`, one after the other: the first is the start of
/// the next hour, strictly after `from`, and each later one comes exactly one
/// hour after the one before. There are `count` of them, or as many as the
/// library can hold where those are fewer.
pub proof fn lemma_hourly_runs(from: int, runs: Seq<int>, count: int)
    requires
        is_instant(from),
        recurrence_of("@hourly"@) matches Ok(rec) && rec.runs_are(from, runs, count),
    ensures
        runs.len() == at_most(count, periods_left(from, 3600)),
        forall|k: int| 0 <= k < runs.len() ==> #[trigger] runs[k] == (from / 3600 + 1 + k) * 3600,
        forall|k: int| 0 <= k < runs.len() ==> from < #[trigger] runs[k],
        forall|k: int| 1 <= k < runs.len() ==> #[trigger] runs[k] == runs[k - 1] + 3600,
{
    lemma_hourly_expression();
    let s = recurrence_of("@hourly"@)->Ok_0->Clock_0;
    lemma_hourly_is_periodic(s);
    lemma_periodic_runs(s, 3600, from, runs, count);
    lemma_fundamental_div_mod(from, 3600);
}

/// Asked for `count` runs after `from`, `@weekly` yields the midnights that
/// open the Sundays after `from`, one after the other: the first is the
/// next of them, strictly after `from`, and each later one comes exactly
/// seven days after the one before. There are `count` of them, or as many as
/// the library can hold where those are fewer.
pub proof fn lemma_weekly_runs(from: int, runs: Seq<int>, count: int)
    requires
        is_instant(from),
        recurrence_of("@weekly"@) matches Ok(rec) && rec.runs_are(from, runs, count),
    ensures
        runs.len() == at_most(count, periods_left(from, 604_800)),
        forall|k: int|
            0 <= k < runs.len() ==> #[trigger] runs[k] == (from / 604_800 + 1 + k) * 604_800,
        forall|k: int| 0 <= k < runs.len() ==> weekday_of_day(#[trigger] runs[k] / 86_400) == 0,
        forall|k: int| 0 <= k < runs.len() ==> from < #[trigger] runs[k],
        forall|k: int| 1 <= k < runs.len() ==> #[trigger] runs[k] == runs[k - 1] + 604_800,
{
    lemma_weekly_expression();
    let s = recurrence_of("@weekly"@)->Ok_0->Clock_0;
    lemma_weekly_is_periodic(s);
    lemma_periodic_runs(s, 604_800, from, runs, count);
    lemma_fundamental_div_mod(from, 604_800);
    assert forall|k: int| 0 <= k < runs.len() implies weekday_of_day(#[trigger] runs[k] / 86_400)
        == 0 by {
        let q = from / 604_800 + 1 + k;
        lemma_fundamental_div_mod_converse(runs[k], 86_400, q * 7, 0);
        lemma_fundamental_div_mod_converse(q * 7, 7, q, 0);
    }
}

/// The runs of a recurrence ascend strictly; those of a schedule come after
/// `from`.
pub proof fn lemma_runs_ascend(rec: RecurrenceView, from: int, runs: Seq<int>, count: int)
    requires
        rec.valid(),
        rec.runs_are(from, runs, count),
    ensures
        forall|j: int, k: int| 0 <= j < k < runs.len() ==> runs[j] < runs[k],
        rec is Clock ==> forall|k: int| 0 <= k < runs.len() ==> from < #[trigger] runs[k],
{
    assert forall|k: int| 0 < k < runs.len() implies runs[k - 1] < #[trigger] runs[k] by {
        match rec {
            RecurrenceView::Steps(rule) => {
                let before = runs[k - 1];
                assert(before == rule.run(from, (k - 1) as nat) && is_instant(before));
                assert(runs[k] == rule.adjust(before + 3600));
                lemma_adjust_grows(rule, before + 3600);
                lemma_fundamental_div_mod(before + 3600, 3600);
            },
            RecurrenceView::Clock(s) => {},
        }
    }
    assert forall|j: int, k: int| 0 <= j < k < runs.len() implies runs[j] < runs[k] by {
        lemma_steps_ascend(runs, j, k);
    }
    if rec is Clock {
        assert forall|k: int| 0 <= k < runs.len() implies from < #[trigger] runs[k] by {
            if k > 0 {
                lemma_steps_ascend(runs, 0, k);
            }
        }
    }
}

/// A row that grows from each item to the next grows from each item to every
/// later one.
proof fn lemma_steps_ascend(runs: Seq<int>, j: int, k: int)
    requires
        0 <= j < k < runs.len(),
        forall|i: int| 0 < i < runs.len() ==> runs[i - 1] < #[trigger] runs[i],
    ensures
        runs[j] < runs[k],
    decreases k - j,
{
    if j + 1 < k {
        lemma_steps_ascend(runs, j, k - 1);
    }
}

/// The texts of a row of instants.
pub open spec fn texts_of(runs: Seq<int>) -> Seq<Seq<char>> {
    runs.map_values(|t: int| instant_text(t))
}

/// Writes each of `runs` as `YYYY-MM-DD HH:MM:SS`.
pub fn format_runs(runs: &Vec<Instant>) -> (texts: Vec<String>)
    ensures
        texts.deep_view() == texts_of(seconds_of(runs@)),
{
    let mut texts: Vec<String> = Vec::new();
    let mut k: usize = 0;
    while k < runs.len()
        invariant
            k <= runs.len(),
            texts.len() == k,
            forall|j: int| 0 <= j < k ==> (#[trigger] texts@[j])@ == instant_text(runs@[j]@),
        decreases runs.len() - k,
    {
        texts.push(format_instant(&runs[k]));
        k += 1;
    }
    assert(texts.deep_view() =~= texts_of(seconds_of(runs@)));
    texts
}

/// What `get_next_runs` answers for a recurrence whose first five runs after
/// `now` are `runs`: their texts, or for a standard expression without any
/// run the failure to work out the next run.
pub open spec fn upcoming_of(expr: Seq<char>, runs: Seq<int>) -> Result<Seq<Seq<char>>, ErrorView> {
    if runs.len() == 0 && !has_infix(expr, seq!['*', '/']) && !has_prefix(expr, seq!['@']) {
        Err(ErrorView::SyncError("无法计算下次执行时间"@))
    } else {
        Ok(texts_of(runs))
    }
}

/// Whether `r` is what `get_next_runs` owes for the expression `schedule`
/// at the instant `now`: the report of the expression's fault, or what
/// `upcoming_of` makes of its first five runs after `now`.
pub open spec fn is_upcoming(schedule: Seq<char>, now: int, r: Result<Vec<String>, Error>) -> bool {
    match recurrence_of(schedule) {
        Ok(rec) => exists|runs: Seq<int>| #[trigger]
            rec.runs_are(now, runs, 5) && match upcoming_of(schedule, runs) {
                Ok(texts) => r matches Ok(v) && v.deep_view() == texts,
                Err(failure) => r matches Err(e) && e@ == failure,
            },
        Err(fault) => r matches Err(e) && reports(e, fault, schedule),
    }
}

/// The texts of the next five runs of the expression `schedule` after `now`.
/// A standard expression that has no run is a failure.
pub fn get_next_runs(schedule: &str, now: &Instant) -> (r: Result<Vec<String>, Error>)
    ensures
        is_upcoming(schedule@, now@, r),
{
    let runs = match next_runs(schedule, now, 5) {
        Ok(runs) => runs,
        Err(e) => {
            return Err(e);
        },
    };
    let expr = to_chars(schedule);
    let mark = to_chars("*/");
    let at = to_chars("@");
    proof {
        reveal_strlit("*/");
        reveal_strlit("@");
        assert(mark@ =~= seq!['*', '/']);
        assert(at@ =~= seq!['@']);
    }
    let standard = !contains(expr.as_slice(), mark.as_slice()) && !starts_with(
        expr.as_slice(),
        at.as_slice(),
    );
    if runs.len() == 0 && standard {
        return Err(Error::SyncError(String::from_str("无法计算下次执行时间")));
    }
    let texts = format_runs(&runs);
    assert(upcoming_of(schedule@, seconds_of(runs@)) is Ok);
    Ok(texts)
}

/// The first `n` midnights after `now`.
pub open spec fn midnights_after(now: int, n: int) -> Seq<int> {
    Seq::new(n as nat, |k: int| (now / 86_400 + 1 + k) * 86_400)
}

/// For `@daily`, `get_next_runs` answers with the texts of the midnights
/// that follow `now`, one after the other: five of them where five more days
/// fit before the last day of the library, else as many as fit.
pub proof fn lemma_daily_upcoming(now: int, r: Result<Vec<String>, Error>)
    requires
        is_instant(now),
        is_upcoming("@daily"@, now, r),
    ensures
        r matches Ok(v) && v.deep_view() == texts_of(
            midnights_after(now, at_most(5, MAX_DAY - now / 86_400)),
        ),
{
    lemma_daily_expression();
    lemma_shorthand_shape("@daily"@);
    let rec = recurrence_of("@daily"@)->Ok_0;
    let runs = choose|runs: Seq<int>| #[trigger]
        rec.runs_are(now, runs, 5) && match upcoming_of("@daily"@, runs) {
            Ok(texts) => r matches Ok(v) && v.deep_view() == texts,
            Err(failure) => r matches Err(e) && e@ == failure,
        };
    lemma_daily_runs(now, runs, 5);
    lemma_fundamental_div_mod(now, 86_400);
    assert(runs =~= midnights_after(now, at_most(5, MAX_DAY - now / 86_400)));
}

} // verus!
