//! The five-field recurrence grammar: minute, hour, day of the month, month
//! and day of the week, each a list of values, ranges and steps.

use crate::calendar::{day_of_month, month_of_day, weekday_of_day, CivilDate};
use crate::chars::{number_of, parse_number, same_chars, split_chars, split_on, to_chars};
use vstd::prelude::*;

verus! {

/// One item of a field: the values from `first` to `last` that lie a multiple
/// of `step` above `first`.
#[derive(Debug, Clone, Copy, PartialEq, Eq)]
pub struct Span {
    pub first: u32,
    pub last: u32,
    pub step: u32,
}

impl Span {
    /// Whether the item names the value `v`.
    pub open spec fn holds(self, v: int) -> bool {
        self.first <= v <= self.last && self.step > 0 && (v - self.first) % (self.step as int) == 0
    }
}

/// Whether one of `spans` names the value `v`.
pub open spec fn spans_hold(spans: Seq<Span>, v: int) -> bool {
    exists|k: int| 0 <= k < spans.len() && (#[trigger] spans[k]).holds(v)
}

/// The bounds that the part of an item before its step stands for, in a field
/// whose values run from `lo` to `hi`: `*` is every value, `a-b` the values
/// from `a` to `b`, `a` the value `a` alone or, before a step, `a` and above.
pub open spec fn base_bounds(base: Seq<char>, lo: int, hi: int, stepped: bool) -> Option<
    (int, int),
> {
    let ends = split_on(base, '-');
    if base == seq!['*'] {
        Some((lo, hi))
    } else if ends.len() == 1 {
        match number_of(ends[0]) {
            Some(a) => if lo <= a <= hi {
                Some((a as int, if stepped { hi } else { a as int }))
            } else {
                None
            },
            None => None,
        }
    } else if ends.len() == 2 {
        match (number_of(ends[0]), number_of(ends[1])) {
            (Some(a), Some(b)) => if lo <= a <= b <= hi {
                Some((a as int, b as int))
            } else {
                None
            },
            _ => None,
        }
    } else {
        None
    }
}

/// What one item of a field stands for: a base, and after a `/` a step of at
/// least 1.
pub open spec fn item_span(item: Seq<char>, lo: int, hi: int) -> Option<Span> {
    let parts = split_on(item, '/');
    if parts.len() == 1 {
        match base_bounds(parts[0], lo, hi, false) {
            Some((a, b)) => Some(Span { first: a as u32, last: b as u32, step: 1 }),
            None => None,
        }
    } else if parts.len() == 2 {
        match (base_bounds(parts[0], lo, hi, true), number_of(parts[1])) {
            (Some((a, b)), Some(n)) => if n >= 1 {
                Some(Span { first: a as u32, last: b as u32, step: n as u32 })
            } else {
                None
            },
            _ => None,
        }
    } else {
        None
    }
}

/// What a row of items stands for, where each of them is well formed.
pub open spec fn items_spans(items: Seq<Seq<char>>, lo: int, hi: int) -> Option<Seq<Span>>
    decreases items.len(),
{
    if items.len() == 0 {
        Some(Seq::empty())
    } else {
        match (items_spans(items.drop_last(), lo, hi), item_span(items.last(), lo, hi)) {
            (Some(init), Some(span)) => Some(init.push(span)),
            _ => None,
        }
    }
}

/// What a field stands for: its items are separated by commas.
pub open spec fn field_spans(field: Seq<char>, lo: int, hi: int) -> Option<Seq<Span>> {
    items_spans(split_on(field, ','), lo, hi)
}

/// A row of items is ill formed as soon as one of its beginnings is.
pub proof fn lemma_items_spans_fail(items: Seq<Seq<char>>, lo: int, hi: int, k: int)
    requires
        0 <= k <= items.len(),
        items_spans(items.take(k), lo, hi) is None,
    ensures
        items_spans(items, lo, hi) is None,
    decreases items.len() - k,
{
    if k < items.len() {
        assert(items.take(k + 1).drop_last() == items.take(k));
        lemma_items_spans_fail(items, lo, hi, k + 1);
    } else {
        assert(items.take(k) == items);
    }
}

/// Reads the part of an item before its step.
fn parse_base(base: &[char], lo: u32, hi: u32, stepped: bool) -> (r: Option<(u32, u32)>)
    requires
        lo <= hi,
    ensures
        match r {
            Some((a, b)) => base_bounds(base@, lo as int, hi as int, stepped) == Some(
                (a as int, b as int),
            ) && lo <= a <= b <= hi,
            None => base_bounds(base@, lo as int, hi as int, stepped) is None,
        },
{
    if base.len() == 1 && base[0] == '*' {
        assert(base@ =~= seq!['*']);
        return Some((lo, hi));
    }
    assert(base@ != seq!['*']) by {
        if base@ == seq!['*'] {
            assert(base@.len() == 1 && base@[0] == '*');
        }
    }
    let ends = split_chars(base, '-');
    if ends.len() == 1 {
        assert(ends.deep_view()[0] == ends@[0]@);
        match parse_number(ends[0].as_slice()) {
            Some(a) => {
                if lo <= a && a <= hi {
                    Some((a, if stepped { hi } else { a }))
                } else {
                    None
                }
            },
            None => None,
        }
    } else if ends.len() == 2 {
        assert(ends.deep_view()[0] == ends@[0]@);
        assert(ends.deep_view()[1] == ends@[1]@);
        let first = parse_number(ends[0].as_slice());
        let last = parse_number(ends[1].as_slice());
        match (first, last) {
            (Some(a), Some(b)) => {
                if lo <= a && a <= b && b <= hi {
                    Some((a, b))
                } else {
                    None
                }
            },
            _ => None,
        }
    } else {
        None
    }
}

/// Reads one item of a field whose values run from `lo` to `hi`.
pub fn parse_item(item: &[char], lo: u32, hi: u32) -> (r: Option<Span>)
    requires
        lo <= hi,
    ensures
        r == item_span(item@, lo as int, hi as int),
        r matches Some(span) ==> lo <= span.first <= span.last <= hi && span.step >= 1,
{
    let parts = split_chars(item, '/');
    if parts.len() == 1 {
        assert(parts.deep_view()[0] == parts@[0]@);
        match parse_base(parts[0].as_slice(), lo, hi, false) {
            Some((a, b)) => Some(Span { first: a, last: b, step: 1 }),
            None => None,
        }
    } else if parts.len() == 2 {
        assert(parts.deep_view()[0] == parts@[0]@);
        assert(parts.deep_view()[1] == parts@[1]@);
        let bounds = parse_base(parts[0].as_slice(), lo, hi, true);
        let step = parse_number(parts[1].as_slice());
        match (bounds, step) {
            (Some((a, b)), Some(n)) => {
                if n >= 1 {
                    Some(Span { first: a, last: b, step: n })
                } else {
                    None
                }
            },
            _ => None,
        }
    } else {
        None
    }
}

/// Reads a field whose values run from `lo` to `hi`.
pub fn parse_field(field: &[char], lo: u32, hi: u32) -> (r: Option<Vec<Span>>)
    requires
        lo <= hi,
    ensures
        match r {
            Some(spans) => field_spans(field@, lo as int, hi as int) == Some(spans@) && forall|
                k: int,
            |
                0 <= k < spans.len() ==> lo <= (#[trigger] spans[k]).first <= spans[k].last <= hi
                    && spans[k].step >= 1,
            None => field_spans(field@, lo as int, hi as int) is None,
        },
{
    let items = split_chars(field, ',');
    let mut spans: Vec<Span> = Vec::new();
    let mut k: usize = 0;
    assert(items.deep_view().take(0) =~= Seq::<Seq<char>>::empty());
    while k < items.len()
        invariant
            k <= items.len(),
            lo <= hi,
            items.deep_view() == split_on(field@, ','),
            items_spans(items.deep_view().take(k as int), lo as int, hi as int) == Some(spans@),
            forall|j: int|
                0 <= j < spans.len() ==> lo <= (#[trigger] spans[j]).first <= spans[j].last <= hi
                    && spans[j].step >= 1,
        decreases items.len() - k,
    {
        let ghost next = items.deep_view().take(k + 1);
        assert(next.drop_last() == items.deep_view().take(k as int));
        assert(next.last() == items@[k as int]@);
        match parse_item(items[k].as_slice(), lo, hi) {
            Some(span) => {
                spans.push(span);
            },
            None => {
                proof {
                    lemma_items_spans_fail(items.deep_view(), lo as int, hi as int, k + 1);
                }
                return None;
            },
        }
        k += 1;
    }
    assert(items.deep_view().take(items.len() as int) == items.deep_view());
    Some(spans)
}


/// The values from `lo` to `hi` that one of `spans` names.
pub open spec fn named_values(spans: Seq<Span>, lo: int, hi: int) -> Set<int> {
    Set::new(|v: int| lo <= v <= hi && spans_hold(spans, v))
}

/// The days of the week that one of `spans` names: 0 is Sunday, and so is 7.
pub open spec fn named_weekdays(spans: Seq<Span>) -> Set<int> {
    Set::new(|v: int| 0 <= v <= 6 && (spans_hold(spans, v) || (v == 0 && spans_hold(spans, 7))))
}

/// The values that `flags` marks.
pub open spec fn marked(flags: Seq<bool>) -> Set<int> {
    Set::new(|v: int| 0 <= v < flags.len() && flags[v])
}

/// When a schedule fires: the minutes, hours, days of the month, months and
/// days of the week (0 is Sunday) that it names, and whether its day of the
/// month, its month and its day of the week were left open.
pub struct ScheduleView {
    pub minutes: Set<int>,
    pub hours: Set<int>,
    pub days: Set<int>,
    pub months: Set<int>,
    pub weekdays: Set<int>,
    pub any_day: bool,
    pub any_month: bool,
    pub any_weekday: bool,
}

impl ScheduleView {
    /// Whether the schedule fires on a day of the given month, day of the
    /// month and day of the week. A field that was left open allows every
    /// day; where both the day of the month and the day of the week are
    /// restricted, either of them is enough.
    pub open spec fn date_allowed(self, month: int, day: int, weekday: int) -> bool {
        (self.any_month || self.months.contains(month)) && if self.any_day {
            self.any_weekday || self.weekdays.contains(weekday)
        } else if self.any_weekday {
            self.days.contains(day)
        } else {
            self.days.contains(day) || self.weekdays.contains(weekday)
        }
    }

    /// Whether the schedule fires on day number `day`.
    pub open spec fn day_allowed(self, day: int) -> bool {
        self.date_allowed(month_of_day(day), day_of_month(day), weekday_of_day(day))
    }

    /// Whether the schedule fires at minute `minute` of a day on which it fires.
    pub open spec fn minute_allowed(self, minute: int) -> bool {
        self.hours.contains(minute / 60) && self.minutes.contains(minute % 60)
    }

    /// Whether the schedule fires at the instant `t`: at the start of a minute
    /// that it names, on a day on which it fires.
    pub open spec fn fires_at(self, t: int) -> bool {
        t % 60 == 0 && self.minute_allowed((t % 86_400) / 60) && self.day_allowed(t / 86_400)
    }
}

/// A parsed recurrence.
#[derive(Debug, Clone, PartialEq, Eq)]
pub struct Schedule {
    minutes: Vec<bool>,
    hours: Vec<bool>,
    days: Vec<bool>,
    months: Vec<bool>,
    weekdays: Vec<bool>,
    any_day: bool,
    any_month: bool,
    any_weekday: bool,
}

impl View for Schedule {
    type V = ScheduleView;

    /// What each field marks, and which fields were left open.
    closed spec fn view(&self) -> ScheduleView {
        ScheduleView {
            minutes: marked(self.minutes@),
            hours: marked(self.hours@),
            days: marked(self.days@),
            months: marked(self.months@),
            weekdays: marked(self.weekdays@),
            any_day: self.any_day,
            any_month: self.any_month,
            any_weekday: self.any_weekday,
        }
    }
}

/// The values from `lo` to `hi`.
pub open spec fn all_of(lo: int, hi: int) -> Set<int> {
    Set::new(|v: int| lo <= v <= hi)
}

/// What the five fields of a standard expression stand for, where each of
/// them is well formed.
pub open spec fn schedule_of(fields: Seq<Seq<char>>) -> Option<ScheduleView> {
    if fields.len() != 5 {
        None
    } else {
        match (
            field_spans(fields[0], 0, 59),
            field_spans(fields[1], 0, 23),
            field_spans(fields[2], 1, 31),
            field_spans(fields[3], 1, 12),
            field_spans(fields[4], 0, 7),
        ) {
            (Some(minutes), Some(hours), Some(days), Some(months), Some(weekdays)) => Some(
                ScheduleView {
                    minutes: named_values(minutes, 0, 59),
                    hours: named_values(hours, 0, 23),
                    days: named_values(days, 1, 31),
                    months: named_values(months, 1, 12),
                    weekdays: named_weekdays(weekdays),
                    any_day: fields[2] == seq!['*'],
                    any_month: fields[3] == seq!['*'],
                    any_weekday: fields[4] == seq!['*'],
                },
            ),
            _ => None,
        }
    }
}

/// What a named shorthand stands for: `@yearly` is midnight of 1 January,
/// `@monthly` midnight of the first of a month, `@weekly` midnight of a
/// Sunday, `@daily` every midnight, `@hourly` the start of every hour.
pub open spec fn shorthand_of(name: Seq<char>) -> Option<ScheduleView> {
    let zero = set![0int];
    let one = set![1int];
    if name == "@yearly"@ || name == "@annually"@ {
        Some(
            ScheduleView {
                minutes: zero,
                hours: zero,
                days: one,
                months: one,
                weekdays: all_of(0, 6),
                any_day: false,
                any_month: false,
                any_weekday: true,
            },
        )
    } else if name == "@monthly"@ {
        Some(
            ScheduleView {
                minutes: zero,
                hours: zero,
                days: one,
                months: all_of(1, 12),
                weekdays: all_of(0, 6),
                any_day: false,
                any_month: true,
                any_weekday: true,
            },
        )
    } else if name == "@weekly"@ {
        Some(
            ScheduleView {
                minutes: zero,
                hours: zero,
                days: all_of(1, 31),
                months: all_of(1, 12),
                weekdays: zero,
                any_day: true,
                any_month: true,
                any_weekday: false,
            },
        )
    } else if name == "@daily"@ || name == "@midnight"@ {
        Some(
            ScheduleView {
                minutes: zero,
                hours: zero,
                days: all_of(1, 31),
                months: all_of(1, 12),
                weekdays: all_of(0, 6),
                any_day: true,
                any_month: true,
                any_weekday: true,
            },
        )
    } else if name == "@hourly"@ {
        Some(
            ScheduleView {
                minutes: zero,
                hours: all_of(0, 23),
                days: all_of(1, 31),
                months: all_of(1, 12),
                weekdays: all_of(0, 6),
                any_day: true,
                any_month: true,
                any_weekday: true,
            },
        )
    } else {
        None
    }
}

/// Tells whether the item names the value `v`.
fn span_names(span: &Span, v: u32) -> (r: bool)
    requires
        span.step >= 1,
    ensures
        r == span.holds(v as int),
{
    span.first <= v && v <= span.last && (v - span.first) % span.step == 0
}

/// Tells whether one of `spans` names the value `v`.
fn spans_name(spans: &Vec<Span>, v: u32) -> (r: bool)
    requires
        forall|k: int| 0 <= k < spans.len() ==> (#[trigger] spans[k]).step >= 1,
    ensures
        r == spans_hold(spans@, v as int),
{
    let mut k: usize = 0;
    while k < spans.len()
        invariant
            k <= spans.len(),
            forall|j: int| 0 <= j < spans.len() ==> (#[trigger] spans[j]).step >= 1,
            forall|j: int| 0 <= j < k ==> !(#[trigger] spans@[j]).holds(v as int),
        decreases spans.len() - k,
    {
        if span_names(&spans[k], v) {
            return true;
        }
        k += 1;
    }
    false
}

/// Marks the values from `lo` to `hi` that one of `spans` names.
fn mark_values(spans: &Vec<Span>, lo: u32, hi: u32) -> (r: Vec<bool>)
    requires
        lo <= hi < 1000,
        forall|k: int| 0 <= k < spans.len() ==> (#[trigger] spans[k]).step >= 1,
    ensures
        marked(r@) == named_values(spans@, lo as int, hi as int),
{
    let mut flags: Vec<bool> = Vec::new();
    let mut v: u32 = 0;
    while v <= hi
        invariant
            v <= hi + 1,
            lo <= hi < 1000,
            flags.len() == v,
            forall|k: int| 0 <= k < spans.len() ==> (#[trigger] spans[k]).step >= 1,
            forall|w: int|
                0 <= w < v ==> #[trigger] flags@[w] == (lo <= w && spans_hold(spans@, w)),
        decreases hi + 1 - v,
    {
        let named = v >= lo && spans_name(spans, v);
        flags.push(named);
        v += 1;
    }
    assert(marked(flags@) =~= named_values(spans@, lo as int, hi as int));
    flags
}

/// Marks the days of the week that one of `spans` names.
fn mark_weekdays(spans: &Vec<Span>) -> (r: Vec<bool>)
    requires
        forall|k: int| 0 <= k < spans.len() ==> (#[trigger] spans[k]).step >= 1,
    ensures
        marked(r@) == named_weekdays(spans@),
{
    let sunday = spans_name(spans, 0) || spans_name(spans, 7);
    let mut flags: Vec<bool> = Vec::new();
    flags.push(sunday);
    let mut v: u32 = 1;
    while v <= 6
        invariant
            1 <= v <= 7,
            flags.len() == v,
            flags@[0] == (spans_hold(spans@, 0) || spans_hold(spans@, 7)),
            forall|k: int| 0 <= k < spans.len() ==> (#[trigger] spans[k]).step >= 1,
            forall|w: int| 1 <= w < v ==> #[trigger] flags@[w] == spans_hold(spans@, w),
        decreases 7 - v,
    {
        let named = spans_name(spans, v);
        flags.push(named);
        v += 1;
    }
    assert(marked(flags@) =~= named_weekdays(spans@));
    flags
}

/// The one item that names the values from `first` to `last`.
fn one_span(first: u32, last: u32) -> (r: Vec<Span>)
    ensures
        r@ == seq![Span { first, last, step: 1 }],
{
    let mut spans: Vec<Span> = Vec::new();
    spans.push(Span { first, last, step: 1 });
    spans
}

/// Marks the values from `first` to `last`, in a field whose values run from
/// `lo` to `hi`.
fn mark_range(first: u32, last: u32, lo: u32, hi: u32) -> (r: Vec<bool>)
    requires
        lo <= first <= last <= hi < 1000,
    ensures
        marked(r@) == all_of(first as int, last as int),
{
    let spans = one_span(first, last);
    let flags = mark_values(&spans, lo, hi);
    assert forall|v: int| lo <= v <= hi implies spans_hold(spans@, v) == (first <= v <= last) by {
        if first <= v <= last {
            assert(spans@[0].holds(v));
        }
    }
    assert(marked(flags@) =~= all_of(first as int, last as int));
    flags
}

impl Schedule {
    /// Tells whether the schedule fires at minute `minute` of a day on which
    /// it fires.
    pub fn allows_minute(&self, minute: u32) -> (r: bool)
        ensures
            r == self@.minute_allowed(minute as int),
    {
        let h: usize = (minute / 60) as usize;
        let m: usize = (minute % 60) as usize;
        h < self.hours.len() && self.hours[h] && m < self.minutes.len() && self.minutes[m]
    }

    /// Tells whether the schedule fires on the date `date`.
    pub fn allows_date(&self, date: &CivilDate) -> (r: bool)
        ensures
            r == self@.date_allowed(date.month as int, date.day as int, date.weekday as int),
    {
        let month: usize = date.month as usize;
        let day: usize = date.day as usize;
        let weekday: usize = date.weekday as usize;
        let month_ok = self.any_month || (month < self.months.len() && self.months[month]);
        let day_ok = day < self.days.len() && self.days[day];
        let weekday_ok = weekday < self.weekdays.len() && self.weekdays[weekday];
        month_ok && if self.any_day {
            self.any_weekday || weekday_ok
        } else if self.any_weekday {
            day_ok
        } else {
            day_ok || weekday_ok
        }
    }

    /// Reads the five fields of a standard expression.
    pub fn parse(fields: &Vec<Vec<char>>) -> (r: Option<Schedule>)
        ensures
            match r {
                Some(s) => schedule_of(fields.deep_view()) == Some(s@),
                None => schedule_of(fields.deep_view()) is None,
            },
    {
        if fields.len() != 5 {
            return None;
        }
        assert(fields.deep_view()[0] == fields@[0]@);
        assert(fields.deep_view()[1] == fields@[1]@);
        assert(fields.deep_view()[2] == fields@[2]@);
        assert(fields.deep_view()[3] == fields@[3]@);
        assert(fields.deep_view()[4] == fields@[4]@);
        let minutes = parse_field(fields[0].as_slice(), 0, 59);
        let hours = parse_field(fields[1].as_slice(), 0, 23);
        let days = parse_field(fields[2].as_slice(), 1, 31);
        let months = parse_field(fields[3].as_slice(), 1, 12);
        let weekdays = parse_field(fields[4].as_slice(), 0, 7);
        match (minutes, hours, days, months, weekdays) {
            (Some(minutes), Some(hours), Some(days), Some(months), Some(weekdays)) => {
                let star = to_chars("*");
                proof {
                    reveal_strlit("*");
                    assert(star@ =~= seq!['*']);
                }
                Some(
                    Schedule {
                        minutes: mark_values(&minutes, 0, 59),
                        hours: mark_values(&hours, 0, 23),
                        days: mark_values(&days, 1, 31),
                        months: mark_values(&months, 1, 12),
                        weekdays: mark_weekdays(&weekdays),
                        any_day: same_chars(fields[2].as_slice(), star.as_slice()),
                        any_month: same_chars(fields[3].as_slice(), star.as_slice()),
                        any_weekday: same_chars(fields[4].as_slice(), star.as_slice()),
                    },
                )
            },
            _ => None,
        }
    }

    /// The schedule that a named shorthand stands for.
    pub fn shorthand(name: &[char]) -> (r: Option<Schedule>)
        ensures
            match r {
                Some(s) => shorthand_of(name@) == Some(s@),
                None => shorthand_of(name@) is None,
            },
    {
        let yearly = same_chars(name, to_chars("@yearly").as_slice()) || same_chars(
            name,
            to_chars("@annually").as_slice(),
        );
        let monthly = same_chars(name, to_chars("@monthly").as_slice());
        let weekly = same_chars(name, to_chars("@weekly").as_slice());
        let daily = same_chars(name, to_chars("@daily").as_slice()) || same_chars(
            name,
            to_chars("@midnight").as_slice(),
        );
        let hourly = same_chars(name, to_chars("@hourly").as_slice());
        let ends: (u32, u32, u32, u32, bool, bool) = if yearly {
            (0, 1, 1, 6, false, true)
        } else if monthly {
            (0, 1, 12, 6, false, true)
        } else if weekly {
            (0, 31, 12, 0, true, false)
        } else if daily {
            (0, 31, 12, 6, true, true)
        } else if hourly {
            (23, 31, 12, 6, true, true)
        } else {
            return None;
        };
        assert(all_of(0, 0) =~= set![0int]);
        assert(all_of(1, 1) =~= set![1int]);
        Some(
            Schedule {
                minutes: mark_range(0, 0, 0, 59),
                hours: mark_range(0, ends.0, 0, 23),
                days: mark_range(1, ends.1, 1, 31),
                months: mark_range(1, ends.2, 1, 12),
                weekdays: mark_range(0, ends.3, 0, 6),
                any_day: ends.4,
                any_month: !yearly,
                any_weekday: ends.5,
            },
        )
    }
}

} // verus!
