//! Points in time and lengths of time, and how a timeout is read.
use vstd::prelude::*;
use crate::seqs::{first_where, lemma_first_where_is};
use crate::text::{chars_of, is_digit, is_space, space};

verus! {

/// The first and the last second, counted from 1970 in UTC, that a moment can lie in. They are
/// those of the calendar that chrono covers.
pub const FIRST_SECOND: i64 = -8_334_601_228_800;

pub const LAST_SECOND: i64 = 8_210_266_876_799;

pub const NANOS_PER_SECOND: u32 = 1_000_000_000;

/// The longest time a [`Span`] can last, in milliseconds.
pub const LONGEST_SPAN_MILLIS: i64 = 0x7fff_ffff_ffff_ffff;

/// A point in time: seconds since 1970 in UTC, and nanoseconds into that second. A leap second
/// is written as the second before it with a billion nanoseconds or more. It can follow any
/// second, because there were time zones that were not whole minutes away from UTC.
#[derive(Debug, Clone, Copy, PartialEq, Eq)]
pub struct Moment {
    pub secs: i64,
    pub nanos: u32,
}

impl View for Moment {
    type V = Moment;

    open spec fn view(&self) -> Moment {
        *self
    }
}

impl Moment {
    /// The moments that the calendar has.
    pub open spec fn wf(self) -> bool {
        &&& FIRST_SECOND <= self.secs <= LAST_SECOND
        &&& self.nanos < 2 * NANOS_PER_SECOND
    }

    /// Whether this moment lies after `other`.
    pub open spec fn after(self, other: Moment) -> bool {
        self.secs > other.secs || (self.secs == other.secs && self.nanos > other.nanos)
    }

    /// Whether this moment lies after `other`.
    pub fn is_after(&self, other: &Moment) -> (yes: bool)
        ensures
            yes == self.after(*other),
    {
        self.secs > other.secs || (self.secs == other.secs && self.nanos > other.nanos)
    }

    /// Whether the two are the same moment.
    pub fn is(&self, other: &Moment) -> (same: bool)
        ensures
            same == (*self == *other),
    {
        self.secs == other.secs && self.nanos == other.nanos
    }
}

/// A length of time: whole seconds and the nanoseconds left over, both of the same sign.
#[derive(Debug, Clone, Copy, PartialEq, Eq)]
pub struct Span {
    pub secs: i64,
    pub nanos: i32,
}

impl View for Span {
    type V = Span;

    open spec fn view(&self) -> Span {
        *self
    }
}

impl Span {
    /// The span in nanoseconds.
    pub open spec fn total(self) -> int {
        self.secs * 1_000_000_000 + self.nanos
    }

    pub open spec fn wf(self) -> bool {
        &&& -1_000_000_000 < self.nanos < 1_000_000_000
        &&& self.secs > 0 ==> self.nanos >= 0
        &&& self.secs < 0 ==> self.nanos <= 0
        &&& -LONGEST_SPAN_MILLIS * 1_000_000 <= self.total() <= LONGEST_SPAN_MILLIS * 1_000_000
    }
}

/// `a / b` with what is left over dropped, for a positive `b`.
pub open spec fn toward_zero(a: int, b: int) -> int {
    if a >= 0 {
        a / b
    } else {
        -((-a) / b)
    }
}

/// The moment `secs` seconds and `nanos` nanoseconds after `m`, neither of them negative. A leap
/// second lasts one second; what goes beyond it counts from the second it is written as.
pub open spec fn moment_plus(m: Moment, secs: int, nanos: int) -> (int, int) {
    let leap = m.nanos >= NANOS_PER_SECOND;
    if leap && secs == 0 && m.nanos + nanos < 2_000_000_000 {
        (m.secs as int, m.nanos + nanos)
    } else {
        let fraction = nanos + if leap {
            m.nanos - 1_000_000_000
        } else {
            m.nanos as int
        };
        (m.secs + secs + fraction / 1_000_000_000, fraction % 1_000_000_000)
    }
}

/// What lies between `b` and `a`, in nanoseconds: negative if `a` is the earlier one. A leap
/// second in one of them counts if the other one lies beyond it on the clock.
pub open spec fn nanos_between(a: Moment, b: Moment) -> int {
    let clock_a = a.secs % 86_400;
    let clock_b = b.secs % 86_400;
    let leap: int = if clock_a > clock_b && b.nanos >= NANOS_PER_SECOND {
        1
    } else if clock_a < clock_b && a.nanos >= NANOS_PER_SECOND {
        -1
    } else {
        0
    };
    (a.secs - b.secs + leap) * 1_000_000_000 + (a.nanos - b.nanos)
}

/// `chrono::Local::now`: some moment of the calendar. Nothing more can be said of the clock.
#[verifier::external_body]
fn local_now() -> (now: Moment)
    ensures
        now.wf(),
{
    let now = chrono::Local::now();
    Moment { secs: now.timestamp(), nanos: now.timestamp_subsec_nanos() }
}

/// `now` is what the clock showed, or could have shown.
pub closed spec fn is_clock_time(now: Moment) -> bool {
    call_ensures(local_now, (), now)
}

/// The answer of `read`.
fn moment_of<P: Fn() -> Moment>(read: P) -> (now: Moment)
    requires
        call_requires(read, ()),
    ensures
        call_ensures(read, (), now),
{
    read()
}

/// What the clock shows.
pub(crate) fn clock_time() -> (now: Moment)
    ensures
        now.wf(),
        is_clock_time(now),
{
    moment_of(local_now)
}

/// `+` of a chrono `DateTime` and a `TimeDelta` that is not negative: the moment that much later,
/// as [`moment_plus`] says. It panics where the sum lies outside the calendar.
#[verifier::external_body]
pub(crate) fn later_by(m: Moment, by: Span) -> (sum: Moment)
    requires
        m.wf(),
        by.wf(),
        by.secs >= 0 && by.nanos >= 0,
        moment_plus(m, by.secs as int, by.nanos as int).0 <= LAST_SECOND,
    ensures
        sum.wf(),
        (sum.secs as int, sum.nanos as int) == moment_plus(m, by.secs as int, by.nanos as int),
{
    let second = chrono::DateTime::from_timestamp(m.secs, 0).unwrap().naive_utc();
    let start = chrono::Timelike::with_nanosecond(&second, m.nanos).unwrap().and_utc();
    let end = start + (chrono::TimeDelta::seconds(by.secs) + chrono::TimeDelta::nanoseconds(
        by.nanos as i64,
    ));
    Moment { secs: end.timestamp(), nanos: end.timestamp_subsec_nanos() }
}

/// `-` of two chrono `DateTime`s: what lies between them, as [`nanos_between`] says.
#[verifier::external_body]
pub(crate) fn span_between(a: Moment, b: Moment) -> (span: Span)
    requires
        a.wf(),
        b.wf(),
    ensures
        span.wf(),
        span.total() == nanos_between(a, b),
{
    let last = chrono::DateTime::from_timestamp(a.secs, 0).unwrap().naive_utc();
    let end = chrono::Timelike::with_nanosecond(&last, a.nanos).unwrap().and_utc();
    let first = chrono::DateTime::from_timestamp(b.secs, 0).unwrap().naive_utc();
    let start = chrono::Timelike::with_nanosecond(&first, b.nanos).unwrap().and_utc();
    let between = end - start;
    Span { secs: between.num_seconds(), nanos: between.subsec_nanos() }
}

/// `TimeDelta::num_minutes`: the whole minutes of a number of seconds.
#[verifier::external_body]
pub(crate) fn num_minutes(span: Span) -> (n: i64)
    requires
        span.wf(),
    ensures
        n == toward_zero(span.secs as int, 60),
{
    chrono::TimeDelta::seconds(span.secs).num_minutes()
}

/// `TimeDelta::num_hours`: the whole hours of a number of seconds.
#[verifier::external_body]
pub(crate) fn num_hours(span: Span) -> (n: i64)
    requires
        span.wf(),
    ensures
        n == toward_zero(span.secs as int, 3600),
{
    chrono::TimeDelta::seconds(span.secs).num_hours()
}

/// `TimeDelta::num_days`: the whole days of a number of seconds.
#[verifier::external_body]
pub(crate) fn num_days(span: Span) -> (n: i64)
    requires
        span.wf(),
    ensures
        n == toward_zero(span.secs as int, 86_400),
{
    chrono::TimeDelta::seconds(span.secs).num_days()
}

/// `TimeDelta::num_weeks`: the whole weeks of a number of seconds.
#[verifier::external_body]
pub(crate) fn num_weeks(span: Span) -> (n: i64)
    requires
        span.wf(),
    ensures
        n == toward_zero(span.secs as int, 604_800),
{
    chrono::TimeDelta::seconds(span.secs).num_weeks()
}

/// The moment `secs` seconds after `m`.
pub open spec fn seconds_after(m: Moment, secs: int) -> Moment {
    let sum = moment_plus(m, secs, 0);
    Moment { secs: sum.0 as i64, nanos: sum.1 as u32 }
}

/// The moment `secs` seconds after `m`.
pub fn seconds_later(m: Moment, secs: u32) -> (later: Moment)
    requires
        m.wf(),
        m.secs + secs <= LAST_SECOND,
    ensures
        later == seconds_after(m, secs as int),
        later.wf(),
{
    later_by(m, Span { secs: secs as i64, nanos: 0 })
}

/// What `TimeDelta::from_std` says of a duration that it cannot hold.
pub open spec fn range_error() -> Seq<char> {
    "Source duration value is out of range for the target type"@
}

/// `TimeDelta::from_std`: the same length of time, or why a `TimeDelta` cannot hold it.
#[verifier::external_body]
pub(crate) fn span_from_std(secs: u64, nanos: u32) -> (span: Result<Span, String>)
    requires
        nanos < NANOS_PER_SECOND,
    ensures
        match span {
            Ok(span) => span.wf() && span.total() == secs * 1_000_000_000 + nanos,
            Err(why) => secs * 1_000_000_000 + nanos > LONGEST_SPAN_MILLIS * 1_000_000 && why@
                == range_error(),
        },
{
    match chrono::TimeDelta::from_std(std::time::Duration::new(secs, nanos)) {
        Ok(span) => Ok(Span { secs: span.num_seconds(), nanos: span.subsec_nanos() }),
        Err(why) => Err(why.to_string()),
    }
}

/// What `duration_str::parse` makes of a text: whole seconds and nanoseconds, or why the text is
/// no duration.
pub uninterp spec fn duration_of(text: Seq<char>) -> Result<(u64, u32), Seq<char>>;

/// The view of a result whose error is a text.
pub open spec fn told<T>(result: Result<T, String>) -> Result<T, Seq<char>> {
    match result {
        Ok(value) => Ok(value),
        Err(why) => Err(why@),
    }
}

/// `duration_str::parse`, whose result has the name [`duration_of`]. It counts in nanoseconds in
/// a `u64`.
#[verifier::external_body]
pub(crate) fn parse_duration(text: &str) -> (duration: Result<(u64, u32), String>)
    ensures
        told(duration) == duration_of(text@),
        match duration {
            Ok(d) => d.1 < NANOS_PER_SECOND && d.0 * 1_000_000_000 + d.1 <= u64::MAX,
            Err(_) => true,
        },
{
    match duration_str::parse(text) {
        Ok(duration) => Ok((duration.as_secs(), duration.subsec_nanos())),
        Err(why) => Err(why),
    }
}

pub open spec fn is_ascii_letter(c: char) -> bool {
    'a' <= c <= 'z' || 'A' <= c <= 'Z'
}

/// What a time zone is written with: letters, digits, and the signs from `+` to `:`.
pub open spec fn is_zone_char(c: char) -> bool {
    '+' <= c <= ':' || is_ascii_letter(c)
}

/// Whether `tail` is read as an offset from UTC of a whole day or more: a sign, two digits for the
/// hours, then two for the minutes, with a colon in front of them or anything behind them.
pub open spec fn writes_day_offset(tail: Seq<char>) -> bool {
    &&& tail.len() == 5 || tail.len() == 6
    &&& tail[0] == '+' || tail[0] == '-'
    &&& is_digit(tail[1]) && is_digit(tail[2])
    &&& (tail[1] as u32 - 48) * 10 + (tail[2] as u32 - 48) >= 24
    &&& {
        ||| {
            &&& '0' <= tail[3] <= '5' && is_digit(tail[4])
            &&& tail.len() == 6 ==> is_zone_char(tail[5])
        }
        ||| tail.len() == 6 && tail[3] == ':' && '0' <= tail[4] <= '5' && is_digit(tail[5])
    }
}

/// The text ends, from `at` on, in an offset from UTC of a whole day or more.
pub open spec fn ends_in_day_offset(text: Seq<char>, at: int) -> bool {
    0 <= at <= text.len() && writes_day_offset(text.skip(at))
}

pub open spec fn not_ascii_letter() -> spec_fn(char) -> bool {
    |c: char| !is_ascii_letter(c)
}

/// There is a `c` at `at`.
pub open spec fn has_at(text: Seq<char>, at: int, c: char) -> bool {
    0 <= at < text.len() && text[at] == c
}

/// There are `n` digits from `at` on.
pub open spec fn has_digits(text: Seq<char>, at: int, n: int) -> bool {
    0 <= at && at + n <= text.len() && forall|i: int| at <= i < at + n ==> is_digit(#[trigger] text[i])
}

/// Where the spaces that start at `at` end.
pub open spec fn past_spaces(text: Seq<char>, at: int) -> int
    decreases text.len() - at,
{
    if 0 <= at < text.len() && is_space(text[at]) {
        past_spaces(text, at + 1)
    } else {
        at
    }
}

/// Where the digits that start at `at` end, if there are no more than `most`.
pub open spec fn past_digits(text: Seq<char>, at: int, most: nat) -> int
    decreases most,
{
    if most > 0 && 0 <= at < text.len() && is_digit(text[at]) {
        past_digits(text, at + 1, (most - 1) as nat)
    } else {
        at
    }
}

/// Past a comma at `at`, if there is one.
pub open spec fn past_comma(text: Seq<char>, at: int) -> int {
    if has_at(text, at, ',') {
        at + 1
    } else {
        at
    }
}

/// Past the word `at` at `at`, if it is there.
pub open spec fn past_at(text: Seq<char>, at: int) -> int {
    if has_at(text, at, 'a') && has_at(text, at + 1, 't') {
        at + 2
    } else {
        at
    }
}

/// Past `am` or `pm`, small or capital, if it is there.
pub open spec fn past_half(text: Seq<char>, at: int) -> int {
    if ((has_at(text, at, 'a') || has_at(text, at, 'p')) && has_at(text, at + 1, 'm')) || ((has_at(
        text,
        at,
        'A',
    ) || has_at(text, at, 'P')) && has_at(text, at + 1, 'M')) {
        at + 2
    } else {
        at
    }
}

/// Past a dot and up to nine digits, if they are there.
pub open spec fn past_fraction(text: Seq<char>, at: int) -> int {
    if has_at(text, at, '.') && has_digits(text, at + 1, 1) {
        past_digits(text, at + 1, 9)
    } else {
        at
    }
}

/// Past the minutes of a time of day whose hours end at `at`, and past the seconds if they are
/// there.
pub open spec fn past_minutes(text: Seq<char>, at: int) -> Option<int> {
    if has_at(text, at, ':') && has_digits(text, at + 1, 2) {
        if has_at(text, at + 3, ':') && has_digits(text, at + 4, 2) {
            Some(at + 6)
        } else {
            Some(at + 3)
        }
    } else {
        None
    }
}

/// `text` starts with a year, a month and a day, in digits with hyphens between them.
pub open spec fn starts_as_date(text: Seq<char>) -> bool {
    &&& has_digits(text, 0, 4) && has_at(text, 4, '-')
    &&& has_digits(text, 5, 2) && has_at(text, 7, '-')
    &&& has_digits(text, 8, 2)
}

/// A time of day ends at `at`; an `am` or `pm` may follow, then at least one space, and the offset.
pub open spec fn ends_after_clock(text: Seq<char>, at: int) -> bool {
    let spaced = past_spaces(text, at);
    let halved = past_half(text, spaced);
    let zone = past_spaces(text, halved);
    &&& ends_in_day_offset(text, zone)
    &&& if halved > spaced {
        zone > halved
    } else {
        spaced > at
    }
}

/// A date, and the offset; spaces may stand between them. As in `2026-12-24 +2400`.
pub open spec fn is_day_with_day_offset(text: Seq<char>) -> bool {
    starts_as_date(text) && ends_in_day_offset(text, past_spaces(text, 10))
}

/// A date, a time of day, and the offset. As in `2026-12-24 10:00:00.5 +2400`.
pub open spec fn is_moment_with_day_offset(text: Seq<char>) -> bool {
    let hours = past_spaces(text, 10);
    &&& starts_as_date(text)
    &&& hours > 10
    &&& has_digits(text, hours, 2)
    &&& past_minutes(text, hours + 2) matches Some(end)
    &&& ends_in_day_offset(text, past_spaces(text, past_fraction(text, end)))
}

/// A time of day, and the offset. As in `10:00am +2400`.
pub open spec fn is_clock_with_day_offset(text: Seq<char>) -> bool {
    let hours = past_digits(text, 0, 2);
    &&& hours > 0
    &&& past_minutes(text, hours) matches Some(end)
    &&& ends_after_clock(text, end)
}

/// The day and the year of a date whose month ends at `at`, and where they end.
pub open spec fn past_day_and_year(text: Seq<char>, at: int) -> Option<int> {
    let day = past_spaces(text, at);
    let day_end = past_digits(text, day, 2);
    let comma = past_comma(text, day_end);
    let year = past_spaces(text, comma);
    if day > at && day_end > day && year > comma && has_digits(text, year, 4) {
        Some(year + 4)
    } else {
        None
    }
}

/// Where the time of day starts if the year ends at `at`: behind at least one space, with which a
/// comma and the word `at` may stand.
pub open spec fn past_year_end(text: Seq<char>, at: int) -> Option<int> {
    let spaced = past_spaces(text, at);
    let word = past_at(text, past_comma(text, spaced));
    let hours = past_spaces(text, word);
    if (if word > spaced {
        hours > word
    } else {
        spaced > at
    }) {
        Some(hours)
    } else {
        None
    }
}

/// A month, day and year, a time of day, and the offset. As in `May 5, 2026 at 10:00 +2400`.
pub open spec fn is_month_with_day_offset(text: Seq<char>) -> bool {
    let month = first_where(text, not_ascii_letter());
    &&& 3 <= month <= 9
    &&& past_day_and_year(text, month) matches Some(year)
    &&& past_year_end(text, year) matches Some(hours)
    &&& has_digits(text, hours, 2)
    &&& past_minutes(text, hours + 2) matches Some(end)
    &&& ends_after_clock(text, end)
}

/// The texts on which `dateparser::parse` panics: it knows four forms of a date with an offset from
/// UTC, and does not expect an offset of a whole day or more.
pub open spec fn has_day_offset(text: Seq<char>) -> bool {
    ||| is_day_with_day_offset(text)
    ||| is_moment_with_day_offset(text)
    ||| is_clock_with_day_offset(text)
    ||| is_month_with_day_offset(text)
}

fn digit_pair_is_day(tens: char, ones: char) -> (yes: bool)
    requires
        is_digit(tens),
        is_digit(ones),
    ensures
        yes == ((tens as u32 - 48) * 10 + (ones as u32 - 48) >= 24),
{
    (tens as u32 - 48) * 10 + (ones as u32 - 48) >= 24
}

fn is_letter(c: char) -> (yes: bool)
    ensures
        yes == is_ascii_letter(c),
{
    ('a' <= c && c <= 'z') || ('A' <= c && c <= 'Z')
}

fn is_figure(c: char) -> (yes: bool)
    ensures
        yes == is_digit(c),
{
    '0' <= c && c <= '9'
}

fn day_offset_from(chars: &[char], at: usize) -> (yes: bool)
    ensures
        yes == ends_in_day_offset(chars@, at as int),
{
    let total: usize = chars.len();
    if at > total || !(total - at == 5 || total - at == 6) {
        return false;
    }
    let ghost tail = chars@.skip(at as int);
    assert(forall|i: int| 0 <= i < tail.len() ==> tail[i] == chars@[at + i]);
    let long = total - at == 6;
    let sign = chars[at];
    let tens = chars[at + 1];
    let ones = chars[at + 2];
    let next = chars[at + 3];
    let then = chars[at + 4];
    if !(sign == '+' || sign == '-') || !is_figure(tens) || !is_figure(ones) {
        return false;
    }
    if !digit_pair_is_day(tens, ones) {
        return false;
    }
    let packed = '0' <= next && next <= '5' && is_figure(then);
    if !long {
        return packed;
    }
    let last = chars[at + 5];
    (packed && (('+' <= last && last <= ':') || is_letter(last))) || (next == ':' && '0' <= then
        && then <= '5' && is_figure(last))
}

fn stands_at(chars: &[char], at: usize, c: char) -> (yes: bool)
    ensures
        yes == has_at(chars@, at as int, c),
        chars@.len() <= usize::MAX,
{
    at < chars.len() && chars[at] == c
}

fn digits_stand_at(chars: &[char], at: usize, n: usize) -> (yes: bool)
    ensures
        yes == has_digits(chars@, at as int, n as int),
        chars@.len() <= usize::MAX,
{
    if at > chars.len() || chars.len() - at < n {
        return false;
    }
    for i in at..at + n
        invariant
            at + n <= chars@.len(),
            forall|j: int| at <= j < i ==> is_digit(#[trigger] chars@[j]),
    {
        if !is_figure(chars[i]) {
            return false;
        }
    }
    true
}

fn skip_spaces(chars: &[char], at: usize) -> (end: usize)
    requires
        at <= chars@.len(),
    ensures
        at <= end <= chars@.len(),
        end == past_spaces(chars@, at as int),
{
    let mut end: usize = at;
    while end < chars.len() && space(chars[end])
        invariant
            at <= end <= chars@.len(),
            past_spaces(chars@, at as int) == past_spaces(chars@, end as int),
        decreases chars@.len() - end,
    {
        end = end + 1;
    }
    end
}

fn skip_digits(chars: &[char], at: usize, most: usize) -> (end: usize)
    requires
        at <= chars@.len(),
    ensures
        at <= end <= chars@.len(),
        end == past_digits(chars@, at as int, most as nat),
{
    let mut end: usize = at;
    let mut left: usize = most;
    while left > 0 && end < chars.len() && is_figure(chars[end])
        invariant
            at <= end <= chars@.len(),
            past_digits(chars@, at as int, most as nat) == past_digits(
                chars@,
                end as int,
                left as nat,
            ),
        decreases left,
    {
        end = end + 1;
        left = left - 1;
    }
    end
}

fn skip_comma(chars: &[char], at: usize) -> (end: usize)
    requires
        at <= chars@.len(),
    ensures
        at <= end <= chars@.len(),
        end == past_comma(chars@, at as int),
{
    if stands_at(chars, at, ',') {
        at + 1
    } else {
        at
    }
}

fn skip_at(chars: &[char], at: usize) -> (end: usize)
    requires
        at <= chars@.len(),
    ensures
        at <= end <= chars@.len(),
        end == past_at(chars@, at as int),
{
    if stands_at(chars, at, 'a') && stands_at(chars, at + 1, 't') {
        at + 2
    } else {
        at
    }
}

fn skip_half(chars: &[char], at: usize) -> (end: usize)
    requires
        at <= chars@.len(),
    ensures
        at <= end <= chars@.len(),
        end == past_half(chars@, at as int),
{
    if at == chars.len() {
        return at;
    }
    let small = (stands_at(chars, at, 'a') || stands_at(chars, at, 'p')) && stands_at(
        chars,
        at + 1,
        'm',
    );
    let capital = (stands_at(chars, at, 'A') || stands_at(chars, at, 'P')) && stands_at(
        chars,
        at + 1,
        'M',
    );
    if small || capital {
        at + 2
    } else {
        at
    }
}

fn skip_fraction(chars: &[char], at: usize) -> (end: usize)
    requires
        at <= chars@.len(),
    ensures
        at <= end <= chars@.len(),
        end == past_fraction(chars@, at as int),
{
    if stands_at(chars, at, '.') && digits_stand_at(chars, at + 1, 1) {
        skip_digits(chars, at + 1, 9)
    } else {
        at
    }
}

fn skip_minutes(chars: &[char], at: usize) -> (end: Option<usize>)
    requires
        at <= chars@.len(),
    ensures
        match end {
            Some(end) => at <= end <= chars@.len() && past_minutes(chars@, at as int) == Some(
                end as int,
            ),
            None => past_minutes(chars@, at as int) is None,
        },
{
    if !stands_at(chars, at, ':') || !digits_stand_at(chars, at + 1, 2) {
        return None;
    }
    let end: usize = at + 3;
    if stands_at(chars, end, ':') && digits_stand_at(chars, end + 1, 2) {
        Some(end + 3)
    } else {
        Some(end)
    }
}

fn begins_as_date(chars: &[char]) -> (yes: bool)
    ensures
        yes == starts_as_date(chars@),
{
    digits_stand_at(chars, 0, 4) && stands_at(chars, 4, '-') && digits_stand_at(chars, 5, 2)
        && stands_at(chars, 7, '-') && digits_stand_at(chars, 8, 2)
}

fn offset_after_clock(chars: &[char], at: usize) -> (yes: bool)
    requires
        at <= chars@.len(),
    ensures
        yes == ends_after_clock(chars@, at as int),
{
    let spaced: usize = skip_spaces(chars, at);
    let halved: usize = skip_half(chars, spaced);
    let zone: usize = skip_spaces(chars, halved);
    let apart = if halved > spaced {
        zone > halved
    } else {
        spaced > at
    };
    apart && day_offset_from(chars, zone)
}

fn offset_after_date(chars: &[char]) -> (yes: bool)
    ensures
        yes == (is_day_with_day_offset(chars@) || is_moment_with_day_offset(chars@)),
{
    if !begins_as_date(chars) {
        return false;
    }
    let hours: usize = skip_spaces(chars, 10);
    if day_offset_from(chars, hours) {
        return true;
    }
    if hours == 10 || !digits_stand_at(chars, hours, 2) {
        return false;
    }
    match skip_minutes(chars, hours + 2) {
        Some(end) => {
            let fraction: usize = skip_fraction(chars, end);
            day_offset_from(chars, skip_spaces(chars, fraction))
        },
        None => false,
    }
}

fn offset_after_hours(chars: &[char]) -> (yes: bool)
    ensures
        yes == is_clock_with_day_offset(chars@),
{
    let hours: usize = skip_digits(chars, 0, 2);
    if hours == 0 {
        return false;
    }
    match skip_minutes(chars, hours) {
        Some(end) => offset_after_clock(chars, end),
        None => false,
    }
}

fn skip_letters(chars: &[char]) -> (end: usize)
    ensures
        end <= chars@.len(),
        end == first_where(chars@, not_ascii_letter()),
{
    let ghost pred = not_ascii_letter();
    for i in 0..chars.len()
        invariant
            pred == not_ascii_letter(),
            forall|j: int| 0 <= j < i ==> !pred(#[trigger] chars@[j]),
    {
        if !is_letter(chars[i]) {
            proof {
                lemma_first_where_is(chars@, pred, i as int);
            }
            return i;
        }
    }
    proof {
        lemma_first_where_is(chars@, pred, chars@.len() as int);
    }
    chars.len()
}

fn skip_day_and_year(chars: &[char], at: usize) -> (end: Option<usize>)
    requires
        at <= chars@.len(),
    ensures
        match end {
            Some(end) => end <= chars@.len() && past_day_and_year(chars@, at as int) == Some(
                end as int,
            ),
            None => past_day_and_year(chars@, at as int) is None,
        },
{
    let day: usize = skip_spaces(chars, at);
    let day_end: usize = skip_digits(chars, day, 2);
    let comma: usize = skip_comma(chars, day_end);
    let year: usize = skip_spaces(chars, comma);
    if day > at && day_end > day && year > comma && digits_stand_at(chars, year, 4) {
        Some(year + 4)
    } else {
        None
    }
}

fn skip_year_end(chars: &[char], at: usize) -> (hours: Option<usize>)
    requires
        at <= chars@.len(),
    ensures
        match hours {
            Some(hours) => hours <= chars@.len() && past_year_end(chars@, at as int) == Some(
                hours as int,
            ),
            None => past_year_end(chars@, at as int) is None,
        },
{
    let spaced: usize = skip_spaces(chars, at);
    let word: usize = skip_at(chars, skip_comma(chars, spaced));
    let hours: usize = skip_spaces(chars, word);
    let apart = if word > spaced {
        hours > word
    } else {
        spaced > at
    };
    if apart {
        Some(hours)
    } else {
        None
    }
}

fn offset_after_month(chars: &[char]) -> (yes: bool)
    ensures
        yes == is_month_with_day_offset(chars@),
{
    let month: usize = skip_letters(chars);
    if month < 3 || month > 9 {
        return false;
    }
    let year = match skip_day_and_year(chars, month) {
        Some(year) => year,
        None => return false,
    };
    let hours = match skip_year_end(chars, year) {
        Some(hours) => hours,
        None => return false,
    };
    if !digits_stand_at(chars, hours, 2) {
        return false;
    }
    match skip_minutes(chars, hours + 2) {
        Some(end) => offset_after_clock(chars, end),
        None => false,
    }
}

/// Whether `text` can be handed to [`try_parse_timeout`]; see [`has_day_offset`].
pub fn offset_is_possible(text: &str) -> (yes: bool)
    ensures
        yes == !has_day_offset(text@),
{
    let chars = chars_of(text);
    !offset_after_date(&chars) && !offset_after_hours(&chars) && !offset_after_month(&chars)
}

/// `dateparser::parse`: some moment of the calendar, or why the text is no date. Which one
/// depends on the clock and on the machine's time zone, so nothing more is promised. An offset
/// from UTC of a whole day or more makes it panic; see [`has_day_offset`].
#[verifier::external_body]
pub(crate) fn parse_date(text: &str) -> (date: Result<Moment, String>)
    requires
        !has_day_offset(text@),
    ensures
        match date {
            Ok(moment) => moment.wf(),
            Err(_) => true,
        },
{
    match dateparser::parse(text) {
        Ok(date) => Ok(
            Moment { secs: date.timestamp(), nanos: date.timestamp_subsec_nanos() },
        ),
        Err(why) => Err(why.to_string()),
    }
}

/// `date` is what the date parser gave for `text`, or could have given: the clock and the time zone
/// have a say in it.
pub closed spec fn is_date_read(text: Seq<char>, date: Result<Moment, Seq<char>>) -> bool {
    exists|read: &str, answer: Result<Moment, String>|
        read@ == text && told(answer) == date && #[trigger] call_ensures(
            parse_date,
            (read,),
            answer,
        )
}

/// The answer of `read` about `text`.
fn answer_of<P: Fn(&str) -> Result<Moment, String>>(read: P, text: &str) -> (answer: Result<
    Moment,
    String,
>)
    requires
        call_requires(read, (text,)),
    ensures
        call_ensures(read, (text,), answer),
{
    read(text)
}

/// What the date parser gives for `text`.
fn date_in(text: &str) -> (date: Result<Moment, String>)
    requires
        !has_day_offset(text@),
    ensures
        is_date_read(text@, told(date)),
        date matches Ok(moment) ==> moment.wf(),
{
    let date = answer_of(parse_date, text);
    assert(is_date_read(text@, told(date)));
    date
}

/// The moment that a timeout stands for at `now`: `duration` from then, or, if the text is no
/// duration, the `date` it writes.
pub open spec fn timeout_at(
    text: Seq<char>,
    now: Moment,
    duration: Result<(u64, u32), Seq<char>>,
    date: Result<Moment, Seq<char>>,
) -> Result<Moment, Seq<char>> {
    match duration {
        Ok(d) => if d.0 * 1_000_000_000 + d.1 <= LONGEST_SPAN_MILLIS * 1_000_000 {
            let sum = moment_plus(now, d.0 as int, d.1 as int);
            Ok(Moment { secs: sum.0 as i64, nanos: sum.1 as u32 })
        } else {
            Err("timeout `"@ + text + "` is too long: "@ + range_error())
        },
        Err(no_duration) => match date {
            Ok(moment) => Ok(moment),
            Err(no_date) => Err(
                "`"@ + text + "` is neither a duration ("@ + no_duration + ") nor a date ("@
                    + no_date + ")"@,
            ),
        },
    }
}

/// The moment that a timeout stands for, from what the two parsers made of it. `date` is asked
/// for only where `duration` failed.
pub fn resolve_timeout(
    text: &str,
    now: Moment,
    duration: Result<(u64, u32), String>,
    date: Result<Moment, String>,
) -> (moment: Result<Moment, String>)
    requires
        now.wf(),
        duration matches Ok(d) ==> d.1 < NANOS_PER_SECOND && moment_plus(
            now,
            d.0 as int,
            d.1 as int,
        ).0 <= LAST_SECOND,
    ensures
        told(moment) == timeout_at(text@, now, told(duration), told(date)),
        (date matches Ok(d) ==> d.wf()) ==> (moment matches Ok(m) ==> m.wf()),
{
    match duration {
        Ok(d) => match span_from_std(d.0, d.1) {
            Ok(span) => {
                assert(span.secs == d.0 && span.nanos == d.1);
                Ok(later_by(now, span))
            },
            Err(why) => {
                let mut out = String::new();
                out.append("timeout `");
                out.append(text);
                out.append("` is too long: ");
                out.append(why.as_str());
                assert(out@ =~= "timeout `"@ + text@ + "` is too long: "@ + range_error());
                Err(out)
            },
        },
        Err(no_duration) => match date {
            Ok(moment) => Ok(moment),
            Err(no_date) => {
                let mut out = String::new();
                out.append("`");
                out.append(text);
                out.append("` is neither a duration (");
                out.append(no_duration.as_str());
                out.append(") nor a date (");
                out.append(no_date.as_str());
                out.append(")");
                assert(out@ =~= "`"@ + text@ + "` is neither a duration ("@ + no_duration@
                    + ") nor a date ("@ + no_date@ + ")"@);
                Err(out)
            },
        },
    }
}

/// `moment` is what `text` means as a timeout at `now`: where it writes a duration, the moment that
/// much later, and otherwise the very date that the date parser gave for it.
pub open spec fn is_timeout_of(text: Seq<char>, now: Moment, moment: Moment) -> bool {
    match duration_of(text) {
        Ok(d) => timeout_at(text, now, Ok(d), Err(Seq::empty())) == Ok::<Moment, Seq<char>>(moment),
        Err(_) => is_date_read(text, Ok(moment)),
    }
}

/// A timeout that is no duration is the date that is read, at whatever time it is read, and none if
/// no date is.
pub proof fn law_a_date_is_taken_as_it_is_read(
    text: Seq<char>,
    now: Moment,
    no_duration: Seq<char>,
    date: Result<Moment, Seq<char>>,
)
    ensures
        date matches Ok(moment) ==> timeout_at(text, now, Err(no_duration), date) == Ok::<
            Moment,
            Seq<char>,
        >(moment),
        date is Err ==> timeout_at(text, now, Err(no_duration), date) is Err,
{
}

/// A duration is counted from now, to the nanosecond, whatever date the text might also write; one
/// that is longer than can be counted is refused.
pub proof fn law_a_duration_is_counted_from_now(
    text: Seq<char>,
    now: Moment,
    secs: u64,
    nanos: u32,
    date: Result<Moment, Seq<char>>,
)
    requires
        now.wf(),
        now.nanos < 1_000_000_000,
        nanos < 1_000_000_000,
        now.secs + secs < LAST_SECOND,
    ensures
        secs * 1000 + nanos / 1_000_000 < 0x7fff_ffff_ffff_ffff ==> {
            &&& timeout_at(text, now, Ok((secs, nanos)), date) matches Ok(moment)
            &&& moment.nanos < 1_000_000_000
            &&& moment.secs * 1_000_000_000 + moment.nanos == now.secs * 1_000_000_000 + now.nanos
                + secs * 1_000_000_000 + nanos
        },
        secs * 1000 > 0x7fff_ffff_ffff_ffff ==> timeout_at(text, now, Ok((secs, nanos)), date) is Err,
{
}

/// The order of moments: one is after another exactly if it comes later on the clock, a leap
/// second being the one that it prolongs.
pub proof fn law_after_means_later(a: Moment, b: Moment)
    requires
        a.wf(),
        b.wf(),
    ensures
        a.after(b) <==> a.secs * 2_000_000_000 + a.nanos > b.secs * 2_000_000_000 + b.nanos,
        seconds_after(b, 0) == b,
        b.nanos < 1_000_000_000 && 0 < b.secs + 1 < LAST_SECOND ==> seconds_after(b, 1).after(b)
            && seconds_after(b, 1).secs == b.secs + 1,
{
}

/// The longest duration that a text can write, in whole seconds.
pub const LONGEST_WRITTEN_SECONDS: i64 = 18_446_744_074;

/// A timeout as a moment: a duration from `now` (`15min`, `4h`) or an absolute date. A text that
/// reads as a duration is one; which date any other text names, if it names one, depends on the
/// clock and the time zone.
pub fn try_parse_timeout(text: &str, now: Moment) -> (moment: Result<Moment, String>)
    requires
        now.wf(),
        now.secs < LAST_SECOND - LONGEST_WRITTEN_SECONDS,
        !has_day_offset(text@),
    ensures
        moment matches Ok(m) ==> m.wf(),
        exists|date: Result<Moment, Seq<char>>|
            {
                &&& #[trigger] timeout_at(text@, now, duration_of(text@), date) == told(moment)
                &&& duration_of(text@) is Err ==> is_date_read(text@, date)
            },
        duration_of(text@) is Err ==> match moment {
            Ok(read) => is_date_read(text@, Ok(read)),
            Err(_) => exists|why: Seq<char>| is_date_read(text@, Err(why)),
        },
{
    let duration = parse_duration(text);
    let date = match &duration {
        Ok(_) => Err(String::new()),
        Err(_) => date_in(text),
    };
    let ghost found = told(date);
    let moment = resolve_timeout(text, now, duration, date);
    assert(timeout_at(text@, now, duration_of(text@), found) == told(moment));
    moment
}

} // verus!
