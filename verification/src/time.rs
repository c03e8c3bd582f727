//! Timestamps as the file list shows them.

use crate::text::digit;
use vstd::prelude::*;

verus! {

/// How many of a timestamp's units make a second.
pub const TICKS_PER_SECOND: i64 = 10_000_000;

/// The whole seconds of a timestamp, rounded down.
pub open spec fn seconds_of(ticks: i64) -> int {
    ticks as int / 10_000_000
}

/// Two decimal digits.
pub open spec fn two_digits(n: int) -> Seq<char> {
    seq![digit((n / 10) as nat), digit((n % 10) as nat)]
}

/// Four decimal digits.
pub open spec fn four_digits(n: int) -> Seq<char> {
    two_digits(n / 100) + two_digits(n % 100)
}

/// Whether a year of the Gregorian calendar is a leap year.
pub open spec fn is_leap(year: int) -> bool {
    year % 4 == 0 && (year % 100 != 0 || year % 400 == 0)
}

/// How many days a month has.
pub open spec fn days_in_month(year: int, month: int) -> int {
    if month == 2 {
        if is_leap(year) {
            29
        } else {
            28
        }
    } else if month == 4 || month == 6 || month == 9 || month == 11 {
        30
    } else {
        31
    }
}

/// How many days of a year come before a month.
pub open spec fn days_before_month(year: int, month: int) -> int
    decreases month,
{
    if month <= 1 {
        0
    } else {
        days_before_month(year, month - 1) + days_in_month(year, month - 1)
    }
}

/// How many days come before a year, from the first of the year zero.
pub open spec fn days_before_year(year: int) -> int {
    365 * year + (year + 3) / 4 - (year + 99) / 100 + (year + 399) / 400
}

/// The number of a date, counted from the first of January 1970.
pub open spec fn day_number(year: int, month: int, day: int) -> int {
    days_before_year(year) + days_before_month(year, month) + day - 1 - days_before_year(1970)
}

/// Whether the date is one of the calendar, with a year of at most four digits.
pub open spec fn is_date(year: int, month: int, day: int) -> bool {
    0 <= year <= 9999 && 1 <= month <= 12 && 1 <= day <= days_in_month(year, month)
}

/// A date and a time of the day, given in minutes, in the form `YYYY-MM-DD HH:MM`.
pub open spec fn date_text(year: int, month: int, day: int, minutes: int) -> Seq<char> {
    four_digits(year) + seq!['-'] + two_digits(month) + seq!['-'] + two_digits(day) + seq![' ']
        + two_digits(minutes / 60) + seq![':'] + two_digits(minutes % 60)
}

/// Whether `t` shows the date and the minute of `local`, a number of seconds since the epoch
/// in local time.
pub open spec fn is_stamp_of(t: Seq<char>, local: int) -> bool {
    exists|year: int, month: int, day: int|
        is_date(year, month, day) && #[trigger] day_number(year, month, day) == local / 86_400
            && t == date_text(year, month, day, local % 86_400 / 60)
}

/// What an instant, in seconds since the epoch, reads in the form `%Y-%m-%d %H:%M` at an
/// offset east of UTC.
pub uninterp spec fn stamp(secs: int, offset: int) -> Seq<char>;

/// `chrono::DateTime::format` with `%Y-%m-%d %H:%M`, for an instant at a fixed offset. The
/// text is a function of the two. From the year 0 to the year 9999 it is the date in the
/// Gregorian calendar and the time of the day, with a leading zero where a number is short;
/// how other years are written is left to its name. The bound on the instant keeps it within
/// chrono's range of dates.
#[verifier::external_body]
pub(crate) fn render(secs: i64, offset: i32) -> (r: String)
    requires
        -1_000_000_000_000 <= secs <= 1_000_000_000_000,
        -86_400 < offset < 86_400,
    ensures
        r@ == stamp(secs as int, offset as int),
        -62_167_219_200 <= secs + offset < 253_402_300_800 ==> is_stamp_of(r@, secs + offset),
{
    chrono::DateTime::from_timestamp(secs, 0)
        .unwrap()
        .with_timezone(&chrono::FixedOffset::east_opt(offset).unwrap())
        .format("%Y-%m-%d %H:%M")
        .to_string()
}

/// The offset of `chrono::Local` at an instant, in seconds east of UTC. It depends on the
/// time zone of the machine; all that is claimed is that it is less than a day either way.
#[verifier::external_body]
pub(crate) fn local_offset(secs: i64) -> (r: i32)
    requires
        -1_000_000_000_000 <= secs <= 1_000_000_000_000,
    ensures
        -86_400 < r < 86_400,
{
    chrono::DateTime::from_timestamp(secs, 0)
        .unwrap()
        .with_timezone(&chrono::Local)
        .offset()
        .local_minus_utc()
}

/// The whole seconds of a timestamp, rounded down.
fn seconds(ticks: i64) -> (r: i64)
    ensures
        r == seconds_of(ticks),
        -1_000_000_000_000 <= r <= 1_000_000_000_000,
{
    if ticks >= 0 {
        ticks / TICKS_PER_SECOND
    } else {
        -((-(ticks + 1)) / TICKS_PER_SECOND) - 1
    }
}

/// Format a timestamp at an offset east of UTC.
pub fn format_time_at(ticks: i64, offset: i32) -> (r: String)
    requires
        -86_400 < offset < 86_400,
    ensures
        r@ == stamp(seconds_of(ticks), offset as int),
        -62_167_219_200 <= seconds_of(ticks) + offset < 253_402_300_800 ==> is_stamp_of(
            r@,
            seconds_of(ticks) + offset,
        ),
{
    render(seconds(ticks), offset)
}

/// Whether `text` is how a timestamp reads at some offset from UTC.
pub open spec fn is_local_time(text: Seq<char>, ticks: i64) -> bool {
    exists|offset: int|
        -86_400 < offset < 86_400 && text == #[trigger] stamp(seconds_of(ticks), offset) && (
        -62_167_219_200 <= seconds_of(ticks) + offset < 253_402_300_800 ==> is_stamp_of(
            text,
            seconds_of(ticks) + offset,
        ))
}

/// Format a timestamp in local time, e.g. `2026-06-13 09:41`.
pub fn format_time(ticks: i64) -> (r: String)
    ensures
        is_local_time(r@, ticks),
{
    let offset: i32 = local_offset(seconds(ticks));
    format_time_at(ticks, offset)
}

proof fn lemma_two_digits(m: int, n: int)
    requires
        0 <= m < 100,
        0 <= n < 100,
        two_digits(m) == two_digits(n),
    ensures
        m == n,
{
    assert(two_digits(m)[0] == two_digits(n)[0]);
    assert(two_digits(m)[1] == two_digits(n)[1]);
}

/// Where the numbers of a date stand in its text.
proof fn lemma_date_fields(year: int, month: int, day: int, minutes: int)
    ensures
        ({
            let t = date_text(year, month, day, minutes);
            &&& t.subrange(0, 2) == two_digits(year / 100)
            &&& t.subrange(2, 4) == two_digits(year % 100)
            &&& t.subrange(5, 7) == two_digits(month)
            &&& t.subrange(8, 10) == two_digits(day)
            &&& t.subrange(11, 13) == two_digits(minutes / 60)
            &&& t.subrange(14, 16) == two_digits(minutes % 60)
        }),
{
    let t = date_text(year, month, day, minutes);
    assert(t.subrange(0, 2) =~= two_digits(year / 100));
    assert(t.subrange(2, 4) =~= two_digits(year % 100));
    assert(t.subrange(5, 7) =~= two_digits(month));
    assert(t.subrange(8, 10) =~= two_digits(day));
    assert(t.subrange(11, 13) =~= two_digits(minutes / 60));
    assert(t.subrange(14, 16) =~= two_digits(minutes % 60));
}

/// Dates and times that read the same are the same.
proof fn lemma_same_text(y1: int, m1: int, d1: int, p: int, y2: int, m2: int, d2: int, q: int)
    requires
        is_date(y1, m1, d1),
        is_date(y2, m2, d2),
        0 <= p < 1440,
        0 <= q < 1440,
        date_text(y1, m1, d1, p) == date_text(y2, m2, d2, q),
    ensures
        y1 == y2,
        m1 == m2,
        d1 == d2,
        p == q,
{
    lemma_date_fields(y1, m1, d1, p);
    lemma_date_fields(y2, m2, d2, q);
    lemma_two_digits(y1 / 100, y2 / 100);
    lemma_two_digits(y1 % 100, y2 % 100);
    lemma_two_digits(m1, m2);
    lemma_two_digits(d1, d2);
    lemma_two_digits(p / 60, q / 60);
    lemma_two_digits(p % 60, q % 60);
}

/// The minute of its day in which an instant lies.
spec fn minute_of_day(a: int) -> int {
    a % 86_400 / 60
}

/// The day and the minute in it tell the minute.
proof fn lemma_minute(a: int, b: int)
    requires
        a / 86_400 == b / 86_400,
        minute_of_day(a) == minute_of_day(b),
    ensures
        a / 60 == b / 60,
{
    assert(a == 86_400 * (a / 86_400) + a % 86_400);
    assert(b == 86_400 * (b / 86_400) + b % 86_400);
    assert(a / 60 == 1440 * (a / 86_400) + minute_of_day(a));
    assert(b / 60 == 1440 * (b / 86_400) + minute_of_day(b));
}

/// A timestamp tells the minute: two instants that read the same are of the same minute.
#[verifier::spinoff_prover]
pub proof fn law_timestamp_tells_the_minute(t: Seq<char>, a: int, b: int)
    requires
        is_stamp_of(t, a),
        is_stamp_of(t, b),
    ensures
        a / 60 == b / 60,
{
    let (y1, m1, d1) = choose|year: int, month: int, day: int|
        is_date(year, month, day) && #[trigger] day_number(year, month, day) == a / 86_400 && t
            == date_text(year, month, day, a % 86_400 / 60);
    let (y2, m2, d2) = choose|year: int, month: int, day: int|
        is_date(year, month, day) && #[trigger] day_number(year, month, day) == b / 86_400 && t
            == date_text(year, month, day, b % 86_400 / 60);
    let p = minute_of_day(a);
    let q = minute_of_day(b);
    assert(0 <= p < 1440 && 0 <= q < 1440);
    lemma_same_text(y1, m1, d1, p, y2, m2, d2, q);
    lemma_minute(a, b);
}

/// A timestamp counts ticks of 100 nanoseconds; its second is the whole one that has begun.
pub proof fn law_second_has_begun(ticks: i64)
    ensures
        seconds_of(ticks) * 10_000_000 <= ticks < (seconds_of(ticks) + 1) * 10_000_000,
{
}

/// The calendar has no gaps: the day after the last of a month is the first of the next, and the
/// day after the last of December is the first of January. A year has 365 days, and 366 where it
/// can be divided by four, but by a hundred only where it can be by four hundred.
pub proof fn law_calendar_has_no_gaps(year: int, month: int)
    requires
        0 <= year <= 9999,
        1 <= month <= 12,
    ensures
        month < 12 ==> day_number(year, month + 1, 1) == day_number(
            year,
            month,
            days_in_month(year, month),
        ) + 1,
        day_number(year + 1, 1, 1) == day_number(year, 12, 31) + 1,
        day_number(year + 1, 1, 1) - day_number(year, 1, 1) == (if year % 4 == 0 && (year % 100
            != 0 || year % 400 == 0) {
            366int
        } else {
            365
        }),
        day_number(1970, 1, 1) == 0,
        days_in_month(year, month) <= 31,
{
    reveal_with_fuel(days_before_month, 13);
}

/// A date is written with a year of four digits, a month and a day of two, a space, and the
/// hour and the minute of two each.
pub proof fn law_date_is_written_in_full(year: int, month: int, day: int, minutes: int)
    ensures
        ({
            let t = date_text(year, month, day, minutes);
            &&& t.len() == 16
            &&& t[4] == '-' && t[7] == '-' && t[10] == ' ' && t[13] == ':'
            &&& t.subrange(0, 2) == two_digits(year / 100)
            &&& t.subrange(2, 4) == two_digits(year % 100)
            &&& t.subrange(5, 7) == two_digits(month)
            &&& t.subrange(8, 10) == two_digits(day)
            &&& t.subrange(11, 13) == two_digits(minutes / 60)
            &&& t.subrange(14, 16) == two_digits(minutes % 60)
        }),
        0 <= month < 100 ==> two_digits(month)[0] as int == 48 + month / 10 && two_digits(
            month,
        )[1] as int == 48 + month % 10,
{
    lemma_date_fields(year, month, day, minutes);
}

} // verus!
