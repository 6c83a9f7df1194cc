//! Calendar dates, read and written through the `time` crate.
use vstd::prelude::*;

verus! {

/// Seconds in two weeks: a gap is reported at this spacing or more.
pub const TWO_WEEKS_SECS: i64 = 1209600;

/// Whether `c` is an ASCII decimal digit.
pub open spec fn is_digit(c: char) -> bool {
    '0' <= c <= '9'
}

/// How many of the first `max` characters of `s` are digits before the
/// first one that is not.
pub open spec fn lead_digits(s: Seq<char>, max: nat) -> nat
    decreases max,
{
    if max == 0 || s.len() == 0 || !is_digit(s[0]) {
        0
    } else {
        1 + lead_digits(s.drop_first(), (max - 1) as nat)
    }
}

/// The number that a run of digits writes in decimal.
pub open spec fn digits_value(s: Seq<char>) -> int
    decreases s.len(),
{
    if s.len() == 0 {
        0
    } else {
        digits_value(s.drop_last()) * 10 + (s.last() as u32 - '0' as u32)
    }
}

/// What `time::strptime(s, "%F")` yields, as its `tm_year`, `tm_mon` and
/// `tm_mday` fields: exactly four digits of year, '-', one or two digits of
/// month from 1 to 12, '-', one or two digits of day from 1 to 31; what
/// follows is not read.
pub open spec fn strptime_fields(s: Seq<char>) -> Option<(i32, i32, i32)> {
    if lead_digits(s, 4) < 4 || s.len() < 5 || s[4] != '-' {
        None
    } else {
        let year = digits_value(s.take(4));
        let r = s.skip(5);
        let nm = lead_digits(r, 2);
        let month = digits_value(r.take(nm as int));
        if nm < 1 || month < 1 || month > 12 || r.len() <= nm || r[nm as int] != '-' {
            None
        } else {
            let t = r.skip(nm + 1int);
            let nd = lead_digits(t, 2);
            let day = digits_value(t.take(nd as int));
            if nd < 1 || day < 1 || day > 31 {
                None
            } else {
                Some(((year - 1900) as i32, (month - 1) as i32, day as i32))
            }
        }
    }
}

/// Relies on `time::strptime` with the format "%F": the year is read from
/// exactly four digits (stored less 1900), the month from one or two digits
/// with a value from 1 to 12 (stored less one), the day of the month from one
/// or two digits with a value from 1 to 31, with '-' between them.
#[verifier::external_body]
fn strptime_ymd(s: &str) -> (r: Option<(i32, i32, i32)>)
    ensures
        r == strptime_fields(s@),
        r matches Some((y, m, d)) ==> -1900 <= y <= 8099 && 0 <= m <= 11 && 1 <= d <= 31,
{
    time::strptime(s, "%F").ok().map(|tm| (tm.tm_year, tm.tm_mon, tm.tm_mday))
}

/// The character of a decimal digit.
pub open spec fn digit_char(n: nat) -> char {
    if n == 0 { '0' } else if n == 1 { '1' } else if n == 2 { '2' } else if n == 3 { '3' }
    else if n == 4 { '4' } else if n == 5 { '5' } else if n == 6 { '6' } else if n == 7 { '7' }
    else if n == 8 { '8' } else { '9' }
}

/// `n` in decimal, with no leading zeros (`{}`).
pub open spec fn decimal(n: nat) -> Seq<char>
    decreases n,
{
    if n < 10 {
        seq![digit_char(n)]
    } else {
        decimal(n / 10).push(digit_char(n % 10))
    }
}

/// `n` in decimal, padded with a zero to at least two digits (`{:02}`).
pub open spec fn two_digits(n: nat) -> Seq<char> {
    if n < 10 { seq!['0', digit_char(n)] } else { decimal(n) }
}

/// The text that "%F" gives: the year in decimal as it is (not padded),
/// then the month and the day in two digits, joined by '-'.
pub open spec fn iso_text(year: nat, month: nat, day: nat) -> Seq<char> {
    decimal(year) + seq!['-'] + two_digits(month) + seq!['-'] + two_digits(day)
}

/// Relies on `time::Tm::strftime` with the format "%F", on a time whose
/// fields are all zero but the date: it writes `tm_year + 1900` with `{}`,
/// `tm_mon + 1` and `tm_mday` with `{:02}`, and accepts the format for a
/// month from 0 to 11 and a weekday of 0.
#[verifier::external_body]
fn tm_strftime_iso(tm_year: i32, tm_mon: i32, tm_mday: i32) -> (r: String)
    requires
        -1900 <= tm_year <= 8099,
        0 <= tm_mon <= 11,
        1 <= tm_mday <= 31,
    ensures
        r@ == iso_text((tm_year + 1900) as nat, (tm_mon + 1) as nat, tm_mday as nat),
{
    let tm = time::Tm {
        tm_sec: 0, tm_min: 0, tm_hour: 0, tm_mday, tm_mon, tm_year,
        tm_wday: 0, tm_yday: 0, tm_isdst: 0, tm_utcoff: 0, tm_nsec: 0,
    };
    match tm.strftime("%F") {
        Ok(f) => format!("{}", f),
        Err(_) => String::new(),
    }
}

/// Days from 1970-01-01 to the given date of the proleptic Gregorian
/// calendar, by the count that `time` uses for `Tm::to_timespec` (March
/// starts the counting year); the year is shifted by 400 years, which hold
/// 146097 days, so that it stays positive for year 0.
pub open spec fn day_number(year: int, month: int, day: int) -> int {
    let y = if month <= 2 { year - 1 + 400 } else { year + 400 };
    let m = if month <= 2 { month + 12 } else { month };
    365 * y + y / 4 - y / 100 + y / 400 + 3 * (m + 1) / 5 + 30 * m + day - 719561 - 146097
}

/// Seconds in a day.
pub const DAY_SECS: i64 = 86400;

/// A calendar date with no time of day: a four-digit year, a month from 1
/// to 12 and a day of the month from 1 to 31.
#[derive(Clone, Copy, Debug, PartialEq, Eq, Structural)]
pub struct Date {
    pub year: i32,
    pub month: u32,
    pub day: u32,
}

impl Date {
    /// The ranges that a date read from text keeps.
    pub open spec fn wf(self) -> bool {
        0 <= self.year <= 9999 && 1 <= self.month <= 12 && 1 <= self.day <= 31
    }

    /// A date that the calendar has: in range, and no day past the end of
    /// its month.
    pub open spec fn in_calendar(self) -> bool {
        self.wf() && self.day <= days_in_month(self.year as int, self.month as int)
    }

    /// Seconds from 1970-01-01 UTC to midnight UTC of this date.
    pub open spec fn secs(self) -> int {
        day_number(self.year as int, self.month as int, self.day as int) * DAY_SECS
    }

    /// The date as "%F" writes it: year, month and day joined by '-', the
    /// month and day in two digits, the year as it is (`23-01-02` for the
    /// year 23).
    pub open spec fn iso(self) -> Seq<char> {
        iso_text(self.year as nat, self.month as nat, self.day as nat)
    }

    /// Builds a date from its parts; `None` where one is out of range.
    pub fn new(year: i32, month: u32, day: u32) -> (r: Option<Date>)
        ensures
            r is Some <==> (0 <= year <= 9999 && 1 <= month <= 12 && 1 <= day <= 31),
            r matches Some(d) ==> d.year == year && d.month == month && d.day == day && d.wf(),
    {
        if 0 <= year && year <= 9999 && 1 <= month && month <= 12 && 1 <= day && day <= 31 {
            Some(Date { year, month, day })
        } else {
            None
        }
    }

    /// Whether `year` has a 29th of February.
pub open spec fn is_leap(year: int) -> bool {
    (year % 4 == 0 && year % 100 != 0) || year % 400 == 0
}

/// The number of days in a month of the Gregorian calendar.
pub open spec fn days_in_month(year: int, month: int) -> int {
    if month == 2 {
        if is_leap(year) { 29 } else { 28 }
    } else if month == 4 || month == 6 || month == 9 || month == 11 {
        30
    } else {
        31
    }
}

/// Whether `a` comes before `b` in the calendar.
pub open spec fn before(a: Date, b: Date) -> bool {
    a.year < b.year || (a.year == b.year && (a.month < b.month || (a.month == b.month && a.day < b.day)))
}

/// The first of the next month starts right after the last day of a month.
proof fn lemma_next_month(year: int, month: int)
    requires
        0 <= year <= 9999,
        1 <= month <= 12,
    ensures
        month < 12 ==> day_number(year, month + 1, 1) == day_number(year, month, 1) + days_in_month(year, month),
        month == 12 ==> day_number(year + 1, 1, 1) == day_number(year, 12, 1) + 31,
{
    if month == 2 {
        let y = year + 399;
        assert((y + 1) / 4 - y / 4 == if (y + 1) % 4 == 0 { 1int } else { 0 });
        assert((y + 1) / 100 - y / 100 == if (y + 1) % 100 == 0 { 1int } else { 0 });
        assert((y + 1) / 400 - y / 400 == if (y + 1) % 400 == 0 { 1int } else { 0 });
        assert((year + 400) % 4 == year % 4 && (year + 400) % 100 == year % 100 && (year + 400) % 400 == year % 400);
    }
}

/// The first of a month starts after every day of an earlier month.
proof fn lemma_month_order(y1: int, m1: int, y2: int, m2: int)
    requires
        0 <= y1 <= 9999,
        0 <= y2 <= 9999,
        1 <= m1 <= 12,
        1 <= m2 <= 12,
        y1 * 12 + m1 < y2 * 12 + m2,
    ensures
        day_number(y1, m1, 1) + days_in_month(y1, m1) <= day_number(y2, m2, 1),
    decreases y2 * 12 + m2,
{
    let (py, pm) = if m2 == 1 { (y2 - 1, 12int) } else { (y2, m2 - 1) };
    lemma_next_month(py, pm);
    if y1 * 12 + m1 < py * 12 + pm {
        lemma_month_order(y1, m1, py, pm);
    }
}

/// Over dates of the calendar, the day count keeps the calendar's order:
/// an earlier date has fewer seconds, so distinct dates have distinct
/// seconds.
pub proof fn lemma_secs_follow_calendar(a: Date, b: Date)
    requires
        a.in_calendar(),
        b.in_calendar(),
        before(a, b),
    ensures
        a.secs() < b.secs(),
{
    if a.year != b.year || a.month != b.month {
        lemma_month_order(a.year as int, a.month as int, b.year as int, b.month as int);
    }
}

/// The date that `time`'s fields give (years since 1900, months from 0,
    /// day of the month); `None` where the date would be out of range.
    pub fn from_tm_fields(tm_year: i32, tm_mon: i32, tm_mday: i32) -> (r: Option<Date>)
        ensures
            r is Some <==> (-1900 <= tm_year <= 8099 && 0 <= tm_mon <= 11 && 1 <= tm_mday <= 31),
            r matches Some(d) ==> d == date_of_tm(tm_year as int, tm_mon as int, tm_mday as int)
                && d.wf(),
    {
        if -1900 <= tm_year && tm_year <= 8099 && 0 <= tm_mon && tm_mon <= 11 && 1 <= tm_mday
            && tm_mday <= 31 {
            Some(Date { year: tm_year + 1900, month: (tm_mon + 1) as u32, day: tm_mday as u32 })
        } else {
            None
        }
    }

    /// Seconds from 1970-01-01 UTC to midnight UTC of this date.
    pub fn to_secs(&self) -> (r: i64)
        requires
            self.wf(),
        ensures
            r as int == self.secs(),
    {
        let (y, m): (i64, i64) = if self.month <= 2 {
            (self.year as i64 - 1 + 400, self.month as i64 + 12)
        } else {
            (self.year as i64 + 400, self.month as i64)
        };
        let days: i64 = 365 * y + y / 4 - y / 100 + y / 400 + 3 * (m + 1) / 5 + 30 * m
            + self.day as i64 - 719561 - 146097;
        days * DAY_SECS
    }

    /// The date as "%F" writes it (see `iso`).
    pub fn to_iso(&self) -> (r: String)
        requires
            self.wf(),
        ensures
            r@ == self.iso(),
    {
        tm_strftime_iso(self.year - 1900, (self.month - 1) as i32, self.day as i32)
    }
}

/// Whether `year` has a 29th of February.
pub open spec fn is_leap(year: int) -> bool {
    (year % 4 == 0 && year % 100 != 0) || year % 400 == 0
}

/// The number of days in a month of the Gregorian calendar.
pub open spec fn days_in_month(year: int, month: int) -> int {
    if month == 2 {
        if is_leap(year) { 29 } else { 28 }
    } else if month == 4 || month == 6 || month == 9 || month == 11 {
        30
    } else {
        31
    }
}

/// Whether `a` comes before `b` in the calendar.
pub open spec fn before(a: Date, b: Date) -> bool {
    a.year < b.year || (a.year == b.year && (a.month < b.month || (a.month == b.month && a.day < b.day)))
}

/// The first of the next month starts right after the last day of a month.
proof fn lemma_next_month(year: int, month: int)
    requires
        0 <= year <= 9999,
        1 <= month <= 12,
    ensures
        month < 12 ==> day_number(year, month + 1, 1) == day_number(year, month, 1) + days_in_month(year, month),
        month == 12 ==> day_number(year + 1, 1, 1) == day_number(year, 12, 1) + 31,
{
    if month == 2 {
        let y = year + 399;
        assert((y + 1) / 4 - y / 4 == if (y + 1) % 4 == 0 { 1int } else { 0 });
        assert((y + 1) / 100 - y / 100 == if (y + 1) % 100 == 0 { 1int } else { 0 });
        assert((y + 1) / 400 - y / 400 == if (y + 1) % 400 == 0 { 1int } else { 0 });
        assert((year + 400) % 4 == year % 4 && (year + 400) % 100 == year % 100 && (year + 400) % 400 == year % 400);
    }
}

/// The first of a month starts after every day of an earlier month.
proof fn lemma_month_order(y1: int, m1: int, y2: int, m2: int)
    requires
        0 <= y1 <= 9999,
        0 <= y2 <= 9999,
        1 <= m1 <= 12,
        1 <= m2 <= 12,
        y1 * 12 + m1 < y2 * 12 + m2,
    ensures
        day_number(y1, m1, 1) + days_in_month(y1, m1) <= day_number(y2, m2, 1),
    decreases y2 * 12 + m2,
{
    let (py, pm) = if m2 == 1 { (y2 - 1, 12int) } else { (y2, m2 - 1) };
    lemma_next_month(py, pm);
    if y1 * 12 + m1 < py * 12 + pm {
        lemma_month_order(y1, m1, py, pm);
    }
}

/// Over dates of the calendar, the day count keeps the calendar's order:
/// an earlier date has fewer seconds, so distinct dates have distinct
/// seconds.
pub proof fn lemma_secs_follow_calendar(a: Date, b: Date)
    requires
        a.in_calendar(),
        b.in_calendar(),
        before(a, b),
    ensures
        a.secs() < b.secs(),
{
    if a.year != b.year || a.month != b.month {
        lemma_month_order(a.year as int, a.month as int, b.year as int, b.month as int);
    }
}

/// The date that `time`'s fields give: years since 1900, months from 0,
/// day of the month.
pub open spec fn date_of_tm(tm_year: int, tm_mon: int, tm_mday: int) -> Date {
    Date { year: (tm_year + 1900) as i32, month: (tm_mon + 1) as u32, day: tm_mday as u32 }
}

/// The date that `YYYY-MM-DD` text denotes, by `time::strptime`.
pub open spec fn date_of_text(s: Seq<char>) -> Option<Date> {
    match strptime_fields(s) {
        Some((y, m, d)) => Some(date_of_tm(y as int, m as int, d as int)),
        None => None,
    }
}

/// Reads a date written `YYYY-MM-DD` (four-digit year).
pub fn parse_date(s: &str) -> (r: Option<Date>)
    ensures
        r == date_of_text(s@),
        r matches Some(d) ==> d.wf(),
{
    match strptime_ymd(s) {
        Some((y, m, d)) => Date::from_tm_fields(y, m, d),
        None => None,
    }
}

} // verus!
