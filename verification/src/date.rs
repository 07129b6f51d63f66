//! Calendar dates of chat messages and of the `--from`/`--to` bounds.

use vstd::prelude::*;

use chrono::Datelike;

verus! {

pub open spec fn is_leap_year(y: int) -> bool {
    (y % 4 == 0 && y % 100 != 0) || y % 400 == 0
}

pub open spec fn days_in_month(y: int, m: int) -> int {
    if m == 2 {
        if is_leap_year(y) {
            29
        } else {
            28
        }
    } else if m == 4 || m == 6 || m == 9 || m == 11 {
        30
    } else {
        31
    }
}

/// A day of the proleptic Gregorian calendar within the years that
/// `chrono::NaiveDate` represents.
pub open spec fn calendar_date(y: int, m: int, d: int) -> bool {
    &&& -262143 <= y <= 262142
    &&& 1 <= m <= 12
    &&& 1 <= d <= days_in_month(y, m)
}

/// Whether `chrono::NaiveDate::from_ymd_opt(year, month, day)` gives a date.
///
/// Trusted: chrono documents that `from_ymd_opt` returns `None` exactly on an
/// invalid month or day or an out-of-range year; its source bounds the year
/// by `MIN_YEAR = -262143` and `MAX_YEAR = 262142` and validates month and
/// day against the Gregorian leap-year rule.
#[verifier::external_body]
fn chrono_date_exists(year: i32, month: u32, day: u32) -> (r: bool)
    ensures
        r == calendar_date(year as int, month as int, day as int),
{
    chrono::NaiveDate::from_ymd_opt(year, month, day).is_some()
}

/// The year, month and day of `chrono::NaiveDate::parse_from_str(value,
/// "%Y-%m-%d")`, when it succeeds.
pub uninterp spec fn chrono_ymd_parse(value: Seq<char>) -> Option<(i32, u32, u32)>;

/// `chrono::NaiveDate::parse_from_str(value, "%Y-%m-%d")`, as year, month and
/// day.
///
/// Trusted: the result is named, not described; the one fact stated is that a
/// `NaiveDate` always is a real calendar date in chrono's range.
#[verifier::external_body]
fn chrono_parse_ymd(value: &str) -> (r: Option<(i32, u32, u32)>)
    ensures
        r == chrono_ymd_parse(value@),
        r matches Some((y, m, d)) ==> calendar_date(y as int, m as int, d as int),
{
    chrono::NaiveDate::parse_from_str(value, "%Y-%m-%d").ok().map(|d| (d.year(), d.month(), d.day()))
}

/// A calendar date.
#[derive(Debug, Clone, Copy, PartialEq, Eq, Structural)]
pub struct Date {
    year: i32,
    month: u32,
    day: u32,
}

impl Date {
    #[verifier::type_invariant]
    spec fn valid(self) -> bool {
        calendar_date(self.year as int, self.month as int, self.day as int)
    }

    /// Year, month and day.
    pub closed spec fn ymd(self) -> (int, int, int) {
        (self.year as int, self.month as int, self.day as int)
    }

    /// The date `year-month-day`, if there is one.
    pub fn from_ymd_opt(year: i32, month: u32, day: u32) -> (r: Option<Date>)
        ensures
            calendar_date(year as int, month as int, day as int) <==> r is Some,
            r matches Some(d) ==> d.ymd() == (year as int, month as int, day as int),
    {
        if chrono_date_exists(year, month, day) {
            Some(Date { year, month, day })
        } else {
            None
        }
    }

    /// A `YYYY-MM-DD` command-line date, read as chrono reads it.
    pub fn parse_iso(value: &str) -> (r: Option<Date>)
        ensures
            r matches Some(d) ==> chrono_ymd_parse(value@) matches Some((y, m, dd)) && d.ymd() == (
                y as int,
                m as int,
                dd as int,
            ),
            r is None <==> chrono_ymd_parse(value@) is None,
    {
        match chrono_parse_ymd(value) {
            Some((y, m, d)) => Some(Date { year: y, month: m, day: d }),
            None => None,
        }
    }

    /// The year.
    pub fn year(&self) -> (r: i32)
        ensures
            r == self.ymd().0,
            calendar_date(self.ymd().0, self.ymd().1, self.ymd().2),
    {
        proof {
            use_type_invariant(self);
        }
        self.year
    }

    /// The month, 1 to 12.
    pub fn month(&self) -> (r: u32)
        ensures
            r == self.ymd().1,
    {
        self.month
    }

    /// The day of the month.
    pub fn day(&self) -> (r: u32)
        ensures
            r == self.ymd().2,
    {
        self.day
    }

    /// Whether `self` comes strictly before `other`.
    pub fn is_before(&self, other: &Date) -> (r: bool)
        ensures
            r == date_before(self.ymd(), other.ymd()),
    {
        self.year < other.year || (self.year == other.year && (self.month < other.month || (
        self.month == other.month && self.day < other.day)))
    }
}

/// Chronological order of year-month-day triples.
pub open spec fn date_before(a: (int, int, int), b: (int, int, int)) -> bool {
    a.0 < b.0 || (a.0 == b.0 && (a.1 < b.1 || (a.1 == b.1 && a.2 < b.2)))
}

/// Leap years among the years from 0 up to `y` (exclusive); negative,
/// counting back, for `y` below 0.
pub open spec fn leap_days_before(y: int) -> int {
    (y + 3) / 4 - (y + 99) / 100 + (y + 399) / 400
}

/// Days of the months of year `y` before month `m`.
pub open spec fn days_before_month(y: int, m: int) -> int
    decreases m,
{
    if m <= 1 {
        0
    } else {
        days_before_month(y, m - 1) + days_in_month(y, m - 1)
    }
}

/// Days in year `y`.
pub open spec fn year_days(y: int) -> int {
    if is_leap_year(y) {
        366
    } else {
        365
    }
}

/// The day number of a date: days counted from 0000-01-01 (day 1) in the
/// proleptic Gregorian calendar.
pub open spec fn day_number(y: int, m: int, d: int) -> int {
    365 * y + leap_days_before(y) + days_before_month(y, m) + d
}

proof fn lemma_leap_days_step(y: int)
    ensures
        leap_days_before(y + 1) - leap_days_before(y) == (if is_leap_year(y) {
            1int
        } else {
            0int
        }),
{
    assert((y + 4) / 4 - (y + 3) / 4 == (if y % 4 == 0 { 1int } else { 0int })) by (nonlinear_arith);
    assert((y + 100) / 100 - (y + 99) / 100 == (if y % 100 == 0 { 1int } else { 0int })) by (nonlinear_arith);
    assert((y + 400) / 400 - (y + 399) / 400 == (if y % 400 == 0 { 1int } else { 0int })) by (nonlinear_arith);
    assert(y % 400 == 0 ==> y % 100 == 0 && y % 4 == 0) by (nonlinear_arith);
    assert(y % 100 == 0 ==> y % 4 == 0) by (nonlinear_arith);
}

proof fn lemma_days_before_month_grows(y: int, m1: int, m2: int)
    requires
        1 <= m1 <= m2,
    ensures
        days_before_month(y, m1) <= days_before_month(y, m2),
        m1 < m2 ==> days_before_month(y, m1) + days_in_month(y, m1) <= days_before_month(y, m2),
    decreases m2 - m1,
{
    if m1 < m2 {
        lemma_days_before_month_grows(y, m1, m2 - 1);
    }
}

proof fn lemma_year_length(y: int)
    ensures
        days_before_month(y, 13) == year_days(y),
{
    reveal_with_fuel(days_before_month, 13);
}

proof fn lemma_year_starts_grow(y1: int, y2: int)
    requires
        y1 < y2,
    ensures
        365 * y1 + leap_days_before(y1) + year_days(y1) <= 365 * y2 + leap_days_before(y2),
    decreases y2 - y1,
{
    lemma_leap_days_step(y1);
    if y1 + 1 < y2 {
        lemma_year_starts_grow(y1 + 1, y2);
        lemma_leap_days_step(y1 + 1);
    }
}

proof fn lemma_in_year(y: int, m: int, d: int)
    requires
        calendar_date(y, m, d),
    ensures
        1 <= days_before_month(y, m) + d <= year_days(y),
{
    lemma_days_before_month_grows(y, 1, m);
    lemma_year_length(y);
    if m < 13 {
        lemma_days_before_month_grows(y, m, 13);
    }
}

/// Law: `date_before` is chronological order: of two real dates, one comes
/// before the other exactly when its day number is smaller.
pub proof fn lemma_date_before_is_chronological(a: (int, int, int), b: (int, int, int))
    requires
        calendar_date(a.0, a.1, a.2),
        calendar_date(b.0, b.1, b.2),
    ensures
        date_before(a, b) <==> day_number(a.0, a.1, a.2) < day_number(b.0, b.1, b.2),
{
    lemma_in_year(a.0, a.1, a.2);
    lemma_in_year(b.0, b.1, b.2);
    if a.0 < b.0 {
        lemma_year_starts_grow(a.0, b.0);
    } else if b.0 < a.0 {
        lemma_year_starts_grow(b.0, a.0);
    } else {
        if a.1 < b.1 {
            lemma_days_before_month_grows(a.0, a.1, b.1);
        } else if b.1 < a.1 {
            lemma_days_before_month_grows(a.0, b.1, a.1);
        }
    }
}

} // verus!
