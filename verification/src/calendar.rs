//! Calendar dates of the proleptic Gregorian calendar and their day numbers.

use chrono::{Datelike, NaiveDate, TimeDelta};
use vstd::prelude::*;

verus! {

/// The earliest year a [`CalendarDate`] can lie in.
pub const MIN_YEAR: i32 = -262143;

/// The latest year a [`CalendarDate`] can lie in.
pub const MAX_YEAR: i32 = 262142;

/// Whether `year` has a 29th of February.
pub open spec fn is_leap_year(year: int) -> bool {
    year % 4 == 0 && (year % 100 != 0 || year % 400 == 0)
}

/// Number of days of month `month` (1 to 12) in `year`.
pub open spec fn days_in_month(year: int, month: int) -> int {
    if month == 2 {
        if is_leap_year(year) {
            29
        } else {
            28
        }
    } else if month == 4 || month == 6 || month == 9 || month == 11 {
        30
    } else {
        31
    }
}

/// Number of days of `year`.
pub open spec fn days_in_year(year: int) -> int {
    if is_leap_year(year) {
        366
    } else {
        365
    }
}

/// Number of days of `year` that lie before the first of `month`.
pub open spec fn days_before_month(year: int, month: int) -> int
    decreases month,
{
    if month <= 1 {
        0
    } else {
        days_before_month(year, month - 1) + days_in_month(year, month - 1)
    }
}

/// Number of days between the start of year 1 and the start of `year`
/// (negative for years before year 1).
pub open spec fn days_before_year(year: int) -> int {
    365 * (year - 1) + (year - 1) / 4 - (year - 1) / 100 + (year - 1) / 400
}

/// Whether `(year, month, day)` names a day of the calendar, whatever the year.
pub open spec fn is_day_of_calendar(year: int, month: int, day: int) -> bool {
    1 <= month <= 12 && 1 <= day <= days_in_month(year, month)
}

/// Whether `(year, month, day)` names a day that a [`CalendarDate`] can hold.
pub open spec fn is_calendar_date(year: int, month: int, day: int) -> bool {
    MIN_YEAR <= year <= MAX_YEAR && is_day_of_calendar(year, month, day)
}

/// The day number of a calendar day: 1 for the first of January of year 1,
/// and one more for each following day.
pub open spec fn day_number_of(year: int, month: int, day: int) -> int {
    days_before_year(year) + days_before_month(year, month) + day
}

/// Day number of the first day a [`CalendarDate`] can hold.
pub open spec fn min_day_number() -> int {
    day_number_of(MIN_YEAR as int, 1, 1)
}

/// Day number of the last day a [`CalendarDate`] can hold.
pub open spec fn max_day_number() -> int {
    day_number_of(MAX_YEAR as int, 12, 31)
}

/// A year is exactly as long as its count of days says.
pub proof fn lemma_year_length(year: int)
    ensures
        days_before_year(year + 1) == days_before_year(year) + days_in_year(year),
        days_before_month(year, 13) == days_in_year(year),
{
    lemma_days_before_month(year);
}

/// The cumulative day counts at the start of each month.
pub proof fn lemma_days_before_month(year: int)
    ensures
        days_before_month(year, 1) == 0,
        days_before_month(year, 2) == 31,
        days_before_month(year, 3) == 31 + days_in_month(year, 2),
        days_before_month(year, 4) == 62 + days_in_month(year, 2),
        days_before_month(year, 5) == 92 + days_in_month(year, 2),
        days_before_month(year, 6) == 123 + days_in_month(year, 2),
        days_before_month(year, 7) == 153 + days_in_month(year, 2),
        days_before_month(year, 8) == 184 + days_in_month(year, 2),
        days_before_month(year, 9) == 215 + days_in_month(year, 2),
        days_before_month(year, 10) == 245 + days_in_month(year, 2),
        days_before_month(year, 11) == 276 + days_in_month(year, 2),
        days_before_month(year, 12) == 306 + days_in_month(year, 2),
        days_before_month(year, 13) == 337 + days_in_month(year, 2),
{
    reveal_with_fuel(days_before_month, 14);
}

/// Later years start on later days, at least 365 days apart for each year between.
pub proof fn lemma_days_before_year_grows(earlier: int, later: int)
    requires
        earlier <= later,
    ensures
        days_before_year(later) - days_before_year(earlier) >= 365 * (later - earlier),
        days_before_year(later) - days_before_year(earlier) <= 366 * (later - earlier),
    decreases later - earlier,
{
    if earlier < later {
        lemma_days_before_year_grows(earlier, later - 1);
        lemma_year_length(later - 1);
    }
}

/// Every day of the calendar lies within its year: its day number is past
/// the days before the year, and not past the year's last day.
pub proof fn lemma_day_within_year(year: int, month: int, day: int)
    requires
        is_day_of_calendar(year, month, day),
    ensures
        1 <= days_before_month(year, month) + day <= days_in_year(year),
        days_before_year(year) < day_number_of(year, month, day) <= days_before_year(year + 1),
{
    lemma_days_before_month(year);
    lemma_year_length(year);
}

/// Day numbers order the days of the calendar as year, month and day do.
pub proof fn lemma_day_number_orders(y1: int, m1: int, d1: int, y2: int, m2: int, d2: int)
    requires
        is_day_of_calendar(y1, m1, d1),
        is_day_of_calendar(y2, m2, d2),
    ensures
        day_number_of(y1, m1, d1) < day_number_of(y2, m2, d2) <==> (y1 < y2 || (y1 == y2 && (m1
            < m2 || (m1 == m2 && d1 < d2)))),
        day_number_of(y1, m1, d1) == day_number_of(y2, m2, d2) <==> (y1 == y2 && m1 == m2 && d1
            == d2),
{
    lemma_day_within_year(y1, m1, d1);
    lemma_day_within_year(y2, m2, d2);
    if y1 < y2 {
        lemma_days_before_year_grows(y1 + 1, y2);
    } else if y2 < y1 {
        lemma_days_before_year_grows(y2 + 1, y1);
    } else {
        lemma_days_before_month(y1);
    }
}

/// The English name of month `month` (1 to 12).
pub open spec fn month_name(month: int) -> Seq<char> {
    if month == 1 {
        "January"@
    } else if month == 2 {
        "February"@
    } else if month == 3 {
        "March"@
    } else if month == 4 {
        "April"@
    } else if month == 5 {
        "May"@
    } else if month == 6 {
        "June"@
    } else if month == 7 {
        "July"@
    } else if month == 8 {
        "August"@
    } else if month == 9 {
        "September"@
    } else if month == 10 {
        "October"@
    } else if month == 11 {
        "November"@
    } else {
        "December"@
    }
}

/// The character for a single decimal digit.
pub open spec fn digit_char(digit: int) -> char {
    seq!['0', '1', '2', '3', '4', '5', '6', '7', '8', '9'][digit]
}

/// The decimal digits of `n`, without leading zeros.
pub open spec fn decimal_text(n: nat) -> Seq<char>
    decreases n,
{
    if n < 10 {
        seq![digit_char(n as int)]
    } else {
        decimal_text(n / 10).push(digit_char((n % 10) as int))
    }
}

/// The decimal digits of `n`, with zeros in front up to `width` characters.
pub open spec fn zero_padded_text(n: nat, width: nat) -> Seq<char> {
    let digits = decimal_text(n);
    if digits.len() >= width {
        digits
    } else {
        Seq::new((width - digits.len()) as nat, |i: int| '0') + digits
    }
}

/// A year written with at least four digits, and with its sign when it has
/// more than four digits or lies before year 0.
pub open spec fn year_text(year: int) -> Seq<char> {
    if 0 <= year < 10000 {
        zero_padded_text(year as nat, 4)
    } else if year < 0 {
        seq!['-'] + zero_padded_text((-year) as nat, 4)
    } else {
        seq!['+'] + zero_padded_text(year as nat, 4)
    }
}

/// A date written as year, month and day with hyphens between, such as
/// `2020-04-23`.
pub open spec fn iso_date_text(year: int, month: int, day: int) -> Seq<char> {
    year_text(year) + seq!['-'] + zero_padded_text(month as nat, 2) + seq!['-'] + zero_padded_text(
        day as nat,
        2,
    )
}

/// A day of the calendar, without a time of day.
#[derive(Clone, Copy, PartialEq, Eq, Structural, Debug)]
pub struct CalendarDate {
    pub year: i32,
    pub month: u32,
    pub day: u32,
}

/// `chrono::NaiveDate::from_ymd_opt`: a date comes back exactly when the
/// year is within `MIN_YEAR..=MAX_YEAR` and the day exists in that month, and
/// it then reads back as the same year, month and day.
#[verifier::external_body]
fn naive_from_ymd(year: i32, month: u32, day: u32) -> (found: Option<CalendarDate>)
    ensures
        found is Some <==> is_calendar_date(year as int, month as int, day as int),
        found matches Some(d) ==> d.year == year && d.month == month && d.day == day,
{
    NaiveDate::from_ymd_opt(year, month, day).map(
        |d| CalendarDate { year: d.year(), month: d.month(), day: d.day() },
    )
}

/// `chrono::NaiveDate::checked_add_signed` with a whole number of days: the
/// date that many days later (earlier for a negative count), or nothing when
/// that day lies outside the years a date can hold.
#[verifier::external_body]
fn naive_add_days(date: CalendarDate, days: i64) -> (moved: Option<CalendarDate>)
    requires
        date.wf(),
    ensures
        moved is Some <==> min_day_number() <= date.day_number() + days <= max_day_number(),
        moved matches Some(d) ==> d.wf() && d.day_number() == date.day_number() + days,
{
    let from = NaiveDate::from_ymd_opt(date.year, date.month, date.day)?;
    let to = from.checked_add_signed(TimeDelta::try_days(days)?)?;
    Some(CalendarDate { year: to.year(), month: to.month(), day: to.day() })
}

/// `chrono::NaiveDate::signed_duration_since`, read in whole days: how many
/// days `later` lies after `earlier` (negative when it lies before).
#[verifier::external_body]
fn naive_days_between(later: CalendarDate, earlier: CalendarDate) -> (days: Option<i64>)
    requires
        later.wf(),
        earlier.wf(),
    ensures
        days is Some,
        days matches Some(n) ==> n == later.day_number() - earlier.day_number(),
{
    let a = NaiveDate::from_ymd_opt(later.year, later.month, later.day)?;
    let b = NaiveDate::from_ymd_opt(earlier.year, earlier.month, earlier.day)?;
    Some(a.signed_duration_since(b).num_days())
}

/// `chrono::NaiveDate::format`, written to a string, for the two patterns
/// that the library uses. With `%B` the text is the English name of the
/// date's month. With `%Y-%m-%d` it is the year with four digits (signed,
/// and longer where needed, outside 0 to 9999), the month and the day with
/// two digits each, hyphens between.
#[verifier::external_body]
fn naive_format(date: CalendarDate, pattern: &str) -> (text: Option<String>)
    requires
        date.wf(),
        pattern@ == "%B"@ || pattern@ == "%Y-%m-%d"@,
    ensures
        text is Some,
        text matches Some(t) ==> (pattern@ == "%B"@ ==> t@ == month_name(date.month as int)),
        text matches Some(t) ==> (pattern@ == "%Y-%m-%d"@ ==> t@ == date.iso_text_spec()),
{
    let held = NaiveDate::from_ymd_opt(date.year, date.month, date.day)?;
    Some(held.format(pattern).to_string())
}

impl CalendarDate {
    /// Whether this is a day that exists, in a year that dates can hold.
    pub open spec fn wf(&self) -> bool {
        is_calendar_date(self.year as int, self.month as int, self.day as int)
    }

    /// This date as text, such as `2020-04-23` (see [`iso_date_text`]).
    pub open spec fn iso_text_spec(&self) -> Seq<char> {
        iso_date_text(self.year as int, self.month as int, self.day as int)
    }

    /// The day number of this date (see [`day_number_of`]).
    pub open spec fn day_number(&self) -> int {
        day_number_of(self.year as int, self.month as int, self.day as int)
    }

    /// The date with the given year, month and day, if there is such a day.
    pub fn new(year: i32, month: u32, day: u32) -> (made: Option<CalendarDate>)
        ensures
            made is Some <==> is_calendar_date(year as int, month as int, day as int),
            made matches Some(d) ==> d.wf() && d.year == year && d.month == month && d.day == day,
    {
        naive_from_ymd(year, month, day)
    }

    /// Whether this is a day that exists, in a year that dates can hold.
    pub fn is_valid(&self) -> (valid: bool)
        ensures
            valid == self.wf(),
    {
        naive_from_ymd(self.year, self.month, self.day).is_some()
    }

    /// The year of this date.
    pub fn year(&self) -> (y: i32)
        ensures
            y == self.year,
    {
        self.year
    }

    /// The month of this date, 1 to 12.
    pub fn month(&self) -> (m: u32)
        ensures
            m == self.month,
    {
        self.month
    }

    /// The day of the month of this date, from 1.
    pub fn day(&self) -> (d: u32)
        ensures
            d == self.day,
    {
        self.day
    }

    /// Whether this date lies before `other`.
    pub fn is_before(&self, other: &CalendarDate) -> (b: bool)
        requires
            self.wf(),
            other.wf(),
        ensures
            b == (self.day_number() < other.day_number()),
    {
        proof {
            lemma_day_number_orders(
                self.year as int,
                self.month as int,
                self.day as int,
                other.year as int,
                other.month as int,
                other.day as int,
            );
        }
        self.year < other.year || (self.year == other.year && (self.month < other.month || (
        self.month == other.month && self.day < other.day)))
    }

    /// The date `days` days after this one (before it, for a negative
    /// count), if that day is one a date can hold.
    pub fn plus_days(&self, days: i64) -> (moved: Option<CalendarDate>)
        requires
            self.wf(),
        ensures
            moved is Some <==> min_day_number() <= self.day_number() + days <= max_day_number(),
            moved matches Some(d) ==> d.wf() && d.day_number() == self.day_number() + days,
    {
        naive_add_days(*self, days)
    }

    /// The last day of month `month` of `year`, if there is such a month.
    pub fn last_day_of_month(year: i32, month: u32) -> (last: Option<CalendarDate>)
        ensures
            last is Some <==> MIN_YEAR <= year <= MAX_YEAR && 1 <= month <= 12,
            last matches Some(d) ==> d.wf() && d.year == year && d.month == month && d.day
                == days_in_month(year as int, month as int),
    {
        if year < MIN_YEAR || year > MAX_YEAR || month < 1 || month > 12 {
            return None;
        }
        if month == 12 {
            return CalendarDate::new(year, 12, 31);
        }
        let next_first = CalendarDate::new(year, month + 1, 1);
        assert(next_first is Some);
        let next_first = next_first.unwrap();
        let ghost target = CalendarDate {
            year,
            month,
            day: days_in_month(year as int, month as int) as u32,
        };
        proof {
            assert(target.wf());
            assert(target.day_number() == next_first.day_number() - 1) by {
                reveal_with_fuel(days_before_month, 2);
            }
            lemma_day_number_in_range(target);
        }
        let last = next_first.plus_days(-1);
        proof {
            lemma_day_number_names_one_date(last.unwrap(), target);
        }
        last
    }

    /// The last day of `year`, if dates can hold that year.
    pub fn last_day_of_year(year: i32) -> (last: Option<CalendarDate>)
        ensures
            last is Some <==> MIN_YEAR <= year <= MAX_YEAR,
            last matches Some(d) ==> d.wf() && d.year == year && d.month == 12 && d.day == 31,
    {
        CalendarDate::last_day_of_month(year, 12)
    }

    /// The English name of this date's month.
    pub fn month_name(&self) -> (name: String)
        requires
            self.wf(),
        ensures
            name@ == month_name(self.month as int),
    {
        naive_format(*self, "%B").unwrap()
    }

    /// This date as text, such as `2020-04-23`.
    pub fn iso_text(&self) -> (text: String)
        requires
            self.wf(),
        ensures
            text@ == self.iso_text_spec(),
    {
        naive_format(*self, "%Y-%m-%d").unwrap()
    }

    /// How many days this date lies after `earlier`.
    pub fn days_since(&self, earlier: &CalendarDate) -> (days: i64)
        requires
            self.wf(),
            earlier.wf(),
        ensures
            days == self.day_number() - earlier.day_number(),
    {
        naive_days_between(*self, *earlier).unwrap()
    }
}

/// Every date lies between the first and the last day that dates can hold.
pub proof fn lemma_day_number_in_range(date: CalendarDate)
    requires
        date.wf(),
    ensures
        min_day_number() <= date.day_number() <= max_day_number(),
{
    lemma_day_number_orders(
        MIN_YEAR as int,
        1,
        1,
        date.year as int,
        date.month as int,
        date.day as int,
    );
    lemma_day_number_orders(
        date.year as int,
        date.month as int,
        date.day as int,
        MAX_YEAR as int,
        12,
        31,
    );
}

/// Two dates with the same day number are the same date.
pub proof fn lemma_day_number_names_one_date(a: CalendarDate, b: CalendarDate)
    requires
        a.wf(),
        b.wf(),
        a.day_number() == b.day_number(),
    ensures
        a == b,
{
    lemma_day_number_orders(
        a.year as int,
        a.month as int,
        a.day as int,
        b.year as int,
        b.month as int,
        b.day as int,
    );
}

} // verus!
