//! Dates of the Gregorian calendar and times of day.
//!
//! A date is modelled by its year, month and day, and by its number: the days from the
//! day before 0001-01-01. The calendar arithmetic is done by the `chrono` crate.
use chrono::Datelike;
use vstd::prelude::*;

use crate::text;

verus! {

/// The first year that a date can have.
pub const MIN_YEAR: i32 = -262143;

/// The last year that a date can have.
pub const MAX_YEAR: i32 = 262142;

/// Whether a year has a 29th of February.
pub open spec fn leap(year: int) -> bool {
    year % 4 == 0 && (year % 100 != 0 || year % 400 == 0)
}

/// The number of days of a month.
pub open spec fn month_days(year: int, month: int) -> int {
    if month == 2 {
        if leap(year) {
            29
        } else {
            28
        }
    } else if month == 4 || month == 6 || month == 9 || month == 11 {
        30
    } else {
        31
    }
}

/// Whether the calendar has such a day.
pub open spec fn is_day(year: int, month: int, day: int) -> bool {
    1 <= month <= 12 && 1 <= day <= month_days(year, month)
}

/// Whether the calendar has such a day, in a year that a date can have.
pub open spec fn is_date(year: int, month: int, day: int) -> bool {
    MIN_YEAR <= year <= MAX_YEAR && is_day(year, month, day)
}

/// The days from the day before 0001-01-01 to the end of the year before the given one.
pub open spec fn days_before_year(year: int) -> int {
    let y = year - 1;
    365 * y + y / 4 - y / 100 + y / 400
}

/// The days of the year before the given month.
pub open spec fn days_before_month(year: int, month: int) -> int
    decreases month,
{
    if month <= 1 {
        0
    } else {
        days_before_month(year, month - 1) + month_days(year, month - 1)
    }
}

/// The number of a day: 1 for 0001-01-01, and one more for each day after it.
pub open spec fn day_number(year: int, month: int, day: int) -> int {
    days_before_year(year) + days_before_month(year, month) + day
}

/// The number of the last day that a date can stand for.
pub open spec fn last_number() -> int {
    day_number(MAX_YEAR as int, 12, 31)
}

/// The number of the first day that a date can stand for.
pub open spec fn first_number() -> int {
    day_number(MIN_YEAR as int, 1, 1)
}

/// A day of the Gregorian calendar.
#[derive(Debug, Clone, Copy, PartialEq, Eq, Structural)]
pub struct Date {
    year: i32,
    month: u32,
    day: u32,
}

impl Date {
    /// The date with the given year, month and day.
    pub closed spec fn of(year: int, month: int, day: int) -> Date {
        Date { year: year as i32, month: month as u32, day: day as u32 }
    }

    /// The year.
    pub closed spec fn y(self) -> int {
        self.year as int
    }

    /// The month, from 1.
    pub closed spec fn m(self) -> int {
        self.month as int
    }

    /// The day of the month, from 1.
    pub closed spec fn d(self) -> int {
        self.day as int
    }

    /// Whether the calendar has such a day. It holds of every date that code makes.
    #[verifier::type_invariant]
    pub open spec fn valid(self) -> bool {
        is_date(self.y(), self.m(), self.d())
    }

    /// The number of the day.
    pub open spec fn number(self) -> int {
        day_number(self.y(), self.m(), self.d())
    }

    /// The days from the last Monday, 0 to 6.
    pub open spec fn weekday_index(self) -> int {
        (self.number() - 1) % 7
    }

    /// The months from January of the year 0.
    pub open spec fn month_index(self) -> int {
        self.y() * 12 + self.m() - 1
    }
}

/// Dates are the same where year, month and day are.
pub proof fn lemma_same_date(a: Date, b: Date)
    requires
        a.y() == b.y(),
        a.m() == b.m(),
        a.d() == b.d(),
    ensures
        a == b,
{
}

/// Every day in range is that of a date.
pub proof fn lemma_date_of(year: int, month: int, day: int)
    requires
        is_date(year, month, day),
    ensures
        Date::of(year, month, day).y() == year,
        Date::of(year, month, day).m() == month,
        Date::of(year, month, day).d() == day,
        Date::of(year, month, day).valid(),
{
}

proof fn lemma_step_4(y: int)
    ensures
        y / 4 == (y - 1) / 4 + if y % 4 == 0 {
            1int
        } else {
            0int
        },
{
}

proof fn lemma_step_100(y: int)
    ensures
        y / 100 == (y - 1) / 100 + if y % 100 == 0 {
            1int
        } else {
            0int
        },
{
}

proof fn lemma_step_400(y: int)
    ensures
        y / 400 == (y - 1) / 400 + if y % 400 == 0 {
            1int
        } else {
            0int
        },
{
}

proof fn lemma_nested_remainders(y: int)
    ensures
        y % 400 == 0 ==> y % 100 == 0,
        y % 100 == 0 ==> y % 4 == 0,
{
}

/// Each year begins one year's length after the one before.
pub proof fn lemma_year_step(year: int)
    ensures
        days_before_year(year + 1) == days_before_year(year) + if leap(year) {
            366int
        } else {
            365int
        },
{
    lemma_step_4(year);
    lemma_step_100(year);
    lemma_step_400(year);
    lemma_nested_remainders(year);
    let (a, b, c) = (year / 4, year / 100, year / 400);
    assert(days_before_year(year + 1) == 365 * year + a - b + c);
}

/// Later years begin later.
pub proof fn lemma_years_grow(a: int, b: int)
    requires
        a < b,
    ensures
        days_before_year(a) + (if leap(a) {
            366int
        } else {
            365int
        }) <= days_before_year(b),
    decreases b - a,
{
    lemma_year_step(b - 1);
    if a < b - 1 {
        lemma_years_grow(a, b - 1);
    }
}

/// A month ends before any later month of the year begins, and the year with December.
pub proof fn lemma_months_grow(year: int, a: int, b: int)
    requires
        1 <= a < b <= 13,
    ensures
        0 <= days_before_month(year, a),
        days_before_month(year, a) + month_days(year, a) <= days_before_month(year, b),
        days_before_month(year, 13) == if leap(year) {
            366int
        } else {
            365int
        },
{
    reveal_with_fuel(days_before_month, 14);
}

/// Whether one day comes before another, by year, then month, then day.
pub open spec fn ymd_less(a: (int, int, int), b: (int, int, int)) -> bool {
    a.0 < b.0 || (a.0 == b.0 && (a.1 < b.1 || (a.1 == b.1 && a.2 < b.2)))
}

/// The numbers of days grow with year, month and day.
pub proof fn lemma_numbers_grow(y: int, m: int, d: int, y2: int, m2: int, d2: int)
    requires
        is_day(y, m, d),
        is_day(y2, m2, d2),
    ensures
        day_number(y, m, d) < day_number(y2, m2, d2) <==> ymd_less((y, m, d), (y2, m2, d2)),
        day_number(y, m, d) == day_number(y2, m2, d2) <==> (y, m, d) == (y2, m2, d2),
{
    lemma_days_of_year(y, m, d);
    lemma_days_of_year(y2, m2, d2);
    if y < y2 {
        lemma_years_grow(y, y2);
    } else if y2 < y {
        lemma_years_grow(y2, y);
    } else if m < m2 {
        lemma_months_grow(y, m, m2);
    } else if m2 < m {
        lemma_months_grow(y, m2, m);
    }
}

/// A day of a year falls within the year.
pub proof fn lemma_days_of_year(year: int, month: int, day: int)
    requires
        is_day(year, month, day),
    ensures
        1 <= days_before_month(year, month) + day <= if leap(year) {
            366int
        } else {
            365int
        },
{
    lemma_months_grow(year, month, 13);
}

/// The dates that can be stood for are those between the first and the last number.
pub proof fn lemma_number_range(date: Date)
    requires
        date.valid(),
    ensures
        first_number() <= date.number() <= last_number(),
{
    lemma_numbers_grow(date.y(), date.m(), date.d(), MIN_YEAR as int, 1, 1);
    lemma_numbers_grow(date.y(), date.m(), date.d(), MAX_YEAR as int, 12, 31);
}

/// Of two dates, the later has the greater number; dates with the same number are the same.
pub proof fn lemma_date_order(a: Date, b: Date)
    requires
        a.valid(),
        b.valid(),
    ensures
        a.number() < b.number() <==> ymd_less((a.y(), a.m(), a.d()), (b.y(), b.m(), b.d())),
        a.number() == b.number() ==> a == b,
{
    lemma_numbers_grow(a.y(), a.m(), a.d(), b.y(), b.m(), b.d());
}

impl Date {
    /// The year.
    #[must_use]
    pub fn year(&self) -> (r: i32)
        ensures
            r == self.y(),
            self.valid(),
    {
        proof {
            use_type_invariant(self);
        }
        self.year
    }

    /// The month, from 1.
    #[must_use]
    pub fn month(&self) -> (r: u32)
        ensures
            r == self.m(),
            self.valid(),
    {
        proof {
            use_type_invariant(self);
        }
        self.month
    }

    /// The day of the month, from 1.
    #[must_use]
    pub fn day(&self) -> (r: u32)
        ensures
            r == self.d(),
            self.valid(),
    {
        proof {
            use_type_invariant(self);
        }
        self.day
    }

    /// `NaiveDate::from_ymd_opt`: the date, where the calendar has it and its year is in
    /// range.
    #[verifier::external_body]
    pub(crate) fn from_ymd_opt(year: i32, month: u32, day: u32) -> (r: Option<Date>)
        ensures
            r is Some <==> is_date(year as int, month as int, day as int),
            r matches Some(date) ==> date.y() == year && date.m() == month && date.d() == day,
    {
        chrono::NaiveDate::from_ymd_opt(year, month, day).map(
            |date| Date { year: date.year(), month: date.month(), day: date.day() },
        )
    }

    /// The date with the given year, month and day, where there is one.
    #[must_use]
    pub fn new(year: i32, month: u32, day: u32) -> (r: Option<Date>)
        ensures
            r is Some <==> is_date(year as int, month as int, day as int),
            r matches Some(date) ==> date.y() == year && date.m() == month && date.d() == day,
    {
        Date::from_ymd_opt(year, month, day)
    }

    /// `NaiveDate::checked_add_days`: the date so many days later, where it is in range.
    #[verifier::external_body]
    pub(crate) fn checked_add_days(self, days: u64) -> (r: Option<Date>)
        ensures
            r is Some <==> self.number() + days <= last_number(),
            r matches Some(date) ==> date.valid() && date.number() == self.number() + days,
    {
        chrono::NaiveDate::from_ymd_opt(self.year, self.month, self.day)?.checked_add_days(
            chrono::Days::new(days),
        ).map(|date| Date { year: date.year(), month: date.month(), day: date.day() })
    }

    /// `NaiveDate::checked_sub_days`: the date so many days earlier, where it is in range.
    #[verifier::external_body]
    pub(crate) fn checked_sub_days(self, days: u64) -> (r: Option<Date>)
        ensures
            r is Some <==> self.number() - days >= first_number(),
            r matches Some(date) ==> date.valid() && date.number() == self.number() - days,
    {
        chrono::NaiveDate::from_ymd_opt(self.year, self.month, self.day)?.checked_sub_days(
            chrono::Days::new(days),
        ).map(|date| Date { year: date.year(), month: date.month(), day: date.day() })
    }

    /// `NaiveDate::checked_add_months`: the same day so many months later, or the last day
    /// of that month where it is shorter, where the year is in range.
    #[verifier::external_body]
    pub(crate) fn checked_add_months(self, months: u32) -> (r: Option<Date>)
        ensures
            r is Some <==> (self.month_index() + months) / 12 <= MAX_YEAR,
            r matches Some(date) ==> {
                &&& date.valid()
                &&& date.y() == (self.month_index() + months) / 12
                &&& date.m() == (self.month_index() + months) % 12 + 1
                &&& date.d() == if self.d() <= month_days(date.y(), date.m()) {
                    self.d()
                } else {
                    month_days(date.y(), date.m())
                }
            },
    {
        chrono::NaiveDate::from_ymd_opt(self.year, self.month, self.day)?.checked_add_months(
            chrono::Months::new(months),
        ).map(|date| Date { year: date.year(), month: date.month(), day: date.day() })
    }

    /// `NaiveDate::with_day`: the given day of the same month, where the month has it.
    #[verifier::external_body]
    pub(crate) fn with_day(self, day: u32) -> (r: Option<Date>)
        ensures
            r is Some <==> is_day(self.y(), self.m(), day as int),
            r matches Some(date) ==> date.valid() && date.y() == self.y() && date.m() == self.m()
                && date.d() == day,
    {
        chrono::NaiveDate::from_ymd_opt(self.year, self.month, self.day)?.with_day(day).map(
            |date| Date { year: date.year(), month: date.month(), day: date.day() },
        )
    }

    /// `NaiveDate::weekday`, as the days since Monday.
    #[verifier::external_body]
    pub(crate) fn num_days_from_monday(self) -> (r: u32)
        ensures
            r == self.weekday_index(),
    {
        chrono::NaiveDate::from_ymd_opt(self.year, self.month, self.day).map_or(
            0,
            |date| date.weekday().num_days_from_monday(),
        )
    }

    /// `NaiveDate::signed_duration_since`, as days: from the other date to this one.
    #[verifier::external_body]
    pub(crate) fn days_since(self, other: Date) -> (r: i64)
        ensures
            r == self.number() - other.number(),
    {
        chrono::NaiveDate::from_ymd_opt(self.year, self.month, self.day).zip(
            chrono::NaiveDate::from_ymd_opt(other.year, other.month, other.day),
        ).map_or(0, |(date, other)| date.signed_duration_since(other).num_days())
    }

    /// Whether this date comes before the other.
    #[must_use]
    pub fn is_before(&self, other: &Date) -> (r: bool)
        ensures
            r == (self.number() < other.number()),
            self.valid(),
            other.valid(),
    {
        proof {
            use_type_invariant(self);
            use_type_invariant(other);
            lemma_date_order(*self, *other);
        }
        self.year < other.year || (self.year == other.year && (self.month < other.month || (
        self.month == other.month && self.day < other.day)))
    }
}

/// `Local::now`: the date by the machine's clock, in its time zone. Which date that is depends
/// on the moment of the call, and is not stated.
#[verifier::external_body]
pub(crate) fn local_today() -> (r: Date) {
    let today = chrono::Local::now().date_naive();
    Date { year: today.year(), month: today.month(), day: today.day() }
}

/// `NaiveDate::parse_from_str` with the format `%Y-%m-%d`, on a text of that shape: the date,
/// where the calendar has it.
#[verifier::external_body]
pub(crate) fn parse_ymd(value: &str) -> (r: Option<Date>)
    requires
        crate::recurrence::date_shape(value@),
    ensures
        r is Some <==> is_date(
            text::number(value@.subrange(0, 4)) as int,
            text::number(value@.subrange(5, 7)) as int,
            text::number(value@.subrange(8, 10)) as int,
        ),
        r matches Some(date) ==> date == Date::of(
            text::number(value@.subrange(0, 4)) as int,
            text::number(value@.subrange(5, 7)) as int,
            text::number(value@.subrange(8, 10)) as int,
        ),
{
    chrono::NaiveDate::parse_from_str(value, "%Y-%m-%d").ok().map(
        |date| Date { year: date.year(), month: date.month(), day: date.day() },
    )
}

/// A digit character.
pub open spec fn digit(n: int) -> char {
    ('0' as int + n) as char
}

/// The last two digits of a number.
pub open spec fn two_digits(n: int) -> Seq<char> {
    seq![digit(n / 10 % 10), digit(n % 10)]
}

/// A date as it is written: `YYYY-MM-DD`, with a sign before a year that four digits do not
/// hold.
pub open spec fn date_text(year: int, month: int, day: int) -> Seq<char> {
    let number = if year < 0 {
        -year
    } else {
        year
    };
    let digits = if number <= 9999 {
        two_digits(number / 100) + two_digits(number % 100)
    } else {
        text::decimal(number as nat)
    };
    let sign = if year < 0 {
        seq!['-']
    } else if year > 9999 {
        seq!['+']
    } else {
        seq![]
    };
    sign + digits + seq!['-'] + two_digits(month) + seq!['-'] + two_digits(day)
}

fn push_two(s: &mut String, n: u32)
    requires
        n < 100,
    ensures
        final(s)@ == old(s)@ + two_digits(n as int),
{
    s.push((48 + (n / 10) as u8) as char);
    s.push((48 + (n % 10) as u8) as char);
    assert(s@ =~= old(s)@ + two_digits(n as int));
}

impl Date {
    /// See [`date_text`].
    #[must_use]
    pub fn to_string(&self) -> (r: String)
        ensures
            r@ == date_text(self.y(), self.m(), self.d()),
    {
        proof {
            use_type_invariant(self);
        }
        let mut r = String::new();
        let number: u32 = if self.year < 0 {
            r.push('-');
            (-self.year) as u32
        } else {
            if self.year > 9999 {
                r.push('+');
            }
            self.year as u32
        };
        let ghost sign = r@;
        if number <= 9999 {
            push_two(&mut r, number / 100);
            push_two(&mut r, number % 100);
            assert(r@ =~= sign + (two_digits((number / 100) as int) + two_digits(
                (number % 100) as int,
            )));
        } else {
            let digits = text::format_number(number as u64);
            r.append(digits.as_str());
        }
        r.push('-');
        push_two(&mut r, self.month);
        r.push('-');
        push_two(&mut r, self.day);
        proof {
            let s = if self.y() < 0 {
                seq!['-']
            } else if self.y() > 9999 {
                seq!['+']
            } else {
                seq![]
            };
            assert(sign =~= s);
            assert(r@ =~= date_text(self.y(), self.m(), self.d()));
        }
        r
    }
}

/// A time of day, to the nanosecond; a leap second has more than a thousand million of them.
#[derive(Debug, Clone, Copy, PartialEq, Eq, Structural)]
pub struct Time {
    hour: u32,
    minute: u32,
    second: u32,
    nanosecond: u32,
}

/// Whether the numbers name a time of day.
pub open spec fn is_time(hour: int, minute: int, second: int, nanosecond: int) -> bool {
    0 <= hour < 24 && 0 <= minute < 60 && 0 <= second < 60 && 0 <= nanosecond < 2_000_000_000
}

impl Time {
    /// The time with the given numbers.
    pub closed spec fn of(hour: int, minute: int, second: int, nanosecond: int) -> Time {
        Time {
            hour: hour as u32,
            minute: minute as u32,
            second: second as u32,
            nanosecond: nanosecond as u32,
        }
    }

    /// The hour, from 0.
    pub closed spec fn h(self) -> int {
        self.hour as int
    }

    /// The minute, from 0.
    pub closed spec fn min(self) -> int {
        self.minute as int
    }

    /// The second, from 0.
    pub closed spec fn s(self) -> int {
        self.second as int
    }

    /// The nanosecond, from 0.
    pub closed spec fn nanos(self) -> int {
        self.nanosecond as int
    }

    /// Whether the numbers name a time of day. It holds of every time that code makes.
    #[verifier::type_invariant]
    pub open spec fn valid(self) -> bool {
        is_time(self.h(), self.min(), self.s(), self.nanos())
    }

    /// The time with the given numbers, where they name one.
    #[must_use]
    pub fn new(hour: u32, minute: u32, second: u32, nanosecond: u32) -> (r: Option<Time>)
        ensures
            r is Some <==> is_time(hour as int, minute as int, second as int, nanosecond as int),
            r matches Some(time) ==> time.h() == hour && time.min() == minute && time.s()
                == second && time.nanos() == nanosecond,
    {
        if hour < 24 && minute < 60 && second < 60 && nanosecond < 2_000_000_000 {
            Some(Time { hour, minute, second, nanosecond })
        } else {
            None
        }
    }

    /// The hour, from 0.
    #[must_use]
    pub fn hour(&self) -> (r: u32)
        ensures
            r == self.h(),
            self.valid(),
    {
        proof {
            use_type_invariant(self);
        }
        self.hour
    }

    /// The minute, from 0.
    #[must_use]
    pub fn minute(&self) -> (r: u32)
        ensures
            r == self.min(),
            self.valid(),
    {
        proof {
            use_type_invariant(self);
        }
        self.minute
    }

    /// The second, from 0.
    #[must_use]
    pub fn second(&self) -> (r: u32)
        ensures
            r == self.s(),
            self.valid(),
    {
        proof {
            use_type_invariant(self);
        }
        self.second
    }

    /// The nanosecond, from 0.
    #[must_use]
    pub fn nanosecond(&self) -> (r: u32)
        ensures
            r == self.nanos(),
            self.valid(),
    {
        proof {
            use_type_invariant(self);
        }
        self.nanosecond
    }

    /// The hour and minute, as `HH:MM`.
    #[must_use]
    pub fn to_string(&self) -> (r: String)
        ensures
            r@ == time_text(self.h(), self.min()),
    {
        proof {
            use_type_invariant(self);
        }
        let mut r = String::new();
        push_two(&mut r, self.hour);
        r.push(':');
        push_two(&mut r, self.minute);
        assert(r@ =~= time_text(self.h(), self.min()));
        r
    }
}

/// An hour and a minute as they are written: `HH:MM`.
pub open spec fn time_text(hour: int, minute: int) -> Seq<char> {
    two_digits(hour) + seq![':'] + two_digits(minute)
}

/// Every time of day is that of a time.
pub proof fn lemma_time_of(hour: int, minute: int, second: int, nanosecond: int)
    requires
        is_time(hour, minute, second, nanosecond),
    ensures
        Time::of(hour, minute, second, nanosecond).h() == hour,
        Time::of(hour, minute, second, nanosecond).min() == minute,
        Time::of(hour, minute, second, nanosecond).s() == second,
        Time::of(hour, minute, second, nanosecond).nanos() == nanosecond,
{
}

/// Times are the same where all their numbers are.
pub proof fn lemma_same_time(a: Time, b: Time)
    requires
        a.h() == b.h(),
        a.min() == b.min(),
        a.s() == b.s(),
        a.nanos() == b.nanos(),
    ensures
        a == b,
{
}

} // verus!
