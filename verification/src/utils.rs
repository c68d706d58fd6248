//! Calendar dates, times of day and instants as plain integers.
//!
//! A [`Date`] is a day number of the proleptic Gregorian calendar (1 January of
//! year 1 is day 1), a [`Time`] a number of seconds after midnight, and a
//! [`DateTime`] a pair of the two. Every contract below speaks of
//! [`DateTime::timestamp`], the number of seconds since the midnight that begins
//! day 0.
use vstd::prelude::*;

verus! {

/// Seconds of a day.
pub const SECONDS_PER_DAY: u32 = 86_400;

/// First year that the calendar of [`create_date`] knows.
pub const MIN_YEAR: i32 = -262_143;

/// Last year that the calendar of [`create_date`] knows.
pub const MAX_YEAR: i32 = 262_142;

/// A calendar day, held as its day number.
#[derive(Clone, Copy, Debug, PartialEq, Eq, Structural, PartialOrd, Ord, Hash)]
pub struct Date {
    pub days: i32,
}

/// A time of day, held as the seconds since midnight.
#[derive(Clone, Copy, Debug, PartialEq, Eq, Structural, PartialOrd, Ord, Hash)]
pub struct Time {
    pub secs: u32,
}

/// An instant without a time zone: a day and a time on that day.
#[derive(Clone, Copy, Debug, PartialEq, Eq, Structural, PartialOrd, Ord, Hash)]
pub struct DateTime {
    pub date: Date,
    pub time: Time,
}

impl Time {
    /// A time of day lies before the next midnight.
    pub open spec fn wf(self) -> bool {
        self.secs < SECONDS_PER_DAY
    }

    /// The time `secs` seconds after midnight, if there is one.
    pub fn from_seconds(secs: u32) -> (time: Option<Time>)
        ensures
            time.is_some() <==> secs < SECONDS_PER_DAY,
            time matches Some(t) ==> t.secs == secs && t.wf(),
    {
        if secs < SECONDS_PER_DAY {
            Some(Time { secs })
        } else {
            None
        }
    }

    pub fn seconds(&self) -> (secs: u32)
        ensures
            secs == self.secs,
    {
        self.secs
    }

    pub fn is_before(&self, other: Time) -> (before: bool)
        ensures
            before == (self.secs < other.secs),
    {
        self.secs < other.secs
    }
}

impl Date {
    /// The day with the given day number.
    pub fn from_days(days: i32) -> (date: Date)
        ensures
            date.days == days,
    {
        Date { days }
    }

    pub fn days(&self) -> (days: i32)
        ensures
            days == self.days,
    {
        self.days
    }
}

impl DateTime {
    pub open spec fn wf(self) -> bool {
        self.time.wf()
    }

    /// Seconds since the midnight that begins day 0.
    pub open spec fn timestamp(self) -> int {
        self.date.days * 86_400 + self.time.secs
    }

    /// The instant with a given timestamp, where the day number fits.
    pub open spec fn of_timestamp(timestamp: int) -> DateTime {
        DateTime {
            date: Date { days: (timestamp / 86_400) as i32 },
            time: Time { secs: (timestamp % 86_400) as u32 },
        }
    }

    pub fn new(date: Date, time: Time) -> (date_time: DateTime)
        ensures
            date_time.date == date,
            date_time.time == time,
    {
        DateTime { date, time }
    }

    pub fn date(&self) -> (date: Date)
        ensures
            date == self.date,
    {
        self.date
    }

    pub fn time(&self) -> (time: Time)
        ensures
            time == self.time,
    {
        self.time
    }

    /// Strictly earlier than `other`.
    pub fn is_before(&self, other: DateTime) -> (before: bool)
        requires
            self.wf(),
            other.wf(),
        ensures
            before == (self.timestamp() < other.timestamp()),
    {
        self.date.days < other.date.days || (self.date.days == other.date.days && self.time.secs
            < other.time.secs)
    }

    /// Not later than `other`.
    pub fn is_at_or_before(&self, other: DateTime) -> (at_or_before: bool)
        requires
            self.wf(),
            other.wf(),
        ensures
            at_or_before == (self.timestamp() <= other.timestamp()),
    {
        self.date.days < other.date.days || (self.date.days == other.date.days && self.time.secs
            <= other.time.secs)
    }

    /// Seconds from `earlier` to `self`; negative where `self` is the earlier one.
    pub fn seconds_since(&self, earlier: DateTime) -> (seconds: i64)
        requires
            self.wf(),
            earlier.wf(),
        ensures
            seconds == self.timestamp() - earlier.timestamp(),
    {
        let day_difference: i64 = self.date.days as i64 - earlier.date.days as i64;
        day_difference * 86_400 + (self.time.secs as i64 - earlier.time.secs as i64)
    }

    /// The instant `seconds` after `self` (before it, where `seconds` is negative).
    pub fn add_seconds(&self, seconds: i64) -> (later: DateTime)
        requires
            self.wf(),
            Self::timestamp_fits(self.timestamp() + seconds),
        ensures
            later.wf(),
            later.timestamp() == self.timestamp() + seconds,
            later == Self::of_timestamp(self.timestamp() + seconds),
    {
        let total: i64 = self.time.secs as i64 + seconds;
        let (day_shift, secs) = if total >= 0 {
            let shift: i64 = total / 86_400;
            let rest: i64 = total % 86_400;
            (shift, rest)
        } else {
            let behind: i64 = -total;
            let shift: i64 = (behind + 86_399) / 86_400;
            let rest: i64 = shift * 86_400 - behind;
            (-shift, rest)
        };
        assert(total == day_shift * 86_400 + secs);
        assert(0 <= secs < 86_400);
        let days: i64 = self.date.days as i64 + day_shift;
        DateTime { date: Date { days: days as i32 }, time: Time { secs: secs as u32 } }
    }

    /// The timestamps whose day number a [`Date`] can hold.
    pub open spec fn timestamp_fits(timestamp: int) -> bool {
        i32::MIN * 86_400 <= timestamp < (i32::MAX + 1) * 86_400
    }
}

/// A wellformed instant is the only one with its timestamp.
pub proof fn lemma_timestamp_is_injective(a: DateTime, b: DateTime)
    requires
        a.wf(),
        b.wf(),
        a.timestamp() == b.timestamp(),
    ensures
        a == b,
{
}

/// Leap years of the Gregorian calendar, extended backwards.
pub open spec fn is_leap_year(year: int) -> bool {
    year % 4 == 0 && (year % 100 != 0 || year % 400 == 0)
}

/// Number of days of a month; 0 where there is no such month.
pub open spec fn days_in_month(year: int, month: int) -> int {
    if month == 2 {
        if is_leap_year(year) {
            29
        } else {
            28
        }
    } else if month == 4 || month == 6 || month == 9 || month == 11 {
        30
    } else if 1 <= month <= 12 {
        31
    } else {
        0
    }
}

/// The triples that name a day of the calendar.
pub open spec fn is_calendar_day(year: int, month: int, day: int) -> bool {
    &&& MIN_YEAR <= year <= MAX_YEAR
    &&& 1 <= month <= 12
    &&& 1 <= day <= days_in_month(year, month)
}

/// Number of days of the years before `year`, counted from year 1: negative
/// for a year before it.
pub open spec fn days_before_year(year: int) -> int {
    365 * (year - 1) + (year - 1) / 4 - (year - 1) / 100 + (year - 1) / 400
}

/// Number of days of the months of `year` before `month`.
pub open spec fn days_before_month(year: int, month: int) -> int
    decreases month,
{
    if month <= 1 {
        0
    } else {
        days_before_month(year, month - 1) + days_in_month(year, month - 1)
    }
}

/// Day number of a calendar day in the Gregorian calendar, extended
/// backwards: 1 January of year 1 is day 1.
pub open spec fn day_number_of(year: int, month: int, day: int) -> int {
    days_before_year(year) + days_before_month(year, month) + day
}

/// Whole multiples of `step` up to `year` are one more than up to the year
/// before exactly if `year` is one of them.
proof fn lemma_multiples_up_to(year: int, step: int)
    requires
        step == 4 || step == 100 || step == 400,
    ensures
        year / step - (year - 1) / step == if year % step == 0 {
            1int
        } else {
            0int
        },
{
    if step == 4 {
        assert(year / 4 - (year - 1) / 4 == if year % 4 == 0 { 1int } else { 0int });
    } else if step == 100 {
        assert(year / 100 - (year - 1) / 100 == if year % 100 == 0 { 1int } else { 0int });
    } else {
        assert(year / 400 - (year - 1) / 400 == if year % 400 == 0 { 1int } else { 0int });
    }
}

/// The months before December have 334 days, in a leap year 335.
proof fn lemma_days_before_december(year: int)
    ensures
        days_before_month(year, 12) == if is_leap_year(year) {
            335int
        } else {
            334int
        },
{
    let leap: int = if is_leap_year(year) { 1 } else { 0 };
    assert(days_before_month(year, 1) == 0);
    assert(days_before_month(year, 2) == 31) by {
        reveal_with_fuel(days_before_month, 2);
    }
    assert(days_before_month(year, 3) == 59 + leap) by {
        reveal_with_fuel(days_before_month, 2);
    }
    assert(days_before_month(year, 4) == 90 + leap) by {
        reveal_with_fuel(days_before_month, 2);
    }
    assert(days_before_month(year, 5) == 120 + leap) by {
        reveal_with_fuel(days_before_month, 2);
    }
    assert(days_before_month(year, 6) == 151 + leap) by {
        reveal_with_fuel(days_before_month, 2);
    }
    assert(days_before_month(year, 7) == 181 + leap) by {
        reveal_with_fuel(days_before_month, 2);
    }
    assert(days_before_month(year, 8) == 212 + leap) by {
        reveal_with_fuel(days_before_month, 2);
    }
    assert(days_before_month(year, 9) == 243 + leap) by {
        reveal_with_fuel(days_before_month, 2);
    }
    assert(days_before_month(year, 10) == 273 + leap) by {
        reveal_with_fuel(days_before_month, 2);
    }
    assert(days_before_month(year, 11) == 304 + leap) by {
        reveal_with_fuel(days_before_month, 2);
    }
    assert(days_before_month(year, 12) == 334 + leap) by {
        reveal_with_fuel(days_before_month, 2);
    }
}

/// A year has 365 days, a leap year 366: so much later the next year begins.
pub proof fn lemma_days_of_a_year(year: int)
    ensures
        days_before_year(year + 1) - days_before_year(year) == days_before_month(year, 12) + 31,
        days_before_month(year, 12) + 31 == if is_leap_year(year) {
            366int
        } else {
            365int
        },
{
    lemma_days_before_december(year);
    lemma_multiples_up_to(year, 4);
    lemma_multiples_up_to(year, 100);
    lemma_multiples_up_to(year, 400);
}

/// The day after a calendar day has the next day number: within a month, from
/// the last day of a month to the first of the next, and from 31 December to
/// 1 January.
pub proof fn lemma_next_day_has_next_number(year: int, month: int, day: int)
    requires
        is_calendar_day(year, month, day),
    ensures
        day < days_in_month(year, month) ==> day_number_of(year, month, day + 1) == day_number_of(
            year,
            month,
            day,
        ) + 1,
        day == days_in_month(year, month) && month < 12 ==> day_number_of(year, month + 1, 1)
            == day_number_of(year, month, day) + 1,
        day == 31 && month == 12 ==> day_number_of(year + 1, 1, 1) == day_number_of(
            year,
            month,
            day,
        ) + 1,
{
    lemma_days_of_a_year(year);
    reveal_with_fuel(days_before_month, 2);
}

/// `chrono::NaiveDate::from_ymd_opt`, followed by `Datelike::num_days_from_ce`
/// on the date it found.
///
/// Trusted: `from_ymd_opt` finds a date exactly for the days of the proleptic
/// Gregorian calendar between the years [`MIN_YEAR`] and [`MAX_YEAR`], and
/// `num_days_from_ce` counts the days of that calendar up to and with the
/// date, 1 January of year 1 being day 1.
#[verifier::external_body]
fn day_number_from_ymd(year: i32, month: u32, day: u32) -> (number: Option<i32>)
    ensures
        number.is_some() <==> is_calendar_day(year as int, month as int, day as int),
        number matches Some(n) ==> n == day_number_of(year as int, month as int, day as int),
{
    match chrono::NaiveDate::from_ymd_opt(year, month, day) {
        Some(date) => Some(chrono::Datelike::num_days_from_ce(&date)),
        None => None,
    }
}

/// The day after `date`.
pub fn add_1_day(date: Date) -> (next: Date)
    requires
        date.days < i32::MAX,
    ensures
        next.days == date.days + 1,
{
    Date { days: date.days + 1 }
}

/// The day before `date`.
pub fn sub_1_day(date: Date) -> (previous: Date)
    requires
        date.days > i32::MIN,
    ensures
        previous.days == date.days - 1,
{
    Date { days: date.days - 1 }
}

/// The instant `minutes` minutes after `date_time`.
pub fn add_minutes_to_date_time(date_time: DateTime, minutes: i64) -> (later: DateTime)
    requires
        date_time.wf(),
        DateTime::timestamp_fits(date_time.timestamp() + 60 * minutes),
    ensures
        later.wf(),
        later.timestamp() == date_time.timestamp() + 60 * minutes,
        later == DateTime::of_timestamp(date_time.timestamp() + 60 * minutes),
{
    date_time.add_seconds(minutes * 60)
}

/// Number of days from `date_1` to `date_2`, both counted.
pub fn count_days_between_two_dates(date_1: Date, date_2: Date) -> (count: usize)
    requires
        date_1.days <= date_2.days,
        date_2.days - date_1.days < u32::MAX,
    ensures
        count == date_2.days - date_1.days + 1,
{
    let difference: i64 = date_2.days as i64 - date_1.days as i64;
    (difference + 1) as usize
}

/// The given day of the calendar.
pub fn create_date(year: i32, month: u32, day: u32) -> (date: Date)
    requires
        is_calendar_day(year as int, month as int, day as int),
    ensures
        date.days == day_number_of(year as int, month as int, day as int),
{
    Date { days: day_number_from_ymd(year, month, day).unwrap() }
}

/// The given day of the calendar, or `None` where the calendar has no such day.
pub fn try_create_date(year: i32, month: u32, day: u32) -> (date: Option<Date>)
    ensures
        date.is_some() <==> is_calendar_day(year as int, month as int, day as int),
        date matches Some(d) ==> d.days == day_number_of(year as int, month as int, day as int),
{
    match day_number_from_ymd(year, month, day) {
        Some(days) => Some(Date { days }),
        None => None,
    }
}

/// The time `hour:minute:00`.
pub fn create_time(hour: u32, minute: u32) -> (time: Time)
    requires
        hour < 24,
        minute < 60,
    ensures
        time.wf(),
        time.secs == hour * 3_600 + minute * 60,
{
    Time { secs: hour * 3_600 + minute * 60 }
}

/// The instant `hour:minute:00` on the given day of the calendar.
pub fn create_date_time(year: i32, month: u32, day: u32, hour: u32, minute: u32) -> (date_time:
    DateTime)
    requires
        is_calendar_day(year as int, month as int, day as int),
        hour < 24,
        minute < 60,
    ensures
        date_time.wf(),
        date_time.date.days == day_number_of(year as int, month as int, day as int),
        date_time.time.secs == hour * 3_600 + minute * 60,
{
    DateTime::new(create_date(year, month, day), create_time(hour, minute))
}

} // verus!
