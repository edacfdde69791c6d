//! Calendar days as plain day numbers.
//!
//! A [`Day`] is a date of the proleptic Gregorian calendar, held as its day
//! number counted from January 1 of year 1 (day 1), the numbering that
//! `chrono` uses. Stepping back by `k` days is then subtracting `k`.
use chrono::Datelike;
use vstd::prelude::*;

verus! {

/// First year that a calendar date may carry.
pub const MIN_YEAR: i32 = -262143;

/// Last year that a calendar date may carry.
pub const MAX_YEAR: i32 = 262142;

/// Day number of January 1 of `MIN_YEAR`, the earliest representable date.
pub const MIN_DAY: i32 = -95746129;

/// Day number of December 31 of `MAX_YEAR`, the latest representable date.
pub const MAX_DAY: i32 = 95745399;

/// A calendar date, by its day number (January 1 of year 1 is day 1).
#[derive(Clone, Copy, Debug, PartialEq, Eq, Structural)]
pub struct Day {
    pub num: i32,
}

/// Whether `n` is the day number of a representable date.
pub open spec fn in_calendar(n: int) -> bool {
    MIN_DAY <= n <= MAX_DAY
}

impl Day {
    /// The day is a representable date.
    pub open spec fn valid(self) -> bool {
        in_calendar(self.num as int)
    }
}

/// Every day of the sequence is a representable date.
pub open spec fn all_valid(days: Seq<Day>) -> bool {
    forall|i: int| 0 <= i < days.len() ==> #[trigger] days[i].valid()
}

/// Leap years of the Gregorian calendar.
pub open spec fn is_leap_year(year: int) -> bool {
    year % 4 == 0 && (year % 100 != 0 || year % 400 == 0)
}

/// Number of days of `month` (1 to 12) in `year`.
pub open spec fn days_in_month(year: int, month: int) -> int {
    if month == 2 {
        if is_leap_year(year) { 29 } else { 28 }
    } else if month == 4 || month == 6 || month == 9 || month == 11 {
        30
    } else {
        31
    }
}

/// Year, month and day name a representable date.
pub open spec fn valid_ymd(year: int, month: int, day: int) -> bool {
    &&& MIN_YEAR <= year <= MAX_YEAR
    &&& 1 <= month <= 12
    &&& 1 <= day <= days_in_month(year, month)
}

/// Days of the months before `month` (1 to 12) in `year`.
pub open spec fn days_before_month(year: int, month: int) -> int {
    let common: int = if month <= 1 {
        0
    } else if month == 2 {
        31
    } else if month == 3 {
        59
    } else if month == 4 {
        90
    } else if month == 5 {
        120
    } else if month == 6 {
        151
    } else if month == 7 {
        181
    } else if month == 8 {
        212
    } else if month == 9 {
        243
    } else if month == 10 {
        273
    } else if month == 11 {
        304
    } else {
        334
    };
    common + if month > 2 && is_leap_year(year) { 1int } else { 0int }
}

/// Day number of the date `year-month-day` in the proleptic Gregorian
/// calendar, January 1 of year 1 being day 1: the days of the years before
/// (365 each, one more in each leap year) plus the day of the year.
pub open spec fn ce_day_number(year: int, month: int, day: int) -> int {
    let p = year - 1;
    365 * p + p / 4 - p / 100 + p / 400 + days_before_month(year, month) + day
}

/// Day of the week of day number `n`, counted from Monday (0) to Sunday (6).
/// Day 1, January 1 of year 1, is a Monday.
pub open spec fn weekday_of(n: int) -> int {
    (n - 1) % 7
}

/// Day number of the Monday that starts the week of day number `n`.
pub open spec fn week_start_of(n: int) -> int {
    n - weekday_of(n)
}

/// Calls `chrono::NaiveDate::from_ymd_opt` and reads the day number of the
/// date with `Datelike::num_days_from_ce`. The contract claims that a date
/// comes back exactly for valid year, month and day within chrono's year range,
/// and that its day number is the proleptic Gregorian count from January 1 of
/// year 1 (day 1), lying in the representable range.
#[verifier::external_body]
fn chrono_day_number(year: i32, month: u32, day: u32) -> (r: Option<i32>)
    ensures
        r is Some <==> valid_ymd(year as int, month as int, day as int),
        r matches Some(n) ==> n == ce_day_number(year as int, month as int, day as int)
            && in_calendar(n as int),
{
    match chrono::NaiveDate::from_ymd_opt(year, month, day) {
        Some(date) => Some(date.num_days_from_ce()),
        None => None,
    }
}

/// Calls `chrono::NaiveDate::from_num_days_from_ce_opt` on a representable
/// day number and reads `Datelike::weekday` of the date as
/// `Weekday::num_days_from_monday`. The contract claims the weekday of the
/// proleptic Gregorian calendar, in which day 1 is a Monday.
#[verifier::external_body]
fn chrono_weekday(n: i32) -> (r: u32)
    requires
        in_calendar(n as int),
    ensures
        r == weekday_of(n as int),
{
    chrono::NaiveDate::from_num_days_from_ce_opt(n).unwrap().weekday().num_days_from_monday()
}

/// Day number of the date that `chrono` reads from `text` in the format
/// `%Y-%m-%d`, where it reads one.
pub uninterp spec fn parsed_day(text: Seq<char>) -> Option<int>;

/// The text that `chrono` writes for the date of day number `n`
/// (`YYYY-MM-DD`, with a sign before years outside 0 to 9999).
pub uninterp spec fn date_text(n: int) -> Seq<char>;

/// Calls `chrono::NaiveDate::parse_from_str` with the format `%Y-%m-%d` and
/// reads the day number of the date with `Datelike::num_days_from_ce`. The
/// contract claims that the result is the name `parsed_day` of the text, and
/// that a date read is a representable one.
#[verifier::external_body]
fn chrono_parse_day(text: &str) -> (r: Option<i32>)
    ensures
        r is Some <==> parsed_day(text@) is Some,
        r matches Some(n) ==> Some(n as int) == parsed_day(text@) && in_calendar(n as int),
{
    match chrono::NaiveDate::parse_from_str(text, "%Y-%m-%d") {
        Ok(date) => Some(date.num_days_from_ce()),
        Err(_) => None,
    }
}

/// Calls `chrono::NaiveDate::from_num_days_from_ce_opt` on a representable
/// day number and writes the date with its `Display` impl. The contract claims
/// that the text is the name `date_text` of the day number, and that reading
/// it back with `%Y-%m-%d` gives the same day (chrono documents that its
/// parsing uses the format that `Display` writes).
#[verifier::external_body]
fn chrono_date_text(n: i32) -> (r: String)
    requires
        in_calendar(n as int),
    ensures
        r@ == date_text(n as int),
        parsed_day(r@) == Some(n as int),
{
    chrono::NaiveDate::from_num_days_from_ce_opt(n).unwrap().to_string()
}

impl Day {
    /// The date `year-month-day`, or `None` where it does not exist or lies
    /// outside the representable years.
    pub fn from_ymd(year: i32, month: u32, day: u32) -> (r: Option<Day>)
        ensures
            r is Some <==> valid_ymd(year as int, month as int, day as int),
            r matches Some(d) ==> d.num == ce_day_number(year as int, month as int, day as int)
                && d.valid(),
    {
        match chrono_day_number(year, month, day) {
            Some(n) => Some(Day { num: n }),
            None => None,
        }
    }

    /// The date read from `text` written `%Y-%m-%d`, or `None` where `text`
    /// names no date.
    pub fn parse(text: &str) -> (r: Option<Day>)
        ensures
            r is Some <==> parsed_day(text@) is Some,
            r matches Some(d) ==> Some(d.num as int) == parsed_day(text@) && d.valid(),
    {
        match chrono_parse_day(text) {
            Some(n) => Some(Day { num: n }),
            None => None,
        }
    }

    /// The date written `YYYY-MM-DD`, as it is stored; reading it back gives
    /// the same day.
    pub fn to_text(self) -> (r: String)
        requires
            self.valid(),
        ensures
            r@ == date_text(self.num as int),
            parsed_day(r@) == Some(self.num as int),
    {
        chrono_date_text(self.num)
    }

    /// Day of the week, from Monday (0) to Sunday (6).
    pub fn weekday(self) -> (r: u32)
        requires
            self.valid(),
        ensures
            r == weekday_of(self.num as int),
    {
        chrono_weekday(self.num)
    }
}

/// The Monday that starts the week of `date`.
pub fn week_start(date: Day) -> (r: Day)
    requires
        date.valid(),
        in_calendar(week_start_of(date.num as int)),
    ensures
        r.num == week_start_of(date.num as int),
        r.valid(),
        weekday_of(r.num as int) == 0,
        r.num <= date.num < r.num + 7,
{
    let w = date.weekday();
    Day { num: date.num - w as i32 }
}

/// A Monday starts its own week.
pub proof fn lemma_monday_starts_its_week(n: int)
    requires
        weekday_of(n) == 0,
    ensures
        week_start_of(n) == n,
{
}

/// Every day from a Monday to the Sunday after it has that Monday as the start
/// of its week: the days of a week are grouped together.
pub proof fn lemma_same_week(a: int, b: int)
    requires
        week_start_of(a) <= b < week_start_of(a) + 7,
    ensures
        week_start_of(b) == week_start_of(a),
{
    let w = week_start_of(a);
    assert(weekday_of(w) == 0);
    assert((b - 1) % 7 == b - w) by (nonlinear_arith)
        requires
            (w - 1) % 7 == 0,
            w <= b < w + 7,
    ;
}

/// The check-in dates read from their stored texts, in the same order, or
/// `None` when one of the texts names no date.
pub fn parse_checkin_days(texts: &[String]) -> (r: Option<Vec<Day>>)
    ensures
        r is Some <==> forall|i: int| 0 <= i < texts@.len() ==> (#[trigger] parsed_day(texts@[i]@)) is Some,
        r matches Some(v) ==> v@.len() == texts@.len() && all_valid(v@) && forall|i: int|
            0 <= i < v@.len() ==> Some(#[trigger] v@[i].num as int) == parsed_day(texts@[i]@),
{
    let mut days: Vec<Day> = Vec::new();
    let mut i: usize = 0;
    while i < texts.len()
        invariant
            i <= texts.len(),
            days@.len() == i,
            all_valid(days@),
            forall|j: int| 0 <= j < i ==> Some(#[trigger] days@[j].num as int) == parsed_day(texts@[j]@),
        decreases texts.len() - i,
    {
        match Day::parse(texts[i].as_str()) {
            Some(d) => days.push(d),
            None => {
                return None;
            },
        }
        i = i + 1;
    }
    assert forall|j: int| 0 <= j < texts@.len() implies (#[trigger] parsed_day(texts@[j]@)) is Some by {
        assert(Some(days@[j].num as int) == parsed_day(texts@[j]@));
    }
    Some(days)
}

} // verus!
