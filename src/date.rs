use vstd::prelude::*;
use chrono::Datelike;

verus! {

/// Earliest year a calendar date may carry, the bound chrono's `NaiveDate` keeps.
pub const MIN_YEAR: i32 = -262143;

/// Latest year a calendar date may carry, the bound chrono's `NaiveDate` keeps.
pub const MAX_YEAR: i32 = 262142;

/// A proleptic Gregorian calendar date, without time of day or time zone.
#[derive(Clone, Copy, Debug, PartialEq, Eq, Structural)]
pub struct JournalDate {
    pub year: i32,
    pub month: u32,
    pub day: u32,
}

pub open spec fn is_leap_year(y: int) -> bool {
    (y % 4 == 0 && y % 100 != 0) || y % 400 == 0
}

pub open spec fn days_in_month(y: int, m: int) -> int {
    if m == 2 {
        if is_leap_year(y) { 29 } else { 28 }
    } else if m == 4 || m == 6 || m == 9 || m == 11 {
        30
    } else {
        31
    }
}

pub open spec fn valid_ymd(y: int, m: int, d: int) -> bool {
    &&& MIN_YEAR <= y <= MAX_YEAR
    &&& 1 <= m <= 12
    &&& 1 <= d <= days_in_month(y, m)
}

/// The year, month and day that chrono's `%Y-%m-%d` parser reads from a text,
/// or `None` where it refuses the text.
pub uninterp spec fn iso_date_of(s: Seq<char>) -> Option<(int, int, int)>;

/// Relies on chrono's `NaiveDate::parse_from_str` with the format `%Y-%m-%d`:
/// the outcome depends on the text alone, and a date it yields is a valid one.
#[verifier::external_body]
fn chrono_parse_ymd(s: &str) -> (r: Option<(i32, u32, u32)>)
    ensures
        r is None <==> iso_date_of(s@) is None,
        r matches Some(t) ==> iso_date_of(s@) == Some((t.0 as int, t.1 as int, t.2 as int)),
        r matches Some(t) ==> valid_ymd(t.0 as int, t.1 as int, t.2 as int),
{
    chrono::NaiveDate::parse_from_str(s, "%Y-%m-%d").ok().map(|d| (d.year(), d.month(), d.day()))
}

impl JournalDate {
    pub open spec fn valid(&self) -> bool {
        valid_ymd(self.year as int, self.month as int, self.day as int)
    }

    /// The date with the given year, month and day, where these name a real date.
    pub fn from_ymd(year: i32, month: u32, day: u32) -> (r: Option<JournalDate>)
        ensures
            r is Some <==> valid_ymd(year as int, month as int, day as int),
            r matches Some(d) ==> d.year == year && d.month == month && d.day == day,
    {
        if year < MIN_YEAR || year > MAX_YEAR || month < 1 || month > 12 || day < 1 {
            return None;
        }
        let leap = (year % 4 == 0 && year % 100 != 0) || year % 400 == 0;
        let last: u32 = if month == 2 {
            if leap { 29 } else { 28 }
        } else if month == 4 || month == 6 || month == 9 || month == 11 {
            30
        } else {
            31
        };
        if day > last {
            None
        } else {
            Some(JournalDate { year, month, day })
        }
    }

    /// Reads a date written as `YYYY-MM-DD`; any other text gives `None`.
    pub fn parse(s: &str) -> (r: Option<JournalDate>)
        ensures
            r is None <==> iso_date_of(s@) is None,
            r matches Some(d) ==> d.valid() && iso_date_of(s@) == Some(
                (d.year as int, d.month as int, d.day as int),
            ),
    {
        match chrono_parse_ymd(s) {
            Some(t) => Some(JournalDate { year: t.0, month: t.1, day: t.2 }),
            None => None,
        }
    }
}

} // verus!
