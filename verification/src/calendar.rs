//! Calendar dates of day numbers.

use chrono::Datelike;
use vstd::prelude::*;

verus! {

/// Year, month and day of the month of the day that lies `epoch_day` days
/// after 1970-01-01 in the proleptic Gregorian calendar; `None` for a day
/// that the calendar of the date library does not reach.
pub uninterp spec fn civil_date(epoch_day: int) -> Option<(int, int, int)>;

/// A month of a year.
#[derive(Debug, Clone, Copy, PartialEq, Eq, Structural)]
pub struct YearMonth {
    pub year: i32,
    /// 1 for January to 12 for December.
    pub month: u32,
}

impl YearMonth {
    /// The month is one of the twelve.
    pub open spec fn valid(&self) -> bool {
        1 <= self.month <= 12
    }

    /// Months counted from January of the year 0.
    pub open spec fn index(&self) -> int {
        self.year * 12 + self.month - 1
    }

    /// Months counted from January of the year 0.
    pub fn month_index(&self) -> (n: i64)
        requires
            self.valid(),
        ensures
            n == self.index(),
            n / 12 == self.year,
            n % 12 == self.month - 1,
    {
        self.year as i64 * 12 + self.month as i64 - 1
    }
}

/// The month that the civil date of `epoch_day` falls in.
pub open spec fn civil_month(epoch_day: int) -> Option<YearMonth> {
    match civil_date(epoch_day) {
        Some((year, month, _)) => Some(YearMonth { year: year as i32, month: month as u32 }),
        None => None,
    }
}

/// `chrono::NaiveDate::from_epoch_days`, with the date it gives taken apart
/// by `Datelike::year`, `Datelike::month` and `Datelike::day`. The result is
/// the civil date of the day, and `None` where the library gives no date.
/// The library documents the month as 1 to 12 and the day as 1 to 31.
#[verifier::external_body]
pub(crate) fn civil_from_epoch_day(epoch_day: i32) -> (r: Option<(i32, u32, u32)>)
    ensures
        match r {
            Some((year, month, day)) => civil_date(epoch_day as int) == Some(
                (year as int, month as int, day as int),
            ) && 1 <= month <= 12 && 1 <= day <= 31,
            None => civil_date(epoch_day as int) is None,
        },
{
    match chrono::NaiveDate::from_epoch_days(epoch_day) {
        Some(date) => Some((date.year(), date.month(), date.day())),
        None => None,
    }
}

/// The month a day falls in.
pub fn month_of(epoch_day: i32) -> (r: Option<YearMonth>)
    ensures
        r == civil_month(epoch_day as int),
        r matches Some(ym) ==> ym.valid(),
{
    match civil_from_epoch_day(epoch_day) {
        Some((year, month, _)) => Some(YearMonth { year, month }),
        None => None,
    }
}

} // verus!
