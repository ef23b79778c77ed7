//! When competitions begin, when they are refreshed, and which months can be
//! looked at.

use vstd::prelude::*;
use crate::calendar::{civil_of, days_before_year, floor_div, law_civil_inverts_day_number, lemma_within_year, lemma_years_ascend};
use crate::week::{Week, FIRST_DAY, LAST_DAY};

verus! {

/// How long the community page stays as it is, in milliseconds.
pub const REFRESH_MS: i64 = 60_000;

/// The day, counted from 1970-01-01, that chrono reads a text as, taken as a
/// year, a month and a day with hyphens between them, or nothing where it is
/// not a date.
pub uninterp spec fn date_read(text: Seq<char>) -> Option<int>;

/// `chrono::NaiveDate::parse_from_str` with the format `%Y-%m-%d`, and
/// `chrono::NaiveDate::to_epoch_days`. The day depends on the text alone.
#[verifier::external_body]
fn read_date(text: &str) -> (res: Option<i64>)
    ensures
        match res {
            Some(day) => date_read(text@) == Some(day as int) && FIRST_DAY <= day <= LAST_DAY,
            None => date_read(text@) is None,
        },
{
    chrono::NaiveDate::parse_from_str(text, "%Y-%m-%d").ok().map(|date| date.to_epoch_days() as i64)
}

/// Why a competition cannot begin on a date.
#[derive(Clone, Copy, Debug, PartialEq, Eq, Structural)]
pub enum StartError {
    /// It is not a date.
    NotADate,
    /// It is before 1970 or after today.
    OutOfRange,
}

impl StartError {
    /// What the user is told.
    pub open spec fn said(self) -> Seq<char> {
        match self {
            StartError::NotADate => "competition_start_date must be YYYY-MM-DD"@,
            StartError::OutOfRange => "competition_start_date must be between 1970 and today"@,
        }
    }

    /// What the user is told.
    pub fn message(&self) -> (res: &'static str)
        ensures
            res@ == self.said(),
    {
        match self {
            StartError::NotADate => "competition_start_date must be YYYY-MM-DD",
            StartError::OutOfRange => "competition_start_date must be between 1970 and today",
        }
    }
}

/// Whether a competition can begin on a day: in 1970 or later, and by today,
/// in UTC.
pub open spec fn can_begin(day: int, now: int) -> bool {
    0 <= day <= now / 86_400_000
}

/// Whether a competition can begin on a day.
pub fn begins_by(day: i64, now_ms: i64) -> (res: bool)
    ensures
        res == can_begin(day as int, now_ms as int),
{
    0 <= day && day <= floor_div(now_ms, 86_400_000)
}

/// Check the date on which competitions begin.
pub fn check_start_date(text: &str, now_ms: i64) -> (res: Result<(), StartError>)
    ensures
        match date_read(text@) {
            None => res == Err::<(), StartError>(StartError::NotADate),
            Some(day) => res == (if can_begin(day, now_ms as int) {
                Ok::<(), StartError>(())
            } else {
                Err::<(), StartError>(StartError::OutOfRange)
            }),
        },
{
    match read_date(text) {
        Some(day) => if begins_by(day, now_ms) {
            Ok(())
        } else {
            Err(StartError::OutOfRange)
        },
        None => Err(StartError::NotADate),
    }
}

/// A day is in 1970 or later where its year is.
pub proof fn law_days_from_1970_count_from_zero(day: int)
    ensures
        day >= 0 <==> civil_of(day).0 >= 1970,
{
    law_civil_inverts_day_number(day);
    let (y, m, d) = civil_of(day);
    lemma_within_year(y, m, d);
    assert(days_before_year(1970) == 0);
    if y >= 1970 {
        lemma_years_ascend(1970, y);
    } else {
        lemma_years_ascend(y + 1, 1970);
    }
}

/// Whether the community page is to be refreshed: a minute after the last time,
/// or where the clock was set back.
pub open spec fn is_due(last: Option<i64>, now: int) -> bool {
    match last {
        Some(at) => !(now >= at && now - at < REFRESH_MS),
        None => true,
    }
}

/// Whether the community page is to be refreshed.
pub fn refresh_due(last: Option<i64>, now_ms: i64) -> (res: bool)
    ensures
        res == is_due(last, now_ms as int),
{
    match last {
        Some(at) => !(now_ms >= at && (now_ms as i128 - at as i128) < REFRESH_MS as i128),
        None => true,
    }
}

/// Whether a month can be looked at.
pub open spec fn is_month(year: int, month: int) -> bool {
    1970 <= year <= 2100 && 1 <= month <= 12
}

/// Whether a month can be looked at.
pub fn valid_month(year: i32, month: u32) -> (res: bool)
    ensures
        res == is_month(year as int, month as int),
{
    1970 <= year && year <= 2100 && 1 <= month && month <= 12
}

/// The month that is asked for, by default that of now, if it can be looked at.
pub fn asked_month(year: Option<i32>, month: Option<u32>, week: &Week, now_ms: i64) -> (res: Option<(i32, u32)>)
    requires
        week.reads(now_ms as int),
    ensures
        ({
            let (this_year, this_month, _) = civil_of(week.date_of(now_ms as int));
            let y: int = match year {
                Some(n) => n as int,
                None => this_year,
            };
            let m: int = match month {
                Some(n) => n as int,
                None => this_month,
            };
            match res {
                Some((a, b)) => is_month(y, m) && a == y && b == m,
                None => !is_month(y, m),
            }
        }),
{
    let (this_year, this_month): (i32, u32) = week.month_of(now_ms);
    let y: i32 = match year {
        Some(n) => n,
        None => this_year,
    };
    let m: u32 = match month {
        Some(n) => n,
        None => this_month,
    };
    if valid_month(y, m) {
        Some((y, m))
    } else {
        None
    }
}

/// The community page is refreshed once a minute: not within the minute after the
/// last time, and from then on; and where the clock was set back.
pub proof fn law_the_page_is_refreshed_once_a_minute(last: i64, now: int)
    ensures
        is_due(None, now),
        last <= now < last + 60_000 ==> !is_due(Some(last), now),
        now >= last + 60_000 ==> is_due(Some(last), now),
        now < last ==> is_due(Some(last), now),
{
}

/// Competitions begin on the first day of 1970 at the earliest and today at the
/// latest; months are looked at from January 1970 to December 2100.
pub proof fn law_competitions_lie_in_the_past(day: int, now: int, year: int, month: int)
    ensures
        can_begin(day, now) ==> civil_of(day).0 >= 1970 && day * 86_400_000 <= now,
        civil_of(day).0 >= 1970 && day * 86_400_000 <= now ==> can_begin(day, now),
        is_month(year, month) <==> 1970 * 12 <= year * 12 + (month - 1) < 2101 * 12 && 1 <= month <= 12,
{
    law_days_from_1970_count_from_zero(day);
}

} // verus!
