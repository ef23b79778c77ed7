//! The leaderboard week, shared by every player: Monday to Sunday in one time
//! zone, turning over at the same hour for everyone.

use vstd::prelude::*;
use chrono::{Datelike, TimeZone};
use crate::calendar::{civil_of, days_before_year, fits, floor_div, weekday};

verus! {

/// The first day of chrono's calendar, 1 January of the year -262143.
pub const FIRST_DAY: i64 = -96_465_292;

/// The last day of chrono's calendar, 31 December of the year 262142.
pub const LAST_DAY: i64 = 95_026_236;

/// Whether `chrono_tz::Tz` has a variant of this name.
pub uninterp spec fn known_zone(name: Seq<char>) -> bool;

/// What the clocks of a time zone show at an instant, both in seconds since
/// 1970-01-01T00:00. A name that is not that of a time zone stands for UTC.
pub uninterp spec fn zone_wall(name: Seq<char>, seconds: int) -> int;

/// The first instant at which the clocks of a time zone show a given time, if
/// they ever do. A name that is not that of a time zone stands for UTC.
pub uninterp spec fn zone_instant(name: Seq<char>, wall: int) -> Option<int>;

/// `chrono_tz::Tz::from_str` reads the name of a time zone, and
/// `chrono_tz::Tz::name` gives the same name back. UTC is among the names.
#[verifier::external_body]
fn find_zone(name: &str) -> (res: Option<&'static str>)
    ensures
        res is Some <==> known_zone(name@),
        res matches Some(found) ==> found@ == name@,
        name@ == "UTC"@ ==> res is Some,
{
    name.parse::<chrono_tz::Tz>().ok().map(|tz| tz.name())
}

/// `chrono::DateTime::with_timezone` and `naive_local`: the wall clock of a
/// time zone at an instant. It differs from UTC by less than a day, and the
/// difference depends on the zone and the instant alone.
#[verifier::external_body]
fn wall_seconds(zone: &str, seconds: i64) -> (res: i64)
    requires
        FIRST_DAY < seconds as int / 86400 < LAST_DAY,
    ensures
        res == zone_wall(zone@, seconds as int),
        seconds - 86400 < res < seconds + 86400,
{
    let tz = zone.parse::<chrono_tz::Tz>().unwrap_or_default();
    let at = chrono::DateTime::from_timestamp(seconds, 0).unwrap_or_default();
    at.with_timezone(&tz).naive_local().and_utc().timestamp()
}

/// `chrono::TimeZone::from_local_datetime` and `earliest`: the first instant at
/// which the clocks of a time zone show a given time, or nothing where they
/// skip it. The clocks do show that time at the instant returned.
#[verifier::external_body]
fn earliest_instant(zone: &str, wall: i64) -> (res: Option<i64>)
    requires
        FIRST_DAY < wall as int / 86400 < LAST_DAY,
    ensures
        res is Some == zone_instant(zone@, wall as int) is Some,
        res matches Some(at) ==> zone_instant(zone@, wall as int) == Some(at as int),
        res matches Some(at) ==> zone_wall(zone@, at as int) == wall,
        res matches Some(at) ==> wall - 86400 < at < wall + 86400,
{
    let tz = zone.parse::<chrono_tz::Tz>().unwrap_or_default();
    let local = chrono::DateTime::from_timestamp(wall, 0).unwrap_or_default().naive_utc();
    tz.from_local_datetime(&local).earliest().map(|at| at.timestamp())
}

/// `chrono::NaiveDate::iso_week`: a week belongs to the year of its Thursday,
/// in which the weeks are counted from 1.
#[verifier::external_body]
fn iso_week(day: i64) -> (res: (i32, u32))
    requires
        FIRST_DAY <= day <= LAST_DAY,
    ensures
        (res.0 as int, res.1 as int) == iso_week_of(day as int),
{
    let week = chrono::NaiveDate::from_epoch_days(day as i32).unwrap_or_default().iso_week();
    (week.year(), week.week())
}

/// `chrono::NaiveDate::year`: the year of a date.
#[verifier::external_body]
fn year(day: i64) -> (res: i32)
    requires
        FIRST_DAY <= day <= LAST_DAY,
    ensures
        res == civil_of(day as int).0,
{
    chrono::NaiveDate::from_epoch_days(day as i32).unwrap_or_default().year()
}

/// `chrono::NaiveDate::month`: the month of a date, from 1 to 12.
#[verifier::external_body]
fn month(day: i64) -> (res: u32)
    requires
        FIRST_DAY <= day <= LAST_DAY,
    ensures
        res == civil_of(day as int).1,
{
    chrono::NaiveDate::from_epoch_days(day as i32).unwrap_or_default().month()
}

/// `chrono::NaiveDate::weekday` and `num_days_from_monday`: the day of the
/// week, Monday being 0.
#[verifier::external_body]
fn days_from_monday(day: i64) -> (res: u32)
    requires
        FIRST_DAY <= day <= LAST_DAY,
    ensures
        res == weekday(day as int),
{
    chrono::NaiveDate::from_epoch_days(day as i32).unwrap_or_default().weekday().num_days_from_monday()
}

/// The ISO 8601 year and week of a day.
pub open spec fn iso_week_of(day: int) -> (int, int) {
    let thursday = day - weekday(day) + 3;
    let year = civil_of(thursday).0;
    (year, (thursday - days_before_year(year)) / 7 + 1)
}

/// The instant for which a number of milliseconds is taken: the epoch, where
/// it lies outside chrono's calendar.
pub open spec fn seen_instant(ms: int) -> int {
    if FIRST_DAY <= ms / 86_400_000 <= LAST_DAY {
        ms
    } else {
        0
    }
}

/// The leaderboard week shared by every player: the IANA name of its time
/// zone, and the hour at which it turns over.
#[derive(Clone, Copy, Debug)]
pub struct Week {
    pub tz: &'static str,
    pub rollover_hour: u32,
}

/// Why a week cannot be configured.
#[derive(Clone, Copy, Debug, PartialEq, Eq, Structural)]
pub enum WeekError {
    /// There is no time zone of that name.
    UnknownZone,
    /// A day cannot begin at that hour.
    NoHour,
}

impl Default for Week {
    fn default() -> (res: Self)
        ensures
            res.tz@ == "UTC"@,
            res.rollover_hour == 4,
    {
        Week { tz: "UTC", rollover_hour: 4 }
    }
}

impl Week {
    /// What the clocks of the week's time zone show at an instant, in seconds.
    pub open spec fn wall(self, ms: int) -> int {
        zone_wall(self.tz@, seen_instant(ms) / 1000)
    }

    /// The date of an instant, a date lasting from rollover to rollover.
    pub open spec fn date_of(self, ms: int) -> int {
        (self.wall(ms) - self.rollover_hour * 3600) / 86400
    }

    /// Whether the date of an instant stays within chrono's calendar.
    pub open spec fn reads(self, ms: int) -> bool {
        let day = seen_instant(ms) / 86_400_000;
        day < LAST_DAY && day - self.rollover_hour / 24 - 2 >= FIRST_DAY
    }

    /// Whether the dates of the instants of a day in UTC stay within chrono's
    /// calendar. A day outside the calendar is taken for the epoch.
    pub open spec fn reads_day(self, day: int) -> bool {
        let seen = if FIRST_DAY <= day <= LAST_DAY {
            day
        } else {
            0
        };
        seen < LAST_DAY && seen - self.rollover_hour / 24 - 2 >= FIRST_DAY
    }

    /// The time at which the clocks of the week's time zone show the first
    /// minute of a date that they do not skip, looked for over three hours from
    /// `minute` on, or else that time taken as UTC, in milliseconds.
    pub open spec fn boundary_from(self, wall: int, minute: int) -> int
        decreases 181 - minute,
    {
        if minute > 180 {
            wall * 1000
        } else {
            match zone_instant(self.tz@, wall + minute * 60) {
                Some(at) => at * 1000,
                None => self.boundary_from(wall, minute + 1),
            }
        }
    }

    /// The instant at which a date begins.
    pub open spec fn boundary_of(self, day: int) -> int {
        let hour = if self.rollover_hour < 23 {
            self.rollover_hour as int
        } else {
            23
        };
        self.boundary_from(day * 86400 + hour * 3600, 0)
    }

    /// What the clocks show when the week of an instant ends: the rollover
    /// hour of the next Monday.
    pub open spec fn last_wall_of(self, ms: int) -> int {
        let monday = self.date_of(ms) + 7 - weekday(self.date_of(ms));
        monday * 86400 + self.rollover_hour * 3600
    }

    /// The instant at which the week of an instant ends.
    pub open spec fn end_of(self, ms: int) -> int {
        let wall = if self.rollover_hour < 24 {
            self.last_wall_of(ms)
        } else {
            0
        };
        match zone_instant(self.tz@, wall) {
            Some(at) => at * 1000,
            None => ms + 7 * 86_400_000,
        }
    }

    /// The week in the named time zone, if there is one of that name.
    pub fn new(tz: &str, rollover_hour: u32) -> (res: Option<Week>)
        ensures
            res is Some <==> known_zone(tz@),
            res matches Some(week) ==> week.tz@ == tz@ && week.rollover_hour == rollover_hour,
            tz@ == "UTC"@ ==> res is Some,
    {
        match find_zone(tz) {
            Some(name) => Some(Week { tz: name, rollover_hour }),
            None => None,
        }
    }

    /// The week that is configured: in a time zone that there is, and with a day
    /// that begins at an hour of the day.
    pub fn configured(tz: &str, rollover_hour: u32) -> (res: Result<Week, WeekError>)
        ensures
            match res {
                Ok(week) => known_zone(tz@) && rollover_hour <= 23 && week.tz@ == tz@ && week.rollover_hour
                    == rollover_hour,
                Err(WeekError::UnknownZone) => !known_zone(tz@),
                Err(WeekError::NoHour) => known_zone(tz@) && rollover_hour > 23,
            },
            tz@ == "UTC"@ && rollover_hour <= 23 ==> res is Ok,
    {
        match Week::new(tz, rollover_hour) {
            Some(week) => if rollover_hour > 23 {
                Err(WeekError::NoHour)
            } else {
                Ok(week)
            },
            None => Err(WeekError::UnknownZone),
        }
    }

    /// Whether the dates of the instants of some days in UTC, from one to another,
    /// stay within chrono's calendar.
    pub fn reads_days(&self, from: i64, to: i64) -> (res: bool)
        ensures
            res == forall|day: int| from <= day <= to ==> #[trigger] self.reads_day(day),
    {
        if from > to {
            return true;
        }
        let back: i64 = (self.rollover_hour / 24) as i64 + 2;
        if from <= LAST_DAY && LAST_DAY <= to {
            assert(!self.reads_day(LAST_DAY as int));
            return false;
        }
        if from <= LAST_DAY && from < FIRST_DAY + back && to >= FIRST_DAY {
            proof {
                let day = if from < FIRST_DAY {
                    FIRST_DAY as int
                } else {
                    from as int
                };
                assert(!self.reads_day(day));
            }
            return false;
        }
        if from < FIRST_DAY && -back < FIRST_DAY {
            assert(!self.reads_day(from as int));
            return false;
        }
        if to > LAST_DAY && -back < FIRST_DAY {
            assert(!self.reads_day(to as int));
            return false;
        }
        true
    }

    fn shifted(&self, ms: i64) -> (res: i64)
        requires
            self.reads(ms as int),
        ensures
            res == self.date_of(ms as int),
            FIRST_DAY <= res <= LAST_DAY,
            seen_instant(ms as int) / 86_400_000 - self.rollover_hour / 24 - 2 <= res <= seen_instant(ms as int) / 86_400_000 + 1,
    {
        let day: i64 = floor_div(ms, 86_400_000);
        let at: i64 = if FIRST_DAY <= day && day <= LAST_DAY {
            ms
        } else {
            0
        };
        let seconds: i64 = floor_div(at, 1000);
        let wall: i64 = wall_seconds(self.tz, seconds);
        floor_div(wall - self.rollover_hour as i64 * 3600, 86400)
    }

    /// The common competition date, independent of any player's clock, as a
    /// number of days since 1970-01-01.
    pub fn competition_date(&self, ms: i64) -> (res: i64)
        requires
            self.reads(ms as int),
        ensures
            res == self.date_of(ms as int),
    {
        self.shifted(ms)
    }

    /// Resolve a calendar rollover in the configured time zone. On a spring
    /// daylight-saving gap, use the first valid local minute after the gap;
    /// on a repeated fall-back hour, use its first occurrence.
    pub fn boundary_ms(&self, day: i64) -> (res: i64)
        requires
            FIRST_DAY < day < LAST_DAY - 1,
        ensures
            res == self.boundary_of(day as int),
    {
        let hour: i64 = if self.rollover_hour < 23 {
            self.rollover_hour as i64
        } else {
            23
        };
        let wall: i64 = day * 86400 + hour * 3600;
        let mut minute: i64 = 0;
        while minute <= 180
            invariant
                0 <= minute <= 181,
                hour == (if self.rollover_hour < 23 { self.rollover_hour as int } else { 23 }),
                FIRST_DAY < day < LAST_DAY - 1,
                wall == day * 86400 + hour * 3600,
                self.boundary_from(wall as int, 0) == self.boundary_from(wall as int, minute as int),
            decreases 181 - minute,
        {
            if let Some(at) = earliest_instant(self.tz, wall + minute * 60) {
                return at * 1000;
            }
            minute = minute + 1;
        }
        wall * 1000
    }

    /// The ISO 8601 year and week of the date of an instant.
    pub fn of(&self, ms: i64) -> (res: (i32, u32))
        requires
            self.reads(ms as int),
        ensures
            (res.0 as int, res.1 as int) == iso_week_of(self.date_of(ms as int)),
    {
        iso_week(self.shifted(ms))
    }

    /// The year and the month of the date of an instant.
    pub fn month_of(&self, ms: i64) -> (res: (i32, u32))
        requires
            self.reads(ms as int),
        ensures
            res.0 == civil_of(self.date_of(ms as int)).0,
            res.1 == civil_of(self.date_of(ms as int)).1,
    {
        let date: i64 = self.shifted(ms);
        (year(date), month(date))
    }

    /// The year of the date of an instant.
    pub fn year_of(&self, ms: i64) -> (res: i32)
        requires
            self.reads(ms as int),
        ensures
            res == civil_of(self.date_of(ms as int)).0,
    {
        year(self.shifted(ms))
    }

    /// When the week containing `ms` ends, in milliseconds since the epoch.
    pub fn end_after(&self, ms: i64) -> (res: i64)
        requires
            self.reads(ms as int),
            seen_instant(ms as int) / 86_400_000 + 9 < LAST_DAY,
            fits(ms + 7 * 86_400_000),
        ensures
            res == self.end_of(ms as int),
            self.rollover_hour < 24 && zone_instant(self.tz@, self.last_wall_of(ms as int)) is Some ==> zone_wall(
                self.tz@,
                res as int / 1000,
            ) == self.last_wall_of(ms as int),
    {
        let date: i64 = self.shifted(ms);
        let monday: i64 = date + 7 - days_from_monday(date) as i64;
        let wall: i64 = if self.rollover_hour < 24 {
            monday * 86400 + self.rollover_hour as i64 * 3600
        } else {
            0
        };
        match earliest_instant(self.tz, wall) {
            Some(at) => at * 1000,
            None => ms + 7 * 86_400_000,
        }
    }
}

/// A week ends on the Monday that follows a date, at the rollover hour, and so
/// within seven days of it.
pub proof fn law_weeks_end_on_the_next_monday(week: Week, ms: int)
    requires
        week.rollover_hour < 24,
    ensures
        ({
            let monday = week.last_wall_of(ms) / 86400;
            &&& week.last_wall_of(ms) == monday * 86400 + week.rollover_hour * 3600
            &&& weekday(monday) == 0
            &&& week.date_of(ms) < monday <= week.date_of(ms) + 7
        }),
        zone_instant(week.tz@, week.last_wall_of(ms)) is Some ==> week.end_of(ms) == 1_000 * zone_instant(
            week.tz@,
            week.last_wall_of(ms),
        )->0,
        zone_instant(week.tz@, week.last_wall_of(ms)) is None ==> week.end_of(ms) == ms + 604_800_000,
{
}

/// A date lasts from the rollover hour of its day to that of the next.
pub proof fn law_dates_turn_over_at_the_hour(week: Week, ms: int)
    ensures
        week.date_of(ms) * 86400 + week.rollover_hour * 3600 <= week.wall(ms) < (week.date_of(ms) + 1) * 86400
            + week.rollover_hour * 3600,
        FIRST_DAY * 86_400_000 <= ms < (LAST_DAY + 1) * 86_400_000 ==> week.wall(ms) == zone_wall(week.tz@, ms / 1000),
{
}

/// A date begins when the clocks show its rollover hour, where they do.
pub proof fn law_dates_begin_at_the_hour(week: Week, day: int)
    requires
        week.rollover_hour < 24,
        zone_instant(week.tz@, day * 86400 + week.rollover_hour * 3600) is Some,
    ensures
        week.boundary_of(day) == 1_000 * zone_instant(week.tz@, day * 86400 + week.rollover_hour * 3600)->0,
{
}

/// Where the clocks skip the hour, it is the first minute that they show after it.
pub proof fn law_skipped_hours_begin_later(week: Week, wall: int, minute: int)
    requires
        0 <= minute <= 180,
    ensures
        zone_instant(week.tz@, wall + minute * 60) is Some ==> week.boundary_from(wall, minute) == 1_000 * zone_instant(
            week.tz@,
            wall + minute * 60,
        )->0,
        zone_instant(week.tz@, wall + minute * 60) is None ==> week.boundary_from(wall, minute) == week.boundary_from(
            wall,
            minute + 1,
        ),
        week.boundary_from(wall, 181) == wall * 1_000,
{
}

} // verus!
