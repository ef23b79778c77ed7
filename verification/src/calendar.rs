//! Days and dates: the proleptic Gregorian calendar, counted from 1970-01-01,
//! and the clock by which a player's days begin and end.

use vstd::prelude::*;
use crate::text::{decimal, digit, padded_decimal, padded_number, zeros};

verus! {

/// Whether a number can be held in an `i64`.
pub open spec fn fits(n: int) -> bool {
    i64::MIN <= n <= i64::MAX
}

/// The quotient rounded down.
pub fn floor_div(a: i64, b: i64) -> (res: i64)
    requires
        b > 0,
    ensures
        res == a as int / b as int,
{
    assert(i64::MIN <= (a as int / b as int) && (a as int / b as int) <= i64::MAX) by (nonlinear_arith)
        requires
            b > 0,
            i64::MIN <= a <= i64::MAX,
    ;
    a.checked_div_euclid(b).unwrap()
}

/// What the quotient rounded down leaves.
pub fn floor_mod(a: i64, b: i64) -> (res: i64)
    requires
        b > 0,
    ensures
        res == a as int % b as int,
        0 <= res < b,
{
    assert(0 <= (a as int % b as int) && (a as int % b as int) < (b as int)) by (nonlinear_arith)
        requires
            b > 0,
    ;
    a.checked_rem_euclid(b).unwrap()
}

/// Whether a year has a 29th of February.
pub open spec fn leap(year: int) -> bool {
    year % 4 == 0 && (year % 100 != 0 || year % 400 == 0)
}

/// The number of days of a month.
pub open spec fn days_in_month(year: int, month: int) -> int {
    if month == 2 {
        if leap(year) {
            29
        } else {
            28
        }
    } else if month == 4 || month == 6 || month == 9 || month == 11 {
        30
    } else {
        31
    }
}

/// Whether a year, a month and a day of the month make a date.
pub open spec fn valid_date(year: int, month: int, date: int) -> bool {
    1 <= month <= 12 && 1 <= date <= days_in_month(year, month)
}

/// The days of a year that lie before a month.
pub open spec fn days_before_month(year: int, month: int) -> int
    decreases month,
{
    if month <= 1 {
        0
    } else {
        days_before_month(year, month - 1) + days_in_month(year, month - 1)
    }
}

/// The days between 1970-01-01 and the first day of a year.
pub open spec fn days_before_year(year: int) -> int {
    365 * (year - 1970) + ((year - 1) / 4 - (year - 1) / 100 + (year - 1) / 400 - 477)
}

/// The number of a date, 1970-01-01 being day 0.
pub open spec fn day_number(year: int, month: int, date: int) -> int {
    days_before_year(year) + days_before_month(year, month) + date - 1
}

/// The year, the month and the day of the month of a day. Years are taken from
/// March on, so that a leap day is the last of its year, and in spans of 400,
/// which all have the same length.
pub open spec fn civil_of(day: int) -> (int, int, int) {
    let z = day + 719_468;
    let era = z / 146_097;
    let doe = z % 146_097;
    let yoe = (doe - doe / 1460 + doe / 36_524 - doe / 146_096) / 365;
    let doy = doe - (365 * yoe + yoe / 4 - yoe / 100);
    let mp = (5 * doy + 2) / 153;
    let d = doy - (153 * mp + 2) / 5 + 1;
    let m = if mp < 10 {
        mp + 3
    } else {
        mp - 9
    };
    let y = yoe + era * 400 + if m <= 2 {
        1int
    } else {
        0
    };
    (y, m, d)
}

/// The year, the month and the day of the month of a day.
pub fn civil(day: i64) -> (res: (i64, i64, i64))
    requires
        fits(day + 719_468),
    ensures
        (res.0 as int, res.1 as int, res.2 as int) == civil_of(day as int),
        1 <= res.1 <= 12,
        1 <= res.2 <= 31,
        valid_date(res.0 as int, res.1 as int, res.2 as int),
        day_number(res.0 as int, res.1 as int, res.2 as int) == day,
{
    proof {
        law_civil_inverts_day_number(day as int);
        lemma_year_of_era((day + 719_468) % 146_097);
    }
    let z: i64 = day + 719_468;
    let era: i64 = floor_div(z, 146_097);
    let doe: i64 = floor_mod(z, 146_097);
    let yoe: i64 = floor_div(doe - floor_div(doe, 1460) + floor_div(doe, 36_524) - floor_div(doe, 146_096), 365);
    let doy: i64 = doe - (365 * yoe + floor_div(yoe, 4) - floor_div(yoe, 100));
    let mp: i64 = floor_div(5 * doy + 2, 153);
    let d: i64 = doy - floor_div(153 * mp + 2, 5) + 1;
    let m: i64 = if mp < 10 {
        mp + 3
    } else {
        mp - 9
    };
    let late: i64 = if m <= 2 {
        1
    } else {
        0
    };
    let y: i64 = yoe + era * 400 + late;
    (y, m, d)
}

/// Within a span of 400 years, the year that the formula gives holds the day.
proof fn lemma_year_of_era(doe: int)
    requires
        0 <= doe < 146_097,
    ensures
        ({
            let yoe = (doe - doe / 1460 + doe / 36_524 - doe / 146_096) / 365;
            let doy = doe - (365 * yoe + yoe / 4 - yoe / 100);
            &&& 0 <= yoe <= 399
            &&& 0 <= doy <= 365
            &&& doy == 365 ==> (yoe + 1) % 4 == 0 && ((yoe + 1) % 100 != 0 || yoe == 399)
        }),
{
}

proof fn lemma_fours(y: int)
    ensures
        y / 4 - (y - 1) / 4 == if y % 4 == 0 {
            1int
        } else {
            0
        },
{
}

proof fn lemma_hundreds(y: int)
    ensures
        y / 100 - (y - 1) / 100 == if y % 100 == 0 {
            1int
        } else {
            0
        },
        y % 100 == 0 ==> y % 4 == 0,
{
}

proof fn lemma_four_hundreds(y: int)
    ensures
        y / 400 - (y - 1) / 400 == if y % 400 == 0 {
            1int
        } else {
            0
        },
        y % 400 == 0 ==> y % 100 == 0,
{
}

/// A year is a day longer where it is a leap year.
proof fn lemma_year_length(year: int)
    ensures
        days_before_year(year + 1) == days_before_year(year) + 365 + if leap(year) {
            1int
        } else {
            0
        },
{
    lemma_fours(year);
    lemma_hundreds(year);
    lemma_four_hundreds(year);
    let a = year / 4;
    let b = year / 100;
    let c = year / 400;
    assert(year + 1 - 1 == year);
    assert(days_before_year(year + 1) == 365 * (year + 1 - 1970) + (a - b + c - 477));
}

/// The days before each month.
proof fn lemma_months(year: int)
    ensures
        ({
            let l = if leap(year) {
                1int
            } else {
                0
            };
            &&& days_before_month(year, 1) == 0
            &&& days_before_month(year, 2) == 31
            &&& days_before_month(year, 3) == 59 + l
            &&& days_before_month(year, 4) == 90 + l
            &&& days_before_month(year, 5) == 120 + l
            &&& days_before_month(year, 6) == 151 + l
            &&& days_before_month(year, 7) == 181 + l
            &&& days_before_month(year, 8) == 212 + l
            &&& days_before_month(year, 9) == 243 + l
            &&& days_before_month(year, 10) == 273 + l
            &&& days_before_month(year, 11) == 304 + l
            &&& days_before_month(year, 12) == 334 + l
        }),
{
    reveal_with_fuel(days_before_month, 13);
}

proof fn lemma_span_fours(era: int, yoe: int)
    ensures
        (400 * era + yoe) / 4 == 100 * era + yoe / 4,
        (400 * era + yoe + 1) % 4 == (yoe + 1) % 4,
{
}

proof fn lemma_span_hundreds(era: int, yoe: int)
    ensures
        (400 * era + yoe) / 100 == 4 * era + yoe / 100,
        (400 * era + yoe + 1) % 100 == (yoe + 1) % 100,
{
}

proof fn lemma_span_four_hundreds(era: int, yoe: int)
    requires
        0 <= yoe <= 399,
    ensures
        (400 * era + yoe) / 400 == era,
        (400 * era + yoe + 1) % 400 == 0 <==> yoe == 399,
{
}

/// Where the first of March of a year lies in its span of 400 years.
proof fn lemma_first_of_march(era: int, yoe: int)
    requires
        0 <= yoe <= 399,
    ensures
        days_before_year(400 * era + yoe + 1) == 146_097 * era + 365 * yoe + yoe / 4 - yoe / 100 - 719_468 + 306,
        leap(400 * era + yoe + 1) <==> (yoe + 1) % 4 == 0 && ((yoe + 1) % 100 != 0 || yoe == 399),
{
    lemma_span_fours(era, yoe);
    lemma_span_hundreds(era, yoe);
    lemma_span_four_hundreds(era, yoe);
    let y = 400 * era + yoe;
    assert(y + 1 - 1 == y);
}

/// The date of a day is a date, and its number is the day.
pub proof fn law_civil_inverts_day_number(day: int)
    ensures
        ({
            let (y, m, d) = civil_of(day);
            valid_date(y, m, d) && day_number(y, m, d) == day
        }),
{
    let z = day + 719_468;
    let era = z / 146_097;
    let doe = z % 146_097;
    let yoe = (doe - doe / 1460 + doe / 36_524 - doe / 146_096) / 365;
    let doy = doe - (365 * yoe + yoe / 4 - yoe / 100);
    let mp = (5 * doy + 2) / 153;
    let year = 400 * era + yoe;
    lemma_year_of_era(doe);
    lemma_first_of_march(era, yoe);
    lemma_year_length(year);
    lemma_months(year);
    lemma_months(year + 1);
    assert(z == 146_097 * era + doe);
    assert(day == days_before_year(year + 1) - 306 + doy);
    assert(0 <= mp <= 11);
    let (y, m, d) = civil_of(day);
    lemma_civil_month(day, year, doy, mp, y, m, d);
}

proof fn lemma_civil_month(day: int, year: int, doy: int, mp: int, y: int, m: int, d: int)
    requires
        0 <= doy <= 365,
        doy == 365 ==> leap(year + 1),
        mp == (5 * doy + 2) / 153,
        d == doy - (153 * mp + 2) / 5 + 1,
        m == if mp < 10 { mp + 3 } else { mp - 9 },
        y == year + if m <= 2 { 1int } else { 0 },
        day == days_before_year(year + 1) - 306 + doy,
    ensures
        valid_date(y, m, d),
        day_number(y, m, d) == day,
{
    lemma_year_length(year);
    lemma_months(year);
    lemma_months(year + 1);
    if mp == 0 {
    } else if mp == 1 {
    } else if mp == 2 {
    } else if mp == 3 {
    } else if mp == 4 {
    } else if mp == 5 {
    } else if mp == 6 {
    } else if mp == 7 {
    } else if mp == 8 {
    } else if mp == 9 {
    } else if mp == 10 {
    } else {
        assert(mp == 11);
    }
}

/// Two dates with the same number are the same date.
pub proof fn law_day_number_is_injective(y1: int, m1: int, d1: int, y2: int, m2: int, d2: int)
    requires
        valid_date(y1, m1, d1),
        valid_date(y2, m2, d2),
        day_number(y1, m1, d1) == day_number(y2, m2, d2),
    ensures
        y1 == y2 && m1 == m2 && d1 == d2,
{
    lemma_within_year(y1, m1, d1);
    lemma_within_year(y2, m2, d2);
    if y1 < y2 {
        lemma_years_ascend(y1 + 1, y2);
    } else if y2 < y1 {
        lemma_years_ascend(y2 + 1, y1);
    }
    assert(y1 == y2);
    lemma_months(y1);
    if m1 < m2 {
        lemma_months_ascend(y1, m1 + 1, m2);
    } else if m2 < m1 {
        lemma_months_ascend(y1, m2 + 1, m1);
    }
}

pub proof fn lemma_within_year(y: int, m: int, d: int)
    requires
        valid_date(y, m, d),
    ensures
        days_before_year(y) <= day_number(y, m, d) < days_before_year(y + 1),
{
    lemma_months(y);
    lemma_year_length(y);
}

pub proof fn lemma_years_ascend(a: int, b: int)
    requires
        a <= b,
    ensures
        days_before_year(a) <= days_before_year(b),
{
}

proof fn lemma_months_ascend(y: int, a: int, b: int)
    requires
        1 <= a <= b,
    ensures
        days_before_month(y, a) <= days_before_month(y, b),
    decreases b,
{
    if a < b {
        lemma_months_ascend(y, a, b - 1);
    }
}

/// The number of a date leads back to the date.
pub proof fn law_day_number_inverts_civil(year: int, month: int, date: int)
    requires
        valid_date(year, month, date),
    ensures
        civil_of(day_number(year, month, date)) == (year, month, date),
{
    let day = day_number(year, month, date);
    law_civil_inverts_day_number(day);
    let (y, m, d) = civil_of(day);
    law_day_number_is_injective(y, m, d, year, month, date);
}

/// The calendar date of a day, as `YYYY-MM-DD`.
pub open spec fn date_text(day: int) -> Seq<char> {
    let (y, m, d) = civil_of(day);
    padded_decimal(y, 4) + "-"@ + padded_decimal(m, 2) + "-"@ + padded_decimal(d, 2)
}

/// The calendar date of a day, as `YYYY-MM-DD`.
pub fn date_string(day: i64) -> (res: String)
    requires
        fits(day + 719_468),
    ensures
        res@ == date_text(day as int),
{
    let (y, m, d) = civil(day);
    let mut s = padded_number(y, 4);
    s.append("-");
    let month = padded_number(m, 2);
    s.append(month.as_str());
    s.append("-");
    let date = padded_number(d, 2);
    s.append(date.as_str());
    s
}

/// The day of the week, Monday being 0.
pub open spec fn weekday(day: int) -> int {
    (day + 3) % 7
}

/// Whether a day is a Saturday or a Sunday.
pub fn is_weekend(day: i64) -> (res: bool)
    requires
        fits(day + 3),
    ensures
        res == (weekday(day as int) >= 5),
{
    floor_mod(day + 3, 7) >= 5
}

/// A player's clock: how many minutes its time zone lies behind UTC, and the
/// hour at which a day turns over.
#[derive(Clone, Copy, Debug, PartialEq, Eq, Structural)]
pub struct Clock {
    pub offset_west_min: i64,
    pub rollover_hour: i64,
}

impl View for Clock {
    type V = Clock;

    open spec fn view(&self) -> Clock {
        *self
    }
}

impl Default for Clock {
    fn default() -> (res: Self)
        ensures
            res == (Clock { offset_west_min: 0, rollover_hour: 4 }),
    {
        Clock { offset_west_min: 0, rollover_hour: 4 }
    }
}

impl Clock {
    /// The seconds that the wall clock has counted since its 1970-01-01.
    pub open spec fn local_seconds(self, ms: int) -> int {
        ms / 1000 - self.offset_west_min * 60
    }

    /// The day to which an instant belongs.
    pub open spec fn day_of(self, ms: int) -> int {
        (self.local_seconds(ms) - self.rollover_hour * 3600) / 86400
    }

    /// The hour that the wall clock shows.
    pub open spec fn hour_of(self, ms: int) -> int {
        self.local_seconds(ms) % 86400 / 3600
    }

    /// The instant at which a day begins.
    pub open spec fn start_of(self, day: int) -> int {
        (day * 86400 + self.rollover_hour * 3600 + self.offset_west_min * 60) * 1000
    }

    /// Whether the wall clock can be read within the range of `i64`.
    pub open spec fn reads(self, ms: int) -> bool {
        fits(self.offset_west_min * 60) && fits(self.local_seconds(ms))
    }

    /// Whether the day of an instant can be told within the range of `i64`.
    pub open spec fn tells_day(self, ms: int) -> bool {
        &&& self.reads(ms)
        &&& fits(self.rollover_hour * 3600)
        &&& fits(self.local_seconds(ms) - self.rollover_hour * 3600)
    }

    /// Whether the day of an instant can be told within the range of `i64`.
    pub fn can_tell_day(&self, ms: i64) -> (res: bool)
        ensures
            res == self.tells_day(ms as int),
    {
        let low: i128 = i64::MIN as i128;
        let high: i128 = i64::MAX as i128;
        let offset: i128 = self.offset_west_min as i128 * 60;
        let rollover: i128 = self.rollover_hour as i128 * 3600;
        let local: i128 = floor_div(ms, 1000) as i128 - offset;
        low <= offset && offset <= high && low <= local && local <= high && low <= rollover && rollover <= high && low <= local
            - rollover && local - rollover <= high
    }

    /// Whether the beginning of a day can be told within the range of `i64`.
    pub open spec fn tells_start(self, day: int) -> bool {
        &&& fits(day * 86400)
        &&& fits(self.rollover_hour * 3600)
        &&& fits(day * 86400 + self.rollover_hour * 3600)
        &&& fits(self.offset_west_min * 60)
        &&& fits(day * 86400 + self.rollover_hour * 3600 + self.offset_west_min * 60)
        &&& fits(self.start_of(day))
    }

    /// Whether the beginning of a day can be told within the range of `i64`.
    pub fn can_tell_start(&self, day: i64) -> (res: bool)
        ensures
            res == self.tells_start(day as int),
    {
        let low: i128 = i64::MIN as i128;
        let high: i128 = i64::MAX as i128;
        let midnight: i128 = day as i128 * 86400;
        let rollover: i128 = self.rollover_hour as i128 * 3600;
        let offset: i128 = self.offset_west_min as i128 * 60;
        let local: i128 = midnight + rollover;
        let seconds: i128 = local + offset;
        low <= midnight && midnight <= high && low <= rollover && rollover <= high && low <= local && local <= high && low
            <= offset && offset <= high && low <= seconds && seconds <= high && low <= seconds * 1000 && seconds * 1000
            <= high
    }

    /// The seconds that the wall clock has counted since its 1970-01-01.
    pub fn local_secs(&self, ms: i64) -> (res: i64)
        requires
            self.reads(ms as int),
        ensures
            res == self.local_seconds(ms as int),
    {
        floor_div(ms, 1000) - self.offset_west_min * 60
    }

    /// The day to which an instant belongs, counted from 1970-01-01.
    pub fn day(&self, ms: i64) -> (res: i64)
        requires
            self.tells_day(ms as int),
        ensures
            res == self.day_of(ms as int),
    {
        floor_div(self.local_secs(ms) - self.rollover_hour * 3600, 86400)
    }

    /// The hour that the wall clock shows, from 0 to 23.
    pub fn hour(&self, ms: i64) -> (res: i64)
        requires
            self.reads(ms as int),
        ensures
            res == self.hour_of(ms as int),
            0 <= res < 24,
    {
        floor_div(floor_mod(self.local_secs(ms), 86400), 3600)
    }

    /// The instant at which a day begins.
    pub fn day_start_ms(&self, day: i64) -> (res: i64)
        requires
            self.tells_start(day as int),
        ensures
            res == self.start_of(day as int),
    {
        (day * 86400 + self.rollover_hour * 3600 + self.offset_west_min * 60) * 1000
    }
}

/// An instant lies between the beginning of its day and that of the next.
pub proof fn law_day_holds_its_instants(clock: Clock, ms: int)
    ensures
        clock.start_of(clock.day_of(ms)) <= ms < clock.start_of(clock.day_of(ms) + 1),
{
}

/// The beginning of a day belongs to that day, and the instant before it to
/// the day before.
pub proof fn law_day_begins_at_its_start(clock: Clock, day: int)
    ensures
        clock.day_of(clock.start_of(day)) == day,
        clock.day_of(clock.start_of(day) - 1) == day - 1,
{
}

proof fn lemma_two_digits(n: int)
    requires
        1 <= n <= 99,
    ensures
        padded_decimal(n, 2) == seq![digit(n / 10), digit(n % 10)],
{
    reveal_with_fuel(decimal, 3);
    if n < 10 {
        assert(decimal(n as nat) =~= seq![digit(n)]);
        assert(padded_decimal(n, 2) =~= seq!['0', digit(n)]);
    } else {
        assert(decimal(n as nat) =~= seq![digit(n / 10), digit(n % 10)]);
        assert(zeros(0) =~= Seq::<char>::empty());
        assert(padded_decimal(n, 2) =~= decimal(n as nat));
    }
}

proof fn lemma_four_digits(n: int)
    requires
        1_000 <= n <= 9_999,
    ensures
        padded_decimal(n, 4) == seq![digit(n / 1_000), digit(n / 100 % 10), digit(n / 10 % 10), digit(n % 10)],
{
    let a = (n / 1_000) as nat;
    let b = (n / 100) as nat;
    let c = (n / 10) as nat;
    assert(c / 10 == b && b / 10 == a && a < 10 && a >= 1);
    assert(decimal(a) =~= seq![digit(a as int)]);
    assert(decimal(b) =~= seq![digit(a as int), digit(b as int % 10)]);
    assert(decimal(c) =~= seq![digit(a as int), digit(b as int % 10), digit(c as int % 10)]);
    assert(decimal(n as nat) =~= seq![digit(a as int), digit(b as int % 10), digit(c as int % 10), digit(n % 10)]);
    assert(zeros(0) =~= Seq::<char>::empty());
    assert(padded_decimal(n, 4) =~= decimal(n as nat));
}

/// A date with a year of four digits is written with ten characters: the year, the
/// month and the day, with hyphens between them.
pub proof fn law_dates_are_written_with_ten_characters(day: int)
    requires
        1_000 <= civil_of(day).0 <= 9_999,
    ensures
        ({
            let (y, m, d) = civil_of(day);
            let text = date_text(day);
            &&& text.len() == 10
            &&& text[0] == digit(y / 1_000) && text[1] == digit(y / 100 % 10) && text[2] == digit(y / 10 % 10)
                && text[3] == digit(y % 10)
            &&& text[4] == '-' && text[7] == '-'
            &&& text[5] == digit(m / 10) && text[6] == digit(m % 10)
            &&& text[8] == digit(d / 10) && text[9] == digit(d % 10)
        }),
{
    let (y, m, d) = civil_of(day);
    law_civil_inverts_day_number(day);
    reveal_strlit("-");
    lemma_four_digits(y);
    lemma_two_digits(m);
    lemma_two_digits(d);
}

} // verus!
