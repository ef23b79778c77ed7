//! What keeps a streak alive, what earns a freeze, and how days and weeks follow
//! one another.

use vstd::prelude::*;
use crate::calendar::{civil_of, days_before_year, weekday, Clock};
use crate::freezes::enabled_at;
use crate::replay::{completed, replay_day, replayed, Past, ReplayModel};
use crate::week::iso_week_of;

verus! {

/// The freezes that a day begins with: none on the day on which they become a
/// choice.
pub open spec fn freezes_at_dawn(p: Past, m: ReplayModel, day: int) -> nat {
    if p.legacy_until == Some(day) {
        0
    } else {
        m.freezes
    }
}

/// A day that is over without study ends the streak, unless there was a freeze to
/// spend: before freezes were a choice always, and later where they were wanted at
/// the end of the day. The freeze is spent, and the streak is as long as before.
pub proof fn law_a_freeze_keeps_the_streak(p: Past, m: ReplayModel, day: int)
    requires
        !p.days.dom().contains(day),
        day != p.today,
    ensures
        ({
            let after = replay_day(p, m, day);
            let had = freezes_at_dawn(p, m, day);
            let before_choice = p.legacy_until is Some && day < p.legacy_until->0;
            let saved = m.streak > 0 && had > 0 && (before_choice || enabled_at(
                p.preferences,
                p.clock.start_of(day + 1) - 1,
            ));
            &&& after.streak == if saved { m.streak } else { 0 }
            &&& after.freezes == if saved { had - 1 } else { had as int }
            &&& after.frozen == saved
            &&& after.history.last().frozen == saved
            &&& after.history.last().streak == after.streak
            &&& after.totals.freezes_used == m.totals.freezes_used + (if saved { 1int } else { 0 })
        }),
{
    reveal(replay_day);
}

/// Today is not over: without study so far, the streak stands, and no freeze is
/// spent.
pub proof fn law_today_is_not_missed_yet(p: Past, m: ReplayModel)
    requires
        !p.days.dom().contains(p.today),
    ensures
        ({
            let after = replay_day(p, m, p.today);
            &&& after.streak == m.streak
            &&& after.freezes == freezes_at_dawn(p, m, p.today)
            &&& !after.frozen
            &&& after.totals.best_streak == m.totals.best_streak
        }),
{
    reveal(replay_day);
}

/// Once freezes are a choice, a day of study earns one exactly where all its quests
/// were completed by now, at a time when freezes were wanted, and fewer than three
/// are held.
pub proof fn law_all_quests_earn_a_freeze(p: Past, m: ReplayModel, day: int)
    requires
        p.days.dom().contains(day),
        p.legacy_until is None || day >= p.legacy_until->0,
    ensures
        ({
            let after = replay_day(p, m, day);
            let had = freezes_at_dawn(p, m, day);
            let at = p.days[day].quests_completed_at;
            let all = completed(after.quests, p.days[day]) == after.quests.len();
            after.freezes == had + (if all && had < 3 && at is Some && at->0 <= p.now && enabled_at(
                p.preferences,
                at->0,
            ) {
                1int
            } else {
                0
            })
        }),
{
    reveal(replay_day);
}

/// Before freezes were a choice, every seventh day of a streak earned one, up to
/// two.
pub proof fn law_seven_days_earned_a_freeze(p: Past, m: ReplayModel, day: int)
    requires
        p.days.dom().contains(day),
        p.legacy_until is Some,
        day < p.legacy_until->0,
    ensures
        replay_day(p, m, day).freezes == m.freezes + (if (m.streak + 1) % 7 == 0 && m.freezes < 2 {
            1int
        } else {
            0
        }),
{
    reveal(replay_day);
}

/// No more than three freezes are ever held.
pub proof fn law_the_bank_holds_three(p: Past, n: nat)
    ensures
        replayed(p, n).freezes <= 3,
    decreases n,
{
    if n > 0 {
        reveal(replay_day);
        law_the_bank_holds_three(p, (n - 1) as nat);
    }
}

/// A day of study lengthens the streak by one and is part of the longest streak
/// where there is none longer; the day of the longest streak is then this one.
pub proof fn law_the_longest_streak_is_kept(p: Past, m: ReplayModel, day: int)
    requires
        p.days.dom().contains(day),
    ensures
        ({
            let after = replay_day(p, m, day);
            &&& after.streak == m.streak + 1
            &&& m.streak + 1 > m.totals.best_streak ==> after.totals.best_streak == m.streak + 1
                && after.best_streak_day == day
            &&& m.streak + 1 <= m.totals.best_streak ==> after.totals.best_streak == m.totals.best_streak
                && after.best_streak_day == m.best_streak_day
        }),
{
    reveal(replay_day);
}

/// A day begins when the wall clock shows the rollover hour, and lasts a day. West
/// of UTC it begins so much later.
pub proof fn law_days_turn_over_at_their_hour(clock: Clock, day: int)
    requires
        0 <= clock.rollover_hour < 24,
    ensures
        clock.hour_of(clock.start_of(day)) == clock.rollover_hour,
        clock.start_of(day + 1) == clock.start_of(day) + 86_400_000,
        clock.start_of(day) == (Clock { offset_west_min: 0, ..clock }).start_of(day) + clock.offset_west_min * 60_000,
        clock.start_of(day) == (Clock { rollover_hour: 0, ..clock }).start_of(day) + clock.rollover_hour * 3_600_000,
        (Clock { offset_west_min: 0, rollover_hour: 0 }).start_of(0) == 0,
{
    let h = clock.rollover_hour as int;
    let w = clock.offset_west_min as int;
    assert(clock.start_of(day) / 1000 == day * 86400 + h * 3600 + w * 60);
    assert(clock.local_seconds(clock.start_of(day)) == day * 86400 + h * 3600);
    assert((day * 86400 + h * 3600) % 86400 == h * 3600);
}

/// 1970-01-01 was a Thursday: days number three, ten, seventeen and so on are
/// Sundays, and with the days before them they make up the weekends.
pub proof fn law_weekends_come_every_seven_days(day: int)
    ensures
        0 <= weekday(day) < 7,
        weekday(0) == 3,
        weekday(day + 7) == weekday(day),
        weekday(day) < 6 ==> weekday(day + 1) == weekday(day) + 1,
        weekday(day) >= 5 <==> (day - 2) % 7 < 2,
{
}

/// A week begins on a Monday: a day and the next belong to the same week but on a
/// Sunday.
pub proof fn law_weeks_begin_on_mondays(day: int)
    ensures
        weekday(day) < 6 ==> iso_week_of(day + 1) == iso_week_of(day),
        weekday(day) == 6 ==> iso_week_of(day + 1) != iso_week_of(day),
{
    let a = day - weekday(day) + 3;
    let b = day + 1 - weekday(day + 1) + 3;
    if weekday(day) < 6 {
        assert(a == b);
    } else {
        assert(b == a + 7);
        lemma_next_week(a);
    }
}

proof fn lemma_next_week(thursday: int)
    ensures
        ({
            let y = civil_of(thursday).0;
            let z = civil_of(thursday + 7).0;
            y != z || (thursday - days_before_year(y)) / 7 != (thursday + 7 - days_before_year(z)) / 7
        }),
{
    let y = civil_of(thursday).0;
    let z = civil_of(thursday + 7).0;
    let d = days_before_year(y);
    if y == z {
        assert((thursday + 7 - d) / 7 == (thursday - d) / 7 + 1);
    }
}

} // verus!
