//! What a lifetime adds up to, told from the days of study themselves, and what
//! the achievements make of it.

use vstd::prelude::*;
use crate::calendar::{civil_of, date_text};
use crate::days::study_on;
use crate::quests::{no_study, DayModel};
use crate::replay::{completed, law_history_has_every_day, lemma_day_adds, replay_day, replay_start, replayed, Past, ReplayModel};

verus! {

/// The sum of the first `n` numbers of a kind.
pub open spec fn sum_of(n: nat, f: spec_fn(int) -> int) -> int
    decreases n,
{
    if n == 0 {
        0
    } else {
        sum_of((n - 1) as nat, f) + f(n - 1)
    }
}

/// The largest of the first `n` numbers of a kind, or zero.
pub open spec fn most_of(n: nat, f: spec_fn(int) -> int) -> int
    decreases n,
{
    if n == 0 {
        0
    } else if f(n - 1) > most_of((n - 1) as nat, f) {
        f(n - 1)
    } else {
        most_of((n - 1) as nat, f)
    }
}

/// How often something holds of the first `n` numbers.
pub open spec fn times(n: nat, f: spec_fn(int) -> bool) -> int
    decreases n,
{
    if n == 0 {
        0
    } else if f(n - 1) {
        times((n - 1) as nat, f) + 1
    } else {
        times((n - 1) as nat, f)
    }
}

pub proof fn lemma_same_sum(n: nat, f: spec_fn(int) -> int, g: spec_fn(int) -> int)
    requires
        forall|k: int| 0 <= k < n ==> #[trigger] f(k) == g(k),
    ensures
        sum_of(n, f) == sum_of(n, g),
        most_of(n, f) == most_of(n, g),
    decreases n,
{
    if n > 0 {
        lemma_same_sum((n - 1) as nat, f, g);
    }
}

pub proof fn lemma_same_times(n: nat, f: spec_fn(int) -> bool, g: spec_fn(int) -> bool)
    requires
        forall|k: int| 0 <= k < n ==> #[trigger] f(k) == g(k),
    ensures
        times(n, f) == times(n, g),
    decreases n,
{
    if n > 0 {
        lemma_same_times((n - 1) as nat, f, g);
    }
}

/// Whether there was study on a day, counted from the first one.
pub open spec fn active(p: Past, k: int) -> bool {
    p.days.dom().contains(p.first + k)
}

/// What was studied on a day, counted from the first one.
pub open spec fn study(p: Past, k: int) -> DayModel {
    study_on(p.days, p.first + k)
}

/// Where things stand after a day, counted from the first one.
pub open spec fn evening(p: Past, k: int) -> ReplayModel {
    replayed(p, (k + 1) as nat)
}

proof fn lemma_counts(p: Past, m: ReplayModel, day: int)
    ensures
        ({
            let t = m.totals;
            let after = replay_day(p, m, day).totals;
            let s = study_on(p.days, day);
            let here = p.days.dom().contains(day);
            &&& after.reviews == t.reviews + s.reviews
            &&& after.time_ms == t.time_ms + s.time_ms
            &&& after.mature == t.mature + s.mature
            &&& after.new_cards == t.new_cards + s.new_cards
            &&& after.relearns == t.relearns + s.relearns
            &&& after.distinct_cards == t.distinct_cards + s.first_seen
            &&& after.early_days == t.early_days + (if s.early { 1int } else { 0 })
            &&& after.late_days == t.late_days + (if s.late { 1int } else { 0 })
            &&& after.days_active == t.days_active + (if here { 1int } else { 0 })
            &&& after.years == ((day - p.first) / 365) as nat
        }),
{
    reveal(replay_day);
}

proof fn lemma_bests(p: Past, m: ReplayModel, day: int)
    ensures
        ({
            let t = m.totals;
            let after = replay_day(p, m, day).totals;
            let s = study_on(p.days, day);
            &&& after.best_day == if s.reviews > t.best_day { s.reviews } else { t.best_day }
            &&& after.best_combo == if s.max_combo > t.best_combo { s.max_combo } else { t.best_combo }
            &&& after.max_ivl == if s.max_ivl > t.max_ivl { s.max_ivl } else { t.max_ivl as int }
            &&& after.max_sessions == if s.sessions > t.max_sessions { s.sessions } else { t.max_sessions }
            &&& t.longest_session_ms >= 0 ==> after.longest_session_ms == if s.longest_session_ms
                > t.longest_session_ms {
                s.longest_session_ms
            } else {
                t.longest_session_ms
            }
        }),
{
    reveal(replay_day);
}

proof fn lemma_kinds_of_days(p: Past, m: ReplayModel, day: int)
    ensures
        ({
            let t = m.totals;
            let after = replay_day(p, m, day);
            let s = study_on(p.days, day);
            let here = p.days.dom().contains(day);
            let (year, month, date) = civil_of(day);
            let (first_year, first_month, first_date) = civil_of(p.first);
            &&& after.totals.weekend_days == t.weekend_days + (if here && (day + 3) % 7 >= 5 { 1int } else { 0 })
            &&& after.totals.fast_days == t.fast_days + (if s.reviews >= 100 && s.time_ms < 5_000 * s.reviews {
                1int
            } else {
                0
            })
            &&& after.totals.new_year_days == t.new_year_days + (if here && month == 1 && date == 1 {
                1int
            } else {
                0
            })
            &&& after.totals.anniversaries == t.anniversaries + (if here && year > first_year && month == first_month
                && date == first_date {
                1int
            } else {
                0
            })
            &&& after.totals.comebacks == t.comebacks + (if here && m.last_active is Some && day - m.last_active->0
                >= 30 {
                1int
            } else {
                0
            })
            &&& after.last_active == if here { Some(day) } else { m.last_active }
        }),
{
    reveal(replay_day);
}

proof fn lemma_streaks_and_quests(p: Past, m: ReplayModel, day: int)
    ensures
        ({
            let t = m.totals;
            let after = replay_day(p, m, day);
            let s = study_on(p.days, day);
            let here = p.days.dom().contains(day);
            let done = completed(after.quests, s);
            &&& m.streak <= t.best_streak ==> after.totals.best_streak == if after.streak > t.best_streak {
                after.streak
            } else {
                t.best_streak
            }
            &&& after.totals.freezes_used == t.freezes_used + (if after.frozen { 1int } else { 0 })
            &&& after.totals.quests == t.quests + (if here { done as int } else { 0 })
            &&& after.totals.perfect_days == t.perfect_days + (if here && done == after.quests.len() {
                1int
            } else {
                0
            })
        }),
{
    reveal(replay_day);
}

/// The lifetime counts are the sums of what was studied on the days: reviews,
/// time, mature cards, new cards, cards that were forgotten, and cards seen for
/// the first time; days are counted on which there was study, early or late.
pub proof fn law_counts_are_sums_over_the_days(p: Past, n: nat)
    ensures
        ({
            let t = replayed(p, n).totals;
            &&& t.reviews == sum_of(n, |k: int| study(p, k).reviews as int)
            &&& t.time_ms == sum_of(n, |k: int| study(p, k).time_ms)
            &&& t.mature == sum_of(n, |k: int| study(p, k).mature as int)
            &&& t.new_cards == sum_of(n, |k: int| study(p, k).new_cards as int)
            &&& t.relearns == sum_of(n, |k: int| study(p, k).relearns as int)
            &&& t.distinct_cards == sum_of(n, |k: int| study(p, k).first_seen as int)
            &&& t.early_days == times(n, |k: int| study(p, k).early)
            &&& t.late_days == times(n, |k: int| study(p, k).late)
            &&& t.days_active == times(n, |k: int| active(p, k))
            &&& n > 0 ==> t.years == (n - 1) / 365
        }),
    decreases n,
{
    if n > 0 {
        law_counts_are_sums_over_the_days(p, (n - 1) as nat);
        lemma_counts(p, replayed(p, (n - 1) as nat), p.first + n - 1);
    }
}

/// The lifetime bests are the largest numbers of any day: its reviews, its
/// longest combo, the longest interval of its cards, its sessions and the longest
/// of them.
pub proof fn law_bests_are_those_of_the_best_day(p: Past, n: nat)
    ensures
        ({
            let t = replayed(p, n).totals;
            &&& t.best_day == most_of(n, |k: int| study(p, k).reviews as int)
            &&& t.best_combo == most_of(n, |k: int| study(p, k).max_combo as int)
            &&& t.max_ivl == most_of(n, |k: int| study(p, k).max_ivl)
            &&& t.max_sessions == most_of(n, |k: int| study(p, k).sessions as int)
            &&& t.longest_session_ms == most_of(n, |k: int| study(p, k).longest_session_ms)
            &&& t.longest_session_ms >= 0
        }),
    decreases n,
{
    if n > 0 {
        law_bests_are_those_of_the_best_day(p, (n - 1) as nat);
        lemma_bests(p, replayed(p, (n - 1) as nat), p.first + n - 1);
    }
}

/// Whether the day of study before a day lies thirty days back, or longer.
pub open spec fn comes_back(p: Past, k: int) -> bool {
    &&& active(p, k)
    &&& exists|j: int| 0 <= j < k && #[trigger] active(p, j)
    &&& forall|j: int| 0 <= j < k && #[trigger] active(p, j) ==> k - j >= 30
}

/// Days of study are counted by what they are: on a Saturday or a Sunday, with a
/// hundred reviews or more in under five seconds each, on the first of January, on
/// the date of the first day in a later year, and after a break of a month.
pub proof fn law_days_are_counted_by_their_kind(p: Past, n: nat)
    ensures
        ({
            let t = replayed(p, n).totals;
            &&& t.weekend_days == times(n, |k: int| active(p, k) && (p.first + k + 3) % 7 >= 5)
            &&& t.fast_days == times(
                n,
                |k: int| study(p, k).reviews >= 100 && study(p, k).time_ms < 5_000 * study(p, k).reviews,
            )
            &&& t.new_year_days == times(
                n,
                |k: int| active(p, k) && civil_of(p.first + k).1 == 1 && civil_of(p.first + k).2 == 1,
            )
            &&& t.anniversaries == times(
                n,
                |k: int|
                    active(p, k) && civil_of(p.first + k).0 > civil_of(p.first).0 && civil_of(p.first + k).1 == civil_of(
                        p.first,
                    ).1 && civil_of(p.first + k).2 == civil_of(p.first).2,
            )
            &&& t.comebacks == times(n, |k: int| comes_back(p, k))
        }),
    decreases n,
{
    if n > 0 {
        let m = replayed(p, (n - 1) as nat);
        law_days_are_counted_by_their_kind(p, (n - 1) as nat);
        lemma_kinds_of_days(p, m, p.first + n - 1);
        lemma_last_active(p, (n - 1) as nat);
        let k = n - 1;
        if m.last_active is Some {
            let last = m.last_active->0 - p.first;
            assert(active(p, last));
        }
        assert(comes_back(p, k) == (active(p, k) && m.last_active is Some && p.first + k - m.last_active->0 >= 30));
    }
}

proof fn lemma_last_active(p: Past, n: nat)
    ensures
        match replayed(p, n).last_active {
            Some(day) => {
                &&& 0 <= day - p.first < n
                &&& active(p, day - p.first)
                &&& forall|j: int| 0 <= j < n && #[trigger] active(p, j) ==> p.first + j <= day
            },
            None => forall|j: int| 0 <= j < n ==> !#[trigger] active(p, j),
        },
    decreases n,
{
    if n > 0 {
        lemma_last_active(p, (n - 1) as nat);
        lemma_kinds_of_days(p, replayed(p, (n - 1) as nat), p.first + n - 1);
        assert(active(p, n - 1) == p.days.dom().contains(p.first + n - 1));
    }
}

/// The longest streak is the longest one of any day, the freezes used are the
/// days that one saved, and the quests are those that the days completed.
pub proof fn law_streaks_freezes_and_quests_are_counted(p: Past, n: nat)
    ensures
        ({
            let t = replayed(p, n).totals;
            &&& t.best_streak == most_of(n, |k: int| evening(p, k).streak as int)
            &&& t.freezes_used == times(n, |k: int| evening(p, k).frozen)
            &&& t.quests == sum_of(
                n,
                |k: int|
                    if active(p, k) {
                        completed(evening(p, k).quests, study(p, k)) as int
                    } else {
                        0
                    },
            )
            &&& t.perfect_days == times(
                n,
                |k: int| active(p, k) && completed(evening(p, k).quests, study(p, k)) == evening(p, k).quests.len(),
            )
            &&& replayed(p, n).streak <= t.best_streak
        }),
    decreases n,
{
    if n > 0 {
        law_streaks_freezes_and_quests_are_counted(p, (n - 1) as nat);
        lemma_streaks_and_quests(p, replayed(p, (n - 1) as nat), p.first + n - 1);
        assert(evening(p, n - 1) == replayed(p, n));
    }
}

/// The year and the month of a day, counted from the first one.
#[verifier::opaque]
pub open spec fn month_on(p: Past, k: int) -> (int, int) {
    (civil_of(p.first + k).0, civil_of(p.first + k).1)
}

/// Whether some days, one after the other, lie in one calendar month.
pub open spec fn in_one_month(p: Past, from: int, to: int) -> bool {
    forall|k: int| from <= k <= to ==> #[trigger] month_on(p, k) == month_on(p, to)
}

/// The reviews of the days from one to another.
pub open spec fn reviews_between(p: Past, from: int, to: int) -> int {
    sum_of((to + 1) as nat, |k: int| study(p, k).reviews as int) - sum_of(
        from as nat,
        |k: int| study(p, k).reviews as int,
    )
}

proof fn lemma_month(p: Past, n: nat) -> (from: int)
    requires
        n > 0,
    ensures
        0 <= from < n,
        in_one_month(p, from, n - 1),
        from > 0 ==> !in_one_month(p, from - 1, n - 1),
        replayed(p, n).month_reviews == reviews_between(p, from, n - 1),
        replayed(p, n).month == month_on(p, n - 1),
        replayed(p, n).totals.best_month == if active(p, n - 1) && replayed(p, n).month_reviews > replayed(
            p,
            (n - 1) as nat,
        ).totals.best_month {
            replayed(p, n).month_reviews
        } else {
            replayed(p, (n - 1) as nat).totals.best_month
        },
    decreases n,
{
    let m = replayed(p, (n - 1) as nat);
    assert(replayed(p, n) == replay_day(p, m, p.first + n - 1));
    lemma_month_step(p, m, n - 1);
    if n == 1 {
        assert(m == replay_start(p));
        assert(m.month_reviews == 0);
        assert(sum_of(0, |k: int| study(p, k).reviews as int) == 0);
        assert(sum_of(1, |k: int| study(p, k).reviews as int) == study(p, 0).reviews as int);
        0
    } else {
        let before = lemma_month(p, (n - 1) as nat);
        if m.month == month_on(p, n - 1) {
            if before > 0 {
                let j = choose|k: int| before - 1 <= k <= n - 2 && #[trigger] month_on(p, k) != month_on(p, n - 2);
                assert(month_on(p, j) != month_on(p, n - 1));
            }
            before
        } else {
            assert(month_on(p, n - 2) != month_on(p, n - 1));
            n - 1
        }
    }
}

proof fn lemma_month_step(p: Past, m: ReplayModel, k: int)
    ensures
        ({
            let after = replay_day(p, m, p.first + k);
            let kept = if m.month == month_on(p, k) { m.month_reviews } else { 0 };
            &&& after.month == month_on(p, k)
            &&& after.month_reviews == kept + study(p, k).reviews
            &&& after.totals.best_month == if active(p, k) && after.month_reviews > m.totals.best_month {
                after.month_reviews
            } else {
                m.totals.best_month
            }
        }),
{
    reveal(replay_day);
    reveal(month_on);
}

proof fn lemma_sum_ascends(p: Past, from: int, to: int)
    requires
        0 <= from <= to,
    ensures
        sum_of(from as nat, |k: int| study(p, k).reviews as int) <= sum_of(
            to as nat,
            |k: int| study(p, k).reviews as int,
        ),
    decreases to - from,
{
    if from < to {
        lemma_sum_ascends(p, from, to - 1);
    }
}

proof fn lemma_month_beats(p: Past, n: nat, from: int, to: int)
    requires
        0 <= from <= to < n,
        in_one_month(p, from, to),
    ensures
        reviews_between(p, from, to) <= replayed(p, n).totals.best_month,
    decreases n,
{
    let start = lemma_month(p, n);
    if to < n - 1 {
        lemma_month_beats(p, (n - 1) as nat, from, to);
    } else {
        if from < start {
            assert(in_one_month(p, start - 1, n - 1));
        }
        lemma_sum_ascends(p, start, from);
        if !active(p, n - 1) {
            assert(study(p, n - 1) == no_study());
            if from <= n - 2 {
                assert(month_on(p, n - 2) == month_on(p, n - 1));
                lemma_month_beats(p, (n - 1) as nat, from, n - 2);
            }
        }
    }
}

/// No days of one calendar month have more reviews than the best month, and some
/// days of one month have as many.
pub proof fn law_the_best_month_is_not_beaten(p: Past, n: nat)
    ensures
        forall|from: int, to: int|
            0 <= from <= to < n && in_one_month(p, from, to) ==> #[trigger] reviews_between(p, from, to) <= replayed(
                p,
                n,
            ).totals.best_month,
        replayed(p, n).totals.best_month == 0 || exists|from: int, to: int|
            0 <= from <= to < n && in_one_month(p, from, to) && #[trigger] reviews_between(p, from, to) == replayed(
                p,
                n,
            ).totals.best_month,
    decreases n,
{
    assert forall|from: int, to: int| 0 <= from <= to < n && in_one_month(p, from, to) implies
        #[trigger] reviews_between(p, from, to) <= replayed(p, n).totals.best_month by {
        lemma_month_beats(p, n, from, to);
    }
    if n > 0 {
        law_the_best_month_is_not_beaten(p, (n - 1) as nat);
        let start = lemma_month(p, n);
        if replayed(p, n).totals.best_month != replayed(p, (n - 1) as nat).totals.best_month {
            assert(reviews_between(p, start, n - 1) == replayed(p, n).totals.best_month);
        }
    }
}

/// The history tells of each day what was studied, what it earned, how long the
/// streak then was, and whether a freeze saved it.
pub proof fn law_history_tells_of_each_day(p: Past, n: nat, k: int)
    requires
        0 <= k < n,
    ensures
        replayed(p, n).history.len() == n,
        ({
            let h = replayed(p, n).history[k];
            &&& h.at == p.clock.start_of(p.first + k)
            &&& h.date == date_text(p.first + k)
            &&& h.reviews == study(p, k).reviews
            &&& h.time_ms == study(p, k).time_ms
            &&& h.new_cards == study(p, k).new_cards
            &&& h.streak == evening(p, k).streak
            &&& h.frozen == evening(p, k).frozen
            &&& h.xp == evening(p, k).xp_total - replayed(p, k as nat).xp_total
        }),
    decreases n,
{
    let m = replayed(p, (n - 1) as nat);
    let day = p.first + n - 1;
    law_history_has_every_day(p, n);
    lemma_day_adds(p, m, day);
    lemma_entry(p, m, day);
    if k < n - 1 {
        law_history_tells_of_each_day(p, (n - 1) as nat, k);
        assert(replayed(p, n).history[k] == replayed(p, n).history.drop_last()[k]);
    }
}

proof fn lemma_entry(p: Past, m: ReplayModel, day: int)
    ensures
        ({
            let after = replay_day(p, m, day);
            let h = after.history.last();
            let s = study_on(p.days, day);
            &&& h.at == p.clock.start_of(day)
            &&& h.date == date_text(day)
            &&& h.reviews == s.reviews
            &&& h.time_ms == s.time_ms
            &&& h.new_cards == s.new_cards
            &&& h.streak == after.streak
            &&& h.frozen == after.frozen
        }),
{
    reveal(replay_day);
}

/// No lifetime count or best ever goes down; the time studied does not, where no
/// answer took a negative time.
pub proof fn law_totals_never_go_down(p: Past, k: nat)
    ensures
        ({
            let t = replayed(p, k).totals;
            let after = replayed(p, k + 1).totals;
            &&& t.reviews <= after.reviews
            &&& t.best_streak <= after.best_streak
            &&& t.best_day <= after.best_day
            &&& t.best_combo <= after.best_combo
            &&& study(p, k as int).time_ms >= 0 ==> t.time_ms <= after.time_ms
            &&& t.mature <= after.mature
            &&& t.new_cards <= after.new_cards
            &&& t.quests <= after.quests
            &&& t.perfect_days <= after.perfect_days
            &&& t.early_days <= after.early_days
            &&& t.late_days <= after.late_days
            &&& t.days_active <= after.days_active
            &&& t.relearns <= after.relearns
            &&& t.max_ivl <= after.max_ivl
            &&& t.distinct_cards <= after.distinct_cards
            &&& 0 <= t.longest_session_ms <= after.longest_session_ms
            &&& t.max_sessions <= after.max_sessions
            &&& t.best_month <= after.best_month
            &&& t.weekend_days <= after.weekend_days
            &&& t.comebacks <= after.comebacks
            &&& t.freezes_used <= after.freezes_used
            &&& t.fast_days <= after.fast_days
            &&& t.new_year_days <= after.new_year_days
            &&& t.anniversaries <= after.anniversaries
            &&& t.years <= after.years
        }),
{
    let m = replayed(p, k);
    let day = p.first + k;
    assert(replayed(p, k + 1) == replay_day(p, m, day));
    lemma_counts(p, m, day);
    lemma_bests(p, m, day);
    lemma_kinds_of_days(p, m, day);
    lemma_streaks_and_quests(p, m, day);
    law_bests_are_those_of_the_best_day(p, k);
    law_streaks_freezes_and_quests_are_counted(p, k);
    law_counts_are_sums_over_the_days(p, k);
    let from = lemma_month(p, k + 1);
}

} // verus!
