//! What the achievements of a player tell, read against the history.

use vstd::prelude::*;
use crate::achievements::{definitions, id_of, law_every_achievement_asks_for_something, law_names_tell_achievements_apart, metric_name, value_of, Metric};
use crate::calendar::{civil_of, Clock};
use crate::freezes::FreezePreference;
use crate::game::{past_of, shows_achievement, shows_profile, Profile};
use crate::lifetime::{active, comes_back, evening, in_one_month, law_bests_are_those_of_the_best_day, law_counts_are_sums_over_the_days, law_days_are_counted_by_their_kind, law_history_tells_of_each_day, law_streaks_freezes_and_quests_are_counted, law_the_best_month_is_not_beaten, law_totals_never_go_down, lemma_same_sum, lemma_same_times, most_of, reviews_between, study, sum_of, times};
use crate::points::lemma_unlocked_step;
use crate::quests::Review;
use crate::replay::{completed, day_count, history_views, law_history_has_every_day, replayed, Past};
use crate::text::decimal;
use crate::week::Week;

verus! {

/// The achievements whose name begins in a way tell of a number: they show it as
/// far as it goes, and they are unlocked from there on.
pub open spec fn tell_of(v: Profile, name: Seq<char>, value: int) -> bool {
    forall|i: int, n: nat|
        0 <= i < v.achievements@.len() && (#[trigger] v.achievements@[i]).id@ == name + #[trigger] decimal(n) ==> {
            &&& v.achievements@[i].target == n
            &&& v.achievements@[i].progress == if value < n {
                value
            } else {
                n as int
            }
            &&& v.achievements@[i].unlocked is Some <==> value >= n
        }
}

/// An achievement is unlocked on the first day on which its count is reached, and
/// on no day where it never is.
pub proof fn law_achievements_unlock_when_reached(p: Past, n: nat, i: int)
    requires
        0 <= i < definitions().len(),
    ensures
        replayed(p, n).unlocked.len() == definitions().len(),
        ({
            let d = definitions()[i];
            match replayed(p, n).unlocked[i] {
                Some(day) => {
                    &&& p.first <= day < p.first + n
                    &&& value_of(evening(p, day - p.first).totals, d.metric) >= d.threshold
                    &&& forall|k: int|
                        0 <= k < day - p.first ==> value_of((#[trigger] evening(p, k)).totals, d.metric) < d.threshold
                },
                None => forall|k: int|
                    0 <= k < n ==> value_of((#[trigger] evening(p, k)).totals, d.metric) < d.threshold,
            }
        }),
    decreases n,
{
    if n > 0 {
        let m = replayed(p, (n - 1) as nat);
        law_achievements_unlock_when_reached(p, (n - 1) as nat, i);
        lemma_unlocked_step(p, m, p.first + n - 1, i);
        assert(evening(p, n - 1) == replayed(p, n));
    }
}

spec fn grows(p: Past, n: nat, metric: Metric) -> bool {
    forall|k: int|
        0 <= k < n ==> value_of(replayed(p, k as nat).totals, metric) <= value_of(
            (#[trigger] evening(p, k)).totals,
            metric,
        )
}

proof fn lemma_reached_before(p: Past, n: nat, k: int, metric: Metric)
    requires
        grows(p, n, metric),
        0 <= k < n,
    ensures
        value_of(evening(p, k).totals, metric) <= value_of(replayed(p, n).totals, metric),
    decreases n,
{
    assert(evening(p, n - 1) == replayed(p, n));
    if k < n - 1 {
        lemma_reached_before(p, (n - 1) as nat, k, metric);
    }
}

proof fn lemma_grows(p: Past, n: nat, metric: Metric)
    requires
        metric != Metric::Hours,
    ensures
        grows(p, n, metric),
{
    assert forall|k: int| 0 <= k < n implies value_of(replayed(p, k as nat).totals, metric) <= value_of(
        (#[trigger] evening(p, k)).totals,
        metric,
    ) by {
        law_totals_never_go_down(p, k as nat);
    }
}

proof fn lemma_hours_grow(p: Past, n: nat)
    requires
        forall|k: int| 0 <= k < n ==> (#[trigger] study(p, k)).time_ms >= 0,
    ensures
        replayed(p, n).totals.time_ms >= 0,
        grows(p, n, Metric::Hours),
    decreases n,
{
    if n > 0 {
        lemma_hours_grow(p, (n - 1) as nat);
        assert(study(p, n - 1).time_ms >= 0);
        law_totals_never_go_down(p, (n - 1) as nat);
        assert forall|k: int| 0 <= k < n implies value_of(replayed(p, k as nat).totals, Metric::Hours) <= value_of(
            (#[trigger] evening(p, k)).totals,
            Metric::Hours,
        ) by {
            if k == n - 1 {
                assert(evening(p, k) == replayed(p, n));
            }
        }
    }
}

proof fn lemma_tell(v: Profile, p: Past, n: nat, metric: Metric, name: Seq<char>)
    requires
        v.achievements@.len() == definitions().len(),
        forall|i: int|
            0 <= i < v.achievements@.len() ==> shows_achievement(
                #[trigger] v.achievements@[i],
                definitions()[i],
                replayed(p, n).totals,
                replayed(p, n).unlocked[i],
            ),
        name == metric_name(metric) + "-"@,
        grows(p, n, metric),
        n > 0 || value_of(replayed(p, n).totals, metric) <= 0,
    ensures
        tell_of(v, name, value_of(replayed(p, n).totals, metric)),
{
    let value = value_of(replayed(p, n).totals, metric);
    assert forall|i: int, t: nat|
        0 <= i < v.achievements@.len() && (#[trigger] v.achievements@[i]).id@ == name + #[trigger] decimal(t) implies {
        &&& v.achievements@[i].target == t
        &&& v.achievements@[i].progress == if value < t {
            value
        } else {
            t as int
        }
        &&& v.achievements@[i].unlocked is Some <==> value >= t
    } by {
        let d = definitions()[i];
        assert(id_of(d.metric, d.threshold) == id_of(metric, t));
        law_names_tell_achievements_apart(d.metric, d.threshold, metric, t);
        law_every_achievement_asks_for_something(i);
        law_achievements_unlock_when_reached(p, n, i);
        if let Some(day) = replayed(p, n).unlocked[i] {
            lemma_reached_before(p, n, day - p.first, metric);
        } else if n > 0 {
            assert(evening(p, n - 1) == replayed(p, n));
        }
    }
}

/// How the names of the achievements of a kind begin.
spec fn prefix_of(metric: Metric) -> Seq<char> {
    match metric {
        Metric::Reviews => "reviews-"@,
        Metric::Streak => "streak-"@,
        Metric::DayReviews => "dayreviews-"@,
        Metric::Combo => "combo-"@,
        Metric::Hours => "hours-"@,
        Metric::Mature => "mature-"@,
        Metric::NewCards => "newcards-"@,
        Metric::Quests => "quests-"@,
        Metric::PerfectDays => "perfectdays-"@,
        Metric::EarlyDays => "earlydays-"@,
        Metric::LateDays => "latedays-"@,
        Metric::DaysActive => "daysactive-"@,
        Metric::Relearns => "relearns-"@,
        Metric::MaxInterval => "maxinterval-"@,
        Metric::DistinctCards => "distinctcards-"@,
        Metric::LongestSession => "longestsession-"@,
        Metric::MaxSessions => "maxsessions-"@,
        Metric::BestMonth => "bestmonth-"@,
        Metric::WeekendDays => "weekenddays-"@,
        Metric::Comebacks => "comebacks-"@,
        Metric::FreezesUsed => "freezesused-"@,
        Metric::FastDays => "fastdays-"@,
        Metric::NewYearDays => "newyeardays-"@,
        Metric::Anniversaries => "anniversaries-"@,
        Metric::Years => "years-"@,
    }
}

proof fn lemma_prefix(metric: Metric)
    ensures
        prefix_of(metric) == metric_name(metric) + "-"@,
{
    reveal_strlit("-");
    match metric {
        Metric::Reviews => {
            reveal_strlit("reviews-");
            reveal_strlit("reviews");
            assert("reviews-"@ =~= "reviews"@ + "-"@);
        },
        Metric::Streak => {
            reveal_strlit("streak-");
            reveal_strlit("streak");
            assert("streak-"@ =~= "streak"@ + "-"@);
        },
        Metric::DayReviews => {
            reveal_strlit("dayreviews-");
            reveal_strlit("dayreviews");
            assert("dayreviews-"@ =~= "dayreviews"@ + "-"@);
        },
        Metric::Combo => {
            reveal_strlit("combo-");
            reveal_strlit("combo");
            assert("combo-"@ =~= "combo"@ + "-"@);
        },
        Metric::Hours => {
            reveal_strlit("hours-");
            reveal_strlit("hours");
            assert("hours-"@ =~= "hours"@ + "-"@);
        },
        Metric::Mature => {
            reveal_strlit("mature-");
            reveal_strlit("mature");
            assert("mature-"@ =~= "mature"@ + "-"@);
        },
        Metric::NewCards => {
            reveal_strlit("newcards-");
            reveal_strlit("newcards");
            assert("newcards-"@ =~= "newcards"@ + "-"@);
        },
        Metric::Quests => {
            reveal_strlit("quests-");
            reveal_strlit("quests");
            assert("quests-"@ =~= "quests"@ + "-"@);
        },
        Metric::PerfectDays => {
            reveal_strlit("perfectdays-");
            reveal_strlit("perfectdays");
            assert("perfectdays-"@ =~= "perfectdays"@ + "-"@);
        },
        Metric::EarlyDays => {
            reveal_strlit("earlydays-");
            reveal_strlit("earlydays");
            assert("earlydays-"@ =~= "earlydays"@ + "-"@);
        },
        Metric::LateDays => {
            reveal_strlit("latedays-");
            reveal_strlit("latedays");
            assert("latedays-"@ =~= "latedays"@ + "-"@);
        },
        Metric::DaysActive => {
            reveal_strlit("daysactive-");
            reveal_strlit("daysactive");
            assert("daysactive-"@ =~= "daysactive"@ + "-"@);
        },
        Metric::Relearns => {
            reveal_strlit("relearns-");
            reveal_strlit("relearns");
            assert("relearns-"@ =~= "relearns"@ + "-"@);
        },
        Metric::MaxInterval => {
            reveal_strlit("maxinterval-");
            reveal_strlit("maxinterval");
            assert("maxinterval-"@ =~= "maxinterval"@ + "-"@);
        },
        Metric::DistinctCards => {
            reveal_strlit("distinctcards-");
            reveal_strlit("distinctcards");
            assert("distinctcards-"@ =~= "distinctcards"@ + "-"@);
        },
        Metric::LongestSession => {
            reveal_strlit("longestsession-");
            reveal_strlit("longestsession");
            assert("longestsession-"@ =~= "longestsession"@ + "-"@);
        },
        Metric::MaxSessions => {
            reveal_strlit("maxsessions-");
            reveal_strlit("maxsessions");
            assert("maxsessions-"@ =~= "maxsessions"@ + "-"@);
        },
        Metric::BestMonth => {
            reveal_strlit("bestmonth-");
            reveal_strlit("bestmonth");
            assert("bestmonth-"@ =~= "bestmonth"@ + "-"@);
        },
        Metric::WeekendDays => {
            reveal_strlit("weekenddays-");
            reveal_strlit("weekenddays");
            assert("weekenddays-"@ =~= "weekenddays"@ + "-"@);
        },
        Metric::Comebacks => {
            reveal_strlit("comebacks-");
            reveal_strlit("comebacks");
            assert("comebacks-"@ =~= "comebacks"@ + "-"@);
        },
        Metric::FreezesUsed => {
            reveal_strlit("freezesused-");
            reveal_strlit("freezesused");
            assert("freezesused-"@ =~= "freezesused"@ + "-"@);
        },
        Metric::FastDays => {
            reveal_strlit("fastdays-");
            reveal_strlit("fastdays");
            assert("fastdays-"@ =~= "fastdays"@ + "-"@);
        },
        Metric::NewYearDays => {
            reveal_strlit("newyeardays-");
            reveal_strlit("newyeardays");
            assert("newyeardays-"@ =~= "newyeardays"@ + "-"@);
        },
        Metric::Anniversaries => {
            reveal_strlit("anniversaries-");
            reveal_strlit("anniversaries");
            assert("anniversaries-"@ =~= "anniversaries"@ + "-"@);
        },
        Metric::Years => {
            reveal_strlit("years-");
            reveal_strlit("years");
            assert("years-"@ =~= "years"@ + "-"@);
        },
    }
}

proof fn lemma_achievements(
    v: Profile,
    user: Seq<char>,
    display: Seq<char>,
    reviews: Seq<Review>,
    clock: Clock,
    week: Week,
    now: int,
    legacy_until: Option<i64>,
    preferences: Seq<FreezePreference>,
    metric: Metric,
)
    requires
        shows_profile(v, user, display, reviews, clock, week, now, legacy_until, preferences),
        metric == Metric::Hours ==> forall|k: int|
            0 <= k < day_count(past_of(user, reviews, clock, now, legacy_until, preferences)) ==> (#[trigger] study(past_of(user, reviews, clock, now, legacy_until, preferences), k)).time_ms >= 0,
    ensures
        ({
            let p = past_of(user, reviews, clock, now, legacy_until, preferences);
            tell_of(v, prefix_of(metric), value_of(replayed(p, day_count(p)).totals, metric))
        }),
{
    let p = past_of(user, reviews, clock, now, legacy_until, preferences);
    let n = day_count(p);
    lemma_prefix(metric);
    if metric == Metric::Hours {
        lemma_hours_grow(p, n);
    } else {
        lemma_grows(p, n, metric);
    }
    lemma_tell(v, p, n, metric, prefix_of(metric));
}

/// The history that is shown is that of every day from the first to today.
proof fn lemma_shown_days(
    v: Profile,
    user: Seq<char>,
    display: Seq<char>,
    reviews: Seq<Review>,
    clock: Clock,
    week: Week,
    now: int,
    legacy_until: Option<i64>,
    preferences: Seq<FreezePreference>,
)
    requires
        shows_profile(v, user, display, reviews, clock, week, now, legacy_until, preferences),
    ensures
        v.history@.len() == day_count(past_of(user, reviews, clock, now, legacy_until, preferences)),
        forall|k: int|
            0 <= k < v.history@.len() ==> ({
                let h = #[trigger] v.history@[k];
                let p = past_of(user, reviews, clock, now, legacy_until, preferences);
                &&& h.reviews == study(p, k).reviews
                &&& h.time_ms == study(p, k).time_ms
                &&& h.new_cards == study(p, k).new_cards
                &&& h.streak == evening(p, k).streak
                &&& h.frozen == evening(p, k).frozen
            }),
{
    let p = past_of(user, reviews, clock, now, legacy_until, preferences);
    let n = day_count(p);
    law_history_has_every_day(p, n);
    assert(history_views(v.history@) == replayed(p, n).history);
    assert forall|k: int| 0 <= k < v.history@.len() implies ({
        let h = #[trigger] v.history@[k];
        &&& h.reviews == study(p, k).reviews
        &&& h.time_ms == study(p, k).time_ms
        &&& h.new_cards == study(p, k).new_cards
        &&& h.streak == evening(p, k).streak
        &&& h.frozen == evening(p, k).frozen
    }) by {
        law_history_tells_of_each_day(p, n, k);
        assert(history_views(v.history@)[k] == v.history@[k]@);
    }
}

/// The achievements that count reviews go by the reviews of a lifetime, which are
/// those of all days of the history.
pub proof fn law_reviews_are_those_of_the_history(
    v: Profile,
    user: Seq<char>,
    display: Seq<char>,
    reviews: Seq<Review>,
    clock: Clock,
    week: Week,
    now: int,
    legacy_until: Option<i64>,
    preferences: Seq<FreezePreference>,
)
    requires
        shows_profile(v, user, display, reviews, clock, week, now, legacy_until, preferences),
    ensures
        v.lifetime.reviews == sum_of(v.history@.len(), |k: int| v.history@[k].reviews as int),
        tell_of(v, "reviews-"@, sum_of(v.history@.len(), |k: int| v.history@[k].reviews as int)),
{
    let p = past_of(user, reviews, clock, now, legacy_until, preferences);
    let n = day_count(p);
    let h = v.history@;
    lemma_shown_days(v, user, display, reviews, clock, week, now, legacy_until, preferences);
    law_counts_are_sums_over_the_days(p, n);
    lemma_same_sum(n, |k: int| study(p, k).reviews as int, |k: int| h[k].reviews as int);
    lemma_achievements(v, user, display, reviews, clock, week, now, legacy_until, preferences, Metric::Reviews);
}

/// The achievements that count the reviews of a day go by the best day of the history.
pub proof fn law_the_best_day_is_that_of_the_history(
    v: Profile,
    user: Seq<char>,
    display: Seq<char>,
    reviews: Seq<Review>,
    clock: Clock,
    week: Week,
    now: int,
    legacy_until: Option<i64>,
    preferences: Seq<FreezePreference>,
)
    requires
        shows_profile(v, user, display, reviews, clock, week, now, legacy_until, preferences),
    ensures
        v.lifetime.best_day == most_of(v.history@.len(), |k: int| v.history@[k].reviews as int),
        tell_of(v, "dayreviews-"@, most_of(v.history@.len(), |k: int| v.history@[k].reviews as int)),
{
    let p = past_of(user, reviews, clock, now, legacy_until, preferences);
    let n = day_count(p);
    let h = v.history@;
    lemma_shown_days(v, user, display, reviews, clock, week, now, legacy_until, preferences);
    law_bests_are_those_of_the_best_day(p, n);
    lemma_same_sum(n, |k: int| study(p, k).reviews as int, |k: int| h[k].reviews as int);
    lemma_achievements(v, user, display, reviews, clock, week, now, legacy_until, preferences, Metric::DayReviews);
}

/// The achievements of streaks go by the longest streak of the history.
pub proof fn law_the_best_streak_is_that_of_the_history(
    v: Profile,
    user: Seq<char>,
    display: Seq<char>,
    reviews: Seq<Review>,
    clock: Clock,
    week: Week,
    now: int,
    legacy_until: Option<i64>,
    preferences: Seq<FreezePreference>,
)
    requires
        shows_profile(v, user, display, reviews, clock, week, now, legacy_until, preferences),
    ensures
        v.lifetime.best_streak == most_of(v.history@.len(), |k: int| v.history@[k].streak as int),
        tell_of(v, "streak-"@, most_of(v.history@.len(), |k: int| v.history@[k].streak as int)),
{
    let p = past_of(user, reviews, clock, now, legacy_until, preferences);
    let n = day_count(p);
    let h = v.history@;
    lemma_shown_days(v, user, display, reviews, clock, week, now, legacy_until, preferences);
    law_streaks_freezes_and_quests_are_counted(p, n);
    lemma_same_sum(n, |k: int| evening(p, k).streak as int, |k: int| h[k].streak as int);
    lemma_achievements(v, user, display, reviews, clock, week, now, legacy_until, preferences, Metric::Streak);
}

/// The achievements that count hours go by the time of all days of the history,
/// where no day has a negative time.
pub proof fn law_hours_are_those_of_the_history(
    v: Profile,
    user: Seq<char>,
    display: Seq<char>,
    reviews: Seq<Review>,
    clock: Clock,
    week: Week,
    now: int,
    legacy_until: Option<i64>,
    preferences: Seq<FreezePreference>,
)
    requires
        shows_profile(v, user, display, reviews, clock, week, now, legacy_until, preferences),
        forall|k: int| 0 <= k < v.history@.len() ==> (#[trigger] v.history@[k]).time_ms >= 0,
    ensures
        v.lifetime.hours == sum_of(v.history@.len(), |k: int| v.history@[k].time_ms as int) / 3_600_000,
        tell_of(v, "hours-"@, sum_of(v.history@.len(), |k: int| v.history@[k].time_ms as int) / 3_600_000),
{
    let p = past_of(user, reviews, clock, now, legacy_until, preferences);
    let n = day_count(p);
    let h = v.history@;
    lemma_shown_days(v, user, display, reviews, clock, week, now, legacy_until, preferences);
    law_counts_are_sums_over_the_days(p, n);
    lemma_same_sum(n, |k: int| study(p, k).time_ms, |k: int| h[k].time_ms as int);
    assert forall|k: int| 0 <= k < n implies (#[trigger] study(p, k)).time_ms >= 0 by {
        assert(h[k].time_ms >= 0);
    }
    lemma_hours_grow(p, n);
    lemma_achievements(v, user, display, reviews, clock, week, now, legacy_until, preferences, Metric::Hours);
}

/// The achievements that count cards go by the days: new ones, as the history shows
/// them, mature ones, forgotten ones and different ones.
pub proof fn law_cards_are_those_of_the_days(
    v: Profile,
    user: Seq<char>,
    display: Seq<char>,
    reviews: Seq<Review>,
    clock: Clock,
    week: Week,
    now: int,
    legacy_until: Option<i64>,
    preferences: Seq<FreezePreference>,
)
    requires
        shows_profile(v, user, display, reviews, clock, week, now, legacy_until, preferences),
    ensures
        ({
            let p = past_of(user, reviews, clock, now, legacy_until, preferences);
            let n = v.history@.len();
            &&& tell_of(v, "newcards-"@, sum_of(n, |k: int| v.history@[k].new_cards as int))
            &&& tell_of(v, "mature-"@, sum_of(n, |k: int| study(p, k).mature as int))
            &&& tell_of(v, "relearns-"@, sum_of(n, |k: int| study(p, k).relearns as int))
            &&& tell_of(v, "distinctcards-"@, sum_of(n, |k: int| study(p, k).first_seen as int))
        }),
{
    let p = past_of(user, reviews, clock, now, legacy_until, preferences);
    let n = day_count(p);
    let h = v.history@;
    lemma_shown_days(v, user, display, reviews, clock, week, now, legacy_until, preferences);
    law_counts_are_sums_over_the_days(p, n);
    lemma_same_sum(n, |k: int| study(p, k).new_cards as int, |k: int| h[k].new_cards as int);
    lemma_achievements(v, user, display, reviews, clock, week, now, legacy_until, preferences, Metric::NewCards);
    lemma_achievements(v, user, display, reviews, clock, week, now, legacy_until, preferences, Metric::Mature);
    lemma_achievements(v, user, display, reviews, clock, week, now, legacy_until, preferences, Metric::Relearns);
    lemma_achievements(v, user, display, reviews, clock, week, now, legacy_until, preferences, Metric::DistinctCards);
}

/// The achievements that count days go by the days of study: all of them, those on
/// which there was study early or late, and the years that have gone by since the
/// first one.
pub proof fn law_days_of_study_are_counted(
    v: Profile,
    user: Seq<char>,
    display: Seq<char>,
    reviews: Seq<Review>,
    clock: Clock,
    week: Week,
    now: int,
    legacy_until: Option<i64>,
    preferences: Seq<FreezePreference>,
)
    requires
        shows_profile(v, user, display, reviews, clock, week, now, legacy_until, preferences),
    ensures
        ({
            let p = past_of(user, reviews, clock, now, legacy_until, preferences);
            let n = v.history@.len();
            &&& v.lifetime.days_active == times(n, |k: int| active(p, k))
            &&& tell_of(v, "daysactive-"@, times(n, |k: int| active(p, k)))
            &&& tell_of(v, "earlydays-"@, times(n, |k: int| study(p, k).early))
            &&& tell_of(v, "latedays-"@, times(n, |k: int| study(p, k).late))
            &&& n > 0 ==> tell_of(v, "years-"@, (n - 1) / 365)
        }),
{
    let p = past_of(user, reviews, clock, now, legacy_until, preferences);
    let n = day_count(p);
    let h = v.history@;
    lemma_shown_days(v, user, display, reviews, clock, week, now, legacy_until, preferences);
    law_counts_are_sums_over_the_days(p, n);
    lemma_achievements(v, user, display, reviews, clock, week, now, legacy_until, preferences, Metric::DaysActive);
    lemma_achievements(v, user, display, reviews, clock, week, now, legacy_until, preferences, Metric::EarlyDays);
    lemma_achievements(v, user, display, reviews, clock, week, now, legacy_until, preferences, Metric::LateDays);
    lemma_achievements(v, user, display, reviews, clock, week, now, legacy_until, preferences, Metric::Years);
}

/// The achievements of special days go by the days of study on a weekend, the days of
/// a hundred reviews or more in under five seconds each, as the history shows them,
/// the days of study on the first of January and on the date of the first day, and the
/// days of study after a break of a month.
pub proof fn law_special_days_are_counted(
    v: Profile,
    user: Seq<char>,
    display: Seq<char>,
    reviews: Seq<Review>,
    clock: Clock,
    week: Week,
    now: int,
    legacy_until: Option<i64>,
    preferences: Seq<FreezePreference>,
)
    requires
        shows_profile(v, user, display, reviews, clock, week, now, legacy_until, preferences),
    ensures
        ({
            let p = past_of(user, reviews, clock, now, legacy_until, preferences);
            let n = v.history@.len();
            &&& tell_of(v, "weekenddays-"@, times(n, |k: int| active(p, k) && (p.first + k + 3) % 7 >= 5))
            &&& tell_of(
                v,
                "fastdays-"@,
                times(
                    n,
                    |k: int| v.history@[k].reviews >= 100 && v.history@[k].time_ms < 5_000 * v.history@[k].reviews,
                ),
            )
            &&& tell_of(
                v,
                "newyeardays-"@,
                times(n, |k: int| active(p, k) && civil_of(p.first + k).1 == 1 && civil_of(p.first + k).2 == 1),
            )
            &&& tell_of(
                v,
                "anniversaries-"@,
                times(
                    n,
                    |k: int|
                        active(p, k) && civil_of(p.first + k).0 > civil_of(p.first).0 && civil_of(p.first + k).1
                            == civil_of(p.first).1 && civil_of(p.first + k).2 == civil_of(p.first).2,
                ),
            )
            &&& tell_of(v, "comebacks-"@, times(n, |k: int| comes_back(p, k)))
        }),
{
    let p = past_of(user, reviews, clock, now, legacy_until, preferences);
    let n = day_count(p);
    let h = v.history@;
    lemma_shown_days(v, user, display, reviews, clock, week, now, legacy_until, preferences);
    law_days_are_counted_by_their_kind(p, n);
    lemma_same_times(n, |k: int| study(p, k).reviews >= 100 && study(p, k).time_ms < 5_000 * study(p, k).reviews, |k: int| h[k].reviews >= 100 && h[k].time_ms < 5_000 * h[k].reviews);
    lemma_achievements(v, user, display, reviews, clock, week, now, legacy_until, preferences, Metric::WeekendDays);
    lemma_achievements(v, user, display, reviews, clock, week, now, legacy_until, preferences, Metric::FastDays);
    lemma_achievements(v, user, display, reviews, clock, week, now, legacy_until, preferences, Metric::NewYearDays);
    lemma_achievements(v, user, display, reviews, clock, week, now, legacy_until, preferences, Metric::Anniversaries);
    lemma_achievements(v, user, display, reviews, clock, week, now, legacy_until, preferences, Metric::Comebacks);
}

/// The achievements of bests go by the longest combo, interval and session of any day,
/// and the most sessions of one.
pub proof fn law_bests_are_those_of_the_days(
    v: Profile,
    user: Seq<char>,
    display: Seq<char>,
    reviews: Seq<Review>,
    clock: Clock,
    week: Week,
    now: int,
    legacy_until: Option<i64>,
    preferences: Seq<FreezePreference>,
)
    requires
        shows_profile(v, user, display, reviews, clock, week, now, legacy_until, preferences),
    ensures
        ({
            let p = past_of(user, reviews, clock, now, legacy_until, preferences);
            let n = v.history@.len();
            &&& v.lifetime.best_combo == most_of(n, |k: int| study(p, k).max_combo as int)
            &&& tell_of(v, "combo-"@, most_of(n, |k: int| study(p, k).max_combo as int))
            &&& tell_of(v, "maxinterval-"@, most_of(n, |k: int| study(p, k).max_ivl))
            &&& tell_of(v, "longestsession-"@, most_of(n, |k: int| study(p, k).longest_session_ms) / 60_000)
            &&& tell_of(v, "maxsessions-"@, most_of(n, |k: int| study(p, k).sessions as int))
        }),
{
    let p = past_of(user, reviews, clock, now, legacy_until, preferences);
    let n = day_count(p);
    let h = v.history@;
    lemma_shown_days(v, user, display, reviews, clock, week, now, legacy_until, preferences);
    law_bests_are_those_of_the_best_day(p, n);
    lemma_achievements(v, user, display, reviews, clock, week, now, legacy_until, preferences, Metric::Combo);
    lemma_achievements(v, user, display, reviews, clock, week, now, legacy_until, preferences, Metric::MaxInterval);
    lemma_achievements(v, user, display, reviews, clock, week, now, legacy_until, preferences, Metric::LongestSession);
    lemma_achievements(v, user, display, reviews, clock, week, now, legacy_until, preferences, Metric::MaxSessions);
}

/// The achievements of quests go by the quests that the days completed and by the days
/// that completed all of them; those of freezes by the days of the history that a
/// freeze saved.
pub proof fn law_quests_and_freezes_are_counted(
    v: Profile,
    user: Seq<char>,
    display: Seq<char>,
    reviews: Seq<Review>,
    clock: Clock,
    week: Week,
    now: int,
    legacy_until: Option<i64>,
    preferences: Seq<FreezePreference>,
)
    requires
        shows_profile(v, user, display, reviews, clock, week, now, legacy_until, preferences),
    ensures
        ({
            let p = past_of(user, reviews, clock, now, legacy_until, preferences);
            let n = v.history@.len();
            let done = sum_of(
                n,
                |k: int|
                    if active(p, k) {
                        completed(evening(p, k).quests, study(p, k)) as int
                    } else {
                        0
                    },
            );
            &&& v.lifetime.quests == done
            &&& tell_of(v, "quests-"@, done)
            &&& tell_of(
                v,
                "perfectdays-"@,
                times(
                    n,
                    |k: int|
                        active(p, k) && completed(evening(p, k).quests, study(p, k)) == evening(p, k).quests.len(),
                ),
            )
            &&& tell_of(v, "freezesused-"@, times(n, |k: int| v.history@[k].frozen))
        }),
{
    let p = past_of(user, reviews, clock, now, legacy_until, preferences);
    let n = day_count(p);
    let h = v.history@;
    lemma_shown_days(v, user, display, reviews, clock, week, now, legacy_until, preferences);
    law_streaks_freezes_and_quests_are_counted(p, n);
    lemma_same_times(n, |k: int| evening(p, k).frozen, |k: int| h[k].frozen);
    lemma_achievements(v, user, display, reviews, clock, week, now, legacy_until, preferences, Metric::Quests);
    lemma_achievements(v, user, display, reviews, clock, week, now, legacy_until, preferences, Metric::PerfectDays);
    lemma_achievements(v, user, display, reviews, clock, week, now, legacy_until, preferences, Metric::FreezesUsed);
}

/// The achievements of months go by the month with the most reviews: no days of one
/// month have more, and some have as many.
pub proof fn law_the_best_month_is_that_of_the_days(
    v: Profile,
    user: Seq<char>,
    display: Seq<char>,
    reviews: Seq<Review>,
    clock: Clock,
    week: Week,
    now: int,
    legacy_until: Option<i64>,
    preferences: Seq<FreezePreference>,
)
    requires
        shows_profile(v, user, display, reviews, clock, week, now, legacy_until, preferences),
    ensures
        ({
            let p = past_of(user, reviews, clock, now, legacy_until, preferences);
            let n = v.history@.len();
            exists|best: int|
                {
                    &&& #[trigger] tell_of(v, "bestmonth-"@, best)
                    &&& forall|from: int, to: int|
                        0 <= from <= to < n && in_one_month(p, from, to) ==> #[trigger] reviews_between(p, from, to)
                            <= best
                    &&& best == 0 || exists|from: int, to: int|
                        0 <= from <= to < n && in_one_month(p, from, to) && #[trigger] reviews_between(p, from, to)
                            == best
                }
        }),
{
    let p = past_of(user, reviews, clock, now, legacy_until, preferences);
    let n = day_count(p);
    let h = v.history@;
    lemma_shown_days(v, user, display, reviews, clock, week, now, legacy_until, preferences);
    law_the_best_month_is_not_beaten(p, n);
    lemma_achievements(v, user, display, reviews, clock, week, now, legacy_until, preferences, Metric::BestMonth);
}

/// An achievement that counts reviews is unlocked on the date of the first day of
/// the history up to which so many reviews were made.
pub proof fn law_reviews_unlock_on_the_day(
    v: Profile,
    user: Seq<char>,
    display: Seq<char>,
    reviews: Seq<Review>,
    clock: Clock,
    week: Week,
    now: int,
    legacy_until: Option<i64>,
    preferences: Seq<FreezePreference>,
    i: int,
    n: nat,
) -> (k: int)
    requires
        shows_profile(v, user, display, reviews, clock, week, now, legacy_until, preferences),
        0 <= i < v.achievements@.len(),
        v.achievements@[i].id@ == "reviews-"@ + decimal(n),
        v.achievements@[i].unlocked is Some,
    ensures
        0 <= k < v.history@.len(),
        (v.achievements@[i].unlocked->0)@ == v.history@[k].date@,
        sum_of((k + 1) as nat, |j: int| v.history@[j].reviews as int) >= n,
        sum_of(k as nat, |j: int| v.history@[j].reviews as int) < n,
{
    let p = past_of(user, reviews, clock, now, legacy_until, preferences);
    let all = day_count(p);
    let h = v.history@;
    let d = definitions()[i];
    lemma_shown_days(v, user, display, reviews, clock, week, now, legacy_until, preferences);
    lemma_prefix(Metric::Reviews);
    assert(id_of(d.metric, d.threshold) == id_of(Metric::Reviews, n));
    law_names_tell_achievements_apart(d.metric, d.threshold, Metric::Reviews, n);
    law_achievements_unlock_when_reached(p, all, i);
    law_every_achievement_asks_for_something(i);
    let day = replayed(p, all).unlocked[i]->0;
    let k = day - p.first;
    law_history_tells_of_each_day(p, all, k);
    assert(history_views(h)[k] == h[k]@);
    law_counts_are_sums_over_the_days(p, (k + 1) as nat);
    law_counts_are_sums_over_the_days(p, k as nat);
    lemma_same_sum((k + 1) as nat, |j: int| study(p, j).reviews as int, |j: int| h[j].reviews as int);
    lemma_same_sum(k as nat, |j: int| study(p, j).reviews as int, |j: int| h[j].reviews as int);
    if k > 0 {
        assert(evening(p, k - 1) == replayed(p, k as nat));
    }
    k
}

} // verus!
