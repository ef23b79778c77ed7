//! What a profile shows of today, of the running periods and of the best ones,
//! read against the history.

use vstd::prelude::*;
use crate::calendar::{civil_of, law_civil_inverts_day_number, lemma_within_year, weekday, Clock};
use crate::freezes::FreezePreference;
use crate::achievements::{definitions, description_of, id_of, reward_of};
use crate::days::study_on;
use crate::game::{achievement_events, event_views, law_totals_are_sums_over_the_days, level_events, past_of, quest_events, scores_of, shows_profile, shows_quest, AchievementView, EventModel, Profile};
use crate::levels::{law_filling_a_level_begins_the_next, stands_at};
use crate::lifetime::{evening, law_history_tells_of_each_day, lemma_same_sum, study, sum_of};
use crate::quests::{law_quests_are_distinct, seed_for, QuestKind, Review};
use crate::day_table::tally;
use crate::records::{best_of, is_top, lemma_top_exists, period_sum, same_span, score_xp, span_key, spans_of, Span};
use crate::replay::{day_count, history_views, law_history_has_every_day, replay_day, replayed, HistoryDay, HistoryModel, Past, ReplayModel};
use crate::tallies::{follows, law_a_combo_is_a_run_of_reviews, law_days_of_study_have_reviews};
use crate::text::decimal;
use crate::week::{iso_week_of, Week};

verus! {

/// The days that are shown are those from the first to today, and the last one
/// is today.
proof fn lemma_shown_history(
    v: Profile,
    user: Seq<char>,
    display: Seq<char>,
    reviews: Seq<Review>,
    clock: Clock,
    week: Week,
    now: int,
    legacy_until: Option<i64>,
    preferences: Seq<FreezePreference>,
)
    requires
        shows_profile(v, user, display, reviews, clock, week, now, legacy_until, preferences),
    ensures
        ({
            let p = past_of(user, reviews, clock, now, legacy_until, preferences);
            let m = replayed(p, day_count(p));
            &&& v.history@.len() == day_count(p)
            &&& m.history.len() == day_count(p)
            &&& forall|k: int|
                0 <= k < v.history@.len() ==> {
                    &&& (#[trigger] v.history@[k]).at == clock.start_of(p.first + k)
                    &&& v.history@[k].xp == m.history[k].xp
                    &&& v.history@[k].reviews == study(p, k).reviews
                    &&& v.history@[k].reviews == m.history[k].reviews
                    &&& v.history@[k].time_ms == study(p, k).time_ms
                    &&& v.history@[k].new_cards == study(p, k).new_cards
                    &&& v.history@[k].streak == evening(p, k).streak
                    &&& v.history@[k].frozen == m.history[k].frozen
                    &&& v.history@[k].date@ == m.history[k].date
                }
        }),
{
    let p = past_of(user, reviews, clock, now, legacy_until, preferences);
    let n = day_count(p);
    let m = replayed(p, n);
    law_history_has_every_day(p, n);
    assert(history_views(v.history@) == m.history);
    assert forall|k: int| 0 <= k < v.history@.len() implies {
        &&& (#[trigger] v.history@[k]).at == clock.start_of(p.first + k)
        &&& v.history@[k].xp == m.history[k].xp
        &&& v.history@[k].reviews == study(p, k).reviews
        &&& v.history@[k].reviews == m.history[k].reviews
        &&& v.history@[k].time_ms == study(p, k).time_ms
        &&& v.history@[k].new_cards == study(p, k).new_cards
        &&& v.history@[k].streak == evening(p, k).streak
        &&& v.history@[k].frozen == m.history[k].frozen
        &&& v.history@[k].date@ == m.history[k].date
    } by {
        law_history_tells_of_each_day(p, n, k);
        assert(history_views(v.history@)[k] == v.history@[k]@);
    }
}

/// What is shown of today is the last day of the history, where there is one: its
/// reviews, minutes, new cards, XP and streak. The streak is at risk where there is
/// one and today has no review.
pub proof fn law_today_is_the_last_day(
    v: Profile,
    user: Seq<char>,
    display: Seq<char>,
    reviews: Seq<Review>,
    clock: Clock,
    week: Week,
    now: int,
    legacy_until: Option<i64>,
    preferences: Seq<FreezePreference>,
)
    requires
        shows_profile(v, user, display, reviews, clock, week, now, legacy_until, preferences),
        v.history@.len() > 0,
    ensures
        ({
            let last = v.history@.last();
            &&& v.today.reviews == last.reviews
            &&& v.today.new_cards == last.new_cards
            &&& v.today.xp == last.xp
            &&& v.periods.day == last.xp
            &&& last.time_ms >= 0 ==> v.today.minutes * 60_000 <= last.time_ms < v.today.minutes * 60_000 + 60_000
            &&& v.streak == last.streak
            &&& v.at_risk == (last.streak > 0 && last.reviews == 0)
            &&& v.day_ends_at == last.at + 86_400_000
            &&& last.at <= now < v.day_ends_at
            &&& v.lifetime.first_day_at == v.history@[0].at
            &&& forall|k: int|
                0 < k < v.history@.len() ==> (#[trigger] v.history@[k]).at == v.history@[k - 1].at + 86_400_000
        }),
{
    let p = past_of(user, reviews, clock, now, legacy_until, preferences);
    let n = day_count(p);
    lemma_shown_history(v, user, display, reviews, clock, week, now, legacy_until, preferences);
    law_days_of_study_have_reviews(reviews, clock, seed_for(user), p.today);
    assert(p.first + n - 1 == p.today);
    assert(v.history@[n - 1] == v.history@.last());
    assert(evening(p, n - 1) == replayed(p, n));
    assert forall|k: int| 0 < k < v.history@.len() implies (#[trigger] v.history@[k]).at == v.history@[k - 1].at
        + 86_400_000 by {
        assert(v.history@[k - 1].at == clock.start_of(p.first + k - 1));
    }
}

/// The heatmap shows the last days as the history does, and the days before it
/// without XP.
pub proof fn law_the_heatmap_shows_the_history(
    v: Profile,
    user: Seq<char>,
    display: Seq<char>,
    reviews: Seq<Review>,
    clock: Clock,
    week: Week,
    now: int,
    legacy_until: Option<i64>,
    preferences: Seq<FreezePreference>,
    back: int,
)
    requires
        shows_profile(v, user, display, reviews, clock, week, now, legacy_until, preferences),
        0 <= back < v.heatmap@.len(),
    ensures
        ({
            let cell = v.heatmap@[v.heatmap@.len() - 1 - back];
            let n = v.history@.len() as int;
            &&& back < n ==> {
                &&& cell.date@ == v.history@[n - 1 - back].date@
                &&& cell.reviews == v.history@[n - 1 - back].reviews
                &&& cell.xp == v.history@[n - 1 - back].xp
                &&& cell.frozen == v.history@[n - 1 - back].frozen
            }
            &&& n <= back ==> cell.xp == 0 && !cell.frozen
        }),
{
    let p = past_of(user, reviews, clock, now, legacy_until, preferences);
    let n = day_count(p) as int;
    lemma_shown_history(v, user, display, reviews, clock, week, now, legacy_until, preferences);
    let len = v.heatmap@.len() as int;
    let i = len - 1 - back;
    let cell = v.heatmap@[i];
    let day = p.today - back;
    if back < n {
        let k = n - 1 - back;
        assert(p.first + k == day);
        assert(v.history@[k].xp == replayed(p, n as nat).history[k].xp);
        law_history_tells_of_each_day(p, n as nat, k);
    }
}

/// The level goes by the XP: what is missing from the next one is what it takes
/// less what has been gathered.
pub proof fn law_the_level_goes_by_the_xp(
    v: Profile,
    user: Seq<char>,
    display: Seq<char>,
    reviews: Seq<Review>,
    clock: Clock,
    week: Week,
    now: int,
    legacy_until: Option<i64>,
    preferences: Seq<FreezePreference>,
)
    requires
        shows_profile(v, user, display, reviews, clock, week, now, legacy_until, preferences),
    ensures
        v.xp_total == sum_of(v.history@.len(), |k: int| v.history@[k].xp as int),
        v.periods.all == v.xp_total,
        v.xp_into_level < v.xp_for_next,
        stands_at(v.xp_total as nat, v.level as nat, v.xp_into_level as nat),
        stands_at((v.xp_total + (v.xp_for_next - v.xp_into_level)) as nat, (v.level + 1) as nat, 0),
{
    let p = past_of(user, reviews, clock, now, legacy_until, preferences);
    let n = day_count(p);
    lemma_shown_history(v, user, display, reviews, clock, week, now, legacy_until, preferences);
    law_filling_a_level_begins_the_next(
        v.xp_total as nat,
        v.level as nat,
        v.xp_into_level as nat,
        (v.xp_for_next - v.xp_into_level) as nat,
    );
    law_totals_are_sums_over_the_days(p, n);
    let h = replayed(p, n).history;
    lemma_tally_of_scores(h, p.first);
    lemma_same_sum(n, |k: int| h[k].xp as int, |k: int| v.history@[k].xp as int);
}

proof fn lemma_tally_of_scores(h: Seq<HistoryModel>, first: int)
    ensures
        tally(score_xp(scores_of(h, first))) == sum_of(h.len(), |k: int| h[k].xp as int),
    decreases h.len(),
{
    let x = score_xp(scores_of(h, first));
    if h.len() > 0 {
        let before = h.drop_last();
        lemma_tally_of_scores(before, first);
        assert(x.drop_last() =~= score_xp(scores_of(before, first)));
        lemma_same_sum(before.len(), |k: int| before[k].xp as int, |k: int| h[k].xp as int);
    } else {
        assert(x =~= Seq::<nat>::empty());
    }
}

/// The XP of a day, where it lies in a range and starts in the same span as an
/// instant.
spec fn xp_within(h: Seq<HistoryModel>, first: int, span: Span, clock: Clock, week: Week, from: int, now: int) -> spec_fn(int) -> int {
    |k: int|
        if from <= first + k && same_span(span, week, clock.start_of(first + k), now) {
            h[k].xp as int
        } else {
            0
        }
}

proof fn lemma_period(h: Seq<HistoryModel>, first: int, span: Span, clock: Clock, week: Week, from: int, to: int, now: int)
    requires
        first + h.len() - 1 <= to,
    ensures
        period_sum(scores_of(h, first), span, clock, week, from, to, now) == sum_of(
            h.len(),
            xp_within(h, first, span, clock, week, from, now),
        ),
    decreases h.len(),
{
    if h.len() > 0 {
        let before = h.drop_last();
        lemma_period(before, first, span, clock, week, from, to, now);
        assert(scores_of(h, first).drop_last() =~= scores_of(before, first));
        let f = xp_within(before, first, span, clock, week, from, now);
        let g = xp_within(h, first, span, clock, week, from, now);
        assert forall|k: int| 0 <= k < before.len() implies #[trigger] f(k) == g(k) by {
            assert(before[k] == h[k]);
        }
        lemma_same_sum(before.len(), f, g);
        let s = scores_of(h, first).last();
        assert(s.day == first + h.len() - 1);
        assert(s.xp == h.last().xp);
    } else {
        assert(scores_of(h, first).len() == 0);
    }
}

/// The XP of the running week, month and year is that of the days of the history
/// which start in the same week, month or year as now, of the last nine, forty or
/// four hundred days and today.
pub proof fn law_running_periods_are_of_the_history(
    v: Profile,
    user: Seq<char>,
    display: Seq<char>,
    reviews: Seq<Review>,
    clock: Clock,
    week: Week,
    now: int,
    legacy_until: Option<i64>,
    preferences: Seq<FreezePreference>,
)
    requires
        shows_profile(v, user, display, reviews, clock, week, now, legacy_until, preferences),
    ensures
        ({
            let n = v.history@.len();
            let h = v.history@;
            &&& v.week_xp == v.periods.week
            &&& v.periods.week == sum_of(
                n,
                |k: int|
                    if k >= n - 10 && iso_week_of(week.date_of(h[k].at as int)) == iso_week_of(week.date_of(now)) {
                        h[k].xp as int
                    } else {
                        0
                    },
            )
            &&& v.periods.month == sum_of(
                n,
                |k: int|
                    if k >= n - 41 && civil_of(week.date_of(h[k].at as int)).0 == civil_of(week.date_of(now)).0
                        && civil_of(week.date_of(h[k].at as int)).1 == civil_of(week.date_of(now)).1 {
                        h[k].xp as int
                    } else {
                        0
                    },
            )
            &&& v.periods.year == sum_of(
                n,
                |k: int|
                    if k >= n - 401 && civil_of(week.date_of(h[k].at as int)).0 == civil_of(week.date_of(now)).0 {
                        h[k].xp as int
                    } else {
                        0
                    },
            )
        }),
{
    let p = past_of(user, reviews, clock, now, legacy_until, preferences);
    let n = day_count(p);
    let h = v.history@;
    let m = replayed(p, n).history;
    lemma_shown_history(v, user, display, reviews, clock, week, now, legacy_until, preferences);
    if n > 0 {
        assert(p.first + n - 1 == p.today);
    }
    if n > 0 {
        lemma_period(m, p.first, Span::Week, clock, week, p.today - 9, p.today, now);
        lemma_period(m, p.first, Span::Month, clock, week, p.today - 40, p.today, now);
        lemma_period(m, p.first, Span::Year, clock, week, p.today - 400, p.today, now);
        lemma_same_sum(
            n,
            xp_within(m, p.first, Span::Week, clock, week, p.today - 9, now),
            |k: int|
                if k >= n - 10 && iso_week_of(week.date_of(h[k].at as int)) == iso_week_of(week.date_of(now)) {
                    h[k].xp as int
                } else {
                    0
                },
        );
        lemma_same_sum(
            n,
            xp_within(m, p.first, Span::Month, clock, week, p.today - 40, now),
            |k: int|
                if k >= n - 41 && civil_of(week.date_of(h[k].at as int)).0 == civil_of(week.date_of(now)).0 && civil_of(
                    week.date_of(h[k].at as int),
                ).1 == civil_of(week.date_of(now)).1 {
                    h[k].xp as int
                } else {
                    0
                },
        );
        lemma_same_sum(
            n,
            xp_within(m, p.first, Span::Year, clock, week, p.today - 400, now),
            |k: int|
                if k >= n - 401 && civil_of(week.date_of(h[k].at as int)).0 == civil_of(week.date_of(now)).0 {
                    h[k].xp as int
                } else {
                    0
                },
        );
    } else {
        assert(scores_of(m, p.first).len() == 0);
    }
}

/// The number of the span that a day of the history belongs to.
pub open spec fn span_on(first: int, span: Span, clock: Clock, week: Week, k: int) -> int {
    span_key(span, week, first + k, clock.start_of(first + k))
}

/// The XP of a day, where it belongs to a span.
spec fn xp_in_span(h: Seq<HistoryModel>, first: int, span: Span, clock: Clock, week: Week, key: int) -> spec_fn(int) -> int {
    |k: int|
        if span_on(first, span, clock, week, k) == key {
            h[k].xp as int
        } else {
            0
        }
}

proof fn lemma_span(h: Seq<HistoryModel>, first: int, span: Span, clock: Clock, week: Week, key: int)
    ensures
        ({
            let spans = spans_of(scores_of(h, first), span, clock, week);
            let xp = sum_of(h.len(), xp_in_span(h, first, span, clock, week, key));
            &&& spans.dom().contains(key) ==> spans[key].xp == xp && xp > 0 && exists|k: int|
                0 <= k < h.len() && #[trigger] span_on(first, span, clock, week, k) == key
            &&& !spans.dom().contains(key) ==> xp == 0
            &&& spans.dom().finite()
        }),
    decreases h.len(),
{
    if h.len() > 0 {
        let before = h.drop_last();
        lemma_span(before, first, span, clock, week, key);
        assert(scores_of(h, first).drop_last() =~= scores_of(before, first));
        let f = xp_in_span(before, first, span, clock, week, key);
        let g = xp_in_span(h, first, span, clock, week, key);
        assert forall|k: int| 0 <= k < before.len() implies #[trigger] f(k) == g(k) by {
            assert(before[k] == h[k]);
        }
        lemma_same_sum(before.len(), f, g);
        let s = scores_of(h, first).last();
        assert(s.day == first + h.len() - 1);
        assert(s.xp == h.last().xp);
        assert(span_on(first, span, clock, week, h.len() - 1) == span_key(span, week, s.day, clock.start_of(s.day)));
    } else {
        assert(scores_of(h, first).len() == 0);
    }
}

proof fn lemma_best_span(h: Seq<HistoryModel>, first: int, span: Span, clock: Clock, week: Week)
    ensures
        ({
            let best = best_of(spans_of(scores_of(h, first), span, clock, week)).xp;
            &&& forall|key: int|
                sum_of(h.len(), #[trigger] xp_in_span(h, first, span, clock, week, key)) <= best
            &&& best == 0 || exists|k: int|
                0 <= k < h.len() && best == sum_of(
                    h.len(),
                    xp_in_span(h, first, span, clock, week, #[trigger] span_on(first, span, clock, week, k)),
                )
        }),
{
    let spans = spans_of(scores_of(h, first), span, clock, week);
    lemma_span(h, first, span, clock, week, 0);
    if spans.dom().len() > 0 {
        let some = lemma_top_exists(spans);
        let top = choose|key: int| is_top(spans, key);
        assert(is_top(spans, top));
        assert(spans.dom().contains(top));
        lemma_span(h, first, span, clock, week, top);
        let k = choose|k: int| 0 <= k < h.len() && #[trigger] span_on(first, span, clock, week, k) == top;
        assert(spans[top].xp == sum_of(
            h.len(),
            xp_in_span(h, first, span, clock, week, span_on(first, span, clock, week, k)),
        ));
    } else {
        assert(spans.dom() =~= Set::empty());
        assert forall|key: int| !is_top(spans, key) by {
            assert(!spans.dom().contains(key));
        }
    }
    assert forall|key: int| sum_of(h.len(), #[trigger] xp_in_span(h, first, span, clock, week, key)) <= best_of(
        spans,
    ).xp by {
        lemma_span(h, first, span, clock, week, key);
        if spans.dom().contains(key) {
            assert(spans.dom().len() > 0) by {
                if spans.dom().len() == 0 {
                    assert(spans.dom() =~= Set::empty());
                }
            }
            let top = choose|k: int| is_top(spans, k);
            assert(is_top(spans, top));
        } else {
            if exists|k: int| is_top(spans, k) {
                let top = choose|k: int| is_top(spans, k);
                lemma_span(h, first, span, clock, week, top);
            }
        }
    }
}

/// Days belong to the same week, month or year exactly where their numbers say so.
proof fn lemma_same_numbers(week: Week, a: int, b: int)
    ensures
        span_key(Span::Week, week, 0, a) == span_key(Span::Week, week, 0, b) <==> iso_week_of(week.date_of(a))
            == iso_week_of(week.date_of(b)),
        span_key(Span::Month, week, 0, a) == span_key(Span::Month, week, 0, b) <==> civil_of(week.date_of(a)).0
            == civil_of(week.date_of(b)).0 && civil_of(week.date_of(a)).1 == civil_of(week.date_of(b)).1,
{
    let x = week.date_of(a);
    let y = week.date_of(b);
    lemma_week_number(x);
    lemma_week_number(y);
    lemma_month_number(x);
    lemma_month_number(y);
    lemma_pairs(iso_week_of(x).0, iso_week_of(x).1, iso_week_of(y).0, iso_week_of(y).1);
    lemma_pairs(civil_of(x).0, civil_of(x).1, civil_of(y).0, civil_of(y).1);
}

proof fn lemma_pairs(a: int, b: int, c: int, d: int)
    requires
        0 <= b < 100,
        0 <= d < 100,
    ensures
        a * 100 + b == c * 100 + d <==> a == c && b == d,
{
}

proof fn lemma_month_number(day: int)
    ensures
        1 <= civil_of(day).1 <= 12,
{
    law_civil_inverts_day_number(day);
}

proof fn lemma_week_number(day: int)
    ensures
        1 <= iso_week_of(day).1 <= 53,
{
    let thursday = day - weekday(day) + 3;
    let (year, month, date) = civil_of(thursday);
    law_civil_inverts_day_number(thursday);
    lemma_within_year(year, month, date);
}

/// The XP of the days that belong to the same week, month or year as a day.
pub open spec fn together(h: Seq<HistoryDay>, same: spec_fn(int, int) -> bool, k: int) -> int {
    sum_of(
        h.len(),
        |j: int|
            if same(h[j].at as int, h[k].at as int) {
                h[j].xp as int
            } else {
                0
            },
    )
}

/// Whether two instants fall into the same week.
pub open spec fn in_a_week(week: Week) -> spec_fn(int, int) -> bool {
    |a: int, b: int| iso_week_of(week.date_of(a)) == iso_week_of(week.date_of(b))
}

/// Whether two instants fall into the same month.
pub open spec fn in_a_month(week: Week) -> spec_fn(int, int) -> bool {
    |a: int, b: int|
        civil_of(week.date_of(a)).0 == civil_of(week.date_of(b)).0 && civil_of(week.date_of(a)).1 == civil_of(
            week.date_of(b),
        ).1
}

/// Whether two instants fall into the same year.
pub open spec fn in_a_year(week: Week) -> spec_fn(int, int) -> bool {
    |a: int, b: int| civil_of(week.date_of(a)).0 == civil_of(week.date_of(b)).0
}

/// Whether a number is the most XP that days of the history have which belong
/// together.
pub open spec fn is_most(h: Seq<HistoryDay>, same: spec_fn(int, int) -> bool, best: int) -> bool {
    &&& forall|k: int| 0 <= k < h.len() ==> #[trigger] together(h, same, k) <= best
    &&& best == 0 || exists|k: int| 0 <= k < h.len() && #[trigger] together(h, same, k) == best
}

proof fn lemma_most(
    h: Seq<HistoryDay>,
    m: Seq<HistoryModel>,
    first: int,
    span: Span,
    clock: Clock,
    week: Week,
    same: spec_fn(int, int) -> bool,
)
    requires
        h.len() == m.len(),
        forall|k: int| 0 <= k < h.len() ==> (#[trigger] h[k]).at == clock.start_of(first + k) && h[k].xp == m[k].xp,
        forall|j: int, k: int|
            0 <= j < h.len() && 0 <= k < h.len() ==> ((#[trigger] span_on(first, span, clock, week, j)) == (
            #[trigger] span_on(first, span, clock, week, k)) <==> same(h[j].at as int, h[k].at as int)),
    ensures
        is_most(h, same, best_of(spans_of(scores_of(m, first), span, clock, week)).xp),
{
    let best = best_of(spans_of(scores_of(m, first), span, clock, week)).xp;
    lemma_best_span(m, first, span, clock, week);
    assert forall|k: int| 0 <= k < h.len() implies #[trigger] together(h, same, k) == sum_of(
        m.len(),
        xp_in_span(m, first, span, clock, week, span_on(first, span, clock, week, k)),
    ) by {
        let g = |j: int|
            if same(h[j].at as int, h[k].at as int) {
                h[j].xp as int
            } else {
                0
            };
        let f = xp_in_span(m, first, span, clock, week, span_on(first, span, clock, week, k));
        assert forall|j: int| 0 <= j < h.len() implies #[trigger] f(j) == g(j) by {
            assert(h[j].xp == m[j].xp);
            assert(span_on(first, span, clock, week, j) == span_on(first, span, clock, week, k) <==> same(
                h[j].at as int,
                h[k].at as int,
            ));
        }
        lemma_same_sum(h.len(), f, g);
    }
    if best != 0 {
        let k = choose|k: int|
            0 <= k < m.len() && best == sum_of(
                m.len(),
                xp_in_span(m, first, span, clock, week, #[trigger] span_on(first, span, clock, week, k)),
            );
        assert(together(h, same, k) == best);
    }
}

/// The records of days, weeks, months and years hold the most XP that any of them
/// has in the history.
pub proof fn law_records_are_the_best_of_the_history(
    v: Profile,
    user: Seq<char>,
    display: Seq<char>,
    reviews: Seq<Review>,
    clock: Clock,
    week: Week,
    now: int,
    legacy_until: Option<i64>,
    preferences: Seq<FreezePreference>,
)
    requires
        shows_profile(v, user, display, reviews, clock, week, now, legacy_until, preferences),
    ensures
        is_most(v.history@, |a: int, b: int| a == b, v.records.day.xp as int),
        is_most(v.history@, in_a_week(week), v.records.week.xp as int),
        is_most(v.history@, in_a_month(week), v.records.month.xp as int),
        is_most(v.history@, in_a_year(week), v.records.year.xp as int),
{
    let p = past_of(user, reviews, clock, now, legacy_until, preferences);
    let n = day_count(p);
    let h = v.history@;
    let m = replayed(p, n).history;
    let first = p.first;
    lemma_shown_history(v, user, display, reviews, clock, week, now, legacy_until, preferences);
    assert forall|j: int, k: int| 0 <= j < h.len() && 0 <= k < h.len() implies {
        &&& (#[trigger] span_on(first, Span::Week, clock, week, j)) == (#[trigger] span_on(
            first,
            Span::Week,
            clock,
            week,
            k,
        )) <==> in_a_week(week)(h[j].at as int, h[k].at as int)
    } by {
        lemma_same_numbers(week, h[j].at as int, h[k].at as int);
    }
    assert forall|j: int, k: int| 0 <= j < h.len() && 0 <= k < h.len() implies {
        &&& (#[trigger] span_on(first, Span::Month, clock, week, j)) == (#[trigger] span_on(
            first,
            Span::Month,
            clock,
            week,
            k,
        )) <==> in_a_month(week)(h[j].at as int, h[k].at as int)
    } by {
        lemma_same_numbers(week, h[j].at as int, h[k].at as int);
    }
    lemma_most(h, m, first, Span::Day, clock, week, |a: int, b: int| a == b);
    lemma_most(h, m, first, Span::Week, clock, week, in_a_week(week));
    lemma_most(h, m, first, Span::Month, clock, week, in_a_month(week));
    lemma_most(h, m, first, Span::Year, clock, week, in_a_year(week));
}

/// The quests that are shown are three, each worth fifty XP; a quest shows its
/// progress up to its target, and is done exactly where that is reached. The first
/// one counts the reviews of today.
pub proof fn law_quests_are_shown_with_their_progress(
    v: Profile,
    user: Seq<char>,
    display: Seq<char>,
    reviews: Seq<Review>,
    clock: Clock,
    week: Week,
    now: int,
    legacy_until: Option<i64>,
    preferences: Seq<FreezePreference>,
    i: int,
)
    requires
        shows_profile(v, user, display, reviews, clock, week, now, legacy_until, preferences),
        day_count(past_of(user, reviews, clock, now, legacy_until, preferences)) > 0,
        0 <= i < 3,
    ensures
        v.quests@.len() == 3,
        v.quests@[i].reward == 50,
        v.quests@[i].progress <= v.quests@[i].target,
        v.quests@[i].done <==> v.quests@[i].progress == v.quests@[i].target,
        v.quests@[0].done <==> v.today.reviews >= v.quests@[0].target,
        !v.quests@[0].done ==> v.quests@[0].progress == v.today.reviews,
{
    let p = past_of(user, reviews, clock, now, legacy_until, preferences);
    let n = day_count(p);
    let before = replayed(p, (n - 1) as nat);
    lemma_quests_of_the_day(p, before, p.first + n - 1);
    let m = replayed(p, n);
    assert(m.quests.len() == 3);
    assert(v.quests@[i].reward == 50);
    assert(shows_quest(v.quests@[0], m.quests[0], study_on(p.days, p.today)));
}

proof fn lemma_quests_of_the_day(p: Past, m: ReplayModel, day: int)
    ensures
        replay_day(p, m, day).quests.len() == 3,
        replay_day(p, m, day).quests[0].kind == QuestKind::Reviews,
{
    reveal(replay_day);
    law_quests_are_distinct(p.seed, day, m.recent);
}

/// The running combo of today is that of the last review, where it was made today,
/// and none otherwise; the last review is named by its time.
pub proof fn law_the_running_combo_is_of_today(
    v: Profile,
    user: Seq<char>,
    display: Seq<char>,
    reviews: Seq<Review>,
    clock: Clock,
    week: Week,
    now: int,
    legacy_until: Option<i64>,
    preferences: Seq<FreezePreference>,
)
    requires
        shows_profile(v, user, display, reviews, clock, week, now, legacy_until, preferences),
    ensures
        reviews.len() == 0 ==> v.today.current_combo == 0 && v.last_review_id == 0,
        reviews.len() > 0 ==> v.last_review_id == reviews.last().id,
        reviews.len() > 0 && clock.day_of(reviews.last().id as int) != clock.day_of(now) ==> v.today.current_combo == 0,
        reviews.len() > 0 && clock.day_of(reviews.last().id as int) == clock.day_of(now) ==> {
            let combo = v.today.current_combo as int;
            &&& 1 <= combo <= reviews.len()
            &&& forall|k: int| reviews.len() - combo + 1 < k <= reviews.len() ==> follows(#[trigger] reviews.take(k), clock)
            &&& !follows(reviews.take(reviews.len() - combo + 1), clock)
        },
        v.day == clock.day_of(now),
        v.local_hour == clock.hour_of(now),
{
    if reviews.len() > 0 {
        law_a_combo_is_a_run_of_reviews(reviews, clock, seed_for(user));
    }
}

/// Whether an event is that of an achievement which a profile shows as unlocked.
pub open spec fn tells_achievement(e: EventModel, a: AchievementView) -> bool {
    e.key == "achievement:"@ + a.id@ && e.title == "Achievement: "@ + a.title@ && (a.description@ + " (+"@ + decimal(
        a.reward as nat,
    ) + " XP)"@) == e.body
}

proof fn lemma_achievement_event(unlocked: Seq<Option<int>>, n: nat, i: int) -> (k: int)
    requires
        0 <= i < n,
        unlocked[i] is Some,
    ensures
        0 <= k < achievement_events(unlocked, n).len(),
        ({
            let d = definitions()[i];
            achievement_events(unlocked, n)[k] == EventModel {
                key: "achievement:"@ + id_of(d.metric, d.threshold),
                title: "Achievement: "@ + d.title,
                body: description_of(d.metric, d.threshold) + " (+"@ + decimal(reward_of(d.metric, d.threshold))
                    + " XP)"@,
            }
        }),
    decreases n,
{
    if i == n - 1 {
        achievement_events(unlocked, n).len() - 1
    } else {
        lemma_achievement_event(unlocked, (n - 1) as nat, i)
    }
}

/// Each achievement that is unlocked has its event, with its XP; and so has the
/// level, from the second on.
pub proof fn law_achievements_and_levels_have_events(
    v: Profile,
    user: Seq<char>,
    display: Seq<char>,
    reviews: Seq<Review>,
    clock: Clock,
    week: Week,
    now: int,
    legacy_until: Option<i64>,
    preferences: Seq<FreezePreference>,
    i: int,
)
    requires
        shows_profile(v, user, display, reviews, clock, week, now, legacy_until, preferences),
        0 <= i < v.achievements@.len(),
    ensures
        v.achievements@[i].unlocked is Some ==> exists|k: int|
            0 <= k < v.events@.len() && tells_achievement((#[trigger] v.events@[k])@, v.achievements@[i]),
        v.level > 1 ==> exists|k: int|
            0 <= k < v.events@.len() && (#[trigger] v.events@[k])@.key == "level:"@ + decimal(v.level as nat)
                && v.events@[k]@.title == "Level "@ + decimal(v.level as nat),
{
    let p = past_of(user, reviews, clock, now, legacy_until, preferences);
    let m = replayed(p, day_count(p));
    let today = study_on(p.days, p.today);
    let first = quest_events(m.quests, today, p.today);
    let second = level_events(v.level as nat, m.xp_total);
    let third = achievement_events(m.unlocked, definitions().len());
    let all = event_views(v.events@);
    assert(all == first + second + third);
    if v.achievements@[i].unlocked is Some {
        let k = lemma_achievement_event(m.unlocked, definitions().len(), i);
        let at = first.len() + second.len() + k;
        assert(all[at] == third[k]);
        assert(all[at] == v.events@[at]@);
        assert(tells_achievement(v.events@[at]@, v.achievements@[i]));
    }
    if v.level > 1 {
        let at = first.len() as int;
        assert(all[at] == second[0]);
        assert(all[at] == v.events@[at]@);
    }
}

} // verus!
