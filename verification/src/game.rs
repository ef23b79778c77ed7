//! The game: what a player's reviews amount to.

use vstd::prelude::*;
use crate::achievements::{achievement_id, achievements, def_views, definitions, describe, description_of, id_of, reward, reward_of, value_of, Def, DefModel, Totals, TotalsModel};
use crate::day_table::{tally, DayTable};
use crate::days::{collectable, collected, earned_views, opt_int, study_on, CollectModel};
use crate::double::{rounded, saturated, Double};
use crate::feedback::streak_warning_of;
use crate::freezes::enabled_at;
use crate::levels::{need_of, stands_at};
use crate::quests::{at_most, completes, progress_of, quest_title, quest_views, seed_for, units_in, DayModel, DayStats, Quest, QuestModel, REVIEW_LIMIT};
use crate::calendar::law_day_holds_its_instants;
use crate::quests::whole_units;
use crate::records::{best_of, last_hour, law_no_period_exceeds_the_total, law_periods_stay_within_their_record, period_sum, rolling_hour, score_reviews, score_views, score_xp, scores_readable, spans_of, Score, ScoreModel, Span, HOUR_MS};
use crate::replay::{day_count, law_freezes_stay_within_the_bank, lemma_day_adds, unlocked_views, history_views, replayed, HistoryModel, Past, Replay, ReplayModel, Setting, QUEST_XP};
use crate::text::{around, decimal, joined, number, signed_decimal, signed_number};

pub use crate::achievements::{achievement_xp, Metric};
pub use crate::calendar::{civil, date_string, is_weekend, Clock};
pub use crate::days::{collect_days, collect_days_with_quests, review_base_xp, MATURE_IVL, SESSION_GAP_MS};
pub use crate::feedback::{streak_warning, Notice};
pub use crate::freezes::{freezes_enabled_at, FreezePolicy, FreezePreference, MAX_FREEZES};
pub use crate::levels::{level_for, level_need};
pub use crate::nudges::{nudges, plural, Nudge};
pub use crate::quests::{gen_quests, mix, seed_of, QuestKind, Review, RECENT_DAYS};
pub use crate::records::{best_hour, best_span, hour_xp, period_xp, Periods, Record, Records};
pub use crate::replay::{replay, HistoryDay};
pub use crate::week::Week;

use crate::calendar::{date_text, fits};

verus! {

/// How many days the heatmap shows.
pub const HEATMAP_DAYS: i64 = 182;

/// A quest as it is shown.
#[derive(Clone, Debug)]
pub struct QuestView {
    pub title: String,
    pub progress: u64,
    pub target: u64,
    pub done: bool,
    pub reward: u64,
}

/// An achievement as it is shown.
#[derive(Clone, Debug)]
pub struct AchievementView {
    pub id: String,
    pub title: String,
    pub description: String,
    pub reward: u64,
    pub progress: u64,
    pub target: u64,
    pub unlocked: Option<String>,
}

/// A day of the heatmap.
#[derive(Clone, Debug)]
pub struct HeatCell {
    pub date: String,
    pub reviews: u64,
    pub xp: u64,
    pub frozen: bool,
}

/// What was done today.
#[derive(Clone, Copy, Debug, PartialEq, Eq, Structural)]
pub struct Today {
    pub reviews: u64,
    pub minutes: u64,
    pub xp: u64,
    pub max_combo: u64,
    pub current_combo: u64,
    pub new_cards: u64,
}

impl Default for Today {
    fn default() -> (res: Self)
        ensures
            res == (Today { reviews: 0, minutes: 0, xp: 0, max_combo: 0, current_combo: 0, new_cards: 0 }),
    {
        Today { reviews: 0, minutes: 0, xp: 0, max_combo: 0, current_combo: 0, new_cards: 0 }
    }
}

/// What was done over a lifetime.
#[derive(Clone, Copy, Debug, PartialEq, Eq, Structural)]
pub struct Lifetime {
    pub reviews: u64,
    pub hours: u64,
    pub days_active: u64,
    pub best_streak: u64,
    /// When the longest streak ran out, and the first day ever studied.
    pub best_streak_at: i64,
    pub first_day_at: i64,
    pub best_day: u64,
    pub best_combo: u64,
    pub quests: u64,
}

impl Default for Lifetime {
    fn default() -> (res: Self)
        ensures
            res == (Lifetime {
                reviews: 0,
                hours: 0,
                days_active: 0,
                best_streak: 0,
                best_streak_at: 0,
                first_day_at: 0,
                best_day: 0,
                best_combo: 0,
                quests: 0,
            }),
    {
        Lifetime {
            reviews: 0,
            hours: 0,
            days_active: 0,
            best_streak: 0,
            best_streak_at: 0,
            first_day_at: 0,
            best_day: 0,
            best_combo: 0,
            quests: 0,
        }
    }
}

/// An event, as text.
#[verifier::ext_equal]
pub struct EventModel {
    pub key: Seq<char>,
    pub title: Seq<char>,
    pub body: Seq<char>,
}

/// Something that happened to a player, with a key that tells it from
/// everything else that did.
#[derive(Clone, Debug)]
pub struct Event {
    pub key: String,
    pub title: String,
    pub body: String,
}

impl View for Event {
    type V = EventModel;

    open spec fn view(&self) -> EventModel {
        EventModel { key: self.key@, title: self.title@, body: self.body@ }
    }
}

pub open spec fn event_views(events: Seq<Event>) -> Seq<EventModel> {
    events.map_values(|e: Event| e@)
}

/// Everything that is shown of a player.
#[derive(Clone, Debug)]
pub struct Profile {
    pub user: String,
    pub display: String,
    pub level: u64,
    pub xp_total: u64,
    pub xp_into_level: u64,
    pub xp_for_next: u64,
    pub week_xp: u64,
    pub periods: Periods,
    pub records: Records,
    pub streak: u64,
    pub freezes: u32,
    pub stored_freezes: u32,
    pub freezes_enabled: bool,
    pub freeze_earned_today: bool,
    pub at_risk: bool,
    pub day_ends_at: i64,
    pub streak_warning: Option<Notice>,
    pub local_hour: i64,
    pub today: Today,
    pub lifetime: Lifetime,
    pub quests: Vec<QuestView>,
    pub achievements: Vec<AchievementView>,
    pub heatmap: Vec<HeatCell>,
    pub last_review_id: i64,
    pub day: i64,
    pub events: Vec<Event>,
    pub history: Vec<HistoryDay>,
}

/// Whether a day of study comes before all others.
pub open spec fn is_first(days: Map<int, DayModel>, day: int) -> bool {
    days.dom().contains(day) && forall|d: int| #[trigger] days.dom().contains(d) ==> day <= d
}

/// The first day of study, or today.
pub open spec fn first_day(days: Map<int, DayModel>, today: int) -> int {
    if exists|d: int| is_first(days, d) {
        choose|d: int| is_first(days, d)
    } else {
        today
    }
}

/// What the reviews of a player amount to.
pub open spec fn study_of(user: Seq<char>, reviews: Seq<Review>, clock: Clock) -> CollectModel {
    collected(reviews, clock, seed_for(user))
}

/// What a player's history is replayed from.
pub open spec fn past_of(
    user: Seq<char>,
    reviews: Seq<Review>,
    clock: Clock,
    now: int,
    legacy_until: Option<i64>,
    preferences: Seq<FreezePreference>,
) -> Past {
    let days = study_of(user, reviews, clock).days;
    let today = clock.day_of(now);
    Past {
        days,
        first: first_day(days, today),
        today,
        now,
        clock,
        seed: seed_for(user),
        legacy_until: match legacy_until {
            Some(at) => Some(clock.day_of(at as int)),
            None => None,
        },
        preferences,
    }
}

/// The XP and the reviews of each day of a history.
pub open spec fn scores_of(history: Seq<HistoryModel>, first: int) -> Seq<ScoreModel> {
    Seq::new(
        history.len(),
        |i: int| ScoreModel { day: first + i, xp: history[i].xp, reviews: history[i].reviews },
    )
}

/// The XP of a day, none outside of the history.
pub open spec fn xp_on(history: Seq<HistoryModel>, first: int, day: int) -> nat {
    if first <= day < first + history.len() {
        history[day - first].xp
    } else {
        0
    }
}

/// Whether a freeze saved the streak on a day.
pub open spec fn frozen_on(history: Seq<HistoryModel>, first: int, day: int) -> bool {
    first <= day < first + history.len() && history[day - first].frozen
}

/// A quest is shown with its wording, the progress up to its target, and
/// whether that has been reached.
pub open spec fn shows_quest(v: QuestView, q: QuestModel, s: DayModel) -> bool {
    &&& v.title@ == quest_title(q)
    &&& v.progress == at_most(progress_of(q.kind, s), q.target as int)
    &&& v.target == q.target
    &&& v.done == completes(q, s)
    &&& v.reward == QUEST_XP
}

/// An achievement is shown with its name, its wording, its XP, the progress up
/// to its threshold, and the date on which it was unlocked.
pub open spec fn shows_achievement(v: AchievementView, d: DefModel, t: TotalsModel, at: Option<int>) -> bool {
    &&& v.id@ == id_of(d.metric, d.threshold)
    &&& v.title@ == d.title
    &&& v.description@ == description_of(d.metric, d.threshold)
    &&& v.reward == reward_of(d.metric, d.threshold)
    &&& v.progress == at_most(value_of(t, d.metric), d.threshold as int)
    &&& v.target == d.threshold
    &&& match at {
        Some(day) => v.unlocked matches Some(date) && date@ == date_text(day),
        None => v.unlocked is None,
    }
}

/// A day of the heatmap.
pub open spec fn shows_cell(c: HeatCell, p: Past, history: Seq<HistoryModel>, day: int) -> bool {
    &&& c.date@ == date_text(day)
    &&& c.reviews == study_on(p.days, day).reviews
    &&& c.xp == xp_on(history, p.first, day)
    &&& c.frozen == frozen_on(history, p.first, day)
}

/// The events of the quests that have been completed today.
pub open spec fn quest_events(quests: Seq<QuestModel>, s: DayModel, day: int) -> Seq<EventModel>
    decreases quests.len(),
{
    if quests.len() == 0 {
        Seq::empty()
    } else {
        let before = quest_events(quests.drop_last(), s, day);
        let q = quests.last();
        if completes(q, s) {
            before.push(
                EventModel {
                    key: "quest:"@ + signed_decimal(day) + ":"@ + decimal((quests.len() - 1) as nat),
                    title: "Quest complete"@,
                    body: quest_title(q) + " (+"@ + decimal(QUEST_XP as nat) + " XP)"@,
                },
            )
        } else {
            before
        }
    }
}

/// The event of having reached a level above the first.
pub open spec fn level_events(level: nat, xp_total: nat) -> Seq<EventModel> {
    if level > 1 {
        seq![
            EventModel {
                key: "level:"@ + decimal(level),
                title: "Level "@ + decimal(level),
                body: "You reached level "@ + decimal(level) + " with "@ + decimal(xp_total) + " XP."@,
            },
        ]
    } else {
        Seq::empty()
    }
}

/// The events of the first `n` achievements, as far as they are unlocked.
pub open spec fn achievement_events(unlocked: Seq<Option<int>>, n: nat) -> Seq<EventModel>
    decreases n,
{
    if n == 0 {
        Seq::empty()
    } else {
        let before = achievement_events(unlocked, (n - 1) as nat);
        let d = definitions()[n - 1];
        if unlocked[n - 1] is Some {
            before.push(
                EventModel {
                    key: "achievement:"@ + id_of(d.metric, d.threshold),
                    title: "Achievement: "@ + d.title,
                    body: description_of(d.metric, d.threshold) + " (+"@ + decimal(reward_of(d.metric, d.threshold))
                        + " XP)"@,
                },
            )
        } else {
            before
        }
    }
}

/// The XP of the leaderboard periods.
pub open spec fn shows_periods(v: Periods, p: Past, m: ReplayModel, earned: Seq<(int, int)>, week: Week) -> bool {
    let scores = scores_of(m.history, p.first);
    &&& v.hour == saturated(rounded(last_hour(earned, p.now)))
    &&& v.day == xp_on(m.history, p.first, p.today)
    &&& v.week == period_sum(scores, Span::Week, p.clock, week, p.today - 9, p.today, p.now)
    &&& v.month == period_sum(scores, Span::Month, p.clock, week, p.today - 40, p.today, p.now)
    &&& v.year == period_sum(scores, Span::Year, p.clock, week, p.today - 400, p.today, p.now)
    &&& v.all == m.xp_total
}

/// The personal bests.
pub open spec fn shows_records(v: Records, p: Past, m: ReplayModel, earned: Seq<(int, int)>, week: Week) -> bool {
    let scores = scores_of(m.history, p.first);
    &&& v.hour@ == rolling_hour(earned, earned.len()).best
    &&& v.day@ == best_of(spans_of(scores, Span::Day, p.clock, week))
    &&& v.week@ == best_of(spans_of(scores, Span::Week, p.clock, week))
    &&& v.month@ == best_of(spans_of(scores, Span::Month, p.clock, week))
    &&& v.year@ == best_of(spans_of(scores, Span::Year, p.clock, week))
}

/// What was done today.
pub open spec fn shows_today(v: Today, p: Past, m: ReplayModel, reviews: Seq<Review>, combo: nat) -> bool {
    let s = study_on(p.days, p.today);
    &&& v.reviews == s.reviews
    &&& v.minutes == units_in(s.time_ms, 60_000)
    &&& v.xp == xp_on(m.history, p.first, p.today)
    &&& v.max_combo == s.max_combo
    &&& v.current_combo == if reviews.len() > 0 && p.clock.day_of(reviews.last().id as int) == p.today {
        combo
    } else {
        0
    }
    &&& v.new_cards == s.new_cards
}

/// What was done over a lifetime.
pub open spec fn shows_lifetime(v: Lifetime, p: Past, m: ReplayModel) -> bool {
    &&& v.reviews == m.totals.reviews
    &&& v.hours == units_in(m.totals.time_ms, 3_600_000)
    &&& v.days_active == m.totals.days_active
    &&& v.best_streak == m.totals.best_streak
    &&& v.best_streak_at == p.clock.start_of(m.best_streak_day)
    &&& v.first_day_at == p.clock.start_of(p.first)
    &&& v.best_day == m.totals.best_day
    &&& v.best_combo == m.totals.best_combo
    &&& v.quests == m.totals.quests
}

/// The streak, and what protects it.
pub open spec fn shows_streak(v: Profile, p: Past, m: ReplayModel) -> bool {
    &&& v.streak == m.streak
    &&& v.stored_freezes == m.freezes
    &&& v.freezes_enabled == enabled_at(p.preferences, p.now)
    &&& v.freezes == if v.freezes_enabled {
        m.freezes
    } else {
        0
    }
    &&& v.freeze_earned_today == m.freeze_earned_today
    &&& v.at_risk == (m.streak > 0 && !p.days.dom().contains(p.today))
    &&& v.day_ends_at == p.clock.start_of(p.today + 1)
    &&& v.streak_warning is Some == v.at_risk
    &&& v.streak_warning matches Some(warning) ==> warning@ == streak_warning_of(
        m.streak,
        v.freezes as nat,
        v.day_ends_at as int,
        p.now,
    )
}

/// Everything that is shown of a player, told from the replay of the history.
pub open spec fn shows_state(
    v: Profile,
    reviews: Seq<Review>,
    week: Week,
    p: Past,
    m: ReplayModel,
    earned: Seq<(int, int)>,
    combo: nat,
) -> bool {
    let today = study_on(p.days, p.today);
    &&& v.xp_total == m.xp_total
    &&& stands_at(m.xp_total, v.level as nat, v.xp_into_level as nat)
    &&& v.xp_for_next == need_of(v.level as nat)
    &&& v.week_xp == v.periods.week
    &&& shows_periods(v.periods, p, m, earned, week)
    &&& shows_records(v.records, p, m, earned, week)
    &&& shows_streak(v, p, m)
    &&& v.local_hour == p.clock.hour_of(p.now)
    &&& shows_today(v.today, p, m, reviews, combo)
    &&& shows_lifetime(v.lifetime, p, m)
    &&& v.quests@.len() == m.quests.len()
    &&& forall|i: int| 0 <= i < v.quests@.len() ==> shows_quest(#[trigger] v.quests@[i], m.quests[i], today)
    &&& v.achievements@.len() == definitions().len()
    &&& forall|i: int|
        0 <= i < v.achievements@.len() ==> shows_achievement(
            #[trigger] v.achievements@[i],
            definitions()[i],
            m.totals,
            m.unlocked[i],
        )
    &&& v.heatmap@.len() == HEATMAP_DAYS
    &&& forall|i: int|
        0 <= i < v.heatmap@.len() ==> shows_cell(
            #[trigger] v.heatmap@[i],
            p,
            m.history,
            p.today - HEATMAP_DAYS + 1 + i,
        )
    &&& v.last_review_id == if reviews.len() > 0 {
        reviews.last().id as int
    } else {
        0
    }
    &&& v.day == p.today
    &&& event_views(v.events@) == quest_events(m.quests, today, p.today) + level_events(v.level as nat, m.xp_total)
        + achievement_events(m.unlocked, definitions().len())
    &&& history_views(v.history@) == m.history
}

/// Everything that is shown of a player follows from the reviews, the clock,
/// the week, the choice of freezes and the time.
pub open spec fn shows_profile(
    v: Profile,
    user: Seq<char>,
    display: Seq<char>,
    reviews: Seq<Review>,
    clock: Clock,
    week: Week,
    now: int,
    legacy_until: Option<i64>,
    preferences: Seq<FreezePreference>,
) -> bool {
    let study = study_of(user, reviews, clock);
    let p = past_of(user, reviews, clock, now, legacy_until, preferences);
    &&& v.user@ == user
    &&& v.display@ == display
    &&& shows_state(v, reviews, week, p, replayed(p, day_count(p)), study.earned, study.combo)
}

/// Whether a profile can be computed within the range of machine integers and
/// of the calendar.
pub open spec fn computable(
    user: Seq<char>,
    reviews: Seq<Review>,
    clock: Clock,
    week: Week,
    now: int,
    legacy_until: Option<i64>,
    preferences: Seq<FreezePreference>,
) -> bool {
    let p = past_of(user, reviews, clock, now, legacy_until, preferences);
    &&& collectable(reviews, clock, seed_for(user))
    &&& forall|n: nat| n <= day_count(p) ==> fits((#[trigger] replayed(p, n)).totals.time_ms)
    &&& forall|i: int| 0 <= i < reviews.len() ==> fits((#[trigger] reviews[i]).id - HOUR_MS)
    &&& clock.tells_day(now)
    &&& fits(now - HOUR_MS)
    &&& legacy_until matches Some(at) ==> clock.tells_day(at as int)
    &&& forall|day: int| p.first <= day <= p.today + 1 ==> #[trigger] clock.tells_start(day)
    &&& clock.tells_start(p.first)
    &&& clock.tells_start(p.today + 1)
    &&& week.reads(now)
    &&& forall|day: int| p.first <= day <= p.today ==> week.reads(#[trigger] clock.start_of(day))
}

/// The XP of a player is the sum of the XP of the days, and so it is with the
/// reviews.
pub proof fn law_totals_are_sums_over_the_days(p: Past, n: nat)
    ensures
        tally(score_xp(scores_of(replayed(p, n).history, p.first))) == replayed(p, n).xp_total,
        tally(score_reviews(scores_of(replayed(p, n).history, p.first))) == replayed(p, n).totals.reviews,
    decreases n,
{
    if n > 0 {
        let before = replayed(p, (n - 1) as nat);
        let after = replayed(p, n);
        law_totals_are_sums_over_the_days(p, (n - 1) as nat);
        lemma_day_adds(p, before, p.first + n - 1);
        let x0 = score_xp(scores_of(before.history, p.first));
        let x1 = score_xp(scores_of(after.history, p.first));
        let r0 = score_reviews(scores_of(before.history, p.first));
        let r1 = score_reviews(scores_of(after.history, p.first));
        assert(x1.drop_last() =~= x0);
        assert(r1.drop_last() =~= r0);
    } else {
        let h = replayed(p, 0).history;
        assert(score_xp(scores_of(h, p.first)) =~= Seq::<nat>::empty());
        assert(score_reviews(scores_of(h, p.first)) =~= Seq::<nat>::empty());
    }
}

fn build_scores(history: &Vec<HistoryDay>, first: i64) -> (res: Vec<Score>)
    requires
        first + history@.len() <= i64::MAX,
        history@.len() <= i64::MAX,
    ensures
        score_views(res@) == scores_of(history_views(history@), first as int),
{
    let mut scores: Vec<Score> = Vec::new();
    let mut i: usize = 0;
    while i < history.len()
        invariant
            i <= history@.len(),
            first + history@.len() <= i64::MAX,
            history@.len() <= i64::MAX,
            scores@.len() == i,
            forall|k: int|
                0 <= k < i ==> (#[trigger] scores@[k])@ == (ScoreModel {
                    day: first + k,
                    xp: history@[k].xp as nat,
                    reviews: history@[k].reviews as nat,
                }),
        decreases history@.len() - i,
    {
        scores.push(Score { day: first + i as i64, xp: history[i].xp, reviews: history[i].reviews });
        i = i + 1;
    }
    assert(score_views(scores@) =~= scores_of(history_views(history@), first as int));
    scores
}

fn smaller(a: u64, b: u64) -> (res: u64)
    ensures
        res == at_most(a as int, b as int),
{
    if a > b {
        b
    } else {
        a
    }
}

fn show_quests(quests: &Vec<Quest>, s: &DayStats, day: i64, events: &mut Vec<Event>) -> (res: Vec<QuestView>)
    ensures
        res@.len() == quests@.len(),
        forall|i: int| 0 <= i < res@.len() ==> shows_quest(#[trigger] res@[i], quest_views(quests@)[i], s@),
        event_views(final(events)@) == event_views(old(events)@) + quest_events(quest_views(quests@), s@, day as int),
{
    let ghost all = quest_views(quests@);
    let ghost before = event_views(events@);
    let mut views: Vec<QuestView> = Vec::new();
    let mut i: usize = 0;
    proof {
        assert(all.take(0) =~= Seq::<QuestModel>::empty());
        assert(before + Seq::<EventModel>::empty() =~= before);
    }
    while i < quests.len()
        invariant
            all == quest_views(quests@),
            i <= quests@.len(),
            views@.len() == i,
            forall|k: int| 0 <= k < i ==> shows_quest(#[trigger] views@[k], all[k], s@),
            event_views(events@) == before + quest_events(all.take(i as int), s@, day as int),
        decreases quests@.len() - i,
    {
        let q = quests[i];
        proof {
            assert(all[i as int] == q@);
            assert(all.take(i + 1).drop_last() =~= all.take(i as int));
            assert(all.take(i + 1).last() == q@);
        }
        let progress: u64 = q.progress(s);
        let title = q.title();
        let done = progress >= q.target;
        if done {
            let ghost events0 = events@;
            let mut key = "quest:".to_owned();
            key.append(signed_number(day).as_str());
            key.append(":");
            key.append(number(i as u64).as_str());
            let mut body = title.clone();
            body.append(around(" (+", QUEST_XP, " XP)").as_str());
            let event = Event { key, title: "Quest complete".to_owned(), body };
            let ghost shown = event@;
            events.push(event);
            proof {
                assert(shown.body =~= quest_title(q@) + " (+"@ + decimal(QUEST_XP as nat) + " XP)"@);
                assert(event_views(events@) =~= event_views(events0).push(shown));
                assert(event_views(events@) =~= before + quest_events(all.take(i + 1), s@, day as int));
            }
        }
        views.push(
            QuestView { title, progress: smaller(progress, q.target), target: q.target, done, reward: QUEST_XP },
        );
        i = i + 1;
    }
    assert(all.take(i as int) =~= all);
    views
}

fn level_event(level: u64, xp_total: u64, events: &mut Vec<Event>)
    ensures
        event_views(final(events)@) == event_views(old(events)@) + level_events(level as nat, xp_total as nat),
{
    let ghost before = events@;
    if level > 1 {
        let mut body = around("You reached level ", level, " with ");
        body.append(number(xp_total).as_str());
        body.append(" XP.");
        let event = Event { key: joined("level:", number(level).as_str()), title: joined("Level ", number(level).as_str()), body };
        let ghost shown = event@;
        events.push(event);
        assert(event_views(events@) =~= event_views(before).push(shown));
    }
    assert(event_views(events@) =~= event_views(before) + level_events(level as nat, xp_total as nat));
}

fn show_achievement(defs: &Vec<Def>, d: &Def, totals: &Totals, at: Option<i64>) -> (res: AchievementView)
    requires
        def_views(defs@) == definitions(),
        at matches Some(day) ==> fits(day + 719_468),
    ensures
        shows_achievement(
            res,
            d@,
            totals@,
            match at {
                Some(day) => Some(day as int),
                None => None,
            },
        ),
{
    AchievementView {
        id: achievement_id(d.metric, d.threshold),
        title: d.title.to_owned(),
        description: describe(d.metric, d.threshold),
        reward: reward(defs, d.metric, d.threshold),
        progress: smaller(totals.value(d.metric), d.threshold),
        target: d.threshold,
        unlocked: match at {
            Some(day) => Some(date_string(day)),
            None => None,
        },
    }
}

fn achievement_event(view: &AchievementView) -> (res: Event)
    ensures
        res@ == (EventModel {
            key: "achievement:"@ + view.id@,
            title: "Achievement: "@ + view.title@,
            body: view.description@ + " (+"@ + decimal(view.reward as nat) + " XP)"@,
        }),
{
    let mut body = view.description.clone();
    body.append(around(" (+", view.reward, " XP)").as_str());
    assert(body@ =~= view.description@ + " (+"@ + decimal(view.reward as nat) + " XP)"@);
    Event {
        key: joined("achievement:", view.id.as_str()),
        title: joined("Achievement: ", view.title.as_str()),
        body,
    }
}

fn show_achievements(
    defs: &Vec<Def>,
    unlocked: &Vec<Option<i64>>,
    totals: &Totals,
    events: &mut Vec<Event>,
) -> (res: Vec<AchievementView>)
    requires
        def_views(defs@) == definitions(),
        unlocked@.len() == definitions().len(),
        forall|i: int| 0 <= i < unlocked@.len() ==> (#[trigger] unlocked@[i] matches Some(day) ==> fits(day + 719_468)),
    ensures
        res@.len() == definitions().len(),
        forall|i: int|
            0 <= i < res@.len() ==> shows_achievement(
                #[trigger] res@[i],
                definitions()[i],
                totals@,
                unlocked_views(unlocked@)[i],
            ),
        event_views(final(events)@) == event_views(old(events)@) + achievement_events(
            unlocked_views(unlocked@),
            definitions().len(),
        ),
{
    let ghost before = event_views(events@);
    let ghost all = unlocked_views(unlocked@);
    let mut views: Vec<AchievementView> = Vec::new();
    let mut i: usize = 0;
    proof {
        assert(def_views(defs@).len() == defs@.len());
        assert(before + Seq::<EventModel>::empty() =~= before);
    }
    while i < defs.len()
        invariant
            def_views(defs@) == definitions(),
            defs@.len() == definitions().len(),
            unlocked@.len() == definitions().len(),
            forall|k: int|
                0 <= k < unlocked@.len() ==> (#[trigger] unlocked@[k] matches Some(day) ==> fits(day + 719_468)),
            all == unlocked_views(unlocked@),
            i <= defs@.len(),
            views@.len() == i,
            forall|k: int| 0 <= k < i ==> shows_achievement(#[trigger] views@[k], definitions()[k], totals@, all[k]),
            event_views(events@) == before + achievement_events(all, i as nat),
        decreases defs@.len() - i,
    {
        let d = defs[i];
        let at = unlocked[i];
        proof {
            assert(definitions()[i as int] == d@);
            assert(all[i as int] == opt_int(at));
        }
        let view = show_achievement(defs, &d, totals, at);
        if at.is_some() {
            let ghost events0 = events@;
            let event = achievement_event(&view);
            let ghost shown = event@;
            events.push(event);
            proof {
                assert(event_views(events@) =~= event_views(events0).push(shown));
                assert(event_views(events@) =~= before + achievement_events(all, (i + 1) as nat));
            }
        }
        views.push(view);
        i = i + 1;
    }
    views
}

fn show_cell(days: &DayTable, history: &Vec<HistoryDay>, first: i64, day: i64, Ghost(p): Ghost<Past>) -> (res: HeatCell)
    requires
        days.wf(),
        p.days == days@,
        p.first == first,
        fits(day + 719_468),
        fits(day - first),
        first + history@.len() <= i64::MAX,
        history@.len() <= i64::MAX,
    ensures
        shows_cell(res, p, history_views(history@), day as int),
{
    let reviews: u64 = match days.get(day) {
        Some(s) => s.reviews,
        None => 0,
    };
    let (xp, frozen): (u64, bool) = if day >= first && day - first < history.len() as i64 {
        let at: usize = (day - first) as usize;
        assert(history_views(history@)[at as int] == history@[at as int]@);
        (history[at].xp, history[at].frozen)
    } else {
        (0, false)
    };
    HeatCell { date: date_string(day), reviews, xp, frozen }
}

fn show_heatmap(
    days: &DayTable,
    history: &Vec<HistoryDay>,
    first: i64,
    today: i64,
    Ghost(p): Ghost<Past>,
) -> (res: Vec<HeatCell>)
    requires
        days.wf(),
        p.days == days@,
        p.first == first,
        p.today == today,
        -0x1_0000_0000_0000 <= first <= 0x1_0000_0000_0000,
        -0x1_0000_0000_0000 <= today <= 0x1_0000_0000_0000,
        history@.len() <= 0x4_0000_0000_0000,
    ensures
        res@.len() == HEATMAP_DAYS,
        forall|i: int|
            0 <= i < res@.len() ==> shows_cell(
                #[trigger] res@[i],
                p,
                history_views(history@),
                today - HEATMAP_DAYS + 1 + i,
            ),
{
    let mut cells: Vec<HeatCell> = Vec::new();
    let mut day: i64 = today - HEATMAP_DAYS + 1;
    while day <= today
        invariant
            days.wf(),
            p.days == days@,
            p.first == first,
            p.today == today,
            -0x1_0000_0000_0000 <= first <= 0x1_0000_0000_0000,
            -0x1_0000_0000_0000 <= today <= 0x1_0000_0000_0000,
            history@.len() <= 0x4_0000_0000_0000,
            today - HEATMAP_DAYS + 1 <= day <= today + 1,
            cells@.len() == day - (today - HEATMAP_DAYS + 1),
            forall|i: int|
                0 <= i < cells@.len() ==> shows_cell(
                    #[trigger] cells@[i],
                    p,
                    history_views(history@),
                    today - HEATMAP_DAYS + 1 + i,
                ),
        decreases today - day + 1,
    {
        cells.push(show_cell(days, history, first, day, Ghost(p)));
        day = day + 1;
    }
    cells
}

/// The first day of a table is the first of its days.
pub proof fn lemma_first_day(days: DayTable, today: int)
    requires
        days.wf(),
    ensures
        first_day(days@, today) == if days.entries@.len() == 0 {
            today
        } else {
            days.entries@[0].0 as int
        },
{
    if days.entries@.len() == 0 {
        assert forall|d: int| !is_first(days@, d) by {
            assert(!days.has(d));
        }
    } else {
        let d = days.entries@[0].0 as int;
        days.lemma_place(0);
        assert forall|k: int| #[trigger] days@.dom().contains(k) implies d <= k by {
            assert(days.has(k));
            let i = days.place(k);
            assert(days.entries@[i].0 == k);
            if i > 0 {
                assert(days.entries@[0].0 < days.entries@[i].0);
            }
        }
        assert(is_first(days@, d));
        let c = choose|c: int| is_first(days@, c);
        assert(is_first(days@, c));
        assert(days@.dom().contains(c) && days@.dom().contains(d));
    }
}

fn show_periods(
    s: &Setting,
    r: &Replay,
    scores: &Vec<Score>,
    earned: &Vec<(i64, Double)>,
    week: &Week,
) -> (res: Periods)
    requires
        score_views(scores@) == scores_of(r.model().history, s.first as int),
        scores_readable(score_views(scores@), s.clock, *week),
        tally(score_xp(score_views(scores@))) <= u64::MAX,
        r.history@.len() == day_count(s.past()),
        week.reads(s.now as int),
        -0x1_0000_0000_0000 <= s.first <= 0x1_0000_0000_0000,
        -0x1_0000_0000_0000 <= s.today <= 0x1_0000_0000_0000,
        earned@.len() <= REVIEW_LIMIT,
        forall|i: int| 0 <= i < earned@.len() ==> crate::days::earned_ok(#[trigger] earned@[i]),
        fits(s.now - HOUR_MS),
    ensures
        shows_periods(res, s.past(), r.model(), earned_views(earned@), *week),
{
    let day: u64 = if s.first <= s.today {
        let at: usize = r.history.len() - 1;
        assert(r.model().history[at as int] == r.history@[at as int]@);
        r.history[at].xp
    } else {
        0
    };
    assert(r.model().history.len() == r.history@.len());
    Periods {
        hour: hour_xp(earned, s.now),
        day,
        week: period_xp(scores, Span::Week, &s.clock, week, s.today - 9, s.today, s.now),
        month: period_xp(scores, Span::Month, &s.clock, week, s.today - 40, s.today, s.now),
        year: period_xp(scores, Span::Year, &s.clock, week, s.today - 400, s.today, s.now),
        all: r.xp_total,
    }
}

fn show_records(
    s: &Setting,
    r: &Replay,
    scores: &Vec<Score>,
    earned: &Vec<(i64, Double)>,
    week: &Week,
) -> (res: Records)
    requires
        score_views(scores@) == scores_of(r.model().history, s.first as int),
        scores_readable(score_views(scores@), s.clock, *week),
        tally(score_xp(score_views(scores@))) <= u64::MAX,
        tally(score_reviews(score_views(scores@))) <= u64::MAX,
        earned@.len() <= REVIEW_LIMIT,
        forall|i: int| 0 <= i < earned@.len() ==> crate::days::earned_ok(#[trigger] earned@[i]),
        forall|i: int| 0 <= i < earned@.len() ==> fits((#[trigger] earned@[i]).0 - HOUR_MS),
    ensures
        shows_records(res, s.past(), r.model(), earned_views(earned@), *week),
{
    assert(earned_views(earned@).len() == earned@.len());
    Records {
        hour: best_hour(earned),
        day: best_span(scores, Span::Day, &s.clock, week),
        week: best_span(scores, Span::Week, &s.clock, week),
        month: best_span(scores, Span::Month, &s.clock, week),
        year: best_span(scores, Span::Year, &s.clock, week),
    }
}

fn show_today(
    s: &Setting,
    r: &Replay,
    reviews: &[Review],
    stats: &DayStats,
    xp: u64,
    combo: u64,
) -> (res: Today)
    requires
        stats@ == study_on(s.days@, s.today as int),
        xp == xp_on(r.model().history, s.first as int, s.today as int),
        reviews@.len() > 0 ==> s.clock.tells_day(reviews@.last().id as int),
    ensures
        shows_today(res, s.past(), r.model(), reviews@, combo as nat),
{
    let current: u64 = if reviews.len() > 0 && s.clock.day(reviews[reviews.len() - 1].id) == s.today {
        combo
    } else {
        0
    };
    Today {
        reviews: stats.reviews,
        minutes: whole_units(stats.time_ms, 60_000),
        xp,
        max_combo: stats.max_combo,
        current_combo: current,
        new_cards: stats.new_cards,
    }
}

fn show_lifetime(s: &Setting, r: &Replay) -> (res: Lifetime)
    requires
        s.clock.tells_start(r.best_streak_day as int),
        s.clock.tells_start(s.first as int),
    ensures
        shows_lifetime(res, s.past(), r.model()),
{
    Lifetime {
        reviews: r.totals.reviews,
        hours: whole_units(r.totals.time_ms, 3_600_000),
        days_active: r.totals.days_active,
        best_streak: r.totals.best_streak,
        best_streak_at: s.clock.day_start_ms(r.best_streak_day),
        first_day_at: s.clock.day_start_ms(s.first),
        best_day: r.totals.best_day,
        best_combo: r.totals.best_combo,
        quests: r.totals.quests,
    }
}

/// Days whose start can be told lie within three hundred billion years.
proof fn lemma_small_day(clock: Clock, day: int)
    requires
        clock.tells_start(day),
    ensures
        -0x8000_0000_0000 <= day <= 0x8000_0000_0000,
{
}

/// Each review is among those that earned XP.
proof fn lemma_earned_ids(reviews: Seq<Review>, clock: Clock, seed: u64)
    ensures
        collected(reviews, clock, seed).earned.len() == reviews.len(),
        forall|i: int| 0 <= i < reviews.len() ==> (#[trigger] collected(reviews, clock, seed).earned[i]).0 == reviews[i].id,
    decreases reviews.len(),
{
    reveal(crate::days::collect_one);
    if reviews.len() > 0 {
        lemma_earned_ids(reviews.drop_last(), clock, seed);
    }
}

/// What is known of a replay when it is to be shown.
spec fn showable(s: Setting, r: Replay, scores: Seq<Score>, earned: Seq<(i64, Double)>, week: Week) -> bool {
    &&& s.wf()
    &&& score_views(scores) == scores_of(r.model().history, s.first as int)
    &&& scores_readable(score_views(scores), s.clock, week)
    &&& tally(score_xp(score_views(scores))) <= u64::MAX
    &&& tally(score_reviews(score_views(scores))) <= u64::MAX
    &&& r.history@.len() == day_count(s.past())
    &&& r.history@.len() <= 0x2_0000_0000_0000
    &&& r.unlocked@.len() == definitions().len()
    &&& forall|i: int|
        0 <= i < r.unlocked@.len() ==> (#[trigger] r.unlocked@[i] matches Some(day) ==> s.first <= day <= s.today)
    &&& s.first <= r.best_streak_day
    &&& r.best_streak_day <= s.today || r.best_streak_day == s.first
    &&& week.reads(s.now as int)
    &&& s.clock.tells_day(s.now as int)
    &&& s.today == s.clock.day_of(s.now as int)
    &&& s.clock.tells_start(s.first as int)
    &&& s.clock.tells_start(s.today + 1)
    &&& earned.len() <= REVIEW_LIMIT
    &&& forall|i: int| 0 <= i < earned.len() ==> crate::days::earned_ok(#[trigger] earned[i])
    &&& forall|i: int| 0 <= i < earned.len() ==> fits((#[trigger] earned[i]).0 - HOUR_MS)
    &&& fits(s.now - HOUR_MS)
}

/// The streak warning, where the streak is at risk.
fn show_warning(s: &Setting, streak: u64, freezes: u32, at_risk: bool, day_ends_at: i64) -> (res: Option<Notice>)
    requires
        s.clock.tells_day(s.now as int),
        day_ends_at == s.clock.start_of(s.clock.day_of(s.now as int) + 1),
    ensures
        res is Some == at_risk,
        res matches Some(warning) ==> warning@ == streak_warning_of(
            streak as nat,
            freezes as nat,
            day_ends_at as int,
            s.now as int,
        ),
{
    proof {
        law_day_holds_its_instants(s.clock, s.now as int);
    }
    if at_risk {
        Some(streak_warning(streak, freezes, day_ends_at, s.now))
    } else {
        None
    }
}

/// Everything that is shown of a player, told from the replay of the history.
#[verifier::rlimit(80)]
#[verifier::spinoff_prover]
fn show(
    user: &str,
    display: &str,
    reviews: &[Review],
    week: &Week,
    s: &Setting,
    r: Replay,
    scores: &Vec<Score>,
    earned: &Vec<(i64, Double)>,
    combo: u64,
    defs: &Vec<Def>,
) -> (res: Profile)
    requires
        showable(*s, r, scores@, earned@, *week),
        def_views(defs@) == definitions(),
        reviews@.len() > 0 ==> s.clock.tells_day(reviews@.last().id as int),
    ensures
        res.user@ == user@,
        res.display@ == display@,
        shows_state(res, reviews@, *week, s.past(), r.model(), earned_views(earned@), combo as nat),
{
    proof {
        lemma_small_day(s.clock, s.first as int);
        lemma_small_day(s.clock, s.today + 1);
    }
    let periods = show_periods(s, &r, scores, earned, week);
    let records = show_records(s, &r, scores, earned, week);
    let (level, xp_into_level, xp_for_next) = level_for(r.xp_total);
    let found = s.days.get(s.today);
    let studied_today = found.is_some();
    let now_stats = match found {
        Some(stats) => stats,
        None => DayStats::default(),
    };
    let mut events: Vec<Event> = Vec::new();
    assert(event_views(events@) =~= Seq::<EventModel>::empty());
    let quests = show_quests(&r.quests, &now_stats, s.today, &mut events);
    level_event(level, r.xp_total, &mut events);
    let shown_achievements = show_achievements(defs, &r.unlocked, &r.totals, &mut events);
    proof {
        let quest_part = quest_events(r.model().quests, now_stats@, s.today as int);
        assert(Seq::<EventModel>::empty() + quest_part =~= quest_part);
    }
    let heatmap = show_heatmap(s.days, &r.history, s.first, s.today, Ghost(s.past()));
    let at_risk = r.streak > 0 && !studied_today;
    let day_ends_at: i64 = s.clock.day_start_ms(s.today + 1);
    let freezes_enabled = freezes_enabled_at(s.preferences, s.now);
    let freezes: u32 = if freezes_enabled {
        r.freezes
    } else {
        0
    };
    let warning = show_warning(s, r.streak, freezes, at_risk, day_ends_at);
    let today_shown = show_today(s, &r, reviews, &now_stats, periods.day, combo);
    let lifetime = show_lifetime(s, &r);
    let last_review_id: i64 = if reviews.len() > 0 {
        reviews[reviews.len() - 1].id
    } else {
        0
    };
    Profile {
        user: user.to_owned(),
        display: display.to_owned(),
        level,
        xp_total: r.xp_total,
        xp_into_level,
        xp_for_next,
        week_xp: periods.week,
        periods,
        records,
        streak: r.streak,
        freezes,
        stored_freezes: r.freezes,
        freezes_enabled,
        freeze_earned_today: r.freeze_earned_today,
        at_risk,
        day_ends_at,
        streak_warning: warning,
        local_hour: s.clock.hour(s.now),
        today: today_shown,
        lifetime,
        quests,
        achievements: shown_achievements,
        heatmap,
        last_review_id,
        day: s.today,
        events,
        history: r.history,
    }
}

proof fn lemma_scores_readable(p: Past, week: Week, history: Seq<HistoryModel>)
    requires
        history.len() == day_count(p),
        forall|day: int| p.first <= day <= p.today + 1 ==> #[trigger] p.clock.tells_start(day),
        forall|day: int| p.first <= day <= p.today ==> week.reads(#[trigger] p.clock.start_of(day)),
    ensures
        scores_readable(scores_of(history, p.first), p.clock, week),
{
    let scores = scores_of(history, p.first);
    assert forall|i: int| 0 <= i < scores.len() implies p.clock.tells_start((#[trigger] scores[i]).day) && week.reads(
        p.clock.start_of(scores[i].day),
    ) by {
        assert(scores[i].day == p.first + i);
        assert(p.clock.tells_start(p.first + i));
        assert(week.reads(p.clock.start_of(p.first + i)));
    }
}

proof fn lemma_earned_fit(reviews: Seq<Review>, clock: Clock, seed: u64, earned: Seq<(i64, Double)>)
    requires
        earned_views(earned) == collected(reviews, clock, seed).earned,
        forall|i: int| 0 <= i < reviews.len() ==> fits((#[trigger] reviews[i]).id - HOUR_MS),
    ensures
        earned.len() == reviews.len(),
        forall|i: int| 0 <= i < earned.len() ==> fits((#[trigger] earned[i]).0 - HOUR_MS),
{
    lemma_earned_ids(reviews, clock, seed);
    assert(earned_views(earned).len() == earned.len());
    assert forall|i: int| 0 <= i < earned.len() implies fits((#[trigger] earned[i]).0 - HOUR_MS) by {
        assert(earned_views(earned)[i].0 == earned[i].0);
        assert(reviews[i].id == earned[i].0);
    }
}

/// A setting that is made from computable reviews can be replayed.
proof fn lemma_setting(s: Setting, user: Seq<char>, reviews: Seq<Review>, week: Week, legacy_until: Option<i64>)
    requires
        computable(user, reviews, s.clock, week, s.now as int, legacy_until, s.preferences@),
        s.past() == past_of(user, reviews, s.clock, s.now as int, legacy_until, s.preferences@),
        s.days.wf(),
        tally(s.days.counts()) == reviews.len(),
        s.first == (if s.days.entries@.len() == 0 { s.today } else { s.days.entries@[0].0 }),
    ensures
        s.wf(),
        -0x8000_0000_0000 <= s.first <= 0x8000_0000_0000,
        -0x8000_0000_0000 <= s.today + 1 <= 0x8000_0000_0000,
{
    lemma_small_day(s.clock, s.first as int);
    lemma_small_day(s.clock, s.today + 1);
}

/// A history that was replayed from computable reviews can be shown.
proof fn lemma_showable(
    s: Setting,
    r: Replay,
    scores: Seq<Score>,
    earned: Seq<(i64, Double)>,
    week: Week,
    user: Seq<char>,
    reviews: Seq<Review>,
    legacy_until: Option<i64>,
)
    requires
        computable(user, reviews, s.clock, week, s.now as int, legacy_until, s.preferences@),
        s.past() == past_of(user, reviews, s.clock, s.now as int, legacy_until, s.preferences@),
        s.wf(),
        -0x8000_0000_0000 <= s.first <= 0x8000_0000_0000,
        -0x8000_0000_0000 <= s.today + 1 <= 0x8000_0000_0000,
        r.wf(s, day_count(s.past())),
        r.model() == replayed(s.past(), day_count(s.past())),
        score_views(scores) == scores_of(history_views(r.history@), s.first as int),
        earned_views(earned) == collected(reviews, s.clock, s.seed).earned,
        forall|i: int| 0 <= i < earned.len() ==> crate::days::earned_ok(#[trigger] earned[i]),
    ensures
        showable(s, r, scores, earned, week),
{
    let p = s.past();
    r.lemma_wf(s, day_count(p));
    law_totals_are_sums_over_the_days(p, day_count(p));
    lemma_scores_readable(p, week, r.model().history);
    lemma_earned_fit(reviews, s.clock, s.seed, earned);
}

/// Everything that is shown of a player, freezes as they were chosen.
pub fn compute_with_freezes(
    user: &str,
    display: &str,
    reviews: &[Review],
    clock: &Clock,
    week: &Week,
    now_ms: i64,
    freeze_policy: &FreezePolicy,
) -> (res: Profile)
    requires
        computable(
            user@,
            reviews@,
            *clock,
            *week,
            now_ms as int,
            freeze_policy.legacy_until,
            freeze_policy.preferences@,
        ),
    ensures
        shows_profile(
            res,
            user@,
            display@,
            reviews@,
            *clock,
            *week,
            now_ms as int,
            freeze_policy.legacy_until,
            freeze_policy.preferences@,
        ),
{
    let seed: u64 = seed_of(user);
    let (days, last_combo, earned) = collect_days_with_quests(reviews, clock, seed);
    let today: i64 = clock.day(now_ms);
    let legacy_until: Option<i64> = match freeze_policy.legacy_until {
        Some(at) => Some(clock.day(at)),
        None => None,
    };
    let first: i64 = if days.entries.len() == 0 {
        today
    } else {
        days.entries[0].0
    };
    let ghost p = past_of(
        user@,
        reviews@,
        *clock,
        now_ms as int,
        freeze_policy.legacy_until,
        freeze_policy.preferences@,
    );
    proof {
        lemma_first_day(days, today as int);
    }
    let s = Setting {
        days: &days,
        first,
        today,
        now: now_ms,
        clock: *clock,
        seed,
        legacy_until,
        preferences: &freeze_policy.preferences,
    };
    proof {
        assert(s.past() == p);
        lemma_setting(s, user@, reviews@, *week, freeze_policy.legacy_until);
    }
    let defs = achievements();
    let r = replay(&s, &defs);
    proof {
        r.lemma_wf(s, day_count(p));
    }
    let scores = build_scores(&r.history, first);
    proof {
        lemma_showable(s, r, scores@, earned@, *week, user@, reviews@, freeze_policy.legacy_until);
    }
    show(user, display, reviews, week, &s, r, &scores, &earned, last_combo, &defs)
}

/// Everything that is shown of a player who has never chosen to use freezes.
pub fn compute(
    user: &str,
    display: &str,
    reviews: &[Review],
    clock: &Clock,
    week: &Week,
    now_ms: i64,
) -> (res: Profile)
    requires
        computable(user@, reviews@, *clock, *week, now_ms as int, None, Seq::empty()),
    ensures
        shows_profile(
            res,
            user@,
            display@,
            reviews@,
            *clock,
            *week,
            now_ms as int,
            None,
            Seq::empty(),
        ),
{
    let policy = FreezePolicy::default();
    assert(policy.preferences@ =~= Seq::empty());
    compute_with_freezes(user, display, reviews, clock, week, now_ms, &policy)
}

proof fn lemma_part_of_tally(s: Seq<nat>, i: int)
    requires
        0 <= i < s.len(),
    ensures
        s[i] <= tally(s),
    decreases s.len(),
{
    if i < s.len() - 1 {
        lemma_part_of_tally(s.drop_last(), i);
    }
}

/// No period holds more XP than the lifetime of the player, and no running
/// week, month or year more than the best one.
pub proof fn law_profiles_add_up(
    v: Profile,
    user: Seq<char>,
    display: Seq<char>,
    reviews: Seq<Review>,
    clock: Clock,
    week: Week,
    now: int,
    legacy_until: Option<i64>,
    preferences: Seq<FreezePreference>,
)
    requires
        shows_profile(v, user, display, reviews, clock, week, now, legacy_until, preferences),
    ensures
        v.periods.all == v.xp_total,
        v.periods.day <= v.xp_total,
        v.periods.week <= v.xp_total,
        v.periods.month <= v.xp_total,
        v.periods.year <= v.xp_total,
        v.periods.week <= v.records.week.xp,
        v.periods.month <= v.records.month.xp,
        v.periods.year <= v.records.year.xp,
        v.freezes <= v.stored_freezes <= MAX_FREEZES,
        !v.freezes_enabled ==> v.freezes == 0,
{
    let p = past_of(user, reviews, clock, now, legacy_until, preferences);
    let m = replayed(p, day_count(p));
    let scores = scores_of(m.history, p.first);
    law_totals_are_sums_over_the_days(p, day_count(p));
    law_freezes_stay_within_the_bank(p, day_count(p));
    law_no_period_exceeds_the_total(scores, Span::Week, clock, week, p.today - 9, p.today, p.now);
    law_no_period_exceeds_the_total(scores, Span::Month, clock, week, p.today - 40, p.today, p.now);
    law_no_period_exceeds_the_total(scores, Span::Year, clock, week, p.today - 400, p.today, p.now);
    law_periods_stay_within_their_record(scores, Span::Week, clock, week, p.today - 9, p.today, p.now);
    law_periods_stay_within_their_record(scores, Span::Month, clock, week, p.today - 40, p.today, p.now);
    law_periods_stay_within_their_record(scores, Span::Year, clock, week, p.today - 400, p.today, p.now);
    let i = p.today - p.first;
    if 0 <= i < m.history.len() {
        assert(score_xp(scores)[i] == m.history[i].xp);
        lemma_part_of_tally(score_xp(scores), i);
    }
}

} // verus!
