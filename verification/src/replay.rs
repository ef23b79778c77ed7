//! A player's history, replayed day by day: streaks, freezes, quests,
//! achievements and XP.

use vstd::prelude::*;
use std::collections::VecDeque;
use vstd::arithmetic::power2::{lemma_pow2_adds, lemma_pow2_pos, lemma_pow2_strictly_increases, lemma2_to64, lemma2_to64_rest, pow2};
use crate::achievements::{def_views, definitions, lemma_definitions, lemma_tier_bound, no_totals, reward, reward_of, value_of, Def, Totals, TotalsModel};
use crate::calendar::{civil, civil_of, date_string, date_text, fits, is_weekend, weekday, Clock};
use crate::day_table::{lemma_tally_prefix, tally, DayTable};
use crate::days::{one_if, opt_int, remembered, study_on};
use crate::double::{lemma_nearest_bounds, lemma_of_int_exact, lemma_of_int_range, lemma_quotient_range, lemma_quotient_sign, lemma_sum_range, of_int, product, quotient, rounded, saturated, sum, unit, Double};
use crate::freezes::{enabled_at, freezes_enabled_at, FreezePreference, MAX_FREEZES};
use crate::quests::{at_least, at_most, completes, day_views, gen_quests, no_study, quest_views, quests_for, DayModel, DayStats, Quest, QuestModel, RECENT_DAYS, REVIEW_LIMIT};

verus! {

/// The XP of a quest.
pub const QUEST_XP: u64 = 50;

/// The XP of completing every quest of a day.
pub const ALL_QUESTS_XP: u64 = 100;

/// One day of a history, in unbounded numbers.
pub struct HistoryModel {
    pub at: int,
    pub date: Seq<char>,
    pub xp: nat,
    pub reviews: nat,
    pub time_ms: int,
    pub new_cards: nat,
    pub streak: nat,
    pub frozen: bool,
}

/// One day of a history.
#[derive(Clone, Debug)]
pub struct HistoryDay {
    /// UTC start of the player's day. Competition periods use this instant,
    /// exactly as the weekly and monthly leaderboards do.
    pub at: i64,
    pub date: String,
    pub xp: u64,
    pub reviews: u64,
    pub time_ms: i64,
    pub new_cards: u64,
    pub streak: u64,
    pub frozen: bool,
}

impl View for HistoryDay {
    type V = HistoryModel;

    open spec fn view(&self) -> HistoryModel {
        HistoryModel {
            at: self.at as int,
            date: self.date@,
            xp: self.xp as nat,
            reviews: self.reviews as nat,
            time_ms: self.time_ms as int,
            new_cards: self.new_cards as nat,
            streak: self.streak as nat,
            frozen: self.frozen,
        }
    }
}

pub open spec fn history_views(history: Seq<HistoryDay>) -> Seq<HistoryModel> {
    history.map_values(|h: HistoryDay| h@)
}

/// What a history is replayed from.
pub struct Past {
    /// The days of study.
    pub days: Map<int, DayModel>,
    /// The first day, and the day of `now`.
    pub first: int,
    pub today: int,
    pub now: int,
    pub clock: Clock,
    pub seed: u64,
    /// The day before which freezes came by themselves.
    pub legacy_until: Option<int>,
    pub preferences: Seq<FreezePreference>,
}

/// Where the replay of a history stands.
#[verifier::ext_equal]
pub struct ReplayModel {
    pub totals: TotalsModel,
    pub streak: nat,
    pub best_streak_day: int,
    pub freezes: nat,
    pub freeze_earned_today: bool,
    /// The days of study that the next quests look back on.
    pub recent: Seq<DayModel>,
    /// For each achievement the day on which it was unlocked.
    pub unlocked: Seq<Option<int>>,
    pub xp_total: nat,
    pub history: Seq<HistoryModel>,
    /// The calendar month, and the reviews in it.
    pub month: (int, int),
    pub month_reviews: nat,
    pub last_active: Option<int>,
    /// Whether a freeze saved the streak on the current day.
    pub frozen: bool,
    /// The XP of the current day so far.
    pub xp: nat,
    /// The quests of the current day.
    pub quests: Seq<QuestModel>,
}

/// Before the first day.
pub open spec fn replay_start(p: Past) -> ReplayModel {
    ReplayModel {
        totals: no_totals(),
        streak: 0,
        best_streak_day: p.first,
        freezes: 0,
        freeze_earned_today: false,
        recent: Seq::empty(),
        unlocked: Seq::new(definitions().len(), |i: int| None::<int>),
        xp_total: 0,
        history: Seq::empty(),
        month: (civil_of(p.first).0, civil_of(p.first).1),
        month_reviews: 0,
        last_active: None,
        frozen: false,
        xp: 0,
        quests: Seq::empty(),
    }
}

/// Whether a day lies before the freezes were made a choice.
pub open spec fn is_legacy(p: Past, day: int) -> bool {
    p.legacy_until matches Some(cutoff) && day < cutoff
}

/// A day begins: the bank is emptied once, where freezes become a choice, and
/// a new month counts its reviews anew.
pub open spec fn day_opened(p: Past, m: ReplayModel, day: int) -> ReplayModel {
    let month = (civil_of(day).0, civil_of(day).1);
    ReplayModel {
        freezes: if p.legacy_until == Some(day) {
            0
        } else {
            m.freezes
        },
        month,
        month_reviews: if month == m.month {
            m.month_reviews
        } else {
            0
        },
        totals: TotalsModel { years: ((day - p.first) / 365) as nat, ..m.totals },
        frozen: false,
        xp: 0,
        ..m
    }
}

/// What a day of study adds to the totals, whatever its streak and its quests.
pub open spec fn counted_totals(
    t: TotalsModel,
    s: DayModel,
    day: int,
    first: int,
    month_reviews: nat,
    last_active: Option<int>,
) -> TotalsModel {
    let (year, month, date) = civil_of(day);
    let (first_year, first_month, first_date) = civil_of(first);
    TotalsModel {
        best_month: at_least(t.best_month as int, month_reviews as int) as nat,
        relearns: t.relearns + s.relearns,
        max_ivl: at_least(t.max_ivl as int, at_least(s.max_ivl, 0)) as nat,
        distinct_cards: t.distinct_cards + s.first_seen,
        longest_session_ms: at_least(t.longest_session_ms, s.longest_session_ms),
        max_sessions: at_least(t.max_sessions as int, s.sessions as int) as nat,
        weekend_days: t.weekend_days + one_if(weekday(day) >= 5),
        fast_days: t.fast_days + one_if(s.reviews >= 100 && s.time_ms < s.reviews * 5_000),
        new_year_days: t.new_year_days + one_if(month == 1 && date == 1),
        anniversaries: t.anniversaries + one_if(year > first_year && month == first_month && date == first_date),
        comebacks: t.comebacks + one_if(last_active matches Some(last) && day - last >= 30),
        ..t
    }
}

/// A day of study is counted.
pub open spec fn day_counted(p: Past, m: ReplayModel, day: int) -> ReplayModel {
    if !p.days.dom().contains(day) {
        m
    } else {
        let s = p.days[day];
        let month_reviews = m.month_reviews + s.reviews;
        ReplayModel {
            month_reviews,
            last_active: Some(day),
            totals: counted_totals(m.totals, s, day, p.first, month_reviews, m.last_active),
            ..m
        }
    }
}

/// Whether a freeze saves the streak on a day without study.
pub open spec fn is_saved(p: Past, m: ReplayModel, day: int) -> bool {
    &&& m.streak > 0
    &&& m.freezes > 0
    &&& is_legacy(p, day) || enabled_at(p.preferences, p.clock.start_of(day + 1) - 1)
}

/// What a day does to the streak. A day of study adds to it. Another day ends
/// it, unless it is saved by a freeze or not over yet.
pub open spec fn streak_kept(p: Past, m: ReplayModel, day: int) -> ReplayModel {
    if p.days.dom().contains(day) {
        let streak = m.streak + 1;
        let longest = streak > m.totals.best_streak;
        ReplayModel {
            streak,
            best_streak_day: if longest {
                day
            } else {
                m.best_streak_day
            },
            freezes: if is_legacy(p, day) && streak % 7 == 0 && m.freezes < 2 {
                m.freezes + 1
            } else {
                m.freezes
            },
            totals: TotalsModel {
                best_streak: if longest {
                    streak
                } else {
                    m.totals.best_streak
                },
                ..m.totals
            },
            ..m
        }
    } else if day == p.today {
        m
    } else if is_saved(p, m, day) {
        ReplayModel {
            freezes: (m.freezes - 1) as nat,
            frozen: true,
            totals: TotalsModel { freezes_used: m.totals.freezes_used + 1, ..m.totals },
            ..m
        }
    } else {
        ReplayModel { streak: 0, ..m }
    }
}

/// The XP of the reviews of a day: more by a percent for each day of the
/// streak, up to thirty.
pub open spec fn streak_xp(review_xp: int, streak: int) -> int {
    saturated(rounded(product(review_xp, sum(of_int(1), quotient(of_int(at_most(streak, 30)), of_int(100))))))
}

/// How many of some quests a day of study completes.
pub open spec fn completed(quests: Seq<QuestModel>, s: DayModel) -> nat
    decreases quests.len(),
{
    if quests.len() == 0 {
        0
    } else {
        completed(quests.drop_last(), s) + one_if(completes(quests.last(), s))
    }
}

/// The quests of a day.
pub open spec fn quests_on(p: Past, m: ReplayModel, day: int) -> Seq<QuestModel> {
    quests_for(p.seed, day, m.recent)
}

/// Whether a day of study that completes every quest earns a freeze: where
/// freezes are a choice, the bank is not full, and freezes were wanted when the
/// quests were completed first.
pub open spec fn earns_freeze(p: Past, m: ReplayModel, day: int) -> bool {
    &&& !is_legacy(p, day)
    &&& m.freezes < MAX_FREEZES
    &&& p.days[day].quests_completed_at matches Some(at) && at <= p.now && enabled_at(p.preferences, at)
}

/// The rest of what a day of study adds to the totals.
pub open spec fn rewarded_totals(t: TotalsModel, s: DayModel, done: nat, perfect: bool) -> TotalsModel {
    TotalsModel {
        quests: t.quests + done,
        perfect_days: t.perfect_days + one_if(perfect),
        reviews: t.reviews + s.reviews,
        time_ms: t.time_ms + s.time_ms,
        mature: t.mature + s.mature,
        new_cards: t.new_cards + s.new_cards,
        best_day: at_least(t.best_day as int, s.reviews as int) as nat,
        best_combo: at_least(t.best_combo as int, s.max_combo as int) as nat,
        early_days: t.early_days + one_if(s.early),
        late_days: t.late_days + one_if(s.late),
        days_active: t.days_active + 1,
        ..t
    }
}

/// What a day of study brings: XP for the reviews and the quests, perhaps a
/// freeze, and the rest of the totals.
pub open spec fn day_rewarded(p: Past, m: ReplayModel, day: int) -> ReplayModel {
    let quests = quests_on(p, m, day);
    if !p.days.dom().contains(day) {
        ReplayModel { quests, ..m }
    } else {
        let s = p.days[day];
        let done = completed(quests, s);
        let perfect = done == quests.len();
        let earns = perfect && earns_freeze(p, m, day);
        ReplayModel {
            quests,
            xp: m.xp + streak_xp(s.review_xp, m.streak as int) as nat + done * QUEST_XP as nat + if perfect {
                ALL_QUESTS_XP as nat
            } else {
                0
            },
            freezes: m.freezes + one_if(earns),
            freeze_earned_today: if earns {
                day == p.today
            } else {
                m.freeze_earned_today
            },
            recent: remembered(m.recent, s),
            totals: rewarded_totals(m.totals, s, done, perfect),
            ..m
        }
    }
}

/// Whether an achievement is unlocked by the totals, and was not before.
pub open spec fn unlocks(t: TotalsModel, unlocked: Seq<Option<int>>, i: int) -> bool {
    unlocked[i] is None && value_of(t, definitions()[i].metric) >= definitions()[i].threshold
}

/// The XP of the first `n` achievements, as far as they are unlocked now.
pub open spec fn unlock_xp(t: TotalsModel, unlocked: Seq<Option<int>>, n: nat) -> nat
    decreases n,
{
    if n == 0 {
        0
    } else {
        let d = definitions()[n - 1];
        unlock_xp(t, unlocked, (n - 1) as nat) + if unlocks(t, unlocked, n - 1) {
            reward_of(d.metric, d.threshold)
        } else {
            0
        }
    }
}

/// The achievements that the totals have reached are unlocked, and bring XP.
pub open spec fn day_unlocked(m: ReplayModel, day: int) -> ReplayModel {
    ReplayModel {
        unlocked: Seq::new(
            m.unlocked.len(),
            |i: int|
                if unlocks(m.totals, m.unlocked, i) {
                    Some(day)
                } else {
                    m.unlocked[i]
                },
        ),
        xp: m.xp + unlock_xp(m.totals, m.unlocked, definitions().len()),
        ..m
    }
}

/// A day ends: its XP is added up, and the day goes into the history.
pub open spec fn day_closed(p: Past, m: ReplayModel, day: int) -> ReplayModel {
    let s = if p.days.dom().contains(day) {
        p.days[day]
    } else {
        no_study()
    };
    ReplayModel {
        xp_total: m.xp_total + m.xp,
        history: m.history.push(
            HistoryModel {
                at: p.clock.start_of(day),
                date: date_text(day),
                xp: m.xp,
                reviews: s.reviews,
                time_ms: s.time_ms,
                new_cards: s.new_cards,
                streak: m.streak,
                frozen: m.frozen,
            },
        ),
        ..m
    }
}

/// One day.
#[verifier::opaque]
pub open spec fn replay_day(p: Past, m0: ReplayModel, day: int) -> ReplayModel {
    let m1 = day_opened(p, m0, day);
    let m2 = day_counted(p, m1, day);
    let m3 = streak_kept(p, m2, day);
    let m4 = day_rewarded(p, m3, day);
    let m5 = day_unlocked(m4, day);
    day_closed(p, m5, day)
}

/// The first `n` days.
pub open spec fn replayed(p: Past, n: nat) -> ReplayModel
    decreases n,
{
    if n == 0 {
        replay_start(p)
    } else {
        replay_day(p, replayed(p, (n - 1) as nat), p.first + n - 1)
    }
}

/// How many days there are to replay: none, where the first lies in the
/// future.
pub open spec fn day_count(p: Past) -> nat {
    if p.first > p.today {
        0
    } else {
        (p.today - p.first + 1) as nat
    }
}

/// The counters of the first kind stay below the number of days, or below the
/// number of reviews.
spec fn counts_within(t: Totals, n: nat, r: nat) -> bool {
    &&& t.weekend_days <= n
    &&& t.fast_days <= n
    &&& t.new_year_days <= n
    &&& t.anniversaries <= n
    &&& t.comebacks <= n
    &&& t.years <= n
    &&& t.relearns <= r
    &&& t.distinct_cards <= r
    &&& t.best_month <= r
}

/// So do those of the second kind.
spec fn rewards_within(t: Totals, n: nat, r: nat) -> bool {
    &&& t.quests <= 3 * n
    &&& t.perfect_days <= n
    &&& t.early_days <= n
    &&& t.late_days <= n
    &&& t.days_active <= n
    &&& t.reviews <= r
    &&& t.mature <= r
    &&& t.new_cards <= r
}

fn one_when(b: bool) -> (res: u64)
    ensures
        res == one_if(b),
{
    if b {
        1
    } else {
        0
    }
}

fn larger_u64(a: u64, b: u64) -> (res: u64)
    ensures
        res == at_least(a as int, b as int),
{
    if a < b {
        b
    } else {
        a
    }
}

fn larger_i64(a: i64, b: i64) -> (res: i64)
    ensures
        res == at_least(a as int, b as int),
{
    if a < b {
        b
    } else {
        a
    }
}

fn count_day(
    t: &Totals,
    s: &DayStats,
    day: i64,
    first: i64,
    month_reviews: u64,
    last_active: Option<i64>,
    Ghost(n): Ghost<nat>,
    Ghost(r): Ghost<nat>,
) -> (res: Totals)
    requires
        counts_within(*t, n, r),
        s.wf(),
        n < 0x4000_0000_0000_0000,
        r + s.reviews <= REVIEW_LIMIT,
        month_reviews <= r + s.reviews,
        -0x1_0000_0000_0000 <= first <= day <= 0x1_0000_0000_0000,
        last_active matches Some(last) ==> -0x1_0000_0000_0000 <= last <= 0x1_0000_0000_0000,
    ensures
        res@ == counted_totals(t@, s@, day as int, first as int, month_reviews as nat, opt_int(last_active)),
        counts_within(res, n + 1, r + s.reviews as nat),
        res == (Totals {
            best_month: res.best_month,
            relearns: res.relearns,
            max_ivl: res.max_ivl,
            distinct_cards: res.distinct_cards,
            longest_session_ms: res.longest_session_ms,
            max_sessions: res.max_sessions,
            weekend_days: res.weekend_days,
            fast_days: res.fast_days,
            new_year_days: res.new_year_days,
            anniversaries: res.anniversaries,
            comebacks: res.comebacks,
            ..*t
        }),
{
    let (year, month, date) = civil(day);
    let (first_year, first_month, first_date) = civil(first);
    let away = match last_active {
        Some(last) => day - last >= 30,
        None => false,
    };
    let interval: u64 = if s.max_ivl > 0 {
        s.max_ivl as u64
    } else {
        0
    };
    Totals {
        best_month: larger_u64(t.best_month, month_reviews),
        relearns: t.relearns + s.relearns,
        max_ivl: larger_u64(t.max_ivl, interval),
        distinct_cards: t.distinct_cards + s.first_seen,
        longest_session_ms: larger_i64(t.longest_session_ms, s.longest_session_ms),
        max_sessions: larger_u64(t.max_sessions, s.sessions),
        weekend_days: t.weekend_days + one_when(is_weekend(day)),
        fast_days: t.fast_days + one_when(s.reviews >= 100 && s.time_ms < s.reviews as i64 * 5_000),
        new_year_days: t.new_year_days + one_when(month == 1 && date == 1),
        anniversaries: t.anniversaries + one_when(year > first_year && month == first_month && date == first_date),
        comebacks: t.comebacks + one_when(away),
        ..*t
    }
}

fn reward_totals(
    t: &Totals,
    s: &DayStats,
    done: u64,
    perfect: bool,
    Ghost(n): Ghost<nat>,
    Ghost(r): Ghost<nat>,
) -> (res: Totals)
    requires
        rewards_within(*t, n, r),
        s.wf(),
        done <= 3,
        n < 0x1000_0000_0000_0000,
        r + s.reviews <= REVIEW_LIMIT,
        fits(t.time_ms + s.time_ms),
    ensures
        res@ == rewarded_totals(t@, s@, done as nat, perfect),
        rewards_within(res, n + 1, r + s.reviews as nat),
        res == (Totals {
            quests: res.quests,
            perfect_days: res.perfect_days,
            reviews: res.reviews,
            time_ms: res.time_ms,
            mature: res.mature,
            new_cards: res.new_cards,
            best_day: res.best_day,
            best_combo: res.best_combo,
            early_days: res.early_days,
            late_days: res.late_days,
            days_active: res.days_active,
            ..*t
        }),
{
    Totals {
        quests: t.quests + done,
        perfect_days: t.perfect_days + one_when(perfect),
        reviews: t.reviews + s.reviews,
        time_ms: t.time_ms + s.time_ms,
        mature: t.mature + s.mature,
        new_cards: t.new_cards + s.new_cards,
        best_day: larger_u64(t.best_day, s.reviews),
        best_combo: larger_u64(t.best_combo, s.max_combo),
        early_days: t.early_days + one_when(s.early),
        late_days: t.late_days + one_when(s.late),
        days_active: t.days_active + 1,
        ..*t
    }
}

fn count_completed(quests: &Vec<Quest>, s: &DayStats) -> (res: u64)
    requires
        quests@.len() <= 3,
    ensures
        res == completed(quest_views(quests@), s@),
        res <= quests@.len(),
{
    let ghost all = quest_views(quests@);
    let mut done: u64 = 0;
    let mut i: usize = 0;
    assert(all.take(0) =~= Seq::<QuestModel>::empty());
    while i < quests.len()
        invariant
            all == quest_views(quests@),
            quests@.len() <= 3,
            i <= quests@.len(),
            done <= i,
            done == completed(all.take(i as int), s@),
        decreases quests@.len() - i,
    {
        proof {
            assert(all.take(i + 1).drop_last() =~= all.take(i as int));
            assert(all.take(i + 1).last() == quests@[i as int]@);
        }
        if quests[i].progress(s) >= quests[i].target {
            done = done + 1;
        }
        i = i + 1;
    }
    assert(all.take(i as int) =~= all);
    done
}

/// The bonus of a streak at most doubles the XP of a day.
proof fn lemma_streak_bonus(c: int)
    requires
        0 <= c <= 30,
    ensures
        0 <= quotient(of_int(c), of_int(100)) <= pow2(1074),
        pow2(1074) <= sum(of_int(1), quotient(of_int(c), of_int(100))) <= pow2(1075),
{
    lemma2_to64();
    let u = unit();
    lemma_pow2_pos(1074);
    lemma_of_int_exact(c);
    lemma_of_int_exact(100);
    lemma_of_int_exact(1);
    lemma_pow2_adds(5, 1074);
    lemma_pow2_adds(6, 1074);
    lemma_pow2_adds(7, 1074);
    lemma_pow2_adds(1, 1074);
    assert(c * u <= 32 * u && 64 * u <= 100 * u <= 128 * u && 1 * u == u) by (nonlinear_arith)
        requires
            c <= 30,
            u > 0,
    ;
    if c > 0 {
        assert(c * u >= u) by (nonlinear_arith)
            requires
                c >= 1,
                u > 0,
        ;
        lemma_quotient_range(c * u, 100 * u, 1074, 1079, 1080, 1081);
        lemma_pow2_pos(1067);
        lemma_pow2_strictly_increases(1073, 1074);
    } else {
        assert(c * u == 0) by (nonlinear_arith)
            requires
                c == 0,
        ;
        lemma_quotient_sign(c * u, 100 * u);
    }
    lemma_sum_range(of_int(1), quotient(of_int(c), of_int(100)), 1074, 1075);
}

/// The XP of the reviews of a day.
fn streak_points(review_xp: Double, streak: u64, reviews: u64) -> (res: u64)
    requires
        review_xp.wf(),
        1 <= reviews <= REVIEW_LIMIT,
        pow2(1074) <= review_xp@ <= reviews * pow2(1079),
    ensures
        res == streak_xp(review_xp@, streak as int),
        res <= 64 * reviews,
{
    let c: u64 = if streak > 30 {
        30
    } else {
        streak
    };
    let a = Double::from_u64(c);
    let b = Double::from_u64(100);
    let one = Double::from_u64(1);
    proof {
        lemma2_to64();
        lemma2_to64_rest();
        lemma_of_int_range(c as int, 5);
        lemma_of_int_range(100, 7);
        lemma_of_int_range(1, 0);
        lemma_pow2_strictly_increases(900, 1074);
        lemma_pow2_strictly_increases(1074, 1300);
        lemma_pow2_strictly_increases(1075, 1300);
        lemma_pow2_strictly_increases(1079, 1300);
        lemma_pow2_strictly_increases(1081, 1300);
        lemma_streak_bonus(c as int);
        lemma_pow2_adds(48, 1079);
        lemma_pow2_strictly_increases(1127, 1300);
        assert(reviews * pow2(1079) <= pow2(48) * pow2(1079)) by (nonlinear_arith)
            requires
                reviews <= pow2(48),
        ;
    }
    let factor = one.plus(a.over(b));
    let points = review_xp.times(factor);
    proof {
        let x = review_xp@;
        let f = factor@;
        lemma_pow2_adds(1079, 1075);
        lemma_pow2_adds(1074, 1080);
        lemma_pow2_pos(1074);
        lemma_pow2_pos(1075);
        assert(x * f <= pow2(1074) * (reviews * pow2(1080))) by (nonlinear_arith)
            requires
                0 <= x <= reviews * pow2(1079),
                0 <= f <= pow2(1075),
                pow2(1079) * pow2(1075) == pow2(1074) * pow2(1080),
        ;
        assert(x * f >= 0) by (nonlinear_arith)
            requires
                x >= 0,
                f >= 0,
        ;
        lemma_nearest_bounds((x * f) as nat, pow2(1074), reviews as nat, 1080);
        lemma_rounded_cap(points@, reviews as nat);
    }
    points.round()
}

proof fn lemma_rounded_cap(a: int, m: nat)
    requires
        0 <= a <= m * pow2(1080),
    ensures
        0 <= rounded(a) <= 64 * m,
{
    let u = unit();
    lemma2_to64();
    lemma_pow2_pos(1074);
    lemma_pow2_adds(6, 1074);
    let q = (2 * a + u) / (2 * u);
    assert(a * 2 + u == 2 * a + u);
    vstd::arithmetic::div_mod::lemma_fundamental_div_mod(2 * a + u, 2 * u);
    assert(0 <= q <= 64 * m) by (nonlinear_arith)
        requires
            2 * a + u == (2 * u) * q + (2 * a + u) % (2 * u),
            0 <= (2 * a + u) % (2 * u) < 2 * u,
            0 <= a <= m * (64 * u),
            u > 0,
    ;
}

/// The XP that the first `n` achievements have brought, as far as they are
/// unlocked.
pub open spec fn worth(unlocked: Seq<Option<int>>, n: nat) -> nat
    decreases n,
{
    if n == 0 {
        0
    } else {
        let d = definitions()[n - 1];
        worth(unlocked, (n - 1) as nat) + if unlocked[n - 1] is Some {
            reward_of(d.metric, d.threshold)
        } else {
            0
        }
    }
}

proof fn lemma_worth_bound(unlocked: Seq<Option<int>>, n: nat)
    ensures
        worth(unlocked, n) <= 11_800 * n,
    decreases n,
{
    if n > 0 {
        let d = definitions()[n - 1];
        lemma_worth_bound(unlocked, (n - 1) as nat);
        lemma_definitions();
        lemma_tier_bound(definitions(), d.metric, d.threshold);
    }
}

/// What achievements have brought grows by the XP of those unlocked now.
proof fn lemma_worth_grows(m: ReplayModel, day: int, n: nat)
    requires
        n <= m.unlocked.len(),
    ensures
        worth(day_unlocked(m, day).unlocked, n) == worth(m.unlocked, n) + unlock_xp(m.totals, m.unlocked, n),
    decreases n,
{
    if n > 0 {
        lemma_worth_grows(m, day, (n - 1) as nat);
    }
}

pub open spec fn unlocked_views(unlocked: Seq<Option<i64>>) -> Seq<Option<int>> {
    unlocked.map_values(|o: Option<i64>| opt_int(o))
}

/// Unlock what the totals have reached, and tell its XP.
fn unlock(unlocked: &mut Vec<Option<i64>>, defs: &Vec<Def>, t: &Totals, day: i64) -> (res: u64)
    requires
        def_views(defs@) == definitions(),
        old(unlocked)@.len() == definitions().len(),
    ensures
        final(unlocked)@.len() == old(unlocked)@.len(),
        res == unlock_xp(t@, unlocked_views(old(unlocked)@), definitions().len()),
        res <= 11_800 * 118,
        forall|i: int|
            0 <= i < final(unlocked)@.len() ==> opt_int(#[trigger] final(unlocked)@[i]) == if unlocks(
                t@,
                unlocked_views(old(unlocked)@),
                i,
            ) {
                Some(day as int)
            } else {
                opt_int(old(unlocked)@[i])
            },
{
    let ghost before = unlocked@;
    let ghost views = unlocked_views(before);
    let mut xp: u64 = 0;
    let mut i: usize = 0;
    proof {
        lemma_definitions();
        assert(def_views(defs@).len() == defs@.len());
    }
    while i < defs.len()
        invariant
            def_views(defs@) == definitions(),
            defs@.len() == definitions().len() == 118,
            views == unlocked_views(before),
            before.len() == 118,
            unlocked@.len() == 118,
            i <= 118,
            xp == unlock_xp(t@, views, i as nat),
            xp <= 11_800 * i,
            forall|k: int|
                0 <= k < i ==> opt_int(#[trigger] unlocked@[k]) == if unlocks(t@, views, k) {
                    Some(day as int)
                } else {
                    opt_int(before[k])
                },
            forall|k: int| i <= k < 118 ==> unlocked@[k] == before[k],
        decreases defs@.len() - i,
    {
        let d = defs[i];
        proof {
            assert(definitions()[i as int] == d@);
            assert(views[i as int] == opt_int(before[i as int]));
        }
        if unlocked[i].is_none() && t.value(d.metric) >= d.threshold {
            unlocked.set(i, Some(day));
            xp = xp + reward(defs, d.metric, d.threshold);
        }
        i = i + 1;
    }
    xp
}

/// What a history is replayed from.
pub struct Setting<'a> {
    pub days: &'a DayTable,
    pub first: i64,
    pub today: i64,
    pub now: i64,
    pub clock: Clock,
    pub seed: u64,
    pub legacy_until: Option<i64>,
    pub preferences: &'a Vec<FreezePreference>,
}

impl<'a> Setting<'a> {
    pub open spec fn past(self) -> Past {
        Past {
            days: self.days@,
            first: self.first as int,
            today: self.today as int,
            now: self.now as int,
            clock: self.clock,
            seed: self.seed,
            legacy_until: opt_int(self.legacy_until),
            preferences: self.preferences@,
        }
    }

    /// The first day is that of the first entry, and every day can be told
    /// within the range of `i64`.
    pub open spec fn wf(self) -> bool {
        &&& self.days.wf()
        &&& self.days.entries@.len() > 0 ==> self.days.entries@[0].0 == self.first
        &&& self.days.entries@.len() == 0 ==> self.first == self.today
        &&& tally(self.days.counts()) <= REVIEW_LIMIT
        &&& forall|n: nat| n <= day_count(self.past()) ==> fits((#[trigger] replayed(self.past(), n)).totals.time_ms)
        &&& forall|day: int| self.first <= day <= self.today + 1 ==> #[trigger] self.clock.tells_start(day)
    }
}

/// The replay of a history.
pub struct Replay {
    pub totals: Totals,
    pub streak: u64,
    pub best_streak_day: i64,
    pub freezes: u32,
    pub freeze_earned_today: bool,
    pub recent: VecDeque<DayStats>,
    pub unlocked: Vec<Option<i64>>,
    pub xp_total: u64,
    pub history: Vec<HistoryDay>,
    pub month: (i64, i64),
    pub month_reviews: u64,
    pub last_active: Option<i64>,
    pub frozen: bool,
    pub xp: u64,
    pub quests: Vec<Quest>,
    /// The first entry of the table that lies ahead.
    pub place: usize,
}

impl Replay {
    pub open spec fn model(self) -> ReplayModel {
        ReplayModel {
            totals: self.totals@,
            streak: self.streak as nat,
            best_streak_day: self.best_streak_day as int,
            freezes: self.freezes as nat,
            freeze_earned_today: self.freeze_earned_today,
            recent: day_views(self.recent@),
            unlocked: unlocked_views(self.unlocked@),
            xp_total: self.xp_total as nat,
            history: history_views(self.history@),
            month: (self.month.0 as int, self.month.1 as int),
            month_reviews: self.month_reviews as nat,
            last_active: opt_int(self.last_active),
            frozen: self.frozen,
            xp: self.xp as nat,
            quests: quest_views(self.quests@),
        }
    }

    /// What holds after `n` days.
    pub closed spec fn wf(self, s: Setting, n: nat) -> bool {
        let k = self.place as int;
        let entries = s.days.entries@;
        &&& k <= entries.len()
        &&& forall|i: int| 0 <= i < k ==> (#[trigger] entries[i]).0 < s.first + n
        &&& forall|i: int| k <= i < entries.len() ==> (#[trigger] entries[i]).0 >= s.first + n
        &&& self.recent@.len() <= RECENT_DAYS
        &&& forall|i: int| 0 <= i < self.recent@.len() ==> (#[trigger] self.recent@[i]).wf()
        &&& self.unlocked@.len() == definitions().len()
        &&& forall|i: int|
            0 <= i < self.unlocked@.len() ==> (#[trigger] self.unlocked@[i] matches Some(day) ==> s.first <= day <= s.today)
        &&& self.streak <= n
        &&& self.totals.best_streak <= n
        &&& self.totals.freezes_used <= n
        &&& self.freezes <= MAX_FREEZES
        &&& s.first <= self.best_streak_day
        &&& self.best_streak_day <= s.today || n == 0 && self.best_streak_day == s.first
        &&& self.last_active matches Some(last) ==> s.first <= last <= s.today
        &&& counts_within(self.totals, n, tally(s.days.counts().take(k)))
        &&& rewards_within(self.totals, n, tally(s.days.counts().take(k)))
        &&& self.month_reviews <= tally(s.days.counts().take(k))
        &&& self.xp_total <= 64 * tally(s.days.counts().take(k)) + 300 * k + worth(
            unlocked_views(self.unlocked@),
            definitions().len(),
        )
        &&& self.history@.len() == n
    }
}

/// Days that can be told lie within three hundred billion years.
proof fn lemma_days_are_small(s: Setting, day: int)
    requires
        s.wf(),
        s.first <= day <= s.today + 1,
    ensures
        -0x1_0000_0000_0000 <= day <= 0x1_0000_0000_0000,
{
    assert(s.clock.tells_start(day));
}

impl Replay {
    /// The parts that the model does not show stay as they are.
    spec fn keeps(self, other: Replay) -> bool {
        &&& self.recent == other.recent
        &&& self.unlocked == other.unlocked
        &&& self.history == other.history
        &&& self.place == other.place
    }

    fn open_day(&mut self, s: &Setting, day: i64)
        requires
            s.wf(),
            s.first <= day <= s.today,
        ensures
            final(self).model() == day_opened(s.past(), old(self).model(), day as int),
            final(self).keeps(*old(self)),
    {
        let ghost before = *self;
        proof {
            lemma_days_are_small(*s, day as int);
            lemma_days_are_small(*s, s.first as int);
        }
        let cutoff = match s.legacy_until {
            Some(at) => at == day,
            None => false,
        };
        if cutoff {
            self.freezes = 0;
        }
        let (year, month, _) = civil(day);
        if year != self.month.0 || month != self.month.1 {
            self.month = (year, month);
            self.month_reviews = 0;
        }
        self.totals.years = (day - s.first) as u64 / 365;
        self.frozen = false;
        self.xp = 0;
        assert(self.model() =~= day_opened(s.past(), before.model(), day as int));
    }

    fn count(&mut self, s: &Setting, day: i64, stats: &DayStats, Ghost(n): Ghost<nat>, Ghost(r): Ghost<nat>)
        requires
            s.wf(),
            s.first <= day <= s.today,
            s.days@.dom().contains(day as int),
            s.days@[day as int] == stats@,
            stats.wf(),
            counts_within(old(self).totals, n, r),
            n < 0x4000_0000_0000_0000,
            r + stats.reviews <= REVIEW_LIMIT,
            old(self).month_reviews <= r,
            old(self).last_active matches Some(last) ==> s.first <= last <= s.today,
        ensures
            final(self).model() == day_counted(s.past(), old(self).model(), day as int),
            final(self).keeps(*old(self)),
            counts_within(final(self).totals, n + 1, r + stats.reviews as nat),
    {
        let ghost before = *self;
        proof {
            lemma_days_are_small(*s, day as int);
            lemma_days_are_small(*s, s.first as int);
            if let Some(last) = self.last_active {
                lemma_days_are_small(*s, last as int);
            }
        }
        self.month_reviews = self.month_reviews + stats.reviews;
        self.totals = count_day(&self.totals, stats, day, s.first, self.month_reviews, self.last_active, Ghost(n), Ghost(r));
        self.last_active = Some(day);
        assert(self.model() =~= day_counted(s.past(), before.model(), day as int));
    }

    fn keep_streak(&mut self, s: &Setting, day: i64, studied: bool)
        requires
            s.wf(),
            s.first <= day <= s.today,
            studied == s.days@.dom().contains(day as int),
            old(self).streak < 0x4000_0000_0000_0000,
            old(self).totals.freezes_used < 0x4000_0000_0000_0000,
            old(self).freezes <= MAX_FREEZES,
        ensures
            final(self).model() == streak_kept(s.past(), old(self).model(), day as int),
            final(self).keeps(*old(self)),
            final(self).freezes <= MAX_FREEZES,
            final(self).best_streak_day == old(self).best_streak_day || final(self).best_streak_day == day,
    {
        let ghost before = *self;
        let legacy = match s.legacy_until {
            Some(cutoff) => day < cutoff,
            None => false,
        };
        if studied {
            self.streak = self.streak + 1;
            if self.streak > self.totals.best_streak {
                self.totals.best_streak = self.streak;
                self.best_streak_day = day;
            }
            if legacy && self.streak % 7 == 0 && self.freezes < 2 {
                self.freezes = self.freezes + 1;
            }
        } else if day != s.today {
            proof {
                assert(s.clock.tells_start(day + 1));
                assert(s.clock.tells_start(day as int));
                lemma_days_are_small(*s, day as int);
            }
            if self.streak > 0 && self.freezes > 0 && (legacy || freezes_enabled_at(
                s.preferences,
                s.clock.day_start_ms(day + 1) - 1,
            )) {
                self.freezes = self.freezes - 1;
                self.frozen = true;
                self.totals.freezes_used = self.totals.freezes_used + 1;
            } else {
                self.streak = 0;
            }
        }
        assert(self.model() =~= streak_kept(s.past(), before.model(), day as int));
    }

    fn set_quests(&mut self, s: &Setting, day: i64)
        requires
            old(self).recent@.len() <= RECENT_DAYS,
            forall|i: int| 0 <= i < old(self).recent@.len() ==> (#[trigger] old(self).recent@[i]).wf(),
        ensures
            final(self).model() == (ReplayModel {
                quests: quests_on(s.past(), old(self).model(), day as int),
                ..old(self).model()
            }),
            final(self).keeps(*old(self)),
            final(self).quests@.len() == 3,
            final(self).freezes == old(self).freezes,
            final(self).totals == old(self).totals,
    {
        let ghost before = *self;
        self.quests = gen_quests(s.seed, day, &self.recent);
        assert(self.model() =~= (ReplayModel {
            quests: quests_on(s.past(), before.model(), day as int),
            ..before.model()
        }));
    }

    fn reward_day(
        &mut self,
        s: &Setting,
        day: i64,
        stats: &DayStats,
        Ghost(n): Ghost<nat>,
        Ghost(r): Ghost<nat>,
    )
        requires
            s.days@.dom().contains(day as int),
            s.days@[day as int] == stats@,
            stats.wf(),
            stats.reviews > 0,
            old(self).recent@.len() <= RECENT_DAYS,
            forall|i: int| 0 <= i < old(self).recent@.len() ==> (#[trigger] old(self).recent@[i]).wf(),
            old(self).freezes <= MAX_FREEZES,
            old(self).xp == 0,
            rewards_within(old(self).totals, n, r),
            n < 0x1000_0000_0000_0000,
            r + stats.reviews <= REVIEW_LIMIT,
            fits(old(self).totals.time_ms + stats.time_ms),
        ensures
            final(self).model() == day_rewarded(s.past(), old(self).model(), day as int),
            final(self).freezes <= MAX_FREEZES,
            final(self).recent@.len() <= RECENT_DAYS,
            forall|i: int| 0 <= i < final(self).recent@.len() ==> (#[trigger] final(self).recent@[i]).wf(),
            final(self).unlocked == old(self).unlocked,
            final(self).history == old(self).history,
            final(self).place == old(self).place,
            final(self).xp <= 64 * stats.reviews + 250,
            rewards_within(final(self).totals, n + 1, r + stats.reviews as nat),
            counts_within(old(self).totals, n, r) ==> counts_within(final(self).totals, n, r),
    {
        let ghost before = *self;
        self.set_quests(s, day);
        let ghost quests = quests_on(s.past(), before.model(), day as int);
        proof {
            assert(quest_views(self.quests@) == quests);
            assert(quests.len() == self.quests@.len());
        }
        let legacy = match s.legacy_until {
            Some(cutoff) => day < cutoff,
            None => false,
        };
        let done: u64 = count_completed(&self.quests, stats);
        let perfect = done == self.quests.len() as u64;
        let points: u64 = streak_points(stats.review_xp, self.streak, stats.reviews);
        let bonus: u64 = if perfect {
            ALL_QUESTS_XP
        } else {
            0
        };
        self.xp = points + done * QUEST_XP + bonus;
        if perfect && !legacy && self.freezes < MAX_FREEZES {
            let wanted = match stats.quests_completed_at {
                Some(at) => at <= s.now && freezes_enabled_at(s.preferences, at),
                None => false,
            };
            if wanted {
                self.freezes = self.freezes + 1;
                self.freeze_earned_today = day == s.today;
            }
        }
        self.totals = reward_totals(&self.totals, stats, done, perfect, Ghost(n), Ghost(r));
        self.recent.push_back(*stats);
        let ghost pushed = self.recent@;
        assert(day_views(pushed) =~= day_views(before.recent@).push(stats@));
        if self.recent.len() > RECENT_DAYS {
            let _ = self.recent.pop_front();
            assert(day_views(self.recent@) =~= day_views(pushed).drop_first());
        }
        assert(self.model() =~= day_rewarded(s.past(), before.model(), day as int));
    }

    /// What was studied on the next day of the table, if that is today's.
    fn next_stats(&mut self, s: &Setting, day: i64, Ghost(n): Ghost<nat>) -> (res: Option<DayStats>)
        requires
            s.wf(),
            old(self).wf(*s, n),
            day == s.first + n,
        ensures
            res is Some <==> s.days@.dom().contains(day as int),
            res matches Some(stats) ==> {
                &&& stats@ == s.days@[day as int]
                &&& stats.wf()
                &&& stats.reviews > 0
                &&& old(self).place < s.days.entries@.len()
                &&& stats == s.days.entries@[old(self).place as int].1
            },
            *final(self) == (Replay { place: final(self).place, ..*old(self) }),
            final(self).place == old(self).place + if res is Some { 1int } else { 0 },
            final(self).place <= s.days.entries@.len(),
            forall|i: int| 0 <= i < final(self).place ==> (#[trigger] s.days.entries@[i]).0 < s.first + n + 1,
            forall|i: int|
                final(self).place <= i < s.days.entries@.len() ==> (#[trigger] s.days.entries@[i]).0 >= s.first + n + 1,
    {
        let k: usize = self.place;
        if k < s.days.entries.len() && s.days.entries[k].0 == day {
            proof {
                s.days.lemma_place(k as int);
                assert forall|i: int| k < i < s.days.entries@.len() implies (#[trigger] s.days.entries@[i]).0 >= s.first + n
                    + 1 by {
                    assert(s.days.entries@[k as int].0 < s.days.entries@[i].0);
                }
            }
            self.place = k + 1;
            Some(s.days.entries[k].1)
        } else {
            proof {
                assert(!s.days@.dom().contains(day as int)) by {
                    if s.days.has(day as int) {
                        let i = s.days.place(day as int);
                        assert(s.days.entries@[i].0 == day);
                        assert(i >= k);
                        if k < i {
                            assert(s.days.entries@[k as int].0 < s.days.entries@[i].0);
                        }
                    }
                }
                assert forall|i: int| k <= i < s.days.entries@.len() implies (#[trigger] s.days.entries@[i]).0 >= s.first + n
                    + 1 by {
                    assert(s.days.entries@[k as int].0 > day);
                    if k < i {
                        assert(s.days.entries@[k as int].0 < s.days.entries@[i].0);
                    }
                }
            }
            None
        }
    }
}

impl Replay {
    /// Unlock achievements, add up the XP of the day and write the history.
    fn close_day(&mut self, s: &Setting, defs: &Vec<Def>, day: i64, stats: &DayStats, Ghost(cap): Ghost<nat>)
        requires
            s.wf(),
            s.first <= day <= s.today,
            def_views(defs@) == definitions(),
            stats@ == (if s.days@.dom().contains(day as int) { s.days@[day as int] } else { no_study() }),
            old(self).unlocked@.len() == definitions().len(),
            old(self).xp_total + old(self).xp <= cap + worth(unlocked_views(old(self).unlocked@), definitions().len()),
            cap <= 0x4000_0000_0000_0000,
            old(self).xp <= 0x4000_0000_0000_0000,
        ensures
            final(self).model() == day_closed(s.past(), day_unlocked(old(self).model(), day as int), day as int),
            final(self).unlocked@.len() == definitions().len(),
            forall|i: int|
                0 <= i < final(self).unlocked@.len() ==> (#[trigger] final(self).unlocked@[i] matches Some(at) ==> at
                    == day || old(self).unlocked@[i] == Some(at)),
            final(self).history@.len() == old(self).history@.len() + 1,
            final(self).recent == old(self).recent,
            final(self).place == old(self).place,
            final(self).totals == old(self).totals,
            final(self).xp_total <= cap + worth(unlocked_views(final(self).unlocked@), definitions().len()),
    {
        let ghost before = *self;
        let ghost m = self.model();
        proof {
            lemma_definitions();
            lemma_worth_bound(m.unlocked, definitions().len());
            assert(s.clock.tells_start(day as int));
            lemma_days_are_small(*s, day as int);
        }
        let extra: u64 = unlock(&mut self.unlocked, defs, &self.totals, day);
        self.xp = self.xp + extra;
        proof {
            let after = day_unlocked(m, day as int);
            assert(unlocked_views(self.unlocked@) =~= after.unlocked);
            lemma_worth_grows(m, day as int, definitions().len());
            lemma_worth_bound(after.unlocked, definitions().len());
        }
        self.xp_total = self.xp_total + self.xp;
        let ghost history = self.history@;
        let entry = HistoryDay {
            at: s.clock.day_start_ms(day),
            date: date_string(day),
            xp: self.xp,
            reviews: stats.reviews,
            time_ms: stats.time_ms,
            new_cards: stats.new_cards,
            streak: self.streak,
            frozen: self.frozen,
        };
        let ghost shown = entry@;
        self.history.push(entry);
        proof {
            assert(history_views(self.history@) =~= history_views(history).push(shown));
            assert(self.model() =~= day_closed(s.past(), day_unlocked(m, day as int), day as int));
        }
    }

    /// What holds after `n` days, the entry of the next one taken out and the
    /// day opened.
    spec fn opened(self, s: Setting, n: nat, k: int) -> bool {
        let r = tally(s.days.counts().take(k));
        &&& 0 <= k <= self.place <= s.days.entries@.len()
        &&& forall|i: int| 0 <= i < self.place ==> (#[trigger] s.days.entries@[i]).0 < s.first + n + 1
        &&& forall|i: int| self.place <= i < s.days.entries@.len() ==> (#[trigger] s.days.entries@[i]).0 >= s.first + n + 1
        &&& self.recent@.len() <= RECENT_DAYS
        &&& forall|i: int| 0 <= i < self.recent@.len() ==> (#[trigger] self.recent@[i]).wf()
        &&& self.unlocked@.len() == definitions().len()
        &&& forall|i: int|
            0 <= i < self.unlocked@.len() ==> (#[trigger] self.unlocked@[i] matches Some(day) ==> s.first <= day <= s.today)
        &&& self.streak <= n
        &&& self.totals.best_streak <= n
        &&& self.totals.freezes_used <= n
        &&& self.freezes <= MAX_FREEZES
        &&& s.first <= self.best_streak_day <= s.today
        &&& self.last_active matches Some(last) ==> s.first <= last <= s.today
        &&& counts_within(self.totals, n + 1, r)
        &&& self.totals.weekend_days <= n && self.totals.fast_days <= n && self.totals.new_year_days <= n
        &&& self.totals.anniversaries <= n && self.totals.comebacks <= n
        &&& rewards_within(self.totals, n, r)
        &&& self.month_reviews <= r
        &&& self.xp_total <= 64 * r + 300 * k + worth(unlocked_views(self.unlocked@), definitions().len())
        &&& self.history@.len() == n
        &&& self.xp == 0
    }

    fn finish_studied(
        &mut self,
        s: &Setting,
        defs: &Vec<Def>,
        day: i64,
        stats: &DayStats,
        Ghost(n): Ghost<nat>,
        Ghost(k): Ghost<int>,
    )
        requires
            s.wf(),
            old(self).opened(*s, n, k),
            old(self).place == k + 1,
            day == s.first + n,
            day <= s.today,
            def_views(defs@) == definitions(),
            s.days@.dom().contains(day as int),
            s.days@[day as int] == stats@,
            *stats == s.days.entries@[k].1,
            stats.wf(),
            stats.reviews > 0,
            fits(old(self).totals.time_ms + stats.time_ms),
        ensures
            final(self).wf(*s, n + 1),
            final(self).model() == ({
                let p = s.past();
                let m2 = day_counted(p, old(self).model(), day as int);
                let m3 = streak_kept(p, m2, day as int);
                let m4 = day_rewarded(p, m3, day as int);
                day_closed(p, day_unlocked(m4, day as int), day as int)
            }),
    {
        let ghost r = tally(s.days.counts().take(k));
        let ghost r1 = r + stats.reviews as nat;
        let ghost m1 = self.model();
        proof {
            lemma_days_are_small(*s, day as int);
            lemma_days_are_small(*s, s.first as int);
            lemma_definitions();
            lemma_worth_bound(m1.unlocked, definitions().len());
            lemma_entries(*s, k);
            lemma_entries(*s, k + 1);
            lemma_tally_step(s.days.counts(), k);
            lemma_tally_prefix(s.days.counts(), k + 1);
            assert(s.days.counts()[k] == stats.reviews);
        }
        self.count(s, day, stats, Ghost(n + 1), Ghost(r));
        let ghost m2 = self.model();
        assert(rewards_within(self.totals, n, r));
        self.keep_streak(s, day, true);
        let ghost m3 = self.model();
        assert(rewards_within(self.totals, n, r));
        self.reward_day(s, day, stats, Ghost(n), Ghost(r));
        let ghost m4 = self.model();
        proof {
            assert(m4.unlocked == m1.unlocked);
            assert(m4.xp_total == m1.xp_total);
        }
        let ghost cap = (64 * r1 + 300 * (k + 1)) as nat;
        self.close_day(s, defs, day, stats, Ghost(cap));
        proof {
            assert(counts_within(self.totals, n + 1, r1));
            assert(rewards_within(self.totals, n + 1, r1));
        }
    }

    fn finish_idle(&mut self, s: &Setting, defs: &Vec<Def>, day: i64, Ghost(n): Ghost<nat>, Ghost(k): Ghost<int>)
        requires
            s.wf(),
            old(self).opened(*s, n, k),
            old(self).place == k,
            day == s.first + n,
            day <= s.today,
            def_views(defs@) == definitions(),
            !s.days@.dom().contains(day as int),
        ensures
            final(self).wf(*s, n + 1),
            final(self).model() == ({
                let p = s.past();
                let m2 = day_counted(p, old(self).model(), day as int);
                let m3 = streak_kept(p, m2, day as int);
                let m4 = day_rewarded(p, m3, day as int);
                day_closed(p, day_unlocked(m4, day as int), day as int)
            }),
    {
        let ghost r = tally(s.days.counts().take(k));
        let ghost m1 = self.model();
        proof {
            lemma_days_are_small(*s, day as int);
            lemma_days_are_small(*s, s.first as int);
            lemma_definitions();
            lemma_worth_bound(m1.unlocked, definitions().len());
            lemma_entries(*s, k);
            lemma_tally_prefix(s.days.counts(), k);
        }
        self.keep_streak(s, day, false);
        self.set_quests(s, day);
        let ghost m4 = self.model();
        proof {
            assert(m4.unlocked == m1.unlocked);
            assert(m4.xp_total == m1.xp_total);
            assert(m4.xp == 0);
        }
        let none = DayStats::default();
        self.close_day(s, defs, day, &none, Ghost((64 * r + 300 * k) as nat));
        proof {
            assert(counts_within(self.totals, n + 1, r));
            assert(rewards_within(self.totals, n + 1, r));
        }
    }

    fn advance(&mut self, s: &Setting, defs: &Vec<Def>, day: i64, Ghost(n): Ghost<nat>)
        requires
            s.wf(),
            old(self).wf(*s, n),
            old(self).model() == replayed(s.past(), n),
            day == s.first + n,
            day <= s.today,
            def_views(defs@) == definitions(),
        ensures
            final(self).wf(*s, n + 1),
            final(self).model() == replay_day(s.past(), old(self).model(), day as int),
    {
        let ghost m0 = self.model();
        let ghost k = self.place as int;
        proof {
            lemma_replayed_step(s.past(), n);
            lemma_time_adds(s.past(), m0, day as int);
            assert(fits(replayed(s.past(), n + 1).totals.time_ms));
            reveal(replay_day);
        }
        let found = self.next_stats(s, day, Ghost(n));
        assert(self.model() =~= m0);
        self.open_day(s, day);
        assert(self.opened(*s, n, k));
        match found {
            Some(stats) => self.finish_studied(s, defs, day, &stats, Ghost(n), Ghost(k)),
            None => self.finish_idle(s, defs, day, Ghost(n), Ghost(k)),
        }
    }
}

/// There are no more days of study than reviews.
proof fn lemma_entries(s: Setting, k: int)
    requires
        s.wf(),
        0 <= k <= s.days.entries@.len(),
    ensures
        k <= tally(s.days.counts().take(k)),
        s.days.entries@.len() <= REVIEW_LIMIT,
{
    lemma_tally_at_least(s.days.counts(), s.days.entries@.len() as int);
    lemma_tally_at_least(s.days.counts(), k);
    assert(s.days.counts().take(s.days.entries@.len() as int) =~= s.days.counts());
}

proof fn lemma_tally_at_least(c: Seq<nat>, k: int)
    requires
        0 <= k <= c.len(),
        forall|i: int| 0 <= i < c.len() ==> #[trigger] c[i] > 0,
    ensures
        tally(c.take(k)) >= k,
    decreases k,
{
    if k > 0 {
        lemma_tally_at_least(c, k - 1);
        assert(c.take(k).drop_last() =~= c.take(k - 1));
        assert(c.take(k).last() == c[k - 1]);
    }
}

proof fn lemma_tally_step(c: Seq<nat>, k: int)
    requires
        0 <= k < c.len(),
    ensures
        tally(c.take(k + 1)) == tally(c.take(k)) + c[k],
{
    assert(c.take(k + 1).drop_last() =~= c.take(k));
}

/// A day adds the time that was studied on it.
pub proof fn lemma_time_adds(p: Past, m: ReplayModel, day: int)
    ensures
        replay_day(p, m, day).totals.time_ms == m.totals.time_ms + study_on(p.days, day).time_ms,
{
    reveal(replay_day);
}

proof fn lemma_replayed_step(p: Past, n: nat)
    ensures
        replayed(p, n + 1) == replay_day(p, replayed(p, n), p.first + n),
{
}

/// Replay a history up to today.
pub fn replay(s: &Setting, defs: &Vec<Def>) -> (res: Replay)
    requires
        s.wf(),
        def_views(defs@) == definitions(),
        s.first > s.today ==> fits(s.first + 719_468),
    ensures
        res.model() == replayed(s.past(), day_count(s.past())),
        res.wf(*s, day_count(s.past())),
{
    proof {
        if s.first <= s.today {
            lemma_days_are_small(*s, s.first as int);
            lemma_days_are_small(*s, s.today as int);
        }
        lemma_definitions();
    }
    let (year, month, _) = civil(s.first);
    let mut unlocked: Vec<Option<i64>> = Vec::new();
    let mut i: usize = 0;
    while i < defs.len()
        invariant
            i <= defs@.len(),
            unlocked@.len() == i,
            forall|k: int| 0 <= k < i ==> (#[trigger] unlocked@[k]) is None,
        decreases defs@.len() - i,
    {
        unlocked.push(None);
        i = i + 1;
    }
    let mut state = Replay {
        totals: Totals::default(),
        streak: 0,
        best_streak_day: s.first,
        freezes: 0,
        freeze_earned_today: false,
        recent: VecDeque::new(),
        unlocked,
        xp_total: 0,
        history: Vec::new(),
        month: (year, month),
        month_reviews: 0,
        last_active: None,
        frozen: false,
        xp: 0,
        quests: Vec::new(),
        place: 0,
    };
    proof {
        assert(def_views(defs@).len() == defs@.len());
        assert(state.model() =~= replay_start(s.past()));
        assert(s.days.counts().take(0) =~= Seq::<nat>::empty());
        assert forall|i: int| 0 <= i < s.days.entries@.len() implies (#[trigger] s.days.entries@[i]).0 >= s.first by {
            if i > 0 {
                assert(s.days.entries@[0].0 < s.days.entries@[i].0);
            }
        }
    }
    if s.first > s.today {
        return state;
    }
    let mut day: i64 = s.first;
    let ghost mut n: nat = 0;
    while day < s.today
        invariant
            s.wf(),
            def_views(defs@) == definitions(),
            s.first <= day <= s.today,
            s.today < 0x2_0000_0000_0000,
            day == s.first + n,
            state.wf(*s, n),
            state.model() == replayed(s.past(), n),
        decreases s.today - day,
    {
        state.advance(s, defs, day, Ghost(n));
        proof {
            lemma_replayed_step(s.past(), n);
            n = n + 1;
        }
        day = day + 1;
    }
    state.advance(s, defs, day, Ghost(n));
    proof {
        lemma_replayed_step(s.past(), n);
    }
    state
}

impl Replay {
    /// What callers may rely on after `n` days.
    pub proof fn lemma_wf(self, s: Setting, n: nat)
        requires
            s.wf(),
            self.wf(s, n),
        ensures
            self.history@.len() == n,
            self.unlocked@.len() == definitions().len(),
            forall|i: int|
                0 <= i < self.unlocked@.len() ==> (#[trigger] self.unlocked@[i] matches Some(day) ==> s.first <= day
                    <= s.today),
            self.freezes <= MAX_FREEZES,
            s.first <= self.best_streak_day,
            self.best_streak_day <= s.today || self.best_streak_day == s.first,
            self.totals.reviews <= REVIEW_LIMIT,
    {
        lemma_tally_prefix(s.days.counts(), self.place as int);
    }
}

/// A day adds one entry to the history, and its XP and its reviews to the sums.
pub proof fn lemma_day_adds(p: Past, m: ReplayModel, day: int)
    ensures
        replay_day(p, m, day).history.len() == m.history.len() + 1,
        replay_day(p, m, day).history.drop_last() == m.history,
        replay_day(p, m, day).xp_total == m.xp_total + replay_day(p, m, day).history.last().xp,
        replay_day(p, m, day).totals.reviews == m.totals.reviews + replay_day(p, m, day).history.last().reviews,
{
    reveal(replay_day);
    assert(replay_day(p, m, day).history.drop_last() =~= m.history);
}

/// The history has one entry for each day.
pub proof fn law_history_has_every_day(p: Past, n: nat)
    ensures
        replayed(p, n).history.len() == n,
    decreases n,
{
    if n > 0 {
        reveal(replay_day);
        law_history_has_every_day(p, (n - 1) as nat);
    }
}

/// At no time more freezes are held than can be.
pub proof fn law_freezes_stay_within_the_bank(p: Past, n: nat)
    ensures
        replayed(p, n).freezes <= MAX_FREEZES,
    decreases n,
{
    if n > 0 {
        reveal(replay_day);
        law_freezes_stay_within_the_bank(p, (n - 1) as nat);
    }
}

/// A day of study makes the streak longer by one, whatever the freezes.
pub proof fn law_study_lengthens_the_streak(p: Past, m: ReplayModel, day: int)
    requires
        p.days.dom().contains(day),
    ensures
        replay_day(p, m, day).streak == m.streak + 1,
        replay_day(p, m, day).totals.days_active == m.totals.days_active + 1,
        !replay_day(p, m, day).history.last().frozen,
{
    reveal(replay_day);
}

/// A day without study that is over costs a freeze, and leaves the streak as it
/// was, or ends the streak. It never counts as a day of study.
pub proof fn law_missed_days_cost_a_freeze_or_the_streak(p: Past, m: ReplayModel, day: int)
    requires
        !p.days.dom().contains(day),
        day != p.today,
        p.legacy_until != Some(day),
    ensures
        ({
            let after = replay_day(p, m, day);
            &&& after.totals.days_active == m.totals.days_active
            &&& after.history.last().frozen == is_saved(p, m, day)
            &&& is_saved(p, m, day) ==> after.streak == m.streak && after.freezes == m.freezes - 1
            &&& !is_saved(p, m, day) ==> after.streak == 0 && after.freezes == m.freezes
        }),
{
    reveal(replay_day);
}

/// Once freezes are a choice, a day brings one at most, and only where every
/// quest was completed while they were wanted and the bank was not full.
pub proof fn law_a_day_earns_one_freeze_at_most(p: Past, m: ReplayModel, day: int)
    requires
        !is_legacy(p, day),
    ensures
        ({
            let after = replay_day(p, m, day);
            &&& after.freezes <= m.freezes + 1
            &&& after.freezes > m.freezes ==> {
                &&& p.days.dom().contains(day)
                &&& completed(quests_on(p, m, day), p.days[day]) == quests_on(p, m, day).len()
                &&& p.days[day].quests_completed_at matches Some(at) && at <= p.now && enabled_at(p.preferences, at)
                &&& m.freezes < MAX_FREEZES
            }
        }),
{
    reveal(replay_day);
}

/// Whoever never chose to use freezes has none, and no day is saved.
pub proof fn law_freezes_are_off_by_default(p: Past, n: nat)
    requires
        p.legacy_until is None,
        forall|at: int| !enabled_at(p.preferences, at),
    ensures
        replayed(p, n).freezes == 0,
        forall|i: int| 0 <= i < replayed(p, n).history.len() ==> !(#[trigger] replayed(p, n).history[i]).frozen,
    decreases n,
{
    if n > 0 {
        let m = replayed(p, (n - 1) as nat);
        let after = replayed(p, n);
        law_freezes_are_off_by_default(p, (n - 1) as nat);
        reveal(replay_day);
        assert forall|i: int| 0 <= i < after.history.len() implies !(#[trigger] after.history[i]).frozen by {
            if i < m.history.len() {
                assert(after.history[i] == m.history[i]);
            }
        }
    }
}

/// Whether two pasts differ at most in what was chosen of freezes after an
/// instant.
pub open spec fn chose_alike_until(p: Past, q: Past, at: int) -> bool {
    &&& q == (Past { preferences: q.preferences, ..p })
    &&& forall|t: int| t <= at ==> #[trigger] enabled_at(p.preferences, t) == enabled_at(q.preferences, t)
}

/// What is chosen of freezes later leaves the history as it was: where two
/// pasts differ only in what was chosen after an instant, the days that were
/// over by then, with their quests, are the same. Days that were saved stay
/// saved, and days that were missed stay missed.
pub proof fn law_later_choices_leave_the_history(p: Past, q: Past, n: nat, at: int)
    requires
        chose_alike_until(p, q, at),
        forall|day: int| p.first <= day < p.first + n ==> #[trigger] p.clock.start_of(day + 1) - 1 <= at,
        forall|day: int|
            p.first <= day < p.first + n && p.days.dom().contains(day) ==> ((#[trigger] p.days[day]).quests_completed_at matches Some(
                t,
            ) ==> t <= at),
    ensures
        replayed(p, n) == replayed(q, n),
    decreases n,
{
    if n > 0 {
        let m = replayed(p, (n - 1) as nat);
        let day = p.first + n - 1;
        law_later_choices_leave_the_history(p, q, (n - 1) as nat, at);
        reveal(replay_day);
        assert(p.clock.start_of(day + 1) - 1 <= at);
        if p.days.dom().contains(day) {
            assert(p.days[day].quests_completed_at matches Some(t) ==> t <= at);
        }
        let m1 = day_opened(p, m, day);
        assert(m1 == day_opened(q, m, day));
        let m2 = day_counted(p, m1, day);
        assert(m2 == day_counted(q, m1, day));
        let m3 = streak_kept(p, m2, day);
        assert(is_saved(p, m2, day) == is_saved(q, m2, day));
        assert(m3 == streak_kept(q, m2, day));
        let m4 = day_rewarded(p, m3, day);
        if p.days.dom().contains(day) {
            assert(earns_freeze(p, m3, day) == earns_freeze(q, m3, day));
        }
        assert(m4 == day_rewarded(q, m3, day));
    }
}

} // verus!
