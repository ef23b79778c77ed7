//! Reviews collected into days of study.

use vstd::prelude::*;
use std::collections::{HashSet, VecDeque};
use vstd::arithmetic::power2::{lemma_pow2_adds, lemma_pow2_pos, lemma_pow2_strictly_increases, lemma2_to64, lemma2_to64_rest, pow2};
use crate::day_table::{tally, DayTable};
use crate::calendar::{fits, law_day_holds_its_instants, Clock};
use crate::double::{of_int, product, quotient, size, sum, unit, Double};
use crate::double::{lemma_of_int_exact, lemma_of_int_range, lemma_product_range, lemma_quotient_range, lemma_sum_grows, lemma_sum_range};
use crate::quests::{at_least, at_most, completes, day_views, gen_quests, no_study, quest_views, quests_for, DayModel, DayStats, Quest, QuestModel, Review, RECENT_DAYS, REVIEW_LIMIT};

verus! {

/// Two reviews further apart than this belong to different sessions.
pub const SESSION_GAP_MS: i64 = 300_000;

/// A card that comes up after this many days is mature.
pub const MATURE_IVL: i64 = 21;

/// What a review is worth before any bonus for a combo. A card that is flipped
/// in under half a second earns a single point. The answer given plays no part.
pub open spec fn base_xp(r: Review) -> int {
    if r.time_ms < 500 {
        1
    } else {
        let base = if r.kind == 1 {
            10int
        } else if r.kind == 0 || r.kind == 2 {
            6
        } else {
            2
        };
        if r.last_ivl >= MATURE_IVL {
            base + 5
        } else {
            base
        }
    }
}

/// The XP of a review, as its place in a combo raises it: by half a percent
/// for each review so far, up to half.
pub open spec fn xp_of(r: Review, combo: int) -> int {
    product(of_int(base_xp(r)), sum(of_int(1), quotient(of_int(at_most(combo, 100)), of_int(200))))
}

/// What a review is worth before any bonus for a combo.
pub fn review_base_xp(r: &Review) -> (res: u64)
    ensures
        res == base_xp(*r),
        1 <= res <= 15,
{
    if r.time_ms < 500 {
        return 1;
    }
    let base: u64 = match r.kind {
        1 => 10,
        0 => 6,
        2 => 6,
        _ => 2,
    };
    if r.last_ivl >= MATURE_IVL {
        base + 5
    } else {
        base
    }
}

proof fn lemma_powers()
    ensures
        pow2(0) == 1,
        pow2(1) == 2,
        pow2(2) == 4,
        pow2(4) == 16,
        pow2(5) == 32,
        pow2(7) == 128,
        pow2(8) == 256,
        pow2(48) == REVIEW_LIMIT,
{
    lemma2_to64();
    lemma2_to64_rest();
}

/// The XP of a review.
fn review_xp(r: &Review, combo: u64) -> (res: Double)
    requires
        combo >= 1,
    ensures
        res.wf(),
        res@ == xp_of(*r, combo as int),
        pow2(1074) <= res@ <= pow2(1079),
{
    let c: u64 = if combo > 100 {
        100
    } else {
        combo
    };
    let base: u64 = review_base_xp(r);
    let a = Double::from_u64(c);
    let b = Double::from_u64(200);
    let one = Double::from_u64(1);
    let points = Double::from_u64(base);
    proof {
        lemma_powers();
        lemma_of_int_range(c as int, 7);
        lemma_of_int_range(200, 8);
        lemma_of_int_range(1, 0);
        lemma_of_int_range(base as int, 4);
        lemma_pow2_strictly_increases(900, 1074);
        lemma_pow2_strictly_increases(1074, 1300);
        lemma_pow2_strictly_increases(1081, 1300);
        lemma_pow2_strictly_increases(1082, 1300);
        lemma_pow2_strictly_increases(1078, 1300);
        lemma_bonus(c as int);
    }
    let share = a.over(b);
    let factor = one.plus(share);
    proof {
        lemma_pow2_strictly_increases(1075, 1300);
        lemma_product_range(points@, factor@, 1074, 1078, 1074, 1075);
    }
    points.times(factor)
}

/// The bonus of a combo at most doubles a review, and the exact share is not
/// above one.
proof fn lemma_bonus(c: int)
    requires
        1 <= c <= 100,
    ensures
        0 <= quotient(of_int(c), of_int(200)) <= pow2(1074),
        pow2(1074) <= sum(of_int(1), quotient(of_int(c), of_int(200))) <= pow2(1075),
        size(quotient(of_int(c), of_int(200))) <= pow2(1300),
{
    lemma_powers();
    let u = unit();
    lemma_pow2_pos(1074);
    lemma_of_int_exact(c);
    lemma_of_int_exact(200);
    lemma_of_int_exact(1);
    lemma_pow2_adds(7, 1074);
    lemma_pow2_adds(8, 1074);
    lemma_pow2_adds(1, 1074);
    assert(u <= c * u <= 128 * u && 128 * u <= 200 * u <= 256 * u && 1 * u == u) by (nonlinear_arith)
        requires
            1 <= c <= 100,
            u > 0,
    ;
    lemma_quotient_range(c * u, 200 * u, 1074, 1081, 1081, 1082);
    lemma_pow2_pos(1066);
    let q = quotient(of_int(c), of_int(200));
    lemma_sum_range(of_int(1), q, 1074, 1075);
    lemma_pow2_strictly_increases(1074, 1300);
}

/// What has been collected from some reviews, in unbounded numbers.
#[verifier::ext_equal]
pub struct CollectModel {
    /// The days of study.
    pub days: Map<int, DayModel>,
    /// Each review with the XP that it earned.
    pub earned: Seq<(int, int)>,
    /// The cards that have come up.
    pub seen: Set<i64>,
    /// The length of the combo that the last review belongs to.
    pub combo: nat,
    /// The time spent in the session of the last review.
    pub session_ms: int,
    /// The day and the time of the last review.
    pub prev: Option<(int, int)>,
    /// The day for which quests are set.
    pub counted_day: Option<int>,
    /// The days of study before that day.
    pub recent: Seq<DayModel>,
    /// The quests of that day.
    pub quests: Seq<QuestModel>,
}

/// Nothing has been collected.
pub open spec fn nothing_collected() -> CollectModel {
    CollectModel {
        days: Map::empty(),
        earned: Seq::empty(),
        seen: Set::empty(),
        combo: 0,
        session_ms: 0,
        prev: None,
        counted_day: None,
        recent: Seq::empty(),
        quests: Seq::empty(),
    }
}

/// The recent days with one more, the oldest one dropped beyond fourteen.
pub open spec fn remembered(recent: Seq<DayModel>, s: DayModel) -> Seq<DayModel> {
    let more = recent.push(s);
    if more.len() > RECENT_DAYS {
        more.drop_first()
    } else {
        more
    }
}

/// A review on another day than the last one sets new quests.
pub open spec fn turned_to(c: CollectModel, day: int, seed: u64) -> CollectModel {
    if c.counted_day == Some(day) {
        c
    } else {
        let recent = match c.counted_day {
            Some(d) => if c.days.dom().contains(d) {
                remembered(c.recent, c.days[d])
            } else {
                c.recent
            },
            None => c.recent,
        };
        CollectModel { recent, quests: quests_for(seed, day, recent), counted_day: Some(day), ..c }
    }
}

/// What was studied on a day.
pub open spec fn study_on(days: Map<int, DayModel>, day: int) -> DayModel {
    if days.dom().contains(day) {
        days[day]
    } else {
        no_study()
    }
}

/// Whether a review goes on with the session of the one before.
pub open spec fn continues(prev: Option<(int, int)>, day: int, id: int) -> bool {
    prev matches Some(p) && p.0 == day && id - p.1 < SESSION_GAP_MS
}

/// One if something holds, or else nothing.
pub open spec fn one_if(b: bool) -> nat {
    if b {
        1
    } else {
        0
    }
}

/// A day of study with one more review, before its quests are looked at.
pub open spec fn studied(
    s: DayModel,
    r: Review,
    hour: int,
    rollover: int,
    fresh: bool,
    opens: bool,
    combo: nat,
    session_ms: int,
) -> DayModel {
    let morning = hour >= rollover;
    DayModel {
        reviews: s.reviews + 1,
        new_cards: s.new_cards + one_if(fresh && r.kind == 0),
        mature: s.mature + one_if(r.last_ivl >= MATURE_IVL),
        time_ms: s.time_ms + r.time_ms,
        max_combo: at_least(s.max_combo as int, combo as int) as nat,
        sessions: s.sessions + one_if(opens),
        before_noon: s.before_noon + one_if(morning && hour < 12),
        early: s.early || (morning && hour < 7),
        late: s.late || hour >= 23 || !morning,
        review_xp: sum(s.review_xp, xp_of(r, combo as int)),
        relearns: s.relearns + one_if(r.kind == 2),
        max_ivl: at_least(s.max_ivl, r.last_ivl as int),
        first_seen: s.first_seen + one_if(fresh),
        longest_session_ms: at_least(s.longest_session_ms, session_ms),
        quests_completed_at: s.quests_completed_at,
    }
}

/// Whether a day of study completes every quest.
pub open spec fn completes_all(quests: Seq<QuestModel>, s: DayModel) -> bool {
    forall|i: int| 0 <= i < quests.len() ==> completes(#[trigger] quests[i], s)
}

/// A day of study, marked with the review that completed its quests first.
pub open spec fn marked(s: DayModel, quests: Seq<QuestModel>, at: int) -> DayModel {
    if s.quests_completed_at is None && completes_all(quests, s) {
        DayModel { quests_completed_at: Some(at), ..s }
    } else {
        s
    }
}

/// One more review.
#[verifier::opaque]
pub open spec fn collect_one(c0: CollectModel, r: Review, clock: Clock, seed: u64) -> CollectModel {
    let day = clock.day_of(r.id as int);
    let hour = clock.hour_of(r.id as int);
    let c = turned_to(c0, day, seed);
    let goes_on = continues(c.prev, day, r.id as int);
    let combo = if goes_on {
        c.combo + 1
    } else {
        1
    };
    let session_ms = if goes_on {
        c.session_ms + r.time_ms
    } else {
        r.time_ms as int
    };
    let s = studied(
        study_on(c.days, day),
        r,
        hour,
        clock.rollover_hour as int,
        !c.seen.contains(r.cid),
        !goes_on,
        combo,
        session_ms,
    );
    CollectModel {
        days: c.days.insert(day, marked(s, c.quests, r.id as int)),
        earned: c.earned.push((r.id as int, xp_of(r, combo as int))),
        seen: c.seen.insert(r.cid),
        combo,
        session_ms,
        prev: Some((day, r.id as int)),
        ..c
    }
}

/// What some reviews collect.
pub open spec fn collected(reviews: Seq<Review>, clock: Clock, seed: u64) -> CollectModel
    decreases reviews.len(),
{
    if reviews.len() == 0 {
        nothing_collected()
    } else {
        collect_one(collected(reviews.drop_last(), clock, seed), reviews.last(), clock, seed)
    }
}

/// The reviews with the XP that they earned, in unbounded numbers.
pub open spec fn earned_views(earned: Seq<(i64, Double)>) -> Seq<(int, int)> {
    earned.map_values(|e: (i64, Double)| (e.0 as int, e.1@))
}

pub open spec fn opt_int(o: Option<i64>) -> Option<int> {
    match o {
        Some(v) => Some(v as int),
        None => None,
    }
}

/// Whether the times that have been added up lie within the range of `i64`.
pub open spec fn times_fit(c: CollectModel) -> bool {
    &&& fits(c.session_ms)
    &&& forall|day: int| #[trigger] c.days.dom().contains(day) ==> fits(c.days[day].time_ms)
}

/// Whether reviews can be collected within the range of machine integers.
pub open spec fn collectable(reviews: Seq<Review>, clock: Clock, seed: u64) -> bool {
    &&& reviews.len() <= REVIEW_LIMIT
    &&& forall|i: int| 0 <= i < reviews.len() ==> clock.tells_day((#[trigger] reviews[i]).id as int)
    &&& forall|k: int| 0 <= k <= reviews.len() ==> times_fit(collected(#[trigger] reviews.take(k), clock, seed))
}

struct Collector {
    days: DayTable,
    earned: Vec<(i64, Double)>,
    seen: HashSet<i64>,
    combo: u64,
    session_ms: i64,
    prev: Option<(i64, i64)>,
    counted_day: Option<i64>,
    recent: VecDeque<DayStats>,
    quests: Vec<Quest>,
}

impl Collector {
    spec fn model(self) -> CollectModel {
        CollectModel {
            days: self.days@,
            earned: earned_views(self.earned@),
            seen: self.seen@,
            combo: self.combo as nat,
            session_ms: self.session_ms as int,
            prev: match self.prev {
                Some(p) => Some((p.0 as int, p.1 as int)),
                None => None,
            },
            counted_day: opt_int(self.counted_day),
            recent: day_views(self.recent@),
            quests: quest_views(self.quests@),
        }
    }

    /// What holds after `n` reviews.
    spec fn wf(self, n: nat) -> bool {
        &&& self.days.wf()
        &&& tally(self.days.counts()) == n
        &&& self.combo <= n
        &&& self.recent@.len() <= RECENT_DAYS
        &&& forall|i: int| 0 <= i < self.recent@.len() ==> (#[trigger] self.recent@[i]).wf()
        &&& forall|i: int| 0 <= i < self.earned@.len() ==> earned_ok(#[trigger] self.earned@[i])
    }

    fn turn_to(&mut self, day: i64, seed: u64, Ghost(n): Ghost<nat>)
        requires
            old(self).wf(n),
        ensures
            final(self).wf(n),
            final(self).model() == turned_to(old(self).model(), day as int, seed),
            final(self).days == old(self).days,
            final(self).prev == old(self).prev,
            final(self).session_ms == old(self).session_ms,
    {
        let ghost before = *self;
        let same = match self.counted_day {
            Some(d) => d == day,
            None => false,
        };
        if !same {
            if let Some(d) = self.counted_day {
                if let Some(previous) = self.days.get(d) {
                    self.recent.push_back(previous);
                    let ghost more = self.recent@;
                    assert(day_views(more) =~= day_views(before.recent@).push(previous@));
                    if self.recent.len() > RECENT_DAYS {
                        let _ = self.recent.pop_front();
                        assert(day_views(self.recent@) =~= day_views(more).drop_first());
                    }
                }
            }
            self.quests = gen_quests(seed, day, &self.recent);
            self.counted_day = Some(day);
        }
        assert(self.model() =~= turned_to(before.model(), day as int, seed));
    }
}

/// The XP of a review lies between 1 and 32.
pub open spec fn earned_ok(e: (i64, Double)) -> bool {
    e.1.wf() && pow2(1074) <= e.1@ <= pow2(1079)
}

fn all_complete(quests: &Vec<Quest>, s: &DayStats) -> (res: bool)
    ensures
        res == completes_all(quest_views(quests@), s@),
{
    let ghost views = quest_views(quests@);
    let mut i: usize = 0;
    while i < quests.len()
        invariant
            views == quest_views(quests@),
            i <= quests@.len(),
            forall|k: int| 0 <= k < i ==> completes(#[trigger] views[k], s@),
        decreases quests@.len() - i,
    {
        assert(views[i as int] == quests@[i as int]@);
        if quests[i].progress(s) < quests[i].target {
            assert(!completes(views[i as int], s@));
            return false;
        }
        i = i + 1;
    }
    true
}

fn larger_i64(a: i64, b: i64) -> (res: i64)
    ensures
        res == at_least(a as int, b as int),
{
    if a < b {
        b
    } else {
        a
    }
}

fn larger_u64(a: u64, b: u64) -> (res: u64)
    ensures
        res == at_least(a as int, b as int),
{
    if a < b {
        b
    } else {
        a
    }
}

fn one_when(b: bool) -> (res: u64)
    ensures
        res == one_if(b),
{
    if b {
        1
    } else {
        0
    }
}

/// A day of study with one more review, and the XP of that review.
fn study(
    s: &DayStats,
    r: &Review,
    hour: i64,
    rollover: i64,
    fresh: bool,
    opens: bool,
    combo: u64,
    session_ms: i64,
) -> (res: (DayStats, Double))
    requires
        s.wf(),
        s.reviews < REVIEW_LIMIT,
        1 <= combo <= REVIEW_LIMIT,
        i64::MIN <= s.time_ms + r.time_ms <= i64::MAX,
    ensures
        res.0.wf(),
        res.0@ == studied(s@, *r, hour as int, rollover as int, fresh, opens, combo as nat, session_ms as int),
        res.1.wf(),
        res.1@ == xp_of(*r, combo as int),
        pow2(1074) <= res.1@ <= pow2(1079),
{
    let morning = hour >= rollover;
    let xp = review_xp(r, combo);
    proof {
        lemma_powers();
        lemma_pow2_adds(48, 1079);
        lemma_pow2_pos(1079);
        lemma_pow2_strictly_increases(1127, 1300);
        lemma_pow2_strictly_increases(1079, 1300);
        assert(s.reviews * pow2(1079) <= REVIEW_LIMIT * pow2(1079)) by (nonlinear_arith)
            requires
                s.reviews <= REVIEW_LIMIT,
        ;
        assert(1 * pow2(1079) == pow2(1079)) by (nonlinear_arith);
        lemma_sum_grows(s.review_xp@, xp@, s.reviews as nat, 1, 1079);
        lemma_sum_range(s.review_xp@, xp@, 1074, 0);
    }
    let stats = DayStats {
        reviews: s.reviews + 1,
        new_cards: s.new_cards + one_when(fresh && r.kind == 0),
        mature: s.mature + one_when(r.last_ivl >= MATURE_IVL),
        time_ms: s.time_ms + r.time_ms,
        max_combo: larger_u64(s.max_combo, combo),
        sessions: s.sessions + one_when(opens),
        before_noon: s.before_noon + one_when(morning && hour < 12),
        early: s.early || (morning && hour < 7),
        late: s.late || hour >= 23 || !morning,
        review_xp: s.review_xp.plus(xp),
        relearns: s.relearns + one_when(r.kind == 2),
        max_ivl: larger_i64(s.max_ivl, r.last_ivl),
        first_seen: s.first_seen + one_when(fresh),
        longest_session_ms: larger_i64(s.longest_session_ms, session_ms),
        quests_completed_at: s.quests_completed_at,
    };
    (stats, xp)
}

impl Collector {
    #[verifier::spinoff_prover]
    #[verifier::rlimit(60)]
    fn add_review(&mut self, r: &Review, clock: &Clock, seed: u64, Ghost(n): Ghost<nat>) -> (res: bool)
        requires
            old(self).wf(n),
            n < REVIEW_LIMIT,
            clock.tells_day(r.id as int),
            old(self).prev matches Some(p) ==> p.0 == clock.day_of(p.1 as int),
        ensures
            res == times_fit(collect_one(old(self).model(), *r, *clock, seed)),
            res ==> final(self).wf(n + 1),
            res ==> final(self).model() == collect_one(old(self).model(), *r, *clock, seed),
            res ==> (final(self).prev matches Some(p) ==> p.0 == clock.day_of(p.1 as int)),
    {
        broadcast use vstd::std_specs::hash::group_hash_axioms;

        reveal(collect_one);
        let day: i64 = clock.day(r.id);
        let hour: i64 = clock.hour(r.id);
        let ghost c0 = self.model();
        self.turn_to(day, seed, Ghost(n));
        let ghost c = self.model();
        let ghost days0 = self.days;
        proof {
            self.days.lemma_day_in_tally(day as int);
        }
        let s = match self.days.get(day) {
            Some(s) => s,
            None => DayStats::default(),
        };
        let goes_on = match self.prev {
            Some((d, id)) => {
                proof {
                    law_day_holds_its_instants(*clock, id as int);
                    law_day_holds_its_instants(*clock, r.id as int);
                }
                d == day && r.id - id < SESSION_GAP_MS
            },
            None => false,
        };
        let combo: u64 = if goes_on {
            self.combo + 1
        } else {
            1
        };
        let session: Option<i64> = if goes_on {
            self.session_ms.checked_add(r.time_ms)
        } else {
            Some(r.time_ms)
        };
        let ghost after = collect_one(c0, *r, *clock, seed);
        let session_ms: i64 = match session {
            Some(sum) => sum,
            None => {
                assert(!fits(after.session_ms));
                return false;
            },
        };
        if s.time_ms.checked_add(r.time_ms).is_none() {
            assert(after.days.dom().contains(day as int));
            assert(!fits(after.days[day as int].time_ms));
            return false;
        }
        let fresh = self.seen.insert(r.cid);
        let (mut stats, xp) = study(&s, r, hour, clock.rollover_hour, fresh, !goes_on, combo, session_ms);
        let ghost plain = stats@;
        if stats.quests_completed_at.is_none() && all_complete(&self.quests, &stats) {
            stats.quests_completed_at = Some(r.id);
        }
        assert(stats@ == marked(plain, c.quests, r.id as int));
        let ghost earned0 = self.earned@;
        self.days.set(day, stats);
        self.earned.push((r.id, xp));
        self.combo = combo;
        self.session_ms = session_ms;
        self.prev = Some((day, r.id));
        proof {
            assert(earned_views(self.earned@) =~= earned_views(earned0).push((r.id as int, xp@)));
            assert(self.model() =~= after);
            assert forall|d: int| #[trigger] after.days.dom().contains(d) implies fits(after.days[d].time_ms) by {
                assert(after.days[d] == self.days.at(d));
            }
        }
        true
    }
}

/// The days of study that some reviews make up, the length of the combo that
/// the last one belongs to, and each review with the XP that it earned, if they
/// can be collected.
pub fn checked_collect(reviews: &[Review], clock: &Clock, seed: u64) -> (res: Option<(DayTable, u64, Vec<(i64, Double)>)>)
    ensures
        res is Some <==> collectable(reviews@, *clock, seed),
        res matches Some(found) ==> {
            &&& found.0@ == collected(reviews@, *clock, seed).days
            &&& found.1 == collected(reviews@, *clock, seed).combo
            &&& earned_views(found.2@) == collected(reviews@, *clock, seed).earned
            &&& found.0.wf()
            &&& tally(found.0.counts()) == reviews@.len()
            &&& found.1 <= reviews@.len()
            &&& forall|i: int| 0 <= i < found.2@.len() ==> earned_ok(#[trigger] found.2@[i])
        },
{
    broadcast use vstd::std_specs::hash::group_hash_axioms;

    if reviews.len() as u64 > REVIEW_LIMIT {
        return None;
    }
    let mut c = Collector {
        days: DayTable::new(),
        earned: Vec::new(),
        seen: HashSet::new(),
        combo: 0,
        session_ms: 0,
        prev: None,
        counted_day: None,
        recent: VecDeque::new(),
        quests: Vec::new(),
    };
    assert(c.model() =~= nothing_collected());
    let mut i: usize = 0;
    assert(reviews@.take(0) =~= Seq::<Review>::empty());
    while i < reviews.len()
        invariant
            i <= reviews@.len() <= REVIEW_LIMIT,
            c.wf(i as nat),
            c.model() == collected(reviews@.take(i as int), *clock, seed),
            c.prev matches Some(p) ==> p.0 == clock.day_of(p.1 as int),
            forall|k: int| 0 <= k < i ==> clock.tells_day((#[trigger] reviews@[k]).id as int),
            forall|k: int| 0 <= k <= i ==> times_fit(collected(#[trigger] reviews@.take(k), *clock, seed)),
        decreases reviews@.len() - i,
    {
        let ghost next = reviews@.take(i + 1);
        proof {
            assert(next.drop_last() =~= reviews@.take(i as int));
            assert(next.last() == reviews@[i as int]);
        }
        if !clock.can_tell_day(reviews[i].id) {
            assert(!clock.tells_day(reviews@[i as int].id as int));
            return None;
        }
        if !c.add_review(&reviews[i], clock, seed, Ghost(i as nat)) {
            assert(!times_fit(collected(next, *clock, seed)));
            return None;
        }
        i = i + 1;
    }
    assert(reviews@.take(i as int) =~= reviews@);
    Some((c.days, c.combo, c.earned))
}

/// The days of study that some reviews make up, the length of the combo that
/// the last one belongs to, and each review with the XP that it earned.
pub fn collect_days_with_quests(reviews: &[Review], clock: &Clock, seed: u64) -> (res: (
    DayTable,
    u64,
    Vec<(i64, Double)>,
))
    requires
        collectable(reviews@, *clock, seed),
    ensures
        res.0@ == collected(reviews@, *clock, seed).days,
        res.1 == collected(reviews@, *clock, seed).combo,
        earned_views(res.2@) == collected(reviews@, *clock, seed).earned,
        res.0.wf(),
        tally(res.0.counts()) == reviews@.len(),
        res.1 <= reviews@.len(),
        forall|i: int| 0 <= i < res.2@.len() ==> earned_ok(#[trigger] res.2@[i]),
{
    checked_collect(reviews, clock, seed).unwrap()
}

/// The days of study that some reviews make up for a player without a name.
pub fn collect_days(reviews: &[Review], clock: &Clock) -> (res: (DayTable, u64, Vec<(i64, Double)>))
    requires
        collectable(reviews@, *clock, 0),
    ensures
        res.0@ == collected(reviews@, *clock, 0).days,
        res.1 == collected(reviews@, *clock, 0).combo,
        earned_views(res.2@) == collected(reviews@, *clock, 0).earned,
{
    collect_days_with_quests(reviews, clock, 0)
}

/// Which card was answered does not matter for the XP of a review: histories
/// that differ in their cards alone earn the same. A card that is repeated earns
/// what different cards do.
pub proof fn law_cards_do_not_matter(a: Seq<Review>, b: Seq<Review>, clock: Clock, seed: u64)
    requires
        a.len() == b.len(),
        forall|i: int| 0 <= i < a.len() ==> #[trigger] a[i] == (Review { cid: a[i].cid, ..b[i] }),
    ensures
        collected(a, clock, seed).earned == collected(b, clock, seed).earned,
        collected(a, clock, seed).combo == collected(b, clock, seed).combo,
        collected(a, clock, seed).prev == collected(b, clock, seed).prev,
    decreases a.len(),
{
    if a.len() > 0 {
        reveal(collect_one);
        let x = a.drop_last();
        let y = b.drop_last();
        assert(a[a.len() - 1] == (Review { cid: a.last().cid, ..b.last() }));
        assert forall|i: int| 0 <= i < x.len() implies #[trigger] x[i] == (Review { cid: x[i].cid, ..y[i] }) by {
            assert(a[i] == (Review { cid: a[i].cid, ..b[i] }));
        }
        law_cards_do_not_matter(x, y, clock, seed);
    }
}

/// The quests of a day look back on the last fourteen days of study, the latest of
/// them last.
pub proof fn law_fourteen_days_are_remembered(recent: Seq<DayModel>, s: DayModel)
    requires
        recent.len() <= 14,
    ensures
        remembered(recent, s).len() <= 14,
        remembered(recent, s).last() == s,
        recent.len() < 14 ==> remembered(recent, s) == recent.push(s),
        recent.len() == 14 ==> remembered(recent, s) == recent.skip(1).push(s),
{
    assert(recent.push(s).drop_first() =~= if recent.len() == 0 {
        Seq::<DayModel>::empty()
    } else {
        recent.skip(1).push(s)
    });
}

} // verus!
