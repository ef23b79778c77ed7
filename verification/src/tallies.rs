//! What is counted of a day, told from its reviews.

use vstd::prelude::*;
use crate::calendar::Clock;
use crate::days::{collect_one, collected, completes_all, study_on, xp_of, CollectModel};
use crate::double::sum;
use crate::quests::{completes, DayModel, QuestKind, QuestModel, Review};

verus! {

/// Something about each review of a day, added up. What it is may depend on the
/// reviews before.
pub open spec fn sum_on(reviews: Seq<Review>, clock: Clock, day: int, f: spec_fn(Seq<Review>) -> int) -> int
    decreases reviews.len(),
{
    if reviews.len() == 0 {
        0
    } else {
        sum_on(reviews.drop_last(), clock, day, f) + if clock.day_of(reviews.last().id as int) == day {
            f(reviews)
        } else {
            0
        }
    }
}

/// The largest of something about each review of a day, or zero.
pub open spec fn most_on(reviews: Seq<Review>, clock: Clock, day: int, f: spec_fn(Seq<Review>) -> int) -> int
    decreases reviews.len(),
{
    if reviews.len() == 0 {
        0
    } else {
        let before = most_on(reviews.drop_last(), clock, day, f);
        if clock.day_of(reviews.last().id as int) == day && f(reviews) > before {
            f(reviews)
        } else {
            before
        }
    }
}

/// Whether the card of the last review did not come up before.
pub open spec fn is_new_card(reviews: Seq<Review>) -> bool {
    forall|j: int| 0 <= j < reviews.len() - 1 ==> (#[trigger] reviews[j]).cid != reviews.last().cid
}

/// Whether the last review follows the one before on the same day, within five
/// minutes.
pub open spec fn follows(reviews: Seq<Review>, clock: Clock) -> bool {
    &&& reviews.len() >= 2
    &&& clock.day_of(reviews[reviews.len() - 2].id as int) == clock.day_of(reviews.last().id as int)
    &&& reviews.last().id - reviews[reviews.len() - 2].id < 300_000
}

/// Whether a review was made on a day.
pub open spec fn was_on(reviews: Seq<Review>, clock: Clock, day: int) -> bool {
    exists|j: int| 0 <= j < reviews.len() && clock.day_of((#[trigger] reviews[j]).id as int) == day
}

proof fn lemma_marks_the_last(c0: CollectModel, r: Review, clock: Clock, seed: u64)
    ensures
        collect_one(c0, r, clock, seed).prev == Some((clock.day_of(r.id as int), r.id as int)),
        collect_one(c0, r, clock, seed).seen == c0.seen.insert(r.cid),
{
    reveal(collect_one);
}

proof fn lemma_goes_on(reviews: Seq<Review>, clock: Clock, seed: u64)
    ensures
        reviews.len() == 0 ==> collected(reviews, clock, seed).prev is None,
        reviews.len() > 0 ==> collected(reviews, clock, seed).prev == Some(
            (clock.day_of(reviews.last().id as int), reviews.last().id as int),
        ),
{
    if reviews.len() > 0 {
        lemma_marks_the_last(collected(reviews.drop_last(), clock, seed), reviews.last(), clock, seed);
    }
}

proof fn lemma_seen(reviews: Seq<Review>, clock: Clock, seed: u64, cid: i64)
    ensures
        collected(reviews, clock, seed).seen.contains(cid) <==> exists|j: int|
            0 <= j < reviews.len() && (#[trigger] reviews[j]).cid == cid,
    decreases reviews.len(),
{
    if reviews.len() > 0 {
        let before = reviews.drop_last();
        lemma_marks_the_last(collected(before, clock, seed), reviews.last(), clock, seed);
        lemma_seen(before, clock, seed, cid);
        assert(reviews[reviews.len() - 1] == reviews.last());
        if exists|j: int| 0 <= j < before.len() && (#[trigger] before[j]).cid == cid {
            let j = choose|j: int| 0 <= j < before.len() && (#[trigger] before[j]).cid == cid;
            assert(reviews[j].cid == cid);
        }
        if exists|j: int| 0 <= j < reviews.len() && (#[trigger] reviews[j]).cid == cid {
            let j = choose|j: int| 0 <= j < reviews.len() && (#[trigger] reviews[j]).cid == cid;
            if j < before.len() {
                assert(before[j].cid == cid);
            }
        }
    }
}

/// What one more review does to what was collected.
proof fn lemma_one_more(reviews: Seq<Review>, clock: Clock, seed: u64, day: int)
    requires
        reviews.len() > 0,
    ensures
        ({
            let r = reviews.last();
            let c0 = collected(reviews.drop_last(), clock, seed);
            let c = collected(reviews, clock, seed);
            let today = clock.day_of(r.id as int);
            let hour = clock.hour_of(r.id as int);
            let s = study_on(c0.days, day);
            let t = study_on(c.days, day);
            let more = day == today;
            &&& c.days.dom().contains(day) == (c0.days.dom().contains(day) || more)
            &&& c.combo == if follows(reviews, clock) { c0.combo + 1 } else { 1 }
            &&& c.session_ms == if follows(reviews, clock) { c0.session_ms + r.time_ms } else { r.time_ms as int }
            &&& c.earned == c0.earned.push((r.id as int, xp_of(r, c.combo as int)))
            &&& !more ==> t == s
            &&& more ==> {
                &&& t.reviews == s.reviews + 1
                &&& t.time_ms == s.time_ms + r.time_ms
                &&& t.mature == s.mature + (if r.last_ivl >= 21 { 1int } else { 0 })
                &&& t.relearns == s.relearns + (if r.kind == 2 { 1int } else { 0 })
                &&& t.first_seen == s.first_seen + (if is_new_card(reviews) { 1int } else { 0 })
                &&& t.new_cards == s.new_cards + (if is_new_card(reviews) && r.kind == 0 { 1int } else { 0 })
                &&& t.sessions == s.sessions + (if !follows(reviews, clock) { 1int } else { 0 })
                &&& t.before_noon == s.before_noon + (if clock.rollover_hour <= hour < 12 { 1int } else { 0 })
                &&& t.early == (s.early || clock.rollover_hour <= hour < 7)
                &&& t.late == (s.late || hour >= 23 || hour < clock.rollover_hour)
                &&& t.max_combo == if c.combo > s.max_combo { c.combo } else { s.max_combo }
                &&& t.max_ivl == if r.last_ivl > s.max_ivl { r.last_ivl as int } else { s.max_ivl }
                &&& t.longest_session_ms == if c.session_ms > s.longest_session_ms {
                    c.session_ms
                } else {
                    s.longest_session_ms
                }
                &&& t.review_xp == sum(s.review_xp, xp_of(r, c.combo as int))
                &&& s.quests_completed_at is Some ==> t.quests_completed_at == s.quests_completed_at
                &&& s.quests_completed_at is None ==> t.quests_completed_at == if completes_all(c.quests, t) {
                    Some(r.id as int)
                } else {
                    None
                }
            }
        }),
{
    let before = reviews.drop_last();
    let r = reviews.last();
    let c0 = collected(before, clock, seed);
    let c = collected(reviews, clock, seed);
    lemma_goes_on(before, clock, seed);
    lemma_seen(before, clock, seed, r.cid);
    assert(is_new_card(reviews) == !c0.seen.contains(r.cid)) by {
        if is_new_card(reviews) && c0.seen.contains(r.cid) {
            let j = choose|j: int| 0 <= j < before.len() && (#[trigger] before[j]).cid == r.cid;
            assert(reviews[j].cid == r.cid);
        }
        if !is_new_card(reviews) {
            let j = choose|j: int| 0 <= j < reviews.len() - 1 && (#[trigger] reviews[j]).cid == r.cid;
            assert(before[j].cid == r.cid);
        }
    }
    if before.len() > 0 {
        assert(before.last() == reviews[reviews.len() - 2]);
    }
    lemma_same_quests(c0, r, clock, seed, day);
}

proof fn lemma_same_quests(c0: CollectModel, r: Review, clock: Clock, seed: u64, day: int)
    ensures
        ({
            let c = collect_one(c0, r, clock, seed);
            let today = clock.day_of(r.id as int);
            let hour = clock.hour_of(r.id as int);
            let goes_on = c0.prev is Some && (c0.prev->0).0 == today && r.id - (c0.prev->0).1 < 300_000;
            let fresh = !c0.seen.contains(r.cid);
            let s = study_on(c0.days, day);
            let t = study_on(c.days, day);
            let more = day == today;
            &&& c.days.dom().contains(day) == (c0.days.dom().contains(day) || more)
            &&& c.combo == if goes_on { c0.combo + 1 } else { 1 }
            &&& c.session_ms == if goes_on { c0.session_ms + r.time_ms } else { r.time_ms as int }
            &&& c.earned == c0.earned.push((r.id as int, xp_of(r, c.combo as int)))
            &&& !more ==> t == s
            &&& more ==> {
                &&& t.reviews == s.reviews + 1
                &&& t.time_ms == s.time_ms + r.time_ms
                &&& t.mature == s.mature + (if r.last_ivl >= 21 { 1int } else { 0 })
                &&& t.relearns == s.relearns + (if r.kind == 2 { 1int } else { 0 })
                &&& t.first_seen == s.first_seen + (if fresh { 1int } else { 0 })
                &&& t.new_cards == s.new_cards + (if fresh && r.kind == 0 { 1int } else { 0 })
                &&& t.sessions == s.sessions + (if !goes_on { 1int } else { 0 })
                &&& t.before_noon == s.before_noon + (if clock.rollover_hour <= hour < 12 { 1int } else { 0 })
                &&& t.early == (s.early || clock.rollover_hour <= hour < 7)
                &&& t.late == (s.late || hour >= 23 || hour < clock.rollover_hour)
                &&& t.max_combo == if c.combo > s.max_combo { c.combo } else { s.max_combo }
                &&& t.max_ivl == if r.last_ivl > s.max_ivl { r.last_ivl as int } else { s.max_ivl }
                &&& t.longest_session_ms == if c.session_ms > s.longest_session_ms {
                    c.session_ms
                } else {
                    s.longest_session_ms
                }
                &&& t.review_xp == sum(s.review_xp, xp_of(r, c.combo as int))
                &&& s.quests_completed_at is Some ==> t.quests_completed_at == s.quests_completed_at
                &&& s.quests_completed_at is None ==> t.quests_completed_at == if completes_all(c.quests, t) {
                    Some(r.id as int)
                } else {
                    None
                }
            }
        }),
{
    reveal(collect_one);
    let c = collect_one(c0, r, clock, seed);
    let today = clock.day_of(r.id as int);
    let t = study_on(c.days, today);
    let u = DayModel { quests_completed_at: None, ..t };
    assert forall|q: QuestModel| #[trigger] completes(q, u) == completes(q, t) by {}
}

/// There was study on a day exactly where a review was made on it, and then at
/// least one is counted.
pub proof fn law_days_of_study_have_reviews(reviews: Seq<Review>, clock: Clock, seed: u64, day: int)
    ensures
        collected(reviews, clock, seed).days.dom().contains(day) <==> was_on(reviews, clock, day),
        study_on(collected(reviews, clock, seed).days, day).reviews > 0 <==> was_on(reviews, clock, day),
    decreases reviews.len(),
{
    if reviews.len() > 0 {
        let before = reviews.drop_last();
        law_days_of_study_have_reviews(before, clock, seed, day);
        lemma_one_more(reviews, clock, seed, day);
        assert(reviews[reviews.len() - 1] == reviews.last());
        assert(forall|j: int| 0 <= j < before.len() ==> #[trigger] before[j] == reviews[j]);
        if was_on(before, clock, day) {
            let j = choose|j: int| 0 <= j < before.len() && clock.day_of((#[trigger] before[j]).id as int) == day;
            assert(clock.day_of(reviews[j].id as int) == day);
        }
        if was_on(reviews, clock, day) && clock.day_of(reviews.last().id as int) != day {
            let j = choose|j: int| 0 <= j < reviews.len() && clock.day_of((#[trigger] reviews[j]).id as int) == day;
            assert(clock.day_of(before[j].id as int) == day);
        }
    }
}

/// What is counted of a day is counted over its reviews: the reviews themselves,
/// their time, the cards with an interval of three weeks or more, the cards that
/// are learned again, the cards that come up for the first time, those of them
/// that are learned, and the sittings, where a review opens one unless it follows
/// the last review within five minutes.
pub proof fn law_a_day_counts_its_reviews(reviews: Seq<Review>, clock: Clock, seed: u64, day: int)
    ensures
        ({
            let s = study_on(collected(reviews, clock, seed).days, day);
            &&& s.reviews == sum_on(reviews, clock, day, |rs: Seq<Review>| 1int)
            &&& s.time_ms == sum_on(reviews, clock, day, |rs: Seq<Review>| rs.last().time_ms as int)
            &&& s.mature == sum_on(
                reviews,
                clock,
                day,
                |rs: Seq<Review>| if rs.last().last_ivl >= 21 { 1int } else { 0 },
            )
            &&& s.relearns == sum_on(
                reviews,
                clock,
                day,
                |rs: Seq<Review>| if rs.last().kind == 2 { 1int } else { 0 },
            )
            &&& s.first_seen == sum_on(
                reviews,
                clock,
                day,
                |rs: Seq<Review>| if is_new_card(rs) { 1int } else { 0 },
            )
            &&& s.new_cards == sum_on(
                reviews,
                clock,
                day,
                |rs: Seq<Review>| if is_new_card(rs) && rs.last().kind == 0 { 1int } else { 0 },
            )
            &&& s.sessions == sum_on(
                reviews,
                clock,
                day,
                |rs: Seq<Review>| if follows(rs, clock) { 0int } else { 1 },
            )
        }),
    decreases reviews.len(),
{
    if reviews.len() > 0 {
        law_a_day_counts_its_reviews(reviews.drop_last(), clock, seed, day);
        lemma_one_more(reviews, clock, seed, day);
    }
}

/// Reviews before noon, but not before the day turns over, are counted; a day is
/// early where one was made before seven, and late where one was made from eleven
/// in the evening on.
pub proof fn law_a_day_knows_its_hours(reviews: Seq<Review>, clock: Clock, seed: u64, day: int)
    ensures
        ({
            let s = study_on(collected(reviews, clock, seed).days, day);
            &&& s.before_noon == sum_on(
                reviews,
                clock,
                day,
                |rs: Seq<Review>|
                    if clock.rollover_hour <= clock.hour_of(rs.last().id as int) < 12 { 1int } else { 0 },
            )
            &&& s.early <==> sum_on(
                reviews,
                clock,
                day,
                |rs: Seq<Review>|
                    if clock.rollover_hour <= clock.hour_of(rs.last().id as int) < 7 { 1int } else { 0 },
            ) > 0
            &&& s.late <==> sum_on(
                reviews,
                clock,
                day,
                |rs: Seq<Review>|
                    if clock.hour_of(rs.last().id as int) >= 23 || clock.hour_of(rs.last().id as int)
                        < clock.rollover_hour { 1int } else { 0 },
            ) > 0
            &&& sum_on(
                reviews,
                clock,
                day,
                |rs: Seq<Review>|
                    if clock.rollover_hour <= clock.hour_of(rs.last().id as int) < 7 { 1int } else { 0 },
            ) >= 0
            &&& sum_on(
                reviews,
                clock,
                day,
                |rs: Seq<Review>|
                    if clock.hour_of(rs.last().id as int) >= 23 || clock.hour_of(rs.last().id as int)
                        < clock.rollover_hour { 1int } else { 0 },
            ) >= 0
        }),
    decreases reviews.len(),
{
    if reviews.len() > 0 {
        law_a_day_knows_its_hours(reviews.drop_last(), clock, seed, day);
        lemma_one_more(reviews, clock, seed, day);
    }
}

/// The longest interval of a day is that of one of its cards, the longest combo
/// that of one of its reviews, and the longest session that up to one of them.
pub proof fn law_a_day_knows_its_bests(reviews: Seq<Review>, clock: Clock, seed: u64, day: int)
    ensures
        ({
            let s = study_on(collected(reviews, clock, seed).days, day);
            &&& s.max_ivl == most_on(reviews, clock, day, |rs: Seq<Review>| rs.last().last_ivl as int)
            &&& s.max_combo == most_on(
                reviews,
                clock,
                day,
                |rs: Seq<Review>| collected(rs, clock, seed).combo as int,
            )
            &&& s.longest_session_ms == most_on(
                reviews,
                clock,
                day,
                |rs: Seq<Review>| collected(rs, clock, seed).session_ms,
            )
        }),
    decreases reviews.len(),
{
    if reviews.len() > 0 {
        law_a_day_knows_its_bests(reviews.drop_last(), clock, seed, day);
        lemma_one_more(reviews, clock, seed, day);
    }
}

/// A combo is as long as the reviews follow one another: each of them follows the
/// one before, but for the first.
pub proof fn law_a_combo_is_a_run_of_reviews(reviews: Seq<Review>, clock: Clock, seed: u64)
    requires
        reviews.len() > 0,
    ensures
        ({
            let combo = collected(reviews, clock, seed).combo;
            &&& 1 <= combo <= reviews.len()
            &&& forall|k: int| reviews.len() - combo + 1 < k <= reviews.len() ==> follows(#[trigger] reviews.take(k), clock)
            &&& !follows(reviews.take(reviews.len() - combo + 1), clock)
        }),
    decreases reviews.len(),
{
    let n = reviews.len() as int;
    let before = reviews.drop_last();
    lemma_one_more(reviews, clock, seed, 0);
    assert(reviews.take(n) =~= reviews);
    if follows(reviews, clock) {
        law_a_combo_is_a_run_of_reviews(before, clock, seed);
        let combo = collected(before, clock, seed).combo;
        assert(before.take(n - 1 - combo + 1) =~= reviews.take(n - combo));
        assert forall|k: int| n - (combo + 1) + 1 < k <= n implies follows(#[trigger] reviews.take(k), clock) by {
            if k < n {
                assert(before.take(k) =~= reviews.take(k));
            }
        }
    }
}

/// The time of a session is that of the reviews of the combo, and every review is
/// remembered with its time and with the XP that it earned in its combo.
pub proof fn law_sessions_add_up(reviews: Seq<Review>, clock: Clock, seed: u64)
    requires
        reviews.len() > 0,
    ensures
        ({
            let c = collected(reviews, clock, seed);
            let c0 = collected(reviews.drop_last(), clock, seed);
            &&& c.combo > 1 ==> c.session_ms == c0.session_ms + reviews.last().time_ms
            &&& c.combo == 1 ==> c.session_ms == reviews.last().time_ms
            &&& c.earned.len() == reviews.len()
            &&& c.earned.drop_last() == c0.earned
            &&& c.earned.last().0 == reviews.last().id
            &&& c.earned.last().1 == xp_of(reviews.last(), c.combo as int)
        }),
    decreases reviews.len(),
{
    lemma_one_more(reviews, clock, seed, 0);
    let before = reviews.drop_last();
    if before.len() > 0 {
        law_sessions_add_up(before, clock, seed);
        law_a_combo_is_a_run_of_reviews(before, clock, seed);
    }
    let c = collected(reviews, clock, seed);
    assert(c.earned.drop_last() =~= collected(before, clock, seed).earned);
}

/// The quests of a day are completed with the first review after which all of them
/// are, and stay so.
pub proof fn law_quests_are_completed_once(reviews: Seq<Review>, clock: Clock, seed: u64)
    requires
        reviews.len() > 0,
    ensures
        ({
            let day = clock.day_of(reviews.last().id as int);
            let before = study_on(collected(reviews.drop_last(), clock, seed).days, day).quests_completed_at;
            let c = collected(reviews, clock, seed);
            let s = study_on(c.days, day);
            &&& before is Some ==> s.quests_completed_at == before
            &&& before is None && (forall|i: int| 0 <= i < c.quests.len() ==> completes(#[trigger] c.quests[i], s))
                ==> s.quests_completed_at == Some(reviews.last().id as int)
            &&& before is None && (exists|i: int| 0 <= i < c.quests.len() && !completes(#[trigger] c.quests[i], s))
                ==> s.quests_completed_at is None
        }),
{
    lemma_one_more(reviews, clock, seed, clock.day_of(reviews.last().id as int));
}

/// A quest goes by what it names.
pub proof fn law_quests_count_what_they_name(q: QuestModel, s: DayModel)
    ensures
        q.kind == QuestKind::Reviews ==> (completes(q, s) <==> s.reviews >= q.target),
        q.kind == QuestKind::Minutes && s.time_ms >= 0 ==> (completes(q, s) <==> s.time_ms >= q.target * 60_000),
        q.kind == QuestKind::Combo ==> (completes(q, s) <==> s.max_combo >= q.target),
        q.kind == QuestKind::Mature ==> (completes(q, s) <==> s.mature >= q.target),
        q.kind == QuestKind::NewCards ==> (completes(q, s) <==> s.new_cards >= q.target),
        q.kind == QuestKind::Sessions ==> (completes(q, s) <==> s.sessions >= q.target),
        q.kind == QuestKind::BeforeNoon ==> (completes(q, s) <==> s.before_noon >= q.target),
{
}

/// A review adds its XP, as its place in the combo makes it, to the day on which it
/// was made, and leaves the other days as they are.
pub proof fn law_a_review_adds_its_xp_to_its_day(reviews: Seq<Review>, clock: Clock, seed: u64, day: int)
    requires
        reviews.len() > 0,
    ensures
        ({
            let before = collected(reviews.drop_last(), clock, seed);
            let after = collected(reviews, clock, seed);
            let r = reviews.last();
            &&& day == clock.day_of(r.id as int) ==> study_on(after.days, day).review_xp == sum(
                study_on(before.days, day).review_xp,
                xp_of(r, after.combo as int),
            )
            &&& day != clock.day_of(r.id as int) ==> study_on(after.days, day) == study_on(before.days, day)
        }),
{
    lemma_one_more(reviews, clock, seed, day);
}

} // verus!
