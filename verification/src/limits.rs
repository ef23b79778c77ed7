//! Which histories can be computed.

use vstd::prelude::*;
use crate::calendar::{fits, floor_div, Clock};
use crate::day_table::DayTable;
use crate::days::{checked_collect, collect_one, collected, study_on, times_fit};
use crate::double::size;
use crate::freezes::{FreezePolicy, FreezePreference};
use crate::game::{computable, first_day, is_first, lemma_first_day, past_of, study_of};
use crate::quests::{seed_for, seed_of, DayModel, Review, REVIEW_LIMIT};
use crate::records::HOUR_MS;
use crate::replay::{day_count, lemma_time_adds, replay_day, replayed, Past};
use crate::week::Week;

verus! {

/// How far from 1970 an instant may lie, in milliseconds: more than a hundred
/// thousand years.
pub const FAR_MS: i64 = 4_503_599_627_370_496;

/// Whether an instant lies within a hundred thousand years of 1970.
pub open spec fn is_near(ms: int) -> bool {
    -FAR_MS <= ms <= FAR_MS
}

/// Whether an instant lies within a hundred thousand years of 1970.
pub fn near(ms: i64) -> (res: bool)
    ensures
        res == is_near(ms as int),
{
    -FAR_MS <= ms && ms <= FAR_MS
}

/// The time that some reviews took, whatever its sign.
pub open spec fn time_spent(reviews: Seq<Review>) -> nat
    decreases reviews.len(),
{
    if reviews.len() == 0 {
        0
    } else {
        time_spent(reviews.drop_last()) + size(reviews.last().time_ms as int)
    }
}

pub proof fn lemma_time_spent_prefix(reviews: Seq<Review>, k: int)
    requires
        0 <= k <= reviews.len(),
    ensures
        time_spent(reviews.take(k)) <= time_spent(reviews),
    decreases reviews.len(),
{
    if k == reviews.len() {
        assert(reviews.take(k) =~= reviews);
    } else {
        assert(reviews.take(k) =~= reviews.drop_last().take(k));
        lemma_time_spent_prefix(reviews.drop_last(), k);
    }
}

/// Whether a history is of an ordinary kind: its clock is one that is worn, its
/// instants are near, and its reviews are not too many and did not take too
/// long.
pub open spec fn is_ordinary(reviews: Seq<Review>, clock: Clock, week: Week, now: int, legacy_until: Option<i64>) -> bool {
    &&& reviews.len() <= REVIEW_LIMIT
    &&& time_spent(reviews) <= i64::MAX
    &&& forall|i: int| 0 <= i < reviews.len() ==> is_near((#[trigger] reviews[i]).id as int)
    &&& -1440 <= clock.offset_west_min <= 1440
    &&& 0 <= clock.rollover_hour <= 23
    &&& week.rollover_hour <= 23
    &&& is_near(now)
    &&& legacy_until matches Some(at) ==> is_near(at as int)
}

/// Each day of study is the day of a review.
proof fn lemma_days_are_of_reviews(reviews: Seq<Review>, clock: Clock, seed: u64, day: int) -> (i: int)
    requires
        collected(reviews, clock, seed).days.dom().contains(day),
    ensures
        0 <= i < reviews.len(),
        clock.day_of(reviews[i].id as int) == day,
    decreases reviews.len(),
{
    reveal(collect_one);
    if clock.day_of(reviews.last().id as int) == day {
        reviews.len() - 1
    } else {
        lemma_days_are_of_reviews(reviews.drop_last(), clock, seed, day)
    }
}

/// The time that was studied on some days, whatever its sign.
pub open spec fn time_over(days: Map<int, DayModel>, from: int, n: nat) -> nat
    decreases n,
{
    if n == 0 {
        0
    } else {
        time_over(days, from, (n - 1) as nat) + size(study_on(days, from + n - 1).time_ms)
    }
}

proof fn lemma_time_over_insert(days: Map<int, DayModel>, day: int, s: DayModel, from: int, n: nat)
    ensures
        time_over(days.insert(day, s), from, n) == time_over(days, from, n) + (if from <= day < from + n {
            size(s.time_ms) - size(study_on(days, day).time_ms)
        } else {
            0
        }),
    decreases n,
{
    if n > 0 {
        lemma_time_over_insert(days, day, s, from, (n - 1) as nat);
    }
}

/// No session and no days took longer than all reviews together.
proof fn lemma_times_within(reviews: Seq<Review>, clock: Clock, seed: u64)
    ensures
        size(collected(reviews, clock, seed).session_ms) <= time_spent(reviews),
        forall|from: int, n: nat| #[trigger] time_over(collected(reviews, clock, seed).days, from, n) <= time_spent(reviews),
    decreases reviews.len(),
{
    let after = collected(reviews, clock, seed);
    if reviews.len() > 0 {
        let r = reviews.last();
        let before = collected(reviews.drop_last(), clock, seed);
        let day = clock.day_of(r.id as int);
        lemma_times_within(reviews.drop_last(), clock, seed);
        reveal(collect_one);
        assert forall|from: int, n: nat| #[trigger] time_over(after.days, from, n) <= time_spent(reviews) by {
            assert(time_over(before.days, from, n) <= time_spent(reviews.drop_last()));
            lemma_time_over_insert(before.days, day, after.days[day], from, n);
            assert(after.days =~= before.days.insert(day, after.days[day]));
            assert(after.days[day].time_ms == study_on(before.days, day).time_ms + r.time_ms);
        }
    } else {
        assert forall|from: int, n: nat| #[trigger] time_over(after.days, from, n) <= 0 by {
            lemma_no_time(after.days, from, n);
        }
    }
}

proof fn lemma_no_time(days: Map<int, DayModel>, from: int, n: nat)
    requires
        days == Map::<int, DayModel>::empty(),
    ensures
        time_over(days, from, n) == 0,
    decreases n,
{
    if n > 0 {
        lemma_no_time(days, from, (n - 1) as nat);
    }
}

proof fn lemma_replay_within(p: Past, n: nat)
    ensures
        size(replayed(p, n).totals.time_ms) <= time_over(p.days, p.first, n),
    decreases n,
{
    if n > 0 {
        lemma_replay_within(p, (n - 1) as nat);
        lemma_time_adds(p, replayed(p, (n - 1) as nat), p.first + n - 1);
    }
}

/// Where the reviews did not take too long all times can be added up.
proof fn lemma_ordinary_times(p: Past, reviews: Seq<Review>)
    requires
        time_spent(reviews) <= i64::MAX,
        p.days == collected(reviews, p.clock, p.seed).days,
    ensures
        forall|k: int| 0 <= k <= reviews.len() ==> times_fit(collected(#[trigger] reviews.take(k), p.clock, p.seed)),
        forall|n: nat| fits((#[trigger] replayed(p, n)).totals.time_ms),
{
    assert forall|k: int| 0 <= k <= reviews.len() implies times_fit(
        collected(#[trigger] reviews.take(k), p.clock, p.seed),
    ) by {
        let c = collected(reviews.take(k), p.clock, p.seed);
        lemma_time_spent_prefix(reviews, k);
        lemma_times_within(reviews.take(k), p.clock, p.seed);
        assert forall|day: int| #[trigger] c.days.dom().contains(day) implies fits(c.days[day].time_ms) by {
            assert(time_over(c.days, day, 1) <= time_spent(reviews.take(k)));
            reveal_with_fuel(time_over, 2);
        }
    }
    lemma_times_within(reviews, p.clock, p.seed);
    assert forall|n: nat| fits((#[trigger] replayed(p, n)).totals.time_ms) by {
        lemma_replay_within(p, n);
        assert(time_over(p.days, p.first, n) <= time_spent(reviews));
    }
}

/// Everything that is shown of a player can be computed where the history is of
/// an ordinary kind.
pub proof fn law_ordinary_histories_can_be_computed(
    user: Seq<char>,
    reviews: Seq<Review>,
    clock: Clock,
    week: Week,
    now: int,
    legacy_until: Option<i64>,
    preferences: Seq<FreezePreference>,
)
    requires
        is_ordinary(reviews, clock, week, now, legacy_until),
    ensures
        computable(user, reviews, clock, week, now, legacy_until, preferences),
{
    let p = past_of(user, reviews, clock, now, legacy_until, preferences);
    let days = study_of(user, reviews, clock).days;
    lemma_ordinary_times(p, reviews);
    assert(-52_200_000 <= clock.day_of(now) <= 52_200_000);
    if exists|d: int| is_first(days, d) {
        let d = first_day(days, p.today);
        assert(is_first(days, d));
        let i = lemma_days_are_of_reviews(reviews, clock, seed_for(user), d);
        assert(is_near(reviews[i].id as int));
    }
    assert(-52_200_000 <= p.first <= 52_200_000);
    assert forall|day: int| p.first <= day <= p.today + 1 implies #[trigger] clock.tells_start(day) by {}
    assert forall|day: int| p.first <= day <= p.today implies week.reads(#[trigger] clock.start_of(day)) by {}
}

/// Days without study add no time.
proof fn lemma_time_stands(p: Past, a: nat, b: nat)
    requires
        a <= b,
        forall|day: int| p.first + a <= day < p.first + b ==> !#[trigger] p.days.dom().contains(day),
    ensures
        replayed(p, b).totals.time_ms == replayed(p, a).totals.time_ms,
    decreases b,
{
    if a < b {
        lemma_time_stands(p, a, (b - 1) as nat);
        lemma_time_adds(p, replayed(p, (b - 1) as nat), p.first + b - 1);
        assert(!p.days.dom().contains(p.first + b - 1));
    }
}

/// Whether the time of some days of study, up to one of them, can be added up.
fn can_add_up(days: &DayTable, today: i64, Ghost(p): Ghost<Past>) -> (res: bool)
    requires
        days.wf(),
        p.days == days@,
        p.today == today,
        p.first == (if days.entries@.len() == 0 { today } else { days.entries@[0].0 }),
    ensures
        res == forall|n: nat| n <= day_count(p) ==> fits((#[trigger] replayed(p, n)).totals.time_ms),
{
    let ghost entries = days.entries@;
    let mut total: i64 = 0;
    let mut k: usize = 0;
    let ghost mut n: nat = 0;
    proof {
        assert forall|i: int| 0 <= i < entries.len() implies (#[trigger] entries[i]).0 >= p.first by {
            if i > 0 {
                assert(entries[0].0 < entries[i].0);
            }
        }
    }
    while k < days.entries.len() && days.entries[k].0 <= today
        invariant
            days.wf(),
            entries == days.entries@,
            p.days == days@,
            p.today == today,
            k <= entries.len(),
            n <= day_count(p),
            total == replayed(p, n).totals.time_ms,
            forall|j: nat| j <= n ==> fits((#[trigger] replayed(p, j)).totals.time_ms),
            forall|i: int| 0 <= i < k ==> (#[trigger] entries[i]).0 < p.first + n,
            forall|i: int| k <= i < entries.len() ==> (#[trigger] entries[i]).0 >= p.first + n,
        decreases entries.len() - k,
    {
        let ghost day = entries[k as int].0 as int;
        let ghost a = (day - p.first) as nat;
        proof {
            assert forall|d: int| p.first + n <= d < p.first + a implies !#[trigger] days@.dom().contains(d) by {
                lemma_between(*days, k as int, d, p.first + n);
            }
            assert forall|j: nat| n <= j <= a implies (#[trigger] replayed(p, j)).totals.time_ms == total by {
                lemma_time_stands(p, n, j);
            }
            days.lemma_place(k as int);
            lemma_time_adds(p, replayed(p, a), day);
            assert(replayed(p, a + 1) == replay_day(p, replayed(p, a), p.first + a));
        }
        match total.checked_add(days.entries[k].1.time_ms) {
            Some(sum) => {
                total = sum;
            },
            None => {
                assert(!fits(replayed(p, a + 1).totals.time_ms));
                return false;
            },
        }
        proof {
            n = a + 1;
            assert forall|i: int| k < i < entries.len() implies (#[trigger] entries[i]).0 >= p.first + n by {
                assert(entries[k as int].0 < entries[i].0);
            }
            assert forall|i: int| 0 <= i <= k implies (#[trigger] entries[i]).0 < p.first + n by {
                if i < k {
                    assert(entries[i].0 < entries[k as int].0);
                }
            }
        }
        k = k + 1;
    }
    proof {
        assert forall|j: nat| j <= day_count(p) implies fits((#[trigger] replayed(p, j)).totals.time_ms) by {
            if j > n {
                assert forall|d: int| p.first + n <= d < p.first + j implies !#[trigger] days@.dom().contains(d) by {
                    lemma_between(*days, k as int, d, p.first + n);
                }
                lemma_time_stands(p, n, j);
            }
        }
    }
    true
}

/// No day stands in a table between two entries that follow each other.
proof fn lemma_between(days: DayTable, k: int, day: int, from: int)
    requires
        days.wf(),
        0 <= k <= days.entries@.len(),
        forall|i: int| 0 <= i < k ==> (#[trigger] days.entries@[i]).0 < from,
        from <= day,
        k < days.entries@.len() ==> day < days.entries@[k].0,
    ensures
        !days@.dom().contains(day),
{
    if days@.dom().contains(day) {
        let i = days.place(day);
        assert(days.entries@[i].0 == day);
        if i > k {
            assert(days.entries@[k].0 < days.entries@[i].0);
        }
    }
}

/// Days begin a day apart, and so do the days in UTC on which they begin.
proof fn lemma_starts(clock: Clock, week: Week, from: int, day: int)
    ensures
        clock.start_of(day) / 86_400_000 == clock.start_of(from) / 86_400_000 + (day - from),
        week.reads(clock.start_of(day)) == week.reads_day(clock.start_of(day) / 86_400_000),
{
}

/// Whether everything that is shown of a player can be computed.
pub fn can_compute(user: &str, reviews: &[Review], clock: &Clock, week: &Week, now_ms: i64, policy: &FreezePolicy) -> (res: bool)
    ensures
        res == computable(
            user@,
            reviews@,
            *clock,
            *week,
            now_ms as int,
            policy.legacy_until,
            policy.preferences@,
        ),
{
    let ghost p = past_of(user@, reviews@, *clock, now_ms as int, policy.legacy_until, policy.preferences@);
    if !clock.can_tell_day(now_ms) || now_ms < i64::MIN + HOUR_MS {
        return false;
    }
    if let Some(at) = policy.legacy_until {
        if !clock.can_tell_day(at) {
            return false;
        }
    }
    let today: i64 = clock.day(now_ms);
    let days = match checked_collect(reviews, clock, seed_of(user)) {
        Some(found) => found.0,
        None => {
            return false;
        },
    };
    let mut i: usize = 0;
    while i < reviews.len()
        invariant
            i <= reviews@.len(),
            forall|k: int| 0 <= k < i ==> fits((#[trigger] reviews@[k]).id - HOUR_MS),
        decreases reviews@.len() - i,
    {
        if reviews[i].id < i64::MIN + HOUR_MS {
            assert(!fits(reviews@[i as int].id - HOUR_MS));
            return false;
        }
        i = i + 1;
    }
    let first: i64 = if days.entries.len() == 0 {
        today
    } else {
        days.entries[0].0
    };
    proof {
        lemma_first_day(days, today as int);
        assert(p.first == first && p.today == today);
    }
    if !can_add_up(&days, today, Ghost(p)) {
        return false;
    }
    if !clock.can_tell_start(first) || !clock.can_tell_start(today + 1) {
        return false;
    }
    let at: i64 = floor_div(now_ms, 86_400_000);
    if !week.reads_days(at, at) {
        assert(!week.reads(now_ms as int));
        return false;
    }
    assert(week.reads_day(at as int));
    assert forall|day: int| first <= day <= today + 1 implies #[trigger] clock.tells_start(day) by {}
    if first > today {
        return true;
    }
    assert(clock.tells_start(today as int));
    let from: i64 = floor_div(clock.day_start_ms(first), 86_400_000);
    let to: i64 = floor_div(clock.day_start_ms(today), 86_400_000);
    let res = week.reads_days(from, to);
    proof {
        lemma_starts(*clock, *week, first as int, today as int);
        if res {
            assert forall|day: int| first <= day <= today implies week.reads(#[trigger] clock.start_of(day)) by {
                lemma_starts(*clock, *week, first as int, day);
                assert(week.reads_day(from + (day - first)));
            }
        } else {
            let x = choose|x: int| from <= x <= to && !#[trigger] week.reads_day(x);
            let day = first + (x - from);
            lemma_starts(*clock, *week, first as int, day);
            assert(!week.reads(clock.start_of(day)));
        }
    }
    res
}

} // verus!
