//! What reviews, streaks, quests and achievements are worth, told in whole
//! numbers.

use vstd::prelude::*;
use vstd::arithmetic::power2::{lemma2_to64, lemma_pow2_pos, pow2};
use crate::achievements::{definitions, reward_of, TotalsModel};
use crate::days::{base_xp, xp_of};
use crate::double::{lemma_of_int_exact, lemma_raised, lemma_rounded_error, of_int, product, quotient, rounded, saturated, sum, unit};
use crate::quests::{at_most, Review};
use crate::replay::{completed, replay_day, streak_xp, unlock_xp, unlocks, Past, ReplayModel};

verus! {

proof fn lemma_streak_points(a: int, streak: int)
    requires
        0 <= a <= 0x100_0000_0000 * unit(),
        streak >= 0,
    ensures
        ({
            let days = if streak < 30 {
                streak
            } else {
                30
            };
            let off = 100 * (streak_xp(a, streak) * unit()) - a * (100 + days);
            -51 * unit() < off < 51 * unit()
        }),
{
    let u = unit();
    let days = if streak < 30 {
        streak
    } else {
        30
    };
    lemma_pow2_pos(1074);
    lemma_raised(a, days, 100);
    let r = product(a, sum(of_int(1), quotient(of_int(days), of_int(100))));
    lemma_rounded_error(r);
    let q = rounded(r);
    assert(at_most(streak, 30) == days);
    assert(100 * r <= 65_000_000_000_000_000 * u) by {
        assert(a * (100 + days) <= 130 * (0x100_0000_0000 * u)) by (nonlinear_arith)
            requires
                0 <= a <= 0x100_0000_0000 * u,
                0 <= days <= 30,
                u > 0,
        ;
    }
    assert(q <= 0xffff_ffff_ffff_ffff) by (nonlinear_arith)
        requires
            2 * (q * u - r) <= u,
            100 * r <= 65_000_000_000_000_000 * u,
            u > 0,
    ;
    assert(saturated(q) == q);
}

/// Each day of a streak is worth a percent more of the XP of the reviews, up to
/// thirty: the points are off by half a point at most, and by no more than a
/// hundredth through the arithmetic.
pub proof fn law_a_streak_adds_a_percent_a_day(review_xp: int, streak: int)
    requires
        0 <= review_xp <= 0x100_0000_0000 * pow2(1074),
        streak >= 0,
    ensures
        streak <= 30 ==> -51 * pow2(1074) < 100 * (streak_xp(review_xp, streak) * pow2(1074)) - review_xp * (100
            + streak) < 51 * pow2(1074),
        streak >= 30 ==> -51 * pow2(1074) < 100 * (streak_xp(review_xp, streak) * pow2(1074)) - review_xp * 130 < 51
            * pow2(1074),
{
    lemma_streak_points(review_xp, streak);
}

/// A day whose reviews are worth a whole number of points earns, at a streak of
/// up to thirty days, the integer nearest to so many percent more, and thirty
/// percent from there on.
pub proof fn law_points_are_the_nearest_integer(points: int, streak: int)
    requires
        0 <= points <= 0x100_0000_0000,
        streak >= 0,
    ensures
        streak <= 30 ==> -50 <= 100 * streak_xp(points * pow2(1074), streak) - points * (100 + streak) <= 50,
        streak >= 30 ==> -50 <= 100 * streak_xp(points * pow2(1074), streak) - points * 130 <= 50,
{
    let u = unit();
    let days = if streak < 30 {
        streak
    } else {
        30
    };
    lemma_pow2_pos(1074);
    let a = points * u;
    assert(0 <= a <= 0x100_0000_0000 * u) by (nonlinear_arith)
        requires
            a == points * u,
            0 <= points <= 0x100_0000_0000,
            u > 0,
    ;
    lemma_streak_points(a, streak);
    let q = streak_xp(a, streak);
    let off = 100 * q - points * (100 + days);
    assert(-51 < off < 51) by (nonlinear_arith)
        requires
            a == points * u,
            off == 100 * q - points * (100 + days),
            -51 * u < 100 * (q * u) - a * (100 + days) < 51 * u,
            u > 0,
    ;
}

/// Without a streak there is no bonus.
pub proof fn law_no_streak_adds_nothing(points: int)
    requires
        0 <= points <= 0x100_0000_0000,
    ensures
        streak_xp(points * pow2(1074), 0) == points,
{
    law_points_are_the_nearest_integer(points, 0);
}

/// A longer streak earns more, up to thirty days, where a day is worth more
/// than a hundred points; after that it earns the same.
pub proof fn law_longer_streaks_earn_more(points: int, shorter: int, longer: int)
    requires
        100 < points <= 0x100_0000_0000,
        0 <= shorter < longer,
    ensures
        longer <= 30 ==> streak_xp(points * pow2(1074), shorter) < streak_xp(points * pow2(1074), longer),
        shorter >= 30 ==> streak_xp(points * pow2(1074), shorter) == streak_xp(points * pow2(1074), longer),
{
    law_points_are_the_nearest_integer(points, shorter);
    law_points_are_the_nearest_integer(points, longer);
    if longer <= 30 {
        assert(points * (100 + longer) >= points * (100 + shorter) + points) by (nonlinear_arith)
            requires
                longer >= shorter + 1,
                points > 0,
        ;
    }
}

/// A card that is flipped in under half a second is worth one point. Otherwise a
/// review is worth ten points, learning or relearning six, and looking at a card
/// out of turn two; and five more where the card came up after three weeks or
/// longer.
pub proof fn law_reviews_are_worth_their_kind(r: Review)
    ensures
        r.time_ms < 500 ==> base_xp(r) == 1,
        r.time_ms >= 500 && r.last_ivl < 21 && r.kind == 1 ==> base_xp(r) == 10,
        r.time_ms >= 500 && r.last_ivl < 21 && (r.kind == 0 || r.kind == 2) ==> base_xp(r) == 6,
        r.time_ms >= 500 && r.last_ivl < 21 && r.kind > 2 ==> base_xp(r) == 2,
        r.time_ms >= 500 && r.last_ivl >= 21 ==> base_xp(r) == base_xp(Review { last_ivl: 0, ..r }) + 5,
{
}

/// Each review of a combo, up to a hundred, raises the XP of a review by half a
/// percent, to the accuracy of the arithmetic.
pub proof fn law_a_combo_adds_half_a_percent_a_review(r: Review, combo: int)
    requires
        combo >= 1,
    ensures
        combo <= 100 ==> -pow2(1074) <= 2 * (200 * xp_of(r, combo) - base_xp(r) * (200 + combo) * pow2(1074)) <= pow2(
            1074,
        ),
        combo >= 100 ==> -pow2(1074) <= 2 * (200 * xp_of(r, combo) - base_xp(r) * 300 * pow2(1074)) <= pow2(1074),
{
    let u = unit();
    let b = base_xp(r);
    let c = if combo < 100 {
        combo
    } else {
        100
    };
    lemma_pow2_pos(1074);
    lemma2_to64();
    lemma_of_int_exact(b);
    let a = b * u;
    assert(0 <= a <= 0x100_0000_0000 * u) by (nonlinear_arith)
        requires
            a == b * u,
            1 <= b <= 15,
            u > 0,
    ;
    lemma_raised(a, c, 200);
    assert(at_most(combo, 100) == c);
    assert(a * (200 + c) == b * (200 + c) * u) by (nonlinear_arith)
        requires
            a == b * u,
    ;
}

/// The XP of a day is what its reviews earn at the streak of the day, fifty for
/// each quest that it completes, a hundred more for completing all of them, and
/// what the achievements bring that it unlocks. A day without study earns no
/// more than its achievements.
pub proof fn law_a_day_earns_points_quests_and_achievements(p: Past, m: ReplayModel, day: int)
    ensures
        ({
            let after = replay_day(p, m, day);
            let brought = unlock_xp(after.totals, m.unlocked, definitions().len());
            let done = completed(after.quests, p.days[day]);
            &&& after.history.len() == m.history.len() + 1
            &&& p.days.dom().contains(day) && done < after.quests.len() ==> after.history.last().xp == streak_xp(
                p.days[day].review_xp,
                after.streak as int,
            ) + 50 * done + brought
            &&& p.days.dom().contains(day) && done == after.quests.len() ==> after.history.last().xp == streak_xp(
                p.days[day].review_xp,
                after.streak as int,
            ) + 50 * done + 100 + brought
            &&& !p.days.dom().contains(day) ==> after.history.last().xp == brought
        }),
{
    reveal(replay_day);
    if p.days.dom().contains(day) {
        assert(saturated(rounded(product(p.days[day].review_xp, sum(of_int(1), quotient(of_int(at_most(
            replay_day(p, m, day).streak as int,
            30,
        )), of_int(100)))))) >= 0);
    }
}

/// What a day does to an achievement.
pub proof fn lemma_unlocked_step(p: Past, m: ReplayModel, day: int, i: int)
    requires
        0 <= i < m.unlocked.len(),
    ensures
        replay_day(p, m, day).unlocked.len() == m.unlocked.len(),
        replay_day(p, m, day).unlocked[i] == if unlocks(replay_day(p, m, day).totals, m.unlocked, i) {
            Some(day)
        } else {
            m.unlocked[i]
        },
{
    reveal(replay_day);
}

/// An achievement brings its reward on the day on which it is unlocked, and only
/// then: what a day brings is the sum of the rewards of what it unlocks.
pub proof fn law_achievements_bring_their_reward_once(p: Past, m: ReplayModel, day: int, i: int)
    requires
        0 <= i < definitions().len(),
        m.unlocked.len() == definitions().len(),
    ensures
        ({
            let after = replay_day(p, m, day);
            let d = definitions()[i];
            let brought = unlock_xp(after.totals, m.unlocked, definitions().len());
            &&& m.unlocked[i] is None && after.unlocked[i] is Some ==> after.unlocked[i] == Some(day) && brought
                >= reward_of(d.metric, d.threshold)
            &&& m.unlocked[i] is Some ==> after.unlocked[i] == m.unlocked[i]
            &&& after.unlocked == m.unlocked ==> brought == 0
        }),
{
    let after = replay_day(p, m, day);
    lemma_unlocked_step(p, m, day, i);
    if unlocks(after.totals, m.unlocked, i) {
        lemma_brought(after.totals, m.unlocked, definitions().len(), i);
    }
    if after.unlocked == m.unlocked {
        assert forall|k: int| 0 <= k < definitions().len() implies !unlocks(after.totals, m.unlocked, k) by {
            lemma_unlocked_step(p, m, day, k);
        }
        lemma_nothing_brought(after.totals, m.unlocked, definitions().len());
    }
}

proof fn lemma_brought(t: TotalsModel, unlocked: Seq<Option<int>>, n: nat, i: int)
    requires
        0 <= i < n,
        unlocks(t, unlocked, i),
    ensures
        unlock_xp(t, unlocked, n) >= reward_of(definitions()[i].metric, definitions()[i].threshold),
    decreases n,
{
    if i < n - 1 {
        lemma_brought(t, unlocked, (n - 1) as nat, i);
    }
}

proof fn lemma_nothing_brought(t: TotalsModel, unlocked: Seq<Option<int>>, n: nat)
    requires
        n <= definitions().len(),
        forall|k: int| 0 <= k < n ==> !unlocks(t, unlocked, k),
    ensures
        unlock_xp(t, unlocked, n) == 0,
    decreases n,
{
    if n > 0 {
        lemma_nothing_brought(t, unlocked, (n - 1) as nat);
    }
}

} // verus!
