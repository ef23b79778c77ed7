//! Encouragement: what is within reach right now.

use vstd::prelude::*;
use vstd::arithmetic::power2::{lemma_pow2_adds, lemma_pow2_pos, lemma_pow2_strictly_increases, lemma2_to64, lemma2_to64_rest, pow2};
use vstd::arithmetic::div_mod::lemma_fundamental_div_mod;
use crate::double::{ceiling, larger, nearest_magnitude, of_int, quotient, saturated, size, unit, Double};
use crate::double::{lemma_nearest_error, lemma_of_int_exact, lemma_of_int_range, lemma_quotient_error, lemma_quotient_range, lemma_quotient_sign};
use crate::game::Profile;
use crate::quests::{seed_for, seed_of};
use crate::text::{around, decimal, joined, number, signed_decimal, signed_number};

verus! {

/// How close something has to be before a nudge mentions it, in XP.
pub const WITHIN_REACH: u64 = 150;

/// The hours between which nudges are sent.
pub const NUDGE_FROM_HOUR: i64 = 9;

pub const NUDGE_UNTIL_HOUR: i64 = 22;

/// A nudge, as text.
#[verifier::ext_equal]
pub struct NudgeModel {
    pub key: Seq<char>,
    pub title: Seq<char>,
    pub body: Seq<char>,
}

/// One encouraging message, with the key that keeps it to once a day.
#[derive(Clone, Debug)]
pub struct Nudge {
    pub key: String,
    pub title: String,
    pub body: String,
}

impl View for Nudge {
    type V = NudgeModel;

    open spec fn view(&self) -> NudgeModel {
        NudgeModel { key: self.key@, title: self.title@, body: self.body@ }
    }
}

pub open spec fn nudge_views(nudges: Seq<Nudge>) -> Seq<NudgeModel> {
    nudges.map_values(|n: Nudge| n@)
}

/// The headings of nudges.
pub open spec fn cheer_text(i: int) -> Seq<char> {
    if i == 0 {
        "Keep going"@
    } else if i == 1 {
        "You're doing great"@
    } else if i == 2 {
        "Almost there"@
    } else if i == 3 {
        "Nearly there"@
    } else {
        "One more push"@
    }
}

/// A day taken modulo 2^64.
pub open spec fn wrapped_day(day: int) -> u64 {
    crate::quests::day_bits(day)
}

/// The heading of a player's nudge of a day, one of five.
pub open spec fn cheer_for(user: Seq<char>, day: int, offset: u64) -> Seq<char> {
    cheer_text((seed_for(user).wrapping_add(wrapped_day(day)).wrapping_add(offset) % 5) as int)
}

/// The word for one, or the word for any other number.
pub open spec fn plural_of(count: nat, one: Seq<char>, many: Seq<char>) -> Seq<char> {
    if count == 1 {
        one
    } else {
        many
    }
}

/// The word for one, or the word for any other number.
pub fn plural(count: u64, one: &'static str, many: &'static str) -> (res: &'static str)
    ensures
        res@ == plural_of(count as nat, one@, many@),
{
    if count == 1 {
        one
    } else {
        many
    }
}

/// The XP that a review has brought today, not below one.
pub open spec fn pace(xp: nat, reviews: nat) -> int {
    larger(quotient(of_int(xp as int), of_int(reviews as int)), of_int(1))
}

/// How many reviews so much XP takes at a pace.
pub open spec fn reviews_for(xp: nat, pace: int) -> nat {
    saturated(ceiling(quotient(of_int(xp as int), pace))) as nat
}

/// By how much one number lies behind another, not below zero.
pub open spec fn short_of(target: nat, have: nat) -> nat {
    if target > have {
        (target - have) as nat
    } else {
        0
    }
}

/// Whether so much XP is worth mentioning.
pub open spec fn in_reach(gap: nat) -> bool {
    1 <= gap <= WITHIN_REACH
}

/// About how many reviews something takes.
pub open spec fn about(gap: nat, p: Profile) -> Seq<char> {
    let n = reviews_for(gap, pace(p.today.xp as nat, p.today.reviews as nat));
    ", about "@ + decimal(n) + " more "@ + plural_of(n, "review"@, "reviews"@) + "."@
}

/// Whether nudges may be sent: during the day, once something has been
/// studied.
pub open spec fn nudging(p: Profile) -> bool {
    p.today.reviews > 0 && NUDGE_FROM_HOUR <= p.local_hour < NUDGE_UNTIL_HOUR
}

/// The nudge towards the next place on the board.
pub open spec fn place_nudge(p: Profile, who: Seq<char>, their_xp: nat) -> Seq<NudgeModel> {
    let gap = short_of(their_xp, p.week_xp as nat);
    if in_reach(gap) {
        seq![
            NudgeModel {
                key: "nudge:place:"@ + signed_decimal(p.day as int),
                title: cheer_for(p.user@, p.day as int, 0),
                body: decimal(gap) + " XP behind "@ + who + " this week"@ + about(gap, p),
            },
        ]
    } else {
        Seq::empty()
    }
}

/// The nudge towards the best day ever.
pub open spec fn record_nudge(p: Profile) -> Seq<NudgeModel> {
    let best = p.records.day.xp as nat;
    let gap = short_of(best, p.today.xp as nat);
    if in_reach(gap) {
        seq![
            NudgeModel {
                key: "nudge:record:"@ + signed_decimal(p.day as int),
                title: cheer_for(p.user@, p.day as int, 1),
                body: decimal(gap) + " XP from your best day ever ("@ + decimal(best) + " XP)"@ + about(gap, p),
            },
        ]
    } else {
        Seq::empty()
    }
}

/// The nudge towards the next level.
pub open spec fn level_nudge(p: Profile) -> Seq<NudgeModel> {
    let gap = short_of(p.xp_for_next as nat, p.xp_into_level as nat);
    if in_reach(gap) {
        seq![
            NudgeModel {
                key: "nudge:level:"@ + signed_decimal(p.day as int),
                title: cheer_for(p.user@, p.day as int, 2),
                body: "Level "@ + decimal((p.level + 1) as nat) + " is "@ + decimal(gap) + " XP away"@ + about(gap, p),
            },
        ]
    } else {
        Seq::empty()
    }
}

/// The nudges of a player, of whom `ahead` is next on the board.
pub open spec fn nudges_for(p: Profile, ahead: Option<(Seq<char>, nat)>) -> Seq<NudgeModel> {
    if !nudging(p) {
        Seq::empty()
    } else {
        (match ahead {
            Some((who, xp)) => place_nudge(p, who, xp),
            None => Seq::empty(),
        }) + record_nudge(p) + level_nudge(p)
    }
}

fn cheer(profile: &Profile, offset: u64) -> (res: String)
    ensures
        res@ == cheer_for(profile.user@, profile.day as int, offset),
{
    let day: u64 = if profile.day >= 0 {
        profile.day as u64
    } else {
        (profile.day as i128 + 0x1_0000_0000_0000_0000) as u64
    };
    let i: u64 = seed_of(profile.user.as_str()).wrapping_add(day).wrapping_add(offset) % 5;
    let text = match i {
        0 => "Keep going",
        1 => "You're doing great",
        2 => "Almost there",
        3 => "Nearly there",
        _ => "One more push",
    };
    text.to_owned()
}

/// The pace of a day on which something was studied.
fn pace_of(xp: u64, reviews: u64) -> (res: Double)
    requires
        reviews > 0,
    ensures
        res.wf(),
        res@ == pace(xp as nat, reviews as nat),
        pow2(1074) <= res@ <= pow2(1138),
{
    let a = Double::from_u64(xp);
    let b = Double::from_u64(reviews);
    proof {
        lemma2_to64();
        lemma2_to64_rest();
        lemma_of_int_range(xp as int, 64);
        lemma_of_int_range(reviews as int, 64);
        lemma_of_int_range(1, 0);
        lemma_pow2_strictly_increases(900, 1074);
        lemma_pow2_strictly_increases(1138, 1300);
        lemma_pow2_strictly_increases(1074, 1138);
        lemma_pow2_pos(1074);
        if xp > 0 {
            lemma_quotient_range(a@, b@, 1074, 1138, 1074, 1138);
        } else {
            lemma_quotient_sign(a@, b@);
        }
    }
    a.over(b).max(Double::from_u64(1))
}

fn count_reviews(gap: u64, pace: Double) -> (res: u64)
    requires
        1 <= gap <= WITHIN_REACH,
        pace.wf(),
        pow2(1074) <= pace@ <= pow2(1138),
    ensures
        res == reviews_for(gap as nat, pace@),
{
    let a = Double::from_u64(gap);
    proof {
        lemma2_to64();
        lemma_of_int_range(gap as int, 8);
        lemma_pow2_strictly_increases(900, 1074);
        lemma_pow2_strictly_increases(1082, 1130);
        lemma_pow2_strictly_increases(1082, 1300);
        lemma_pow2_strictly_increases(1138, 1300);
        lemma_quotient_range(a@, pace@, 1074, 1082, 1074, 1138);
        lemma_pow2_pos(1010);
    }
    a.over(pace).ceil()
}

fn about_text(gap: u64, profile: &Profile) -> (res: String)
    requires
        1 <= gap <= WITHIN_REACH,
        profile.today.reviews > 0,
    ensures
        res@ == about(gap as nat, *profile),
{
    let n: u64 = count_reviews(gap, pace_of(profile.today.xp, profile.today.reviews));
    let mut s = around(", about ", n, " more ");
    s.append(plural(n, "review", "reviews"));
    s.append(".");
    s
}

fn shortfall(target: u64, have: u64) -> (res: u64)
    ensures
        res == short_of(target as nat, have as nat),
{
    if target > have {
        target - have
    } else {
        0
    }
}

fn add_nudge(nudges: &mut Vec<Nudge>, nudge: Nudge)
    ensures
        nudge_views(final(nudges)@) == nudge_views(old(nudges)@) + seq![nudge@],
{
    let ghost before = nudges@;
    let ghost shown = nudge@;
    nudges.push(nudge);
    assert(nudge_views(nudges@) =~= nudge_views(before) + seq![shown]);
}

/// What is within reach right now: a place on the board, a personal best, a level.
/// Silent outside waking hours and on days without a single review, so nothing
/// here ever tells someone to start studying.
pub fn nudges(profile: &Profile, ahead: Option<(&str, u64)>) -> (res: Vec<Nudge>)
    requires
        profile.level < u64::MAX,
    ensures
        nudge_views(res@) == nudges_for(
            *profile,
            match ahead {
                Some((who, xp)) => Some((who@, xp as nat)),
                None => None,
            },
        ),
{
    let mut nudges: Vec<Nudge> = Vec::new();
    let ghost none = Seq::<NudgeModel>::empty();
    assert(nudge_views(nudges@) =~= none);
    if profile.today.reviews == 0 || profile.local_hour < NUDGE_FROM_HOUR || profile.local_hour >= NUDGE_UNTIL_HOUR {
        return nudges;
    }
    if let Some((who, their_xp)) = ahead {
        let gap: u64 = shortfall(their_xp, profile.week_xp);
        if 1 <= gap && gap <= WITHIN_REACH {
            let mut body = number(gap);
            body.append(" XP behind ");
            body.append(who);
            body.append(" this week");
            body.append(about_text(gap, profile).as_str());
            let key = joined("nudge:place:", signed_number(profile.day).as_str());
            add_nudge(&mut nudges, Nudge { key, title: cheer(profile, 0), body });
        }
        assert(nudge_views(nudges@) =~= place_nudge(*profile, who@, their_xp as nat));
    }
    let ghost placed = nudge_views(nudges@);
    let best: u64 = profile.records.day.xp;
    let gap: u64 = shortfall(best, profile.today.xp);
    if 1 <= gap && gap <= WITHIN_REACH {
        let mut body = around("", gap, " XP from your best day ever (");
        body.append(number(best).as_str());
        body.append(" XP)");
        body.append(about_text(gap, profile).as_str());
        proof {
            reveal_strlit("");
            assert(""@ + decimal(gap as nat) =~= decimal(gap as nat));
        }
        let key = joined("nudge:record:", signed_number(profile.day).as_str());
        add_nudge(&mut nudges, Nudge { key, title: cheer(profile, 1), body });
    }
    assert(nudge_views(nudges@) =~= placed + record_nudge(*profile));
    let ghost recorded = nudge_views(nudges@);
    let to_level: u64 = shortfall(profile.xp_for_next, profile.xp_into_level);
    if 1 <= to_level && to_level <= WITHIN_REACH {
        let mut body = around("Level ", profile.level + 1, " is ");
        body.append(number(to_level).as_str());
        body.append(" XP away");
        body.append(about_text(to_level, profile).as_str());
        let key = joined("nudge:level:", signed_number(profile.day).as_str());
        add_nudge(&mut nudges, Nudge { key, title: cheer(profile, 2), body });
    }
    assert(nudge_views(nudges@) =~= recorded + level_nudge(*profile));
    nudges
}

/// Nothing is said on a day without a review, nor at night.
pub proof fn law_nudges_never_ask_to_start(p: Profile, ahead: Option<(Seq<char>, nat)>)
    requires
        p.today.reviews == 0 || p.local_hour < NUDGE_FROM_HOUR || p.local_hour >= NUDGE_UNTIL_HOUR,
    ensures
        nudges_for(p, ahead).len() == 0,
{
}

/// Whether a text names a gap in XP and, at its end, in reviews.
pub open spec fn tells_gap(body: Seq<char>, gap: nat, p: Profile) -> bool {
    exists|before: Seq<char>, between: Seq<char>|
        body == #[trigger] (before + decimal(gap) + " XP"@ + between + about(gap, p))
}

/// Whether something is so far away as a player is told.
pub open spec fn is_gap(p: Profile, ahead: Option<(Seq<char>, nat)>, gap: nat) -> bool {
    ||| ahead matches Some((_, xp)) && gap == short_of(xp, p.week_xp as nat)
    ||| gap == short_of(p.records.day.xp as nat, p.today.xp as nat)
    ||| gap == short_of(p.xp_for_next as nat, p.xp_into_level as nat)
}

/// Every nudge, be it towards a place, the best day or a level, tells how far
/// away that is in XP as well as in reviews, and it is never further away than
/// is worth mentioning.
pub proof fn law_nudges_tell_xp_and_reviews(p: Profile, ahead: Option<(Seq<char>, nat)>, i: int) -> (gap: nat)
    requires
        0 <= i < nudges_for(p, ahead).len(),
    ensures
        in_reach(gap),
        is_gap(p, ahead, gap),
        tells_gap(nudges_for(p, ahead)[i].body, gap, p),
{
    reveal_strlit(" XP");
    reveal_strlit(" XP behind ");
    reveal_strlit(" behind ");
    reveal_strlit(" XP from your best day ever (");
    reveal_strlit(" from your best day ever (");
    reveal_strlit(" XP away");
    reveal_strlit(" away");
    let body = nudges_for(p, ahead)[i].body;
    let first = match ahead {
        Some((who, xp)) => place_nudge(p, who, xp),
        None => Seq::empty(),
    };
    let second = record_nudge(p);
    let none = Seq::<char>::empty();
    if i < first.len() {
        let (who, xp) = ahead->0;
        let gap = short_of(xp, p.week_xp as nat);
        let between = " behind "@ + who + " this week"@;
        assert(body == first[i].body);
        assert(body =~= none + decimal(gap) + " XP"@ + between + about(gap, p));
        gap
    } else if i < first.len() + second.len() {
        let best = p.records.day.xp as nat;
        let gap = short_of(best, p.today.xp as nat);
        let between = " from your best day ever ("@ + decimal(best) + " XP)"@;
        assert(body == second[i - first.len()].body);
        assert(body =~= none + decimal(gap) + " XP"@ + between + about(gap, p));
        gap
    } else {
        let gap = short_of(p.xp_for_next as nat, p.xp_into_level as nat);
        let before = "Level "@ + decimal((p.level + 1) as nat) + " is "@;
        assert(body == level_nudge(p)[i - first.len() - second.len()].body);
        assert(body =~= before + decimal(gap) + " XP"@ + " away"@ + about(gap, p));
        gap
    }
}

/// Between nine in the morning and ten in the evening of a day with a review, the
/// one who is ahead is mentioned exactly where they lead by 150 XP at most: the
/// nudge comes first, and it names them and what is missing.
pub proof fn law_the_one_ahead_is_mentioned(p: Profile, who: Seq<char>, xp: nat)
    requires
        p.today.reviews > 0,
        9 <= p.local_hour < 22,
    ensures
        p.week_xp < xp <= p.week_xp + 150 ==> {
            &&& nudges_for(p, Some((who, xp))).len() == nudges_for(p, None).len() + 1
            &&& nudges_for(p, Some((who, xp))).skip(1) == nudges_for(p, None)
            &&& nudges_for(p, Some((who, xp)))[0].key == "nudge:place:"@ + signed_decimal(p.day as int)
            &&& (decimal((xp - p.week_xp) as nat) + " XP behind "@ + who + " this week"@).is_prefix_of(
                nudges_for(p, Some((who, xp)))[0].body,
            )
        },
        !(p.week_xp < xp <= p.week_xp + 150) ==> nudges_for(p, Some((who, xp))) == nudges_for(p, None),
{
    let with = nudges_for(p, Some((who, xp)));
    let first = place_nudge(p, who, xp);
    let none = Seq::<NudgeModel>::empty();
    assert(none + record_nudge(p) =~= record_nudge(p));
    if p.week_xp < xp <= p.week_xp + 150 {
        assert(first.len() == 1);
        assert(with.skip(1) =~= nudges_for(p, None));
        let gap = (xp - p.week_xp) as nat;
        let said = decimal(gap) + " XP behind "@ + who + " this week"@;
        assert(with[0].body == said + about(gap, p));
        assert(said.is_prefix_of(said + about(gap, p)));
    } else {
        assert(first =~= none);
    }
}

/// Without anyone ahead the best day is mentioned where 150 XP at most are missing
/// from it, and the next level where 150 XP at most are missing from that, in this
/// order and nothing else.
pub proof fn law_records_and_levels_are_mentioned(p: Profile)
    requires
        p.today.reviews > 0,
        9 <= p.local_hour < 22,
    ensures
        ({
            let all = nudges_for(p, None);
            let record = p.today.xp < p.records.day.xp <= p.today.xp + 150;
            let level = p.xp_into_level < p.xp_for_next <= p.xp_into_level + 150;
            &&& all.len() == (if record { 1int } else { 0 }) + (if level { 1int } else { 0 })
            &&& record ==> all[0].key == "nudge:record:"@ + signed_decimal(p.day as int) && (decimal(
                (p.records.day.xp - p.today.xp) as nat,
            ) + " XP from your best day ever ("@ + decimal(p.records.day.xp as nat) + " XP)"@).is_prefix_of(all[0].body)
            &&& level ==> all.last().key == "nudge:level:"@ + signed_decimal(p.day as int) && ("Level "@ + decimal(
                (p.level + 1) as nat,
            ) + " is "@ + decimal((p.xp_for_next - p.xp_into_level) as nat) + " XP away"@).is_prefix_of(
                all.last().body,
            )
        }),
{
    let all = nudges_for(p, None);
    let none = Seq::<NudgeModel>::empty();
    assert(none + record_nudge(p) =~= record_nudge(p));
    assert(all =~= record_nudge(p) + level_nudge(p));
    let best = p.records.day.xp as nat;
    if p.today.xp < best <= p.today.xp + 150 {
        let gap = (best - p.today.xp) as nat;
        let said = decimal(gap) + " XP from your best day ever ("@ + decimal(best) + " XP)"@;
        assert(all[0].body == said + about(gap, p));
        assert(said.is_prefix_of(said + about(gap, p)));
    }
    if p.xp_into_level < p.xp_for_next <= p.xp_into_level + 150 {
        let gap = (p.xp_for_next - p.xp_into_level) as nat;
        let said = "Level "@ + decimal((p.level + 1) as nat) + " is "@ + decimal(gap) + " XP away"@;
        assert(all.last() == level_nudge(p)[0]);
        assert(all.last().body == said + about(gap, p));
        assert(said.is_prefix_of(said + about(gap, p)));
    }
}

/// The pace of a day is its XP for each of its reviews, to the accuracy of the
/// arithmetic, and one at least.
pub proof fn law_the_pace_is_the_xp_of_a_review(xp: nat, reviews: nat)
    requires
        1 <= reviews <= 0x1_0000_0000,
        xp <= 0x1_0000_0000_0000,
    ensures
        pace(xp, reviews) >= pow2(1074),
        pace(xp, reviews) > pow2(1074) ==> reviews * pace(xp, reviews) <= xp * pow2(1074) + pow2(1074),
        reviews * pace(xp, reviews) >= xp * pow2(1074) - pow2(1074),
{
    let u = unit();
    lemma_of_int_exact(xp as int);
    lemma_of_int_exact(1);
    lemma_pow2_pos(1074);
    let a = xp * u;
    assert(0 <= a <= 0x1_0000_0000_0000 * u) by (nonlinear_arith)
        requires
            a == xp * u,
            0 <= xp <= 0x1_0000_0000_0000,
            u > 0,
    ;
    lemma2_to64();
    lemma2_to64_rest();
    lemma_pow2_adds(64, 1010);
    lemma_pow2_pos(1010);
    assert(u >= 0x1_0000_0000_0000_0000) by (nonlinear_arith)
        requires
            u == 0x1_0000_0000_0000_0000 * pow2(1010),
            pow2(1010) >= 1,
    ;
    lemma_quotient_error(a, reviews as int);
    let q = quotient(a, of_int(reviews as int));
    assert(reviews * pace(xp, reviews) >= reviews * q) by (nonlinear_arith)
        requires
            pace(xp, reviews) >= q,
            reviews >= 1,
    ;
}

/// The reviews that are named are as many as it takes at a pace, and one fewer would
/// not do, to the accuracy of the arithmetic.
pub proof fn law_as_many_reviews_as_it_takes(gap: nat, pace: int)
    requires
        1 <= gap <= 150,
        pow2(1074) <= pace <= 0x100_0000_0000 * pow2(1074),
    ensures
        ({
            let n = reviews_for(gap, pace);
            &&& 1_000 * (n * pace) >= 999 * (gap * pow2(1074))
            &&& 1_000 * ((n - 1) * pace) <= 1_001 * (gap * pow2(1074))
        }),
{
    let u = unit();
    let big: int = 0x10_0000_0000_0000;
    lemma2_to64();
    lemma2_to64_rest();
    lemma_pow2_adds(64, 1010);
    lemma_pow2_pos(1010);
    assert(u >= 0x1_0000_0000_0000_0000) by (nonlinear_arith)
        requires
            u == 0x1_0000_0000_0000_0000 * pow2(1010),
            pow2(1010) >= 1,
    ;
    lemma_of_int_exact(gap as int);
    let a = gap * u;
    let num = a * u;
    assert(u <= a <= 150 * u) by (nonlinear_arith)
        requires
            a == gap * u,
            1 <= gap <= 150,
            u > 0,
    ;
    assert(num >= 0) by (nonlinear_arith)
        requires
            num == a * u,
            a >= 0,
            u > 0,
    ;
    lemma_nearest_error(num as nat, pace as nat);
    let q = quotient(a, pace);
    assert(q == nearest_magnitude(num as nat, pace as nat));
    let e = q * pace - num;
    assert(2 * big * size(e) <= big * pace + num);
    let c = ceiling(q);
    lemma_fundamental_div_mod(-q, u);
    let f = (-q) / u;
    let r = (-q) % u;
    assert(c == -f);
    assert(q <= c * u) by (nonlinear_arith)
        requires
            -q == u * f + r,
            r >= 0,
            c == -f,
    ;
    assert((c - 1) * u <= q) by (nonlinear_arith)
        requires
            -q == u * f + r,
            r < u,
            c == -f,
    ;
    assert(0x100_0000_0000 * u <= 0x100_0000_0000 * a);
    assert(1_000 * (big * pace) <= 2 * big * num - 2_000 * num) by (nonlinear_arith)
        requires
            pace <= 0x100_0000_0000 * a,
            num == a * u,
            a > 0,
            u >= 0x1_0000_0000_0000_0000,
            big == 0x10_0000_0000_0000,
    ;
    assert(2 * big * (1_000 * size(e)) <= 2 * big * num);
    assert(1_000 * size(e) <= num);
    assert(c >= 0) by (nonlinear_arith)
        requires
            q <= c * u,
            q >= 0,
            u > 0,
    ;
    assert(q <= 151 * u) by (nonlinear_arith)
        requires
            1_000 * (q * pace - num) <= num,
            num == a * u,
            a <= 150 * u,
            pace >= u,
            u > 0,
            q >= 0,
    ;
    assert(c <= 152) by (nonlinear_arith)
        requires
            (c - 1) * u <= q,
            q <= 151 * u,
            u > 0,
    ;
    assert(saturated(c) == c);
    assert(1_000 * (c * pace) >= 999 * a) by (nonlinear_arith)
        requires
            q <= c * u,
            1_000 * (num - q * pace) <= num,
            num == a * u,
            pace > 0,
            u > 0,
    ;
    assert(1_000 * ((c - 1) * pace) <= 1_001 * a) by (nonlinear_arith)
        requires
            (c - 1) * u <= q,
            1_000 * (q * pace - num) <= num,
            num == a * u,
            pace > 0,
            u > 0,
    ;
}

} // verus!
