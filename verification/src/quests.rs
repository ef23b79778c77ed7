//! What a day of study amounts to, and the quests that are set for a day.

use vstd::prelude::*;
use std::collections::VecDeque;
use vstd::arithmetic::power2::{lemma_pow2_adds, lemma_pow2_pos, lemma_pow2_strictly_increases, lemma2_to64, lemma2_to64_rest, pow2};
use crate::double::{coarse, larger, of_int, product, quotient, rounded, saturated, size, sum, unit, Double};
use crate::double::{lemma_coarse_quotient, lemma_coarse_sizes, lemma_coarse_sum, lemma_of_int_exact, lemma_of_int_range, lemma_product_range, lemma_quotient_error, lemma_quotient_range, lemma_quotient_sign, lemma_rounded_error, lemma_rounded_range, lemma_sum_exact, lemma_sum_grows, lemma_tenths};
use crate::text::{around, decimal};

verus! {

/// How many reviews a history may hold: more than any memory does.
pub const REVIEW_LIMIT: u64 = 0x1_0000_0000_0000;

/// How many days of study the quests of a day look back on.
pub const RECENT_DAYS: usize = 14;

/// One answered card.
#[derive(Clone, Copy, Debug, PartialEq, Eq, Structural)]
pub struct Review {
    /// When the card was answered, in milliseconds since the epoch.
    pub id: i64,
    /// The card.
    pub cid: i64,
    /// The interval, in days, after which the card came up.
    pub last_ivl: i64,
    /// How long the answer took.
    pub time_ms: i64,
    /// Whether the card was being learned (0), reviewed (1), relearned (2) or
    /// looked at out of turn.
    pub kind: u8,
}

impl View for Review {
    type V = Review;

    open spec fn view(&self) -> Review {
        *self
    }
}

/// What a day of study amounts to, in unbounded numbers.
pub struct DayModel {
    pub reviews: nat,
    pub new_cards: nat,
    pub mature: nat,
    pub time_ms: int,
    pub max_combo: nat,
    pub sessions: nat,
    pub before_noon: nat,
    pub early: bool,
    pub late: bool,
    pub review_xp: int,
    pub relearns: nat,
    pub max_ivl: int,
    pub first_seen: nat,
    pub longest_session_ms: int,
    pub quests_completed_at: Option<int>,
}

/// What a day of study amounts to.
#[derive(Clone, Copy)]
pub struct DayStats {
    pub reviews: u64,
    pub new_cards: u64,
    pub mature: u64,
    pub time_ms: i64,
    pub max_combo: u64,
    pub sessions: u64,
    pub before_noon: u64,
    pub early: bool,
    pub late: bool,
    pub review_xp: Double,
    pub relearns: u64,
    pub max_ivl: i64,
    pub first_seen: u64,
    pub longest_session_ms: i64,
    pub quests_completed_at: Option<i64>,
}

impl View for DayStats {
    type V = DayModel;

    open spec fn view(&self) -> DayModel {
        DayModel {
            reviews: self.reviews as nat,
            new_cards: self.new_cards as nat,
            mature: self.mature as nat,
            time_ms: self.time_ms as int,
            max_combo: self.max_combo as nat,
            sessions: self.sessions as nat,
            before_noon: self.before_noon as nat,
            early: self.early,
            late: self.late,
            review_xp: self.review_xp@,
            relearns: self.relearns as nat,
            max_ivl: self.max_ivl as int,
            first_seen: self.first_seen as nat,
            longest_session_ms: self.longest_session_ms as int,
            quests_completed_at: match self.quests_completed_at {
                Some(at) => Some(at as int),
                None => None,
            },
        }
    }
}

/// A day without study.
pub open spec fn no_study() -> DayModel {
    DayModel {
        reviews: 0,
        new_cards: 0,
        mature: 0,
        time_ms: 0,
        max_combo: 0,
        sessions: 0,
        before_noon: 0,
        early: false,
        late: false,
        review_xp: 0,
        relearns: 0,
        max_ivl: 0,
        first_seen: 0,
        longest_session_ms: 0,
        quests_completed_at: None,
    }
}

impl DayStats {
    /// Every count of a day is bounded by its number of reviews, and its
    /// review XP by 32 for each.
    pub open spec fn wf(self) -> bool {
        &&& self.reviews <= REVIEW_LIMIT
        &&& self.new_cards <= self.reviews
        &&& self.mature <= self.reviews
        &&& self.max_combo <= REVIEW_LIMIT
        &&& self.sessions <= self.reviews
        &&& self.before_noon <= self.reviews
        &&& self.relearns <= self.reviews
        &&& self.first_seen <= self.reviews
        &&& self.review_xp.wf()
        &&& 0 <= self.review_xp@ <= self.reviews * pow2(1079)
        &&& self.reviews > 0 ==> self.review_xp@ >= pow2(1074)
    }
}

impl Default for DayStats {
    fn default() -> (res: Self)
        ensures
            res@ == no_study(),
            res.wf(),
    {
        assert(0 * pow2(1079) == 0) by (nonlinear_arith);
        DayStats {
            reviews: 0,
            new_cards: 0,
            mature: 0,
            time_ms: 0,
            max_combo: 0,
            sessions: 0,
            before_noon: 0,
            early: false,
            late: false,
            review_xp: Double::zero(),
            relearns: 0,
            max_ivl: 0,
            first_seen: 0,
            longest_session_ms: 0,
            quests_completed_at: None,
        }
    }
}

/// What a quest counts.
#[derive(Clone, Copy, Debug, PartialEq, Eq, Structural)]
pub enum QuestKind {
    Reviews,
    Minutes,
    Combo,
    Mature,
    NewCards,
    Sessions,
    BeforeNoon,
}

/// A quest, with an unbounded target.
pub struct QuestModel {
    pub kind: QuestKind,
    pub target: nat,
}

/// A quest: something to count, and how far to get.
#[derive(Clone, Copy, Debug, PartialEq, Eq, Structural)]
pub struct Quest {
    pub kind: QuestKind,
    pub target: u64,
}

impl View for Quest {
    type V = QuestModel;

    open spec fn view(&self) -> QuestModel {
        QuestModel { kind: self.kind, target: self.target as nat }
    }
}

/// The whole units in a number of milliseconds, rounded towards zero; a
/// negative number of units is taken modulo 2^64.
pub open spec fn units_in(ms: int, unit: int) -> int {
    if ms >= 0 {
        ms / unit
    } else if (-ms) / unit == 0 {
        0
    } else {
        0x1_0000_0000_0000_0000 - (-ms) / unit
    }
}

/// The whole units in a number of milliseconds.
pub fn whole_units(ms: i64, unit: u64) -> (res: u64)
    requires
        1 < unit <= 0x7fff_ffff_ffff_ffff,
    ensures
        res == units_in(ms as int, unit as int),
{
    if ms >= 0 {
        ms as u64 / unit
    } else {
        let m: u64 = (-(ms as i128)) as u64;
        let k: u64 = m / unit;
        assert(k <= m) by (nonlinear_arith)
            requires
                k == m / unit,
                unit > 1,
        ;
        if k == 0 {
            0
        } else {
            (0x1_0000_0000_0000_0000u128 - k as u128) as u64
        }
    }
}

/// How far a day of study got with what a quest counts.
pub open spec fn progress_of(kind: QuestKind, s: DayModel) -> int {
    match kind {
        QuestKind::Reviews => s.reviews as int,
        QuestKind::Minutes => units_in(s.time_ms, 60_000),
        QuestKind::Combo => s.max_combo as int,
        QuestKind::Mature => s.mature as int,
        QuestKind::NewCards => s.new_cards as int,
        QuestKind::Sessions => s.sessions as int,
        QuestKind::BeforeNoon => s.before_noon as int,
    }
}

/// Whether a day of study completed a quest.
pub open spec fn completes(q: QuestModel, s: DayModel) -> bool {
    progress_of(q.kind, s) >= q.target
}

/// The wording of a quest.
pub open spec fn quest_title(q: QuestModel) -> Seq<char> {
    let n = decimal(q.target);
    match q.kind {
        QuestKind::Reviews => "Review "@ + n + " cards"@,
        QuestKind::Minutes => "Study for "@ + n + " minutes"@,
        QuestKind::Combo => "Reach a "@ + n + " card combo"@,
        QuestKind::Mature => "Review "@ + n + " mature cards"@,
        QuestKind::NewCards => "Learn "@ + n + " new cards"@,
        QuestKind::Sessions => "Study in "@ + n + " separate sessions"@,
        QuestKind::BeforeNoon => "Review "@ + n + " cards before noon"@,
    }
}

impl Quest {
    /// How far a day of study got with the quest.
    pub fn progress(&self, s: &DayStats) -> (res: u64)
        ensures
            res == progress_of(self.kind, s@),
    {
        match self.kind {
            QuestKind::Reviews => s.reviews,
            QuestKind::Minutes => whole_units(s.time_ms, 60_000),
            QuestKind::Combo => s.max_combo,
            QuestKind::Mature => s.mature,
            QuestKind::NewCards => s.new_cards,
            QuestKind::Sessions => s.sessions,
            QuestKind::BeforeNoon => s.before_noon,
        }
    }

    /// The wording of the quest.
    pub fn title(&self) -> (res: String)
        ensures
            res@ == quest_title(self@),
    {
        let n: u64 = self.target;
        match self.kind {
            QuestKind::Reviews => around("Review ", n, " cards"),
            QuestKind::Minutes => around("Study for ", n, " minutes"),
            QuestKind::Combo => around("Reach a ", n, " card combo"),
            QuestKind::Mature => around("Review ", n, " mature cards"),
            QuestKind::NewCards => around("Learn ", n, " new cards"),
            QuestKind::Sessions => around("Study in ", n, " separate sessions"),
            QuestKind::BeforeNoon => around("Review ", n, " cards before noon"),
        }
    }
}

/// One step of a mixing function over 64 bits.
pub open spec fn mixed(x: u64) -> u64 {
    let a = x.wrapping_add(0x9e37_79b9_7f4a_7c15);
    let b = (a ^ (a >> 30)).wrapping_mul(0xbf58_476d_1ce4_e5b9);
    let c = (b ^ (b >> 27)).wrapping_mul(0x94d0_49bb_1331_11eb);
    c ^ (c >> 31)
}

/// One step of a mixing function over 64 bits.
pub fn mix(x: u64) -> (res: u64)
    ensures
        res == mixed(x),
{
    let a: u64 = x.wrapping_add(0x9e37_79b9_7f4a_7c15);
    let b: u64 = (a ^ (a >> 30)).wrapping_mul(0xbf58_476d_1ce4_e5b9);
    let c: u64 = (b ^ (b >> 27)).wrapping_mul(0x94d0_49bb_1331_11eb);
    c ^ (c >> 31)
}

/// The FNV-1a hash of some bytes.
pub open spec fn hash_of(bytes: Seq<u8>) -> u64
    decreases bytes.len(),
{
    if bytes.len() == 0 {
        0xcbf2_9ce4_8422_2325
    } else {
        (hash_of(bytes.drop_last()) ^ (bytes.last() as u64)).wrapping_mul(0x0100_0000_01b3)
    }
}

/// The seed of a player: the hash of the name.
pub open spec fn seed_for(user: Seq<char>) -> u64 {
    hash_of(vstd::utf8::encode_utf8(user))
}

/// The seed of a player.
pub fn seed_of(user: &str) -> (res: u64)
    ensures
        res == seed_for(user@),
{
    let bytes = user.as_bytes();
    let mut h: u64 = 0xcbf2_9ce4_8422_2325;
    let mut i: usize = 0;
    while i < bytes.len()
        invariant
            i <= bytes@.len(),
            h == hash_of(bytes@.take(i as int)),
        decreases bytes@.len() - i,
    {
        h = (h ^ (bytes[i] as u64)).wrapping_mul(0x0100_0000_01b3);
        i = i + 1;
        assert(bytes@.take(i as int).drop_last() =~= bytes@.take(i - 1));
    }
    assert(bytes@.take(i as int) =~= bytes@);
    h
}

/// A day taken modulo 2^64.
pub open spec fn day_bits(day: int) -> u64 {
    if day >= 0 {
        day as u64
    } else {
        (day + 0x1_0000_0000_0000_0000) as u64
    }
}

/// Numbers added up one after the other.
pub open spec fn total(values: Seq<int>) -> int
    decreases values.len(),
{
    if values.len() == 0 {
        0
    } else {
        sum(total(values.drop_last()), values.last())
    }
}

/// The mean of some numbers, of none 0.
pub open spec fn mean(values: Seq<int>) -> int {
    quotient(
        total(values),
        of_int(
            if values.len() == 0 {
                1
            } else {
                values.len() as int
            },
        ),
    )
}

/// The fraction `n / d`.
pub open spec fn ratio(n: int, d: int) -> int {
    quotient(of_int(n), of_int(d))
}

/// A number rounded to a multiple of `step`.
pub open spec fn rounded_to(x: int, step: int) -> int {
    saturated(rounded(quotient(x, of_int(step)))) * step
}

/// The numbers that are held.
pub open spec fn values_of(values: Seq<Double>) -> Seq<int> {
    values.map_values(|d: Double| d@)
}

/// The days in unbounded numbers.
pub open spec fn day_views(days: Seq<DayStats>) -> Seq<DayModel> {
    days.map_values(|s: DayStats| s@)
}

/// The quests with unbounded targets.
pub open spec fn quest_views(quests: Seq<Quest>) -> Seq<QuestModel> {
    quests.map_values(|q: Quest| q@)
}

/// A value that can be averaged: not above 2^50, and a multiple of 2^-70.
spec fn averageable(d: Double) -> bool {
    d.wf() && size(d@) <= pow2(1124) && coarse(d@)
}

proof fn lemma_small_powers()
    ensures
        pow2(0) == 1,
        pow2(1) == 2,
        pow2(2) == 4,
        pow2(3) == 8,
        pow2(4) == 16,
        pow2(5) == 32,
        pow2(10) == 1024,
        pow2(16) == 65536,
        pow2(48) == REVIEW_LIMIT,
        pow2(63) == 0x8000_0000_0000_0000,
        pow2(50) == 0x4_0000_0000_0000,
        pow2(56) == 0x100_0000_0000_0000,
{
    lemma2_to64();
    lemma2_to64_rest();
}

fn average(values: &Vec<Double>) -> (res: Double)
    requires
        values@.len() <= RECENT_DAYS,
        forall|i: int| 0 <= i < values@.len() ==> averageable(#[trigger] values@[i]),
    ensures
        res.wf(),
        res@ == mean(values_of(values@)),
        res@ <= pow2(1128),
        res@ > 0 ==> res@ >= pow2(1000),
{
    let mut t = Double::zero();
    let mut i: usize = 0;
    assert(values_of(values@.take(0)) =~= Seq::<int>::empty());
    proof {
        lemma_coarse_sizes(0);
        assert(0 * pow2(1124) == 0) by (nonlinear_arith);
        lemma_pow2_adds(4, 1124);
        lemma_small_powers();
        lemma_pow2_strictly_increases(1124, 1300);
        lemma_pow2_strictly_increases(1128, 1300);
    }
    while i < values.len()
        invariant
            i <= values@.len() <= RECENT_DAYS,
            forall|k: int| 0 <= k < values@.len() ==> averageable(#[trigger] values@[k]),
            t.wf(),
            t@ == total(values_of(values@.take(i as int))),
            size(t@) <= i * pow2(1124),
            coarse(t@),
            pow2(1128) == 16 * pow2(1124),
            pow2(1124) < pow2(1300),
            pow2(1128) < pow2(1300),
        decreases values@.len() - i,
    {
        let ghost before = values_of(values@.take(i as int));
        let ghost after = values_of(values@.take(i + 1));
        proof {
            assert(averageable(values@[i as int]));
            lemma_coarse_sum(t@, values@[i as int]@);
            assert(1 * pow2(1124) == pow2(1124)) by (nonlinear_arith);
            lemma_sum_grows(t@, values@[i as int]@, i as nat, 1, 1124);
            assert(i * pow2(1124) <= 16 * pow2(1124)) by (nonlinear_arith)
                requires
                    i <= 14,
            ;
            assert(after.drop_last() =~= before);
            assert(after.last() == values@[i as int]@);
        }
        t = t.plus(values[i]);
        i = i + 1;
    }
    assert(values@.take(i as int) =~= values@);
    let n: u64 = if values.len() == 0 {
        1
    } else {
        values.len() as u64
    };
    let d = Double::from_u64(n);
    proof {
        lemma_small_powers();
        lemma_of_int_range(n as int, 4);
        lemma_coarse_sizes(t@);
        lemma_pow2_strictly_increases(900, 1004);
        lemma_pow2_strictly_increases(900, 1074);
        lemma_pow2_strictly_increases(1078, 1300);
        assert(values@.len() * pow2(1124) <= 16 * pow2(1124)) by (nonlinear_arith)
            requires
                values@.len() <= 14,
        ;
        lemma_pow2_pos(1128);
        if t@ > 0 {
            lemma_quotient_range(t@, d@, 1004, 1128, 1074, 1078);
        } else {
            lemma_pow2_pos(1074);
            lemma_quotient_sign(t@, d@);
        }
        assert(values_of(values@).len() == values@.len());
    }
    t.over(d)
}

/// `n` reviews, minutes or cards as a value that can be averaged.
fn count(n: u64) -> (res: Double)
    requires
        n <= REVIEW_LIMIT,
    ensures
        averageable(res),
        res@ == of_int(n as int),
{
    proof {
        lemma_small_powers();
        lemma_of_int_range(n as int, 48);
        lemma_of_int_exact(n as int);
        lemma_pow2_strictly_increases(1122, 1124);
        let g = pow2(1004) as int;
        lemma_pow2_adds(70, 1004);
        lemma_pow2_pos(1004);
        assert(n * unit() == (n * pow2(70)) * g) by (nonlinear_arith)
            requires
                unit() == pow2(70) * g,
        ;
        vstd::arithmetic::div_mod::lemma_fundamental_div_mod_converse(n * unit(), g, n * pow2(70), 0);
    }
    Double::from_u64(n)
}

/// The minutes in a number of milliseconds as a value that can be averaged.
fn minutes_of(ms: i64) -> (res: Double)
    ensures
        averageable(res),
        res@ == quotient(of_int(ms as int), of_int(60_000)),
{
    let a = Double::from_i64(ms);
    let b = Double::from_u64(60_000);
    proof {
        let n: int = if ms < 0 {
            -ms
        } else {
            ms as int
        };
        lemma_small_powers();
        lemma_of_int_range(n, 63);
        lemma_of_int_range(60_000, 16);
        lemma_pow2_pos(1074);
        let u = unit();
        assert((-ms) * u == -(ms * u)) by (nonlinear_arith);
        assert(ms < 0 ==> ms * u < 0) by (nonlinear_arith)
            requires
                u > 0,
        ;
        assert(ms >= 0 ==> ms * u >= 0) by (nonlinear_arith)
            requires
                u > 0,
        ;
        assert(size(a@) == of_int(n));
        lemma_pow2_strictly_increases(900, 1074);
        lemma_pow2_strictly_increases(1137, 1300);
        lemma_pow2_strictly_increases(1090, 1300);
        lemma_pow2_strictly_increases(1089, 1090);
        lemma_sixty_thousand();
        // not above 2^63 / 2^15
        if n > 0 {
            lemma_quotient_range(size(a@) as int, b@, 1074, 1137, 1089, 1090);
            lemma_pow2_strictly_increases(1122, 1124);
            assert(size(a@) * u >= b@ * pow2(1056)) by {
                lemma_pow2_adds(1090, 1056);
                lemma_pow2_adds(1074, 1074);
                lemma_pow2_strictly_increases(2146, 2148);
                assert(size(a@) * u >= pow2(1074) * u) by (nonlinear_arith)
                    requires
                        size(a@) >= pow2(1074),
                        u > 0,
                ;
                lemma_pow2_pos(1056);
                assert(b@ * pow2(1056) <= pow2(1090) * pow2(1056)) by (nonlinear_arith)
                    requires
                        b@ <= pow2(1090),
                        pow2(1056) > 0,
                ;
            }
            assert((-a@) * u == -(a@ * u)) by (nonlinear_arith);
            assert(size(quotient(a@, b@)) == quotient(size(a@) as int, b@)) by {
                assert(a@ < 0 ==> a@ * u < 0) by (nonlinear_arith)
                    requires
                        u > 0,
                ;
                assert(a@ >= 0 ==> a@ * u >= 0) by (nonlinear_arith)
                    requires
                        u > 0,
                ;
            }
        } else {
            lemma_quotient_sign(a@, b@);
            lemma_pow2_pos(1124);
        }
        lemma_coarse_quotient(a@, b@);
    }
    a.over(b)
}

proof fn lemma_sixty_thousand()
    ensures
        of_int(60_000) >= pow2(1089),
{
    lemma_of_int_exact(60_000);
    lemma_pow2_adds(15, 1074);
    lemma2_to64();
    lemma_pow2_pos(1074);
    assert(60_000 * unit() >= 32_768 * unit()) by (nonlinear_arith)
        requires
            unit() > 0,
    ;
}

/// The larger of two integers.
pub open spec fn at_least(a: int, b: int) -> int {
    if a < b {
        b
    } else {
        a
    }
}

/// The smaller of two integers.
pub open spec fn at_most(a: int, b: int) -> int {
    if a > b {
        b
    } else {
        a
    }
}

/// How hard the quests of a day are: easier than usual, as usual or harder.
pub open spec fn difficulty(draw: u64) -> int {
    if draw % 3 == 0 {
        ratio(8, 10)
    } else if draw % 3 == 1 {
        of_int(1)
    } else {
        ratio(12, 10)
    }
}

/// The length of the combo that is asked for.
pub open spec fn combo_length(draw: u64) -> int {
    if draw % 3 == 0 {
        20
    } else if draw % 3 == 1 {
        30
    } else {
        50
    }
}

/// The reviews of a usual day, not below 20.
pub open spec fn usual_reviews(recent: Seq<DayModel>) -> int {
    larger(mean(recent.map_values(|s: DayModel| of_int(s.reviews as int))), of_int(20))
}

/// The minutes of a usual day, not below 5.
pub open spec fn usual_minutes(recent: Seq<DayModel>) -> int {
    larger(mean(recent.map_values(|s: DayModel| quotient(of_int(s.time_ms), of_int(60_000)))), of_int(5))
}

/// The reviews of mature cards of a usual day.
pub open spec fn usual_mature(recent: Seq<DayModel>) -> int {
    mean(recent.map_values(|s: DayModel| of_int(s.mature as int)))
}

/// The new cards of a usual day.
pub open spec fn usual_new_cards(recent: Seq<DayModel>) -> int {
    mean(recent.map_values(|s: DayModel| of_int(s.new_cards as int)))
}

/// How many reviews a day's first quest asks for.
pub open spec fn review_target(recent: Seq<DayModel>, factor: int) -> int {
    at_least(rounded_to(product(usual_reviews(recent), factor), 5), 10)
}

/// The quests among which the second and the third of a day are drawn.
pub open spec fn quest_pool(recent: Seq<DayModel>, factor: int, combo: int) -> Seq<QuestModel> {
    let always = seq![
        QuestModel {
            kind: QuestKind::Minutes,
            target: at_least(saturated(rounded(product(usual_minutes(recent), factor))), 5) as nat,
        },
        QuestModel { kind: QuestKind::Combo, target: at_most(combo, review_target(recent, factor)) as nat },
        QuestModel { kind: QuestKind::Sessions, target: 2 },
        QuestModel {
            kind: QuestKind::BeforeNoon,
            target: at_least(rounded_to(product(usual_reviews(recent), ratio(3, 10)), 5), 5) as nat,
        },
    ];
    let with_mature = if usual_mature(recent) >= of_int(5) {
        always.push(
            QuestModel {
                kind: QuestKind::Mature,
                target: at_least(rounded_to(product(usual_mature(recent), ratio(8, 10)), 5), 5) as nat,
            },
        )
    } else {
        always
    };
    if usual_new_cards(recent) >= of_int(1) {
        with_mature.push(
            QuestModel {
                kind: QuestKind::NewCards,
                target: at_least(saturated(rounded(usual_new_cards(recent))), 3) as nat,
            },
        )
    } else {
        with_mature
    }
}

/// What is left when one entry is replaced by the last.
pub open spec fn without<T>(pool: Seq<T>, i: int) -> Seq<T> {
    pool.update(i, pool.last()).drop_last()
}

/// The three quests of a player's day: one on the number of reviews, and two
/// drawn from the pool.
pub open spec fn quests_for(seed: u64, day: int, recent: Seq<DayModel>) -> Seq<QuestModel> {
    let d1 = mixed(mixed(seed ^ day_bits(day)));
    let d2 = mixed(d1);
    let d3 = mixed(d2);
    let d4 = mixed(d3);
    let factor = difficulty(d1);
    let pool = quest_pool(recent, factor, combo_length(d2));
    let i = d3 as int % pool.len() as int;
    let left = without(pool, i);
    let j = d4 as int % left.len() as int;
    seq![QuestModel { kind: QuestKind::Reviews, target: review_target(recent, factor) as nat }, pool[i], left[j]]
}

/// A number rounded to a multiple of `step`.
fn round_to(x: Double, step: u64) -> (res: u64)
    requires
        x.wf(),
        1 <= step <= 16,
        pow2(900) <= x@ <= pow2(1130),
    ensures
        res == rounded_to(x@, step as int),
{
    let d = Double::from_u64(step);
    proof {
        lemma_small_powers();
        lemma_of_int_range(step as int, 4);
        lemma_pow2_strictly_increases(1130, 1300);
        lemma_pow2_strictly_increases(1078, 1300);
        lemma_pow2_strictly_increases(900, 1074);
        lemma_quotient_range(x@, d@, 900, 1130, 1074, 1078);
        lemma_pow2_pos(896);
        lemma_rounded_range(quotient(x@, d@), 56);
        assert(saturated(rounded(quotient(x@, d@))) * step <= 0x100_0000_0000_0000 * 16) by (nonlinear_arith)
            requires
                0 <= saturated(rounded(quotient(x@, d@))) <= 0x100_0000_0000_0000,
                step <= 16,
        ;
    }
    x.over(d).round() * step
}

/// The fraction `n / d`, between a quarter and two.
fn fraction(n: u64, d: u64) -> (res: Double)
    requires
        1 <= n <= 16,
        1 <= d <= 16,
    ensures
        res.wf(),
        res@ == ratio(n as int, d as int),
        pow2(1070) <= res@ <= pow2(1078),
{
    proof {
        lemma_small_powers();
        lemma_of_int_range(n as int, 4);
        lemma_of_int_range(d as int, 4);
        lemma_pow2_strictly_increases(1078, 1300);
        lemma_pow2_strictly_increases(900, 1074);
        lemma_quotient_range(of_int(n as int), of_int(d as int), 1074, 1078, 1074, 1078);
    }
    Double::from_u64(n).over(Double::from_u64(d))
}

/// The product of a usual amount and a fraction.
fn scaled(x: Double, f: Double) -> (res: Double)
    requires
        x.wf(),
        f.wf(),
        pow2(1000) <= x@ <= pow2(1128),
        pow2(1070) <= f@ <= pow2(1075),
    ensures
        res.wf(),
        res@ == product(x@, f@),
        pow2(900) <= res@ <= pow2(1130),
{
    proof {
        lemma_pow2_strictly_increases(1128, 1300);
        lemma_pow2_strictly_increases(1075, 1300);
        lemma_pow2_strictly_increases(900, 1000);
        lemma_pow2_strictly_increases(900, 1070);
        lemma_pow2_strictly_increases(900, 996);
        lemma_pow2_strictly_increases(1129, 1130);
        lemma_product_range(x@, f@, 1000, 1128, 1070, 1075);
    }
    x.times(f)
}

/// The fractions that are used are not above two.
proof fn lemma_fractions()
    ensures
        ratio(8, 10) <= pow2(1075),
        ratio(12, 10) <= pow2(1075),
        ratio(3, 10) <= pow2(1075),
        pow2(1070) <= of_int(1) <= pow2(1075),
{
    lemma_of_int_exact(8);
    lemma_of_int_exact(12);
    lemma_of_int_exact(3);
    lemma_of_int_exact(10);
    lemma_of_int_exact(1);
    let u = unit();
    lemma_pow2_pos(1074);
    lemma_pow2_adds(1, 1074);
    lemma_pow2_adds(4, 1074);
    lemma_pow2_adds(3, 1074);
    lemma_pow2_strictly_increases(1070, 1074);
    lemma_small_powers();
    assert(1 * u == u) by (nonlinear_arith);
    assert(8 * u <= 10 * u && 12 * u <= 16 * u && 8 * u <= 10 * u && 10 * u <= 16 * u && 3 * u <= 10 * u) by (nonlinear_arith)
        requires
            u > 0,
    ;
    lemma_quotient_range(8 * u, 10 * u, 1074, 1077, 1077, 1078);
    lemma_quotient_range(12 * u, 10 * u, 1074, 1078, 1077, 1078);
    lemma_quotient_range(3 * u, 10 * u, 1074, 1077, 1077, 1078);
    lemma_pow2_strictly_increases(1074, 1075);
}

fn max_u64(a: u64, b: u64) -> (res: u64)
    ensures
        res == at_least(a as int, b as int),
{
    if a < b {
        b
    } else {
        a
    }
}

fn min_u64(a: u64, b: u64) -> (res: u64)
    ensures
        res == at_most(a as int, b as int),
{
    if a > b {
        b
    } else {
        a
    }
}

/// The averages of the recent days: reviews, minutes, mature cards, new cards.
fn averages(recent: &VecDeque<DayStats>) -> (res: (Double, Double, Double, Double))
    requires
        recent@.len() <= RECENT_DAYS,
        forall|i: int| 0 <= i < recent@.len() ==> (#[trigger] recent@[i]).wf(),
    ensures
        res.0.wf() && res.1.wf() && res.2.wf() && res.3.wf(),
        res.0@ == usual_reviews(day_views(recent@)),
        res.1@ == usual_minutes(day_views(recent@)),
        res.2@ == usual_mature(day_views(recent@)),
        res.3@ == usual_new_cards(day_views(recent@)),
        pow2(1000) <= res.0@ <= pow2(1128),
        pow2(1000) <= res.1@ <= pow2(1128),
        res.2@ <= pow2(1128),
        res.2@ > 0 ==> res.2@ >= pow2(1000),
        res.3@ <= pow2(1128),
        res.3@ > 0 ==> res.3@ >= pow2(1000),
{
    let mut reviews: Vec<Double> = Vec::new();
    let mut minutes: Vec<Double> = Vec::new();
    let mut mature: Vec<Double> = Vec::new();
    let mut new_cards: Vec<Double> = Vec::new();
    let ghost days = day_views(recent@);
    let ghost f1 = |s: DayModel| of_int(s.reviews as int);
    let ghost f2 = |s: DayModel| quotient(of_int(s.time_ms), of_int(60_000));
    let ghost f3 = |s: DayModel| of_int(s.mature as int);
    let ghost f4 = |s: DayModel| of_int(s.new_cards as int);
    let mut i: usize = 0;
    while i < recent.len()
        invariant
            i <= recent@.len() <= RECENT_DAYS,
            forall|k: int| 0 <= k < recent@.len() ==> (#[trigger] recent@[k]).wf(),
            reviews@.len() == i,
            minutes@.len() == i,
            mature@.len() == i,
            new_cards@.len() == i,
            forall|k: int|
                0 <= k < i ==> averageable(#[trigger] reviews@[k]) && reviews@[k]@ == of_int(recent@[k].reviews as int),
            forall|k: int|
                0 <= k < i ==> averageable(#[trigger] minutes@[k]) && minutes@[k]@ == quotient(
                    of_int(recent@[k].time_ms as int),
                    of_int(60_000),
                ),
            forall|k: int|
                0 <= k < i ==> averageable(#[trigger] mature@[k]) && mature@[k]@ == of_int(recent@[k].mature as int),
            forall|k: int|
                0 <= k < i ==> averageable(#[trigger] new_cards@[k]) && new_cards@[k]@ == of_int(
                    recent@[k].new_cards as int,
                ),
        decreases recent@.len() - i,
    {
        let s = recent[i];
        assert(s == recent@[i as int]);
        assert(s.wf());
        reviews.push(count(s.reviews));
        minutes.push(minutes_of(s.time_ms));
        mature.push(count(s.mature));
        new_cards.push(count(s.new_cards));
        i = i + 1;
    }
    proof {
        assert(values_of(reviews@) =~= days.map_values(f1));
        assert(values_of(minutes@) =~= days.map_values(f2));
        assert(values_of(mature@) =~= days.map_values(f3));
        assert(values_of(new_cards@) =~= days.map_values(f4));
        lemma_small_powers();
        lemma_of_int_range(20, 5);
        lemma_of_int_range(5, 3);
        lemma_pow2_strictly_increases(1000, 1074);
        lemma_pow2_strictly_increases(1079, 1128);
        lemma_pow2_strictly_increases(1077, 1128);
    }
    (
        average(&reviews).max(Double::from_u64(20)),
        average(&minutes).max(Double::from_u64(5)),
        average(&mature),
        average(&new_cards),
    )
}

/// The quests among which the second and the third of a day are drawn.
fn build_pool(
    usual: (Double, Double, Double, Double),
    factor: Double,
    combo: u64,
    target: u64,
    Ghost(days): Ghost<Seq<DayModel>>,
) -> (pool: Vec<Quest>)
    requires
        usual.0.wf() && usual.1.wf() && usual.2.wf() && usual.3.wf() && factor.wf(),
        usual.0@ == usual_reviews(days),
        usual.1@ == usual_minutes(days),
        usual.2@ == usual_mature(days),
        usual.3@ == usual_new_cards(days),
        pow2(1000) <= usual.0@ <= pow2(1128),
        pow2(1000) <= usual.1@ <= pow2(1128),
        usual.2@ <= pow2(1128),
        usual.2@ > 0 ==> usual.2@ >= pow2(1000),
        pow2(1070) <= factor@ <= pow2(1075),
        target == review_target(days, factor@),
    ensures
        quest_views(pool@) == quest_pool(days, factor@, combo as int),
        4 <= pool@.len() <= 6,
{
    let (reviews, minutes, mature, new_cards) = usual;
    proof {
        lemma_fractions();
        lemma_pow2_pos(1000);
        lemma_pow2_pos(1074);
        lemma_small_powers();
        lemma_of_int_range(5, 3);
    }
    let minutes_target: u64 = max_u64(scaled(minutes, factor).round(), 5);
    let noon_target: u64 = max_u64(round_to(scaled(reviews, fraction(3, 10)), 5), 5);
    let mut pool: Vec<Quest> = Vec::new();
    pool.push(Quest { kind: QuestKind::Minutes, target: minutes_target });
    pool.push(Quest { kind: QuestKind::Combo, target: min_u64(combo, target) });
    pool.push(Quest { kind: QuestKind::Sessions, target: 2 });
    pool.push(Quest { kind: QuestKind::BeforeNoon, target: noon_target });
    if !mature.less(Double::from_u64(5)) {
        let mature_target: u64 = max_u64(round_to(scaled(mature, fraction(8, 10)), 5), 5);
        pool.push(Quest { kind: QuestKind::Mature, target: mature_target });
    }
    if !new_cards.less(Double::from_u64(1)) {
        let new_target: u64 = max_u64(new_cards.round(), 3);
        pool.push(Quest { kind: QuestKind::NewCards, target: new_target });
    }
    assert(quest_views(pool@) =~= quest_pool(days, factor@, combo as int));
    pool
}

/// How hard the quests of a day are.
fn draw_difficulty(draw: u64) -> (res: Double)
    ensures
        res.wf(),
        res@ == difficulty(draw),
        pow2(1070) <= res@ <= pow2(1075),
{
    proof {
        lemma_fractions();
    }
    if draw % 3 == 0 {
        fraction(8, 10)
    } else if draw % 3 == 1 {
        Double::from_u64(1)
    } else {
        fraction(12, 10)
    }
}

fn draw_quest(pool: &mut Vec<Quest>, draw: u64) -> (res: Quest)
    requires
        old(pool)@.len() > 0,
    ensures
        res@ == quest_views(old(pool)@)[draw as int % old(pool)@.len() as int],
        quest_views(final(pool)@) == without(quest_views(old(pool)@), draw as int % old(pool)@.len() as int),
        final(pool)@.len() == old(pool)@.len() - 1,
{
    let ghost before = quest_views(pool@);
    let i: usize = (draw % pool.len() as u64) as usize;
    let quest = pool.swap_remove(i);
    assert(quest_views(pool@) =~= without(before, i as int));
    quest
}

/// The three quests of a player's day.
#[verifier::spinoff_prover]
pub fn gen_quests(seed: u64, day: i64, recent: &VecDeque<DayStats>) -> (res: Vec<Quest>)
    requires
        recent@.len() <= RECENT_DAYS,
        forall|i: int| 0 <= i < recent@.len() ==> (#[trigger] recent@[i]).wf(),
    ensures
        quest_views(res@) == quests_for(seed, day as int, day_views(recent@)),
        res@.len() == 3,
{
    let ghost days = day_views(recent@);
    let usual = averages(recent);
    let bits: u64 = if day >= 0 {
        day as u64
    } else {
        (day as i128 + 0x1_0000_0000_0000_0000) as u64
    };
    let d1: u64 = mix(mix(seed ^ bits));
    let d2: u64 = mix(d1);
    let d3: u64 = mix(d2);
    let d4: u64 = mix(d3);
    let factor = draw_difficulty(d1);
    let combo: u64 = if d2 % 3 == 0 {
        20
    } else if d2 % 3 == 1 {
        30
    } else {
        50
    };
    let target: u64 = max_u64(round_to(scaled(usual.0, factor), 5), 10);
    let mut pool: Vec<Quest> = build_pool(usual, factor, combo, target, Ghost(days));
    let ghost all = quest_pool(days, factor@, combo as int);
    let mut quests: Vec<Quest> = Vec::new();
    quests.push(Quest { kind: QuestKind::Reviews, target });
    assert(quest_views(pool@).len() == pool@.len());
    quests.push(draw_quest(&mut pool, d3));
    assert(quest_views(pool@).len() == pool@.len());
    quests.push(draw_quest(&mut pool, d4));
    proof {
        assert(combo == combo_length(d2));
        let expected = quests_for(seed, day as int, days);
        assert(quest_views(quests@)[0] == expected[0]);
        assert(quest_views(quests@)[1] == expected[1]);
        assert(quest_views(quests@)[2] == expected[2]);
        assert(quest_views(quests@) =~= expected);
    }
    quests
}

/// The pool holds no kind of quest twice, and none on the number of reviews.
proof fn lemma_pool_is_distinct(recent: Seq<DayModel>, factor: int, combo: int)
    ensures
        quest_pool(recent, factor, combo).len() >= 4,
        forall|i: int, j: int|
            0 <= i < j < quest_pool(recent, factor, combo).len() ==> (#[trigger] quest_pool(recent, factor, combo)[i]).kind != (
            #[trigger] quest_pool(recent, factor, combo)[j]).kind,
        forall|i: int|
            0 <= i < quest_pool(recent, factor, combo).len() ==> (#[trigger] quest_pool(recent, factor, combo)[i]).kind
                != QuestKind::Reviews,
{
    lemma_entries_differ(
        at_least(saturated(rounded(product(usual_minutes(recent), factor))), 5) as nat,
        at_most(combo, review_target(recent, factor)) as nat,
        at_least(rounded_to(product(usual_reviews(recent), ratio(3, 10)), 5), 5) as nat,
        at_least(rounded_to(product(usual_mature(recent), ratio(8, 10)), 5), 5) as nat,
        at_least(saturated(rounded(usual_new_cards(recent))), 3) as nat,
        usual_mature(recent) >= of_int(5),
        usual_new_cards(recent) >= of_int(1),
    );
}

proof fn lemma_entries_differ(minutes: nat, combo: nat, noon: nat, mature: nat, fresh: nat, some_old: bool, some_new: bool)
    ensures
        pool_of(minutes, combo, noon, mature, fresh, some_old, some_new).len() >= 4,
        forall|i: int, j: int|
            0 <= i < j < pool_of(minutes, combo, noon, mature, fresh, some_old, some_new).len() ==> (#[trigger] pool_of(minutes, combo, noon, mature, fresh, some_old, some_new)[i]).kind != (
            #[trigger] pool_of(minutes, combo, noon, mature, fresh, some_old, some_new)[j]).kind,
        forall|i: int|
            0 <= i < pool_of(minutes, combo, noon, mature, fresh, some_old, some_new).len() ==> (#[trigger] pool_of(minutes, combo, noon, mature, fresh, some_old, some_new)[i]).kind
                != QuestKind::Reviews,
{
}

/// A day has three quests, of three kinds, and the first is on the number of
/// reviews.
pub proof fn law_quests_are_distinct(seed: u64, day: int, recent: Seq<DayModel>)
    ensures
        quests_for(seed, day, recent).len() == 3,
        quests_for(seed, day, recent)[0].kind == QuestKind::Reviews,
        forall|i: int, j: int|
            0 <= i < j < 3 ==> (#[trigger] quests_for(seed, day, recent)[i]).kind != (#[trigger] quests_for(
                seed,
                day,
                recent,
            )[j]).kind,
{
    let d1 = mixed(mixed(seed ^ day_bits(day)));
    let d2 = mixed(d1);
    let d3 = mixed(d2);
    let d4 = mixed(d3);
    let factor = difficulty(d1);
    let pool = quest_pool(recent, factor, combo_length(d2));
    lemma_pool_is_distinct(recent, factor, combo_length(d2));
    let n = pool.len() as int;
    let i = d3 as int % n;
    let left = without(pool, i);
    let j = d4 as int % left.len() as int;
    assert(0 <= i < n);
    assert(0 <= j < n - 1);
    if j == i {
        assert(left[j] == pool[n - 1]);
        assert(pool[i].kind != pool[n - 1].kind);
    } else {
        assert(left[j] == pool[j]);
        if i < j {
            assert(pool[i].kind != pool[j].kind);
        } else {
            assert(pool[j].kind != pool[i].kind);
        }
    }
}

/// The tenths of a usual day that a draw asks for.
pub open spec fn tenths_of(draw: u64) -> int {
    if draw % 3 == 0 {
        8
    } else if draw % 3 == 1 {
        10
    } else {
        12
    }
}

proof fn lemma_difficulty(draw: u64)
    ensures
        difficulty(draw) >= 0,
        0x20_0000_0000_0000 * size(10 * difficulty(draw) - tenths_of(draw) * unit()) <= 0x10_0000_0000_0000 * 10
            + tenths_of(draw) * unit(),
{
    let c = tenths_of(draw);
    lemma_pow2_pos(1074);
    lemma_of_int_exact(c);
    lemma_of_int_exact(1);
    assert(c * unit() >= 0) by (nonlinear_arith)
        requires
            c >= 0,
            unit() > 0,
    ;
    lemma_quotient_error(c * unit(), 10);
}

/// A draw makes the quests of a day easier than usual by a fifth, leaves them as
/// usual or makes them harder by a fifth: the reviews asked for are so many tenths
/// of a usual day, to the nearest multiple of five, and ten at least.
pub proof fn law_a_day_asks_for_the_usual_reviews(recent: Seq<DayModel>, draw: u64)
    requires
        usual_reviews(recent) <= 0x100_0000_0000 * pow2(1074),
    ensures
        ({
            let t = review_target(recent, difficulty(draw));
            &&& t >= 10
            &&& t % 5 == 0
            &&& t > 10 ==> -26 * pow2(1074) <= 10 * (t * pow2(1074)) - tenths_of(draw) * usual_reviews(recent) <= 26
                * pow2(1074)
            &&& tenths_of(draw) * usual_reviews(recent) <= 10 * (t * pow2(1074)) + 26 * pow2(1074)
        }),
{
    let u = usual_reviews(recent);
    lemma_pow2_pos(1074);
    lemma_of_int_exact(20);
    assert(u >= 0) by {
        assert(of_int(20) == 20 * unit());
    }
    lemma_difficulty(draw);
    lemma_tenths(u, difficulty(draw), tenths_of(draw));
    let t = rounded_to(product(u, difficulty(draw)), 5);
    assert(t % 5 == 0);
    assert(10 * (10 * unit()) >= 10 * (t * unit()) || t > 10) by (nonlinear_arith)
        requires
            unit() > 0,
    ;
}

proof fn lemma_total(counts: Seq<int>, values: Seq<int>) -> (all: int)
    requires
        counts.len() == values.len(),
        forall|i: int| 0 <= i < counts.len() ==> 0 <= #[trigger] counts[i] < 0x100_0000_0000,
        forall|i: int| 0 <= i < counts.len() ==> #[trigger] values[i] == of_int(counts[i]),
        counts.len() <= 14,
    ensures
        all == added(counts),
        total(values) == all * unit(),
        0 <= all <= counts.len() * 0x100_0000_0000,
    decreases counts.len(),
{
    if counts.len() == 0 {
        assert(0 * unit() == 0) by (nonlinear_arith);
        0
    } else {
        let before = lemma_total(counts.drop_last(), values.drop_last());
        let last = counts.last();
        assert(counts[counts.len() - 1] == last);
        assert(values[values.len() - 1] == of_int(last));
        lemma_of_int_exact(last);
        lemma_sum_exact(before, last);
        before + last
    }
}

/// Numbers added up.
pub open spec fn added(counts: Seq<int>) -> int
    decreases counts.len(),
{
    if counts.len() == 0 {
        0
    } else {
        added(counts.drop_last()) + counts.last()
    }
}

proof fn lemma_mean(counts: Seq<int>, values: Seq<int>)
    requires
        counts.len() == values.len(),
        forall|i: int| 0 <= i < counts.len() ==> 0 <= #[trigger] counts[i] < 0x100_0000_0000,
        forall|i: int| 0 <= i < counts.len() ==> #[trigger] values[i] == of_int(counts[i]),
        1 <= counts.len() <= 14,
    ensures
        mean(values) >= 0,
        -unit() <= counts.len() * mean(values) - added(counts) * unit() <= unit(),
{
    let u = unit();
    let all = lemma_total(counts, values);
    let n = counts.len() as int;
    lemma_pow2_pos(1074);
    lemma2_to64();
    lemma2_to64_rest();
    lemma_pow2_adds(64, 1010);
    lemma_pow2_pos(1010);
    assert(u >= 0x1_0000_0000_0000_0000) by (nonlinear_arith)
        requires
            u == 0x1_0000_0000_0000_0000 * pow2(1010),
            pow2(1010) >= 1,
    ;
    assert(0 <= all * u <= 14 * (0x100_0000_0000 * u)) by (nonlinear_arith)
        requires
            0 <= all <= 14 * 0x100_0000_0000,
            u > 0,
    ;
    lemma_quotient_error(all * u, n);
}

/// A usual day has as many reviews, mature cards and new cards as the recent days
/// have on average, to the accuracy of the arithmetic; but twenty reviews at least.
pub proof fn law_usual_days_are_average(recent: Seq<DayModel>)
    requires
        1 <= recent.len() <= 14,
        forall|i: int|
            0 <= i < recent.len() ==> (#[trigger] recent[i]).reviews < 0x100_0000_0000 && recent[i].mature
                < 0x100_0000_0000 && recent[i].new_cards < 0x100_0000_0000,
    ensures
        ({
            let n = recent.len() as int;
            let reviews = added(recent.map_values(|s: DayModel| s.reviews as int));
            let mature = added(recent.map_values(|s: DayModel| s.mature as int));
            let new_cards = added(recent.map_values(|s: DayModel| s.new_cards as int));
            &&& usual_reviews(recent) >= 20 * pow2(1074)
            &&& usual_reviews(recent) > 20 * pow2(1074) ==> n * usual_reviews(recent) <= reviews * pow2(1074) + pow2(
                1074,
            )
            &&& n * usual_reviews(recent) >= reviews * pow2(1074) - pow2(1074)
            &&& -pow2(1074) <= n * usual_mature(recent) - mature * pow2(1074) <= pow2(1074)
            &&& -pow2(1074) <= n * usual_new_cards(recent) - new_cards * pow2(1074) <= pow2(1074)
        }),
{
    let n = recent.len() as int;
    lemma_of_int_exact(20);
    lemma_mean(
        recent.map_values(|s: DayModel| s.reviews as int),
        recent.map_values(|s: DayModel| of_int(s.reviews as int)),
    );
    lemma_mean(
        recent.map_values(|s: DayModel| s.mature as int),
        recent.map_values(|s: DayModel| of_int(s.mature as int)),
    );
    lemma_mean(
        recent.map_values(|s: DayModel| s.new_cards as int),
        recent.map_values(|s: DayModel| of_int(s.new_cards as int)),
    );
    let m = mean(recent.map_values(|s: DayModel| of_int(s.reviews as int)));
    assert(n * usual_reviews(recent) >= n * m) by (nonlinear_arith)
        requires
            usual_reviews(recent) >= m,
            n >= 1,
    ;
}

/// Rounded to a multiple of five, but five at least.
proof fn lemma_fives(x: int)
    ensures
        at_least(rounded_to(x, 5), 5) >= 5,
        at_least(rounded_to(x, 5), 5) % 5 == 0,
{
    let n = saturated(rounded(quotient(x, of_int(5))));
    assert((n * 5) % 5 == 0);
}

proof fn lemma_pool_entry(recent: Seq<DayModel>, factor: int, combo: int, k: int)
    requires
        0 <= k < quest_pool(recent, factor, combo).len(),
    ensures
        ({
            let q = quest_pool(recent, factor, combo)[k];
            &&& q.kind == QuestKind::Combo ==> q.target == at_most(combo, review_target(recent, factor)) as nat
            &&& q.kind == QuestKind::Sessions ==> q.target == 2
            &&& q.kind == QuestKind::Minutes ==> q.target >= 5
            &&& q.kind == QuestKind::BeforeNoon ==> q.target >= 5 && q.target % 5 == 0
            &&& q.kind == QuestKind::Mature ==> q.target >= 5 && q.target % 5 == 0 && usual_mature(recent) >= of_int(5)
            &&& q.kind == QuestKind::NewCards ==> q.target >= 3 && usual_new_cards(recent) >= of_int(1)
            &&& q.kind == QuestKind::BeforeNoon ==> q.target == at_least(
                rounded_to(product(usual_reviews(recent), ratio(3, 10)), 5),
                5,
            )
            &&& q.kind == QuestKind::Mature ==> q.target == at_least(
                rounded_to(product(usual_mature(recent), ratio(8, 10)), 5),
                5,
            )
            &&& q.kind == QuestKind::NewCards ==> q.target == at_least(saturated(rounded(usual_new_cards(recent))), 3)
        }),
{
    let minutes = saturated(rounded(product(usual_minutes(recent), factor)));
    let noon = product(usual_reviews(recent), ratio(3, 10));
    let mature = product(usual_mature(recent), ratio(8, 10));
    let fresh = saturated(rounded(usual_new_cards(recent)));
    lemma_fives(noon);
    lemma_fives(mature);
    lemma_entries(
        at_least(minutes, 5) as nat,
        at_most(combo, review_target(recent, factor)) as nat,
        at_least(rounded_to(noon, 5), 5) as nat,
        at_least(rounded_to(mature, 5), 5) as nat,
        at_least(fresh, 3) as nat,
        usual_mature(recent) >= of_int(5),
        usual_new_cards(recent) >= of_int(1),
        k,
    );
}

/// The quests of a pool, by their targets.
spec fn pool_of(minutes: nat, combo: nat, noon: nat, mature: nat, fresh: nat, some_old: bool, some_new: bool) -> Seq<QuestModel> {
    let always = seq![
        QuestModel { kind: QuestKind::Minutes, target: minutes },
        QuestModel { kind: QuestKind::Combo, target: combo },
        QuestModel { kind: QuestKind::Sessions, target: 2 },
        QuestModel { kind: QuestKind::BeforeNoon, target: noon },
    ];
    let with_mature = if some_old {
        always.push(QuestModel { kind: QuestKind::Mature, target: mature })
    } else {
        always
    };
    if some_new {
        with_mature.push(QuestModel { kind: QuestKind::NewCards, target: fresh })
    } else {
        with_mature
    }
}

proof fn lemma_entries(minutes: nat, combo: nat, noon: nat, mature: nat, fresh: nat, some_old: bool, some_new: bool, k: int)
    requires
        0 <= k < pool_of(minutes, combo, noon, mature, fresh, some_old, some_new).len(),
    ensures
        ({
            let q = pool_of(minutes, combo, noon, mature, fresh, some_old, some_new)[k];
            &&& q.kind == QuestKind::Combo ==> q.target == combo
            &&& q.kind == QuestKind::Sessions ==> q.target == 2
            &&& q.kind == QuestKind::Minutes ==> q.target == minutes
            &&& q.kind == QuestKind::BeforeNoon ==> q.target == noon
            &&& q.kind == QuestKind::Mature ==> q.target == mature && some_old
            &&& q.kind == QuestKind::NewCards ==> q.target == fresh && some_new
        }),
{
}

/// What the quests of a day ask for besides reviews: a combo of twenty, thirty or
/// fifty, or as long as the reviews asked for; two sessions; five minutes at
/// least; five reviews before noon or of mature cards at least, in steps of five;
/// and three new cards at least. Mature cards and new cards are asked for only
/// where a usual day has five, or one.
pub proof fn law_quests_ask_for_something_within_reach(seed: u64, day: int, recent: Seq<DayModel>, i: int)
    requires
        0 <= i < 3,
    ensures
        ({
            let quests = quests_for(seed, day, recent);
            let q = quests[i];
            &&& q.kind == QuestKind::Combo ==> q.target <= quests[0].target && (q.target == 20 || q.target == 30
                || q.target == 50 || q.target == quests[0].target)
            &&& q.kind == QuestKind::Sessions ==> q.target == 2
            &&& q.kind == QuestKind::Minutes ==> q.target >= 5
            &&& q.kind == QuestKind::BeforeNoon ==> q.target >= 5 && q.target % 5 == 0
            &&& q.kind == QuestKind::Mature ==> q.target >= 5 && q.target % 5 == 0 && usual_mature(recent) >= 5 * pow2(
                1074,
            )
            &&& q.kind == QuestKind::NewCards ==> q.target >= 3 && usual_new_cards(recent) >= pow2(1074)
        }),
{
    lemma_of_int_exact(5);
    lemma_of_int_exact(1);
    law_quests_are_distinct(seed, day, recent);
    let d1 = mixed(mixed(seed ^ day_bits(day)));
    let d2 = mixed(d1);
    let d3 = mixed(d2);
    let d4 = mixed(d3);
    let factor = difficulty(d1);
    let pool = quest_pool(recent, factor, combo_length(d2));
    let a = d3 as int % pool.len() as int;
    let left = without(pool, a);
    let b = d4 as int % left.len() as int;
    lemma_pool_is_distinct(recent, factor, combo_length(d2));
    assert(0 <= a < pool.len());
    assert(0 <= b < pool.len() - 1);
    let c = if b == a {
        pool.len() - 1
    } else {
        b
    };
    assert(left[b] == pool[c]);
    lemma_pool_entry(recent, factor, combo_length(d2), a);
    lemma_pool_entry(recent, factor, combo_length(d2), c);
    assert(review_target(recent, factor) >= 10);
}

proof fn lemma_part(a: int, tenths: int)
    requires
        0 <= a <= 0x100_0000_0000 * unit(),
        1 <= tenths <= 20,
    ensures
        -26 * unit() <= 10 * (rounded_to(product(a, ratio(tenths, 10)), 5) * unit()) - tenths * a <= 26 * unit(),
{
    lemma_pow2_pos(1074);
    lemma_of_int_exact(tenths);
    assert(tenths * unit() >= 0) by (nonlinear_arith)
        requires
            tenths >= 0,
            unit() > 0,
    ;
    lemma_quotient_error(tenths * unit(), 10);
    lemma_tenths(a, ratio(tenths, 10), tenths);
}

/// Three tenths of the usual reviews are asked for before noon, eight tenths of the
/// usual mature cards, both to the nearest multiple of five and five at least; and
/// as many new cards as usual, three at least.
pub proof fn law_quests_ask_for_a_part_of_the_usual(seed: u64, day: int, recent: Seq<DayModel>, i: int)
    requires
        0 <= i < 3,
        0 <= usual_reviews(recent) <= 0x100_0000_0000 * pow2(1074),
        0 <= usual_mature(recent) <= 0x100_0000_0000 * pow2(1074),
        0 <= usual_new_cards(recent) <= 0x100_0000_0000 * pow2(1074),
    ensures
        ({
            let q = quests_for(seed, day, recent)[i];
            &&& q.kind == QuestKind::BeforeNoon && q.target > 5 ==> -26 * pow2(1074) <= 10 * (q.target * pow2(1074)) - 3
                * usual_reviews(recent) <= 26 * pow2(1074)
            &&& q.kind == QuestKind::Mature && q.target > 5 ==> -26 * pow2(1074) <= 10 * (q.target * pow2(1074)) - 8
                * usual_mature(recent) <= 26 * pow2(1074)
            &&& q.kind == QuestKind::NewCards && q.target > 3 ==> -pow2(1074) <= 2 * (q.target * pow2(1074)
                - usual_new_cards(recent)) <= pow2(1074)
        }),
{
    law_quests_are_distinct(seed, day, recent);
    let d1 = mixed(mixed(seed ^ day_bits(day)));
    let d2 = mixed(d1);
    let d3 = mixed(d2);
    let d4 = mixed(d3);
    let factor = difficulty(d1);
    let pool = quest_pool(recent, factor, combo_length(d2));
    let a = d3 as int % pool.len() as int;
    let left = without(pool, a);
    let b = d4 as int % left.len() as int;
    lemma_pool_is_distinct(recent, factor, combo_length(d2));
    assert(0 <= a < pool.len());
    assert(0 <= b < pool.len() - 1);
    let c = if b == a {
        pool.len() - 1
    } else {
        b
    };
    assert(left[b] == pool[c]);
    lemma_pool_entry(recent, factor, combo_length(d2), a);
    lemma_pool_entry(recent, factor, combo_length(d2), c);
    lemma_part(usual_reviews(recent), 3);
    lemma_part(usual_mature(recent), 8);
    let fresh = usual_new_cards(recent);
    lemma_rounded_error(fresh);
    lemma_pow2_pos(1074);
    let k = rounded(fresh);
    assert(k <= 0xffff_ffff_ffff_ffff) by (nonlinear_arith)
        requires
            2 * (k * unit() - fresh) <= unit(),
            fresh <= 0x100_0000_0000 * unit(),
            unit() > 0,
    ;
}

} // verus!
