//! Levels: how much XP each one takes.

use vstd::prelude::*;

verus! {

/// Whether `r` is the integer nearest to the square root of `n`: whether `n`
/// lies between the squares of `r - 1/2` and `r + 1/2`.
pub open spec fn is_nearest_root(n: nat, r: nat) -> bool {
    n <= r * r + r && (r == 0 || r * r - r < n)
}

/// The integer nearest to the square root of `n`.
pub open spec fn nearest_root(n: nat) -> nat {
    choose|r: nat| is_nearest_root(n, r)
}

/// The XP that a level takes: `level` to the power of 3/2 times ten, rounded,
/// and that times ten.
pub open spec fn need_of(level: nat) -> nat {
    nearest_root(100 * (level * level * level)) * 10
}

/// The XP that the levels below `level` take.
pub open spec fn needs_before(level: nat) -> nat
    decreases level,
{
    if level <= 1 {
        0
    } else {
        needs_before((level - 1) as nat) + need_of((level - 1) as nat)
    }
}

/// Whether so much XP makes a level and leaves a rest.
pub open spec fn stands_at(xp: nat, level: nat, rest: nat) -> bool {
    level >= 1 && xp == needs_before(level) + rest && rest < need_of(level)
}

proof fn lemma_root_unique(n: nat, r: nat)
    requires
        is_nearest_root(n, r),
    ensures
        nearest_root(n) == r,
{
    let s = nearest_root(n);
    assert(is_nearest_root(n, s));
    if s < r {
        assert(s * s + s <= r * r - r) by (nonlinear_arith)
            requires
                s + 1 <= r,
        ;
    } else if r < s {
        assert(r * r + r <= s * s - s) by (nonlinear_arith)
            requires
                r + 1 <= s,
        ;
    }
}

proof fn lemma_root_exists(n: nat)
    ensures
        is_nearest_root(n, nearest_root(n)),
    decreases n,
{
    if n == 0 {
        assert(is_nearest_root(0, 0));
    } else {
        lemma_root_exists((n - 1) as nat);
        let r = nearest_root((n - 1) as nat);
        if n <= r * r + r {
            assert(is_nearest_root(n, r));
        } else {
            assert((r + 1) * (r + 1) - (r + 1) == r * r + r) by (nonlinear_arith);
            assert((r + 1) * (r + 1) + (r + 1) > n) by (nonlinear_arith)
                requires
                    n == r * r + r + 1,
            ;
            assert(is_nearest_root(n, r + 1));
        }
    }
}

/// A root is at least `s` where `s - 1/2` squared is below the number.
proof fn lemma_root_at_least(n: nat, s: nat)
    requires
        s == 0 || s * s - s < n,
    ensures
        nearest_root(n) >= s,
{
    lemma_root_exists(n);
    let r = nearest_root(n);
    if r < s {
        assert(r * r + r <= s * s - s) by (nonlinear_arith)
            requires
                r + 1 <= s,
        ;
    }
}

/// A level takes at least a hundred XP for each level so far.
proof fn lemma_need_grows(level: nat)
    ensures
        need_of(level) >= 100 * level,
{
    let n = 100 * (level * level * level);
    let s = 10 * level;
    assert(s == 0 || s * s - s < n) by (nonlinear_arith)
        requires
            n == 100 * (level * level * level),
            s == 10 * level,
    ;
    lemma_root_at_least(n, s);
}

/// A higher level takes no less XP.
pub proof fn law_needs_ascend(a: nat, b: nat)
    requires
        a <= b,
    ensures
        need_of(a) <= need_of(b),
{
    let m = 100 * (a * a * a);
    let n = 100 * (b * b * b);
    assert(a * a * a <= b * b * b) by (nonlinear_arith)
        requires
            a <= b,
    ;
    lemma_root_exists(m);
    lemma_root_at_least(n, nearest_root(m));
}

/// More XP never makes for a lower level, and the same XP makes for the same
/// level and the same rest.
pub proof fn law_levels_ascend(xp1: nat, level1: nat, rest1: nat, xp2: nat, level2: nat, rest2: nat)
    requires
        xp1 <= xp2,
        stands_at(xp1, level1, rest1),
        stands_at(xp2, level2, rest2),
    ensures
        level1 <= level2,
        xp1 == xp2 ==> level1 == level2 && rest1 == rest2,
{
    if level2 < level1 {
        lemma_needs_before_ascend(level2 + 1, level1);
    }
    if xp1 == xp2 && level1 < level2 {
        lemma_needs_before_ascend(level1 + 1, level2);
    }
}

proof fn lemma_needs_before_ascend(a: nat, b: nat)
    requires
        1 <= a <= b,
    ensures
        needs_before(a) <= needs_before(b),
    decreases b,
{
    if a < b {
        lemma_needs_before_ascend(a, (b - 1) as nat);
    }
}

/// Every amount of XP makes for some level.
pub proof fn law_every_xp_has_a_level(xp: nat)
    ensures
        exists|level: nat, rest: nat| stands_at(xp, level, rest),
    decreases xp,
{
    lemma_need_grows(1);
    if xp == 0 {
        assert(stands_at(0, 1, 0));
    } else {
        let less = (xp - 1) as nat;
        law_every_xp_has_a_level(less);
        let (level, rest) = choose|level: nat, rest: nat| stands_at(less, level, rest);
        if rest + 1 < need_of(level) {
            assert(stands_at(xp, level, rest + 1));
        } else {
            lemma_need_grows(level + 1);
            assert(stands_at(xp, level + 1, 0));
        }
    }
}

/// The XP below a level grows with the square of the level.
proof fn lemma_needs_before_grow(level: nat)
    requires
        level >= 1,
    ensures
        needs_before(level) >= 50 * (level * (level - 1)),
    decreases level,
{
    if level > 1 {
        let k = (level - 1) as nat;
        lemma_needs_before_grow(k);
        lemma_need_grows(k);
        assert(50 * (level * (level - 1)) == 50 * (k * (k - 1)) + 100 * k) by (nonlinear_arith)
            requires
                level == k + 1,
        ;
    } else {
        assert(level * (level - 1) == 0) by (nonlinear_arith)
            requires
                level == 1,
        ;
    }
}

/// The largest number that a machine word holds ten times.
pub const MOST_TENS: u64 = 1_844_674_407_370_955_161;

/// Whether a machine word holds the XP that a level takes.
pub open spec fn need_fits(level: nat) -> bool {
    100 * (level * level * level) <= MOST_TENS * MOST_TENS + MOST_TENS
}

/// The XP that a level takes.
pub fn level_need(level: u64) -> (res: u64)
    requires
        need_fits(level as nat),
    ensures
        res == need_of(level as nat),
        res % 10 == 0,
        is_nearest_root(100 * (level as nat * level as nat * level as nat), (res / 10) as nat),
{
    let ghost l = level as nat;
    let ghost cube = l * l * l;
    proof {
        assert(level < 0x80_0000_0000) by (nonlinear_arith)
            requires
                100 * (level * level * level) <= MOST_TENS * MOST_TENS + MOST_TENS,
                MOST_TENS == 1_844_674_407_370_955_161,
        {
            if level >= 0x80_0000_0000 {
                assert(level * level >= 0x80_0000_0000 * 0x80_0000_0000);
                assert(level * level * level >= 0x80_0000_0000 * 0x80_0000_0000 * 0x80_0000_0000);
            }
        }
        assert(level * level < 0x40_0000_0000_0000_0000_0000) by (nonlinear_arith)
            requires
                level < 0x80_0000_0000,
        ;
        assert(level * level * level < 0x20_0000_0000_0000_0000_0000_0000_0000) by (nonlinear_arith)
            requires
                level * level < 0x40_0000_0000_0000_0000_0000,
                level < 0x80_0000_0000,
        ;
    }
    let square: u128 = level as u128 * level as u128;
    let n: u128 = 100 * (square * level as u128);
    // the largest number whose half-step square lies below
    let mut lo: u128 = 0;
    let mut hi: u128 = 0x4000_0000_0000_0000;
    proof {
        assert(0x4000_0000_0000_0000 * 0x4000_0000_0000_0000 - 0x4000_0000_0000_0000 >= n) by (nonlinear_arith)
            requires
                n < 100 * 0x20_0000_0000_0000_0000_0000_0000_0000,
        ;
    }
    while hi - lo > 1
        invariant
            lo < hi <= 0x4000_0000_0000_0000,
            lo == 0 || lo * lo - lo < n,
            hi * hi - hi >= n,
        decreases hi - lo,
    {
        let mid: u128 = lo + (hi - lo) / 2;
        assert(0 <= mid * mid - mid && mid * mid <= 0x1000_0000_0000_0000_0000_0000_0000_0000) by (nonlinear_arith)
            requires
                1 <= mid <= 0x4000_0000_0000_0000,
        ;
        if mid * mid - mid < n {
            lo = mid;
        } else {
            hi = mid;
        }
    }
    proof {
        assert(hi == lo + 1);
        assert(hi * hi - hi == lo * lo + lo) by (nonlinear_arith)
            requires
                hi == lo + 1,
        ;
        lemma_root_unique(n as nat, lo as nat);
        assert(lo <= MOST_TENS) by (nonlinear_arith)
            requires
                lo == 0 || lo * lo - lo < n,
                n <= MOST_TENS * MOST_TENS + MOST_TENS,
                0 <= lo,
        {
            if lo > MOST_TENS {
                assert(lo * (lo - 1) >= (MOST_TENS + 1) * MOST_TENS);
            }
        }
    }
    lo as u64 * 10
}

/// The level that so much XP makes, the XP gathered in it, and the XP that it
/// takes.
pub fn level_for(xp: u64) -> (res: (u64, u64, u64))
    ensures
        stands_at(xp as nat, res.0 as nat, res.1 as nat),
        res.2 == need_of(res.0 as nat),
{
    let mut level: u64 = 1;
    let mut rest: u64 = xp;
    loop
        invariant
            1 <= level,
            xp == needs_before(level as nat) + rest,
        decreases rest,
    {
        proof {
            let l = level as nat;
            lemma_needs_before_grow(l);
            assert(level <= 0x4000_0000) by (nonlinear_arith)
                requires
                    50 * (l * (l - 1)) <= u64::MAX,
                    l == level,
            {
                if level > 0x4000_0000 {
                    assert(l * (l - 1) >= 0x4000_0000 * 0x4000_0000);
                }
            }
            let n = 100 * (l * l * l);
            assert(n <= 0x10_0000_0000_0000 * 0x10_0000_0000_0000 + 0x10_0000_0000_0000) by (nonlinear_arith)
                requires
                    n == 100 * (l * l * l),
                    l <= 0x4000_0000,
            {
                assert(l * l <= 0x4000_0000 * 0x4000_0000);
                assert(l * l * l <= 0x4000_0000 * 0x4000_0000 * 0x4000_0000);
            }
            lemma_need_grows(l);
        }
        let need: u64 = level_need(level);
        if rest < need {
            return (level, rest, need);
        }
        rest = rest - need;
        level = level + 1;
    }
}

/// What a level takes is a multiple of ten, and no other is nearer to a hundred
/// times the level to the power of 3/2.
pub proof fn law_a_level_takes_its_power(level: nat)
    requires
        level >= 1,
    ensures
        need_of(level) % 10 == 0,
        (need_of(level) - 5) * (need_of(level) - 5) < 10_000 * (level * level * level),
        10_000 * (level * level * level) < (need_of(level) + 5) * (need_of(level) + 5),
{
    let n = 100 * (level * level * level);
    lemma_root_exists(n);
    lemma_need_grows(level);
    let r = nearest_root(n);
    let need = need_of(level);
    assert(need >= 100);
    assert((need - 5) * (need - 5) == 100 * (r * r - r) + 25) by (nonlinear_arith)
        requires
            need == r * 10,
    ;
    assert((need + 5) * (need + 5) == 100 * (r * r + r) + 25) by (nonlinear_arith)
        requires
            need == r * 10,
    ;
}

/// The first level takes a hundred XP. With as much XP as a level takes one is at
/// the beginning of the next, and before that in the level still.
pub proof fn law_filling_a_level_begins_the_next(xp: nat, level: nat, rest: nat, more: nat)
    requires
        stands_at(xp, level, rest),
    ensures
        need_of(1) == 100,
        rest + more < need_of(level) ==> stands_at(xp + more, level, rest + more),
        rest + more == need_of(level) ==> stands_at(xp + more, level + 1, 0),
        stands_at(0, 1, 0),
{
    lemma_need_grows(1);
    lemma_need_grows(level + 1);
    law_a_level_takes_its_power(1);
    assert(need_of(1) == 100) by {
        let need = need_of(1);
        assert(need - 5 < 100) by (nonlinear_arith)
            requires
                (need - 5) * (need - 5) < 10_000,
        ;
    }
}

} // verus!
