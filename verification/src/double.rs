//! Binary64 arithmetic carried out on integers.
//!
//! XP is earned in fractions of a point, and the rounding of every step shows
//! in the totals. The values live on the grid of multiples of 2^-1074, the
//! smallest step of a binary64 number: the view of a [`Double`] is the integer
//! that counts those steps. Every operation returns the representable number
//! nearest to the exact result, ties going to the even significand.

use vstd::prelude::*;
use vstd::arithmetic::power2::{lemma_pow2_adds, lemma_pow2_pos, lemma_pow2_strictly_increases, lemma_pow2_unfold, lemma2_to64, lemma2_to64_rest, pow2};
use vstd::arithmetic::div_mod::{lemma_fundamental_div_mod, lemma_fundamental_div_mod_converse};

verus! {

/// One, counted in steps of 2^-1074.
pub open spec fn unit() -> int {
    pow2(1074) as int
}

/// How many binary digits of `q` lie below the 53 leading ones.
pub open spec fn scale(q: nat) -> nat
    decreases q,
{
    if q < 0x20_0000_0000_0000 {
        0
    } else {
        1 + scale(q / 2)
    }
}

/// `a / b` rounded to an integer, half to even.
pub open spec fn half_even(a: nat, b: nat) -> nat {
    let k = a / b;
    let r = a % b;
    if 2 * r < b || (2 * r == b && k % 2 == 0) {
        k
    } else {
        k + 1
    }
}

/// The representable number nearest to `num / den`, for `num` not negative.
pub open spec fn nearest_magnitude(num: nat, den: nat) -> nat {
    let w = pow2(scale(num / den));
    half_even(num, den * w) * w
}

/// The representable number nearest to `num / den`.
pub open spec fn nearest(num: int, den: nat) -> int {
    if num < 0 {
        -(nearest_magnitude((-num) as nat, den) as int)
    } else {
        nearest_magnitude(num as nat, den) as int
    }
}

/// The number nearest to the integer `n`.
pub open spec fn of_int(n: int) -> int {
    nearest(n * unit(), 1)
}

/// The rounded sum of two numbers.
pub open spec fn sum(a: int, b: int) -> int {
    nearest(a + b, 1)
}

/// The rounded product of two numbers.
pub open spec fn product(a: int, b: int) -> int {
    nearest(a * b, pow2(1074))
}

/// The rounded quotient of two numbers, the second one positive.
pub open spec fn quotient(a: int, b: int) -> int {
    nearest(a * unit(), b as nat)
}

/// The larger of two numbers.
pub open spec fn larger(a: int, b: int) -> int {
    if a < b {
        b
    } else {
        a
    }
}

/// A number rounded to an integer, half away from zero.
pub open spec fn rounded(a: int) -> int {
    if a < 0 {
        -((-a * 2 + unit()) / (2 * unit()))
    } else {
        (a * 2 + unit()) / (2 * unit())
    }
}

/// The least integer that is not below a number.
pub open spec fn ceiling(a: int) -> int {
    -((-a) / unit())
}

/// An integer brought into the range of `u64`.
pub open spec fn saturated(n: int) -> int {
    if n < 0 {
        0
    } else if n > u64::MAX {
        u64::MAX as int
    } else {
        n
    }
}

/// A binary64 number: `mantissa * 2^exponent` steps of 2^-1074, negated if
/// `negative`.
#[derive(Clone, Copy)]
pub struct Double {
    negative: bool,
    mantissa: u64,
    exponent: u32,
}

impl View for Double {
    type V = int;

    closed spec fn view(&self) -> int {
        if self.negative {
            -(self.magnitude() as int)
        } else {
            self.magnitude() as int
        }
    }
}

impl Double {
    closed spec fn magnitude(self) -> nat {
        self.mantissa as nat * pow2(self.exponent as nat)
    }

    /// The significand has 53 bits at most, and all of them unless the number
    /// is among the smallest.
    pub closed spec fn wf(self) -> bool {
        &&& self.mantissa < 0x20_0000_0000_0000
        &&& self.mantissa >= 0x10_0000_0000_0000 || self.exponent == 0
        &&& self.exponent <= 4000
        &&& self.mantissa == 0 ==> !self.negative
    }
}

/// The 53 leading digits of a number decide its scale.
proof fn lemma_scale(x: nat, q: nat, s: nat)
    requires
        0x10_0000_0000_0000 <= q < 0x20_0000_0000_0000,
        q * pow2(s) <= x < (q + 1) * pow2(s),
    ensures
        scale(x) == s,
    decreases s,
{
    if s == 0 {
        lemma2_to64();
        assert(x == q) by (nonlinear_arith)
            requires
                q * pow2(s) <= x < (q + 1) * pow2(s),
                pow2(s) == 1,
        ;
    } else {
        let h = pow2((s - 1) as nat);
        lemma_pow2_unfold(s);
        lemma_pow2_pos((s - 1) as nat);
        assert(q * (2 * h) == 2 * (q * h)) by (nonlinear_arith);
        assert((q + 1) * (2 * h) == 2 * ((q + 1) * h)) by (nonlinear_arith);
        assert(q * h >= 0x10_0000_0000_0000) by (nonlinear_arith)
            requires
                q >= 0x10_0000_0000_0000,
                h >= 1,
        ;
        assert(q * h <= x / 2 < (q + 1) * h);
        lemma_scale(x / 2, q, (s - 1) as nat);
    }
}

/// A number written with 53 bits at most is its own nearest neighbour.
proof fn lemma_exact(m: nat, e: nat)
    requires
        m < 0x20_0000_0000_0000,
        m >= 0x10_0000_0000_0000 || e == 0,
    ensures
        nearest_magnitude(m * pow2(e), 1) == m * pow2(e),
{
    let x = m * pow2(e);
    lemma_pow2_pos(e);
    assert(x / 1 == x);
    if e == 0 {
        lemma2_to64();
        assert(m * 1 == m);
        assert(scale(x) == 0);
    } else {
        assert(x < (m + 1) * pow2(e)) by (nonlinear_arith)
            requires
                x == m * pow2(e),
                pow2(e) > 0,
        ;
        lemma_scale(x, m, e);
    }
    let w = pow2(scale(x));
    assert(w == pow2(e));
    assert(1 * w == w) by (nonlinear_arith);
    lemma_fundamental_div_mod_converse(x as int, w as int, m as int, 0);
    assert(half_even(x, 1 * w) == m);
}

/// What the leading bits `q`, the bits `r` below them and the knowledge that
/// something lies further below say about the nearest number.
proof fn lemma_round(num: nat, den: nat, t: nat, e: nat, q: nat, s: nat, r: nat)
    requires
        den > 0,
        s > 0,
        0x10_0000_0000_0000 <= q < 0x20_0000_0000_0000,
        t == q * pow2(s) + r,
        r < pow2(s),
        den * (t * pow2(e)) <= num < den * ((t + 1) * pow2(e)),
    ensures
        ({
            let half = pow2((s - 1) as nat);
            let up = r > half || (r == half && (num != den * (t * pow2(e)) || q % 2 == 1));
            nearest_magnitude(num, den) == (if up { q + 1 } else { q }) * pow2(s + e)
        }),
{
    let p = pow2(e);
    let ss = pow2(s);
    let h = pow2((s - 1) as nat);
    lemma_pow2_pos(e);
    lemma_pow2_unfold(s);
    lemma_pow2_pos((s - 1) as nat);
    lemma_pow2_adds(s, e);
    let w = pow2(s + e);
    assert(w == ss * p);
    let x = num / den;
    lemma_fundamental_div_mod(num as int, den as int);
    // the scale
    assert(t * p <= x < (t + 1) * p) by (nonlinear_arith)
        requires
            den > 0,
            num == den * x + num % den,
            0 <= num % den < den,
            den * (t * p) <= num < den * ((t + 1) * p),
    ;
    assert(q * w <= t * p) by (nonlinear_arith)
        requires
            w == ss * p,
            t == q * ss + r,
            r >= 0,
            p > 0,
    ;
    assert((t + 1) * p <= (q + 1) * w) by (nonlinear_arith)
        requires
            w == ss * p,
            t == q * ss + r,
            r < ss,
            p > 0,
    ;
    lemma_scale(x, q, s + e);
    // the quotient and the remainder at that scale
    let d = den * p;
    let dw = den * w;
    let rem = num - dw * q;
    assert(d > 0) by (nonlinear_arith)
        requires
            d == den * p,
            den > 0,
            p > 0,
    ;
    assert(dw == d * ss) by (nonlinear_arith)
        requires
            dw == den * w,
            w == ss * p,
            d == den * p,
    ;
    assert(dw == 2 * (d * h)) by (nonlinear_arith)
        requires
            dw == d * ss,
            ss == 2 * h,
    ;
    assert(den * (t * p) == d * t) by (nonlinear_arith)
        requires
            d == den * p,
    ;
    assert(den * ((t + 1) * p) == d * t + d) by (nonlinear_arith)
        requires
            d == den * p,
    ;
    assert(d * t == dw * q + d * r) by (nonlinear_arith)
        requires
            dw == d * ss,
            t == q * ss + r,
    ;
    assert(d * r <= rem < d * r + d);
    assert(d * r + d <= dw) by (nonlinear_arith)
        requires
            dw == d * ss,
            r + 1 <= ss,
            d > 0,
    ;
    lemma_fundamental_div_mod_converse(num as int, dw as int, q as int, rem);
    if r > h {
        assert(d * r >= d * h + d) by (nonlinear_arith)
            requires
                r >= h + 1,
                d > 0,
        ;
    } else if r < h {
        assert(d * r + d <= d * h) by (nonlinear_arith)
            requires
                r + 1 <= h,
                d > 0,
        ;
    }
}

impl Double {
    /// The number nearest to `num / den`, of which `t * 2^e` holds the leading
    /// bits and `sticky` whether anything was cut off.
    fn pack(negative: bool, t: u128, e: u32, sticky: bool, Ghost(num): Ghost<nat>, Ghost(den): Ghost<nat>) -> (res: Double)
        requires
            t < 0x8000_0000_0000_0000_0000_0000_0000_0000,
            e <= 3000,
            den > 0,
            sticky ==> t >= 0x40_0000_0000_0000,
            den * (t * pow2(e as nat)) <= num < den * ((t + 1) * pow2(e as nat)),
            sticky <==> num != den * (t * pow2(e as nat)),
        ensures
            res.wf(),
            res@ == (if negative { -(nearest_magnitude(num, den) as int) } else { nearest_magnitude(num, den) as int }),
    {
        let ghost p = pow2(e as nat);
        proof {
            lemma_pow2_pos(e as nat);
        }
        if t < 0x20_0000_0000_0000 {
            let mut m: u128 = t;
            let mut x: u32 = e;
            while m < 0x10_0000_0000_0000 && x > 0
                invariant
                    m < 0x20_0000_0000_0000,
                    x <= e,
                    m * pow2(x as nat) == t * pow2(e as nat),
                decreases x,
            {
                proof {
                    lemma_pow2_unfold(x as nat);
                    let h = pow2((x - 1) as nat);
                    assert(m * (2 * h) == (2 * m) * h) by (nonlinear_arith);
                }
                m = m * 2;
                x = x - 1;
            }
            proof {
                lemma_exact(m as nat, x as nat);
                let v = (t * p) as nat;
                assert(num == den * v);
                assert(v == m as nat * pow2(x as nat));
                lemma_multiple(v, den);
                if m == 0 {
                    assert(0 * pow2(x as nat) == 0);
                }
            }
            Double { negative: negative && m != 0, mantissa: m as u64, exponent: x }
        } else {
            let mut q: u128 = t;
            let mut r: u128 = 0;
            let mut s: u32 = 0;
            let mut w: u128 = 1;
            let mut half: u128 = 0;
            proof {
                lemma2_to64();
            }
            while q >= 0x20_0000_0000_0000
                invariant
                    t < 0x8000_0000_0000_0000_0000_0000_0000_0000,
                    q >= 0x10_0000_0000_0000,
                    s == 0 ==> q == t && q >= 0x20_0000_0000_0000,
                    s <= 74,
                    s > 0 ==> half == pow2((s - 1) as nat),
                    w == pow2(s as nat),
                    t == q * w + r,
                    r < w,
                decreases q,
            {
                proof {
                    lemma_pow2_unfold((s + 1) as nat);
                    assert(q * w < 0x8000_0000_0000_0000_0000_0000_0000_0000);
                    assert(w < 0x400_0000_0000_0000_0000) by (nonlinear_arith)
                        requires
                            q * w < 0x8000_0000_0000_0000_0000_0000_0000_0000,
                            q >= 0x20_0000_0000_0000,
                    ;
                    if s >= 74 {
                        lemma_pow2_74();
                    }
                    let b = q % 2;
                    let k = q / 2;
                    assert(q == 2 * k + b);
                    assert(q * w == k * (2 * w) + b * w) by (nonlinear_arith)
                        requires
                            q == 2 * k + b,
                    ;
                    assert(b == 0 ==> b * w == 0) by (nonlinear_arith);
                    assert(b == 1 ==> b * w == w) by (nonlinear_arith);
                }
                if q % 2 == 1 {
                    r = r + w;
                }
                q = q / 2;
                half = w;
                w = w * 2;
                s = s + 1;
            }
            let up = r > half || (r == half && (sticky || q % 2 == 1));
            proof {
                lemma_round(num, den, t as nat, e as nat, q as nat, s as nat, r as nat);
                lemma_pow2_unfold((s + e + 1) as nat);
                assert(0x20_0000_0000_0000 * pow2((s + e) as nat) == 0x10_0000_0000_0000 * pow2((s + e + 1) as nat)) by (nonlinear_arith)
                    requires
                        pow2((s + e + 1) as nat) == 2 * pow2((s + e) as nat),
                ;
            }
            if up {
                q = q + 1;
            }
            if q == 0x20_0000_0000_0000 {
                Double { negative, mantissa: 0x10_0000_0000_0000, exponent: e + s + 1 }
            } else {
                Double { negative, mantissa: q as u64, exponent: e + s }
            }
        }
    }
}

/// A common factor of the two sides of a fraction does not change the result.
proof fn lemma_multiple(v: nat, den: nat)
    requires
        den > 0,
    ensures
        nearest_magnitude(den * v, den) == nearest_magnitude(v, 1),
{
    assert(den * v == v * den) by (nonlinear_arith);
    lemma_fundamental_div_mod_converse((den * v) as int, den as int, v as int, 0);
    assert(v / 1 == v);
    let w = pow2(scale(v));
    lemma_pow2_pos(scale(v));
    assert(1 * w == w) by (nonlinear_arith);
    let k = v / w;
    let r = v % w;
    lemma_fundamental_div_mod(v as int, w as int);
    assert(den * v == k * (den * w) + den * r) by (nonlinear_arith)
        requires
            v == w * k + r,
    ;
    assert(0 <= den * r < den * w) by (nonlinear_arith)
        requires
            0 <= r < w,
            den > 0,
    ;
    lemma_fundamental_div_mod_converse((den * v) as int, (den * w) as int, k as int, (den * r) as int);
    assert(2 * (den * r) == den * (2 * r)) by (nonlinear_arith);
    assert(2 * r < w ==> den * (2 * r) < den * w) by (nonlinear_arith)
        requires
            den > 0,
    ;
    assert(2 * r > w ==> den * (2 * r) > den * w) by (nonlinear_arith)
        requires
            den > 0,
    ;
}

proof fn lemma_pow2_74()
    ensures
        pow2(74) == 0x400_0000_0000_0000_0000,
{
    lemma2_to64();
    lemma_pow2_adds(64, 10);
}

/// A number with a scale has all its 53 leading bits.
proof fn lemma_scale_floor(x: nat)
    ensures
        scale(x) > 0 ==> 0x10_0000_0000_0000 * pow2(scale(x)) <= x,
    decreases x,
{
    if x >= 0x20_0000_0000_0000 {
        let s = scale(x / 2);
        lemma_scale_floor(x / 2);
        lemma_pow2_unfold(s + 1);
        lemma2_to64();
        assert(0x10_0000_0000_0000 * (2 * pow2(s)) == 2 * (0x10_0000_0000_0000 * pow2(s))) by (nonlinear_arith);
    }
}

/// Rounding does not carry a fraction past a representable number: it stays
/// at or below `m * 2^e`, or at or above it, where the fraction does.
pub proof fn lemma_nearest_bounds(num: nat, den: nat, m: nat, e: nat)
    requires
        den > 0,
        m < 0x20_0000_0000_0000,
    ensures
        num <= den * (m * pow2(e)) ==> nearest_magnitude(num, den) <= m * pow2(e),
        num >= den * (m * pow2(e)) ==> nearest_magnitude(num, den) >= m * pow2(e),
{
    let x = num / den;
    let s = scale(x);
    let w = pow2(s);
    let y = m * pow2(e);
    let dw = den * w;
    let k = num / dw;
    let r = num % dw;
    lemma_pow2_pos(s);
    lemma_pow2_pos(e);
    lemma_scale_floor(x);
    assert(dw > 0) by (nonlinear_arith)
        requires
            dw == den * w,
            den > 0,
            w > 0,
    ;
    lemma_fundamental_div_mod(num as int, dw as int);
    lemma_fundamental_div_mod(num as int, den as int);
    if s <= e {
        let f = pow2((e - s) as nat);
        let c = m * f;
        lemma_pow2_adds((e - s) as nat, s);
        assert(y == c * w) by (nonlinear_arith)
            requires
                y == m * pow2(e),
                pow2(e) == f * w,
                c == m * f,
        ;
        assert(den * y == dw * c) by (nonlinear_arith)
            requires
                y == c * w,
                dw == den * w,
        ;
        let h = half_even(num, dw);
        if num <= den * y {
            assert(k <= c && (k == c ==> r == 0)) by (nonlinear_arith)
                requires
                    num == dw * k + r,
                    0 <= r < dw,
                    num <= dw * c,
            ;
            assert(h <= c);
            assert(h * w <= c * w) by (nonlinear_arith)
                requires
                    h <= c,
            ;
        }
        if num >= den * y {
            assert(k >= c) by (nonlinear_arith)
                requires
                    num == dw * k + r,
                    0 <= r < dw,
                    num >= dw * c,
            ;
            assert(h * w >= c * w) by (nonlinear_arith)
                requires
                    h >= c,
            ;
        }
    } else {
        let q: nat = 0x10_0000_0000_0000;
        lemma_pow2_unfold(s);
        if (e as int) < s - 1 {
            lemma_pow2_strictly_increases(e, (s - 1) as nat);
        }
        assert(q * w > y) by (nonlinear_arith)
            requires
                w == 2 * pow2((s - 1) as nat),
                pow2((s - 1) as nat) >= pow2(e),
                y == m * pow2(e),
                m < 2 * q,
                pow2(e) > 0,
        ;
        assert(num >= den * (q * w)) by (nonlinear_arith)
            requires
                num == den * x + num % den,
                num % den >= 0,
                x >= q * w,
        ;
        assert(den * (q * w) > den * y) by (nonlinear_arith)
            requires
                q * w > y,
                den > 0,
        ;
        assert(k >= q) by (nonlinear_arith)
            requires
                num == dw * k + r,
                0 <= r < dw,
                num >= den * (q * w),
                dw == den * w,
        ;
        let h = half_even(num, dw);
        assert(h * w >= q * w) by (nonlinear_arith)
            requires
                h >= q,
        ;
    }
}

/// The exponent of a number follows from its size.
proof fn lemma_exponent(d: Double, k: nat)
    requires
        d.wf(),
    ensures
        d.magnitude() <= pow2(k) ==> d.exponent <= k,
        d.magnitude() >= pow2(k) && k > 52 ==> d.exponent >= k - 52 && d.mantissa >= 0x10_0000_0000_0000,
{
    let e = d.exponent as nat;
    let p = pow2(e);
    lemma2_to64();
    lemma2_to64_rest();
    lemma_pow2_pos(e);
    if d.magnitude() <= pow2(k) && e > k {
        lemma_pow2_strictly_increases(k, e);
        assert(d.mantissa as nat * p >= p) by (nonlinear_arith)
            requires
                d.mantissa >= 1,
                p > 0,
        ;
        assert(false);
    }
    if d.magnitude() >= pow2(k) && k > 52 {
        if e < k - 52 {
            lemma_pow2_adds(53, e);
            assert(d.mantissa as nat * p < 0x20_0000_0000_0000 * p) by (nonlinear_arith)
                requires
                    d.mantissa < 0x20_0000_0000_0000,
                    p > 0,
            ;
            if 53 + e < k {
                lemma_pow2_strictly_increases(53 + e, k);
            }
            assert(false);
        }
    }
}

/// The size of a number, without its sign.
pub open spec fn size(a: int) -> nat {
    if a < 0 {
        (-a) as nat
    } else {
        a as nat
    }
}

impl Double {
    /// Zero.
    pub fn zero() -> (res: Double)
        ensures
            res.wf(),
            res@ == 0,
    {
        assert(0 * pow2(0) == 0) by (nonlinear_arith);
        Double { negative: false, mantissa: 0, exponent: 0 }
    }

    /// The number nearest to `n`.
    pub fn from_u64(n: u64) -> (res: Double)
        ensures
            res.wf(),
            res@ == of_int(n as int),
    {
        let ghost p = pow2(1074);
        proof {
            lemma_pow2_pos(1074);
            assert(1 * (n * p) == n * p) by (nonlinear_arith);
            assert(1 * ((n + 1) * p) > n * p) by (nonlinear_arith)
                requires
                    p > 0,
            ;
            assert(n * p >= 0) by (nonlinear_arith);
        }
        Double::pack(false, n as u128, 1074, false, Ghost((n * p) as nat), Ghost(1))
    }

    /// The number nearest to `n`.
    pub fn from_i64(n: i64) -> (res: Double)
        ensures
            res.wf(),
            res@ == of_int(n as int),
    {
        if n >= 0 {
            Double::from_u64(n as u64)
        } else {
            let m: u64 = (-(n as i128)) as u64;
            let d = Double::from_u64(m);
            proof {
                lemma_pow2_pos(1074);
                assert((-n) * unit() == -(n * unit())) by (nonlinear_arith);
                assert(n * unit() < 0) by (nonlinear_arith)
                    requires
                        n < 0,
                        unit() > 0,
                ;
            }
            d.negated()
        }
    }

    /// The number with the opposite sign.
    pub fn negated(self) -> (res: Double)
        requires
            self.wf(),
        ensures
            res.wf(),
            res@ == -self@,
    {
        proof {
            assert(0 * pow2(self.exponent as nat) == 0) by (nonlinear_arith);
        }
        Double { negative: !self.negative && self.mantissa != 0, mantissa: self.mantissa, exponent: self.exponent }
    }
}

/// Two to the power of `d`.
fn power(d: u32) -> (res: u128)
    requires
        d <= 100,
    ensures
        res == pow2(d as nat),
        res >= 1,
        res <= 0x10_0000_0000_0000_0000_0000_0000,
{
    let mut res: u128 = 1;
    let mut i: u32 = 0;
    proof {
        lemma2_to64();
        lemma2_to64_rest();
        lemma_pow2_adds(64, 36);
        assert(0x1_0000_0000_0000_0000 * 0x10_0000_0000 == 0x10_0000_0000_0000_0000_0000_0000) by (nonlinear_arith);
    }
    while i < d
        invariant
            i <= d,
            d <= 100,
            res == pow2(i as nat),
            pow2(100) == 0x10_0000_0000_0000_0000_0000_0000,
        decreases d - i,
    {
        proof {
            lemma_pow2_unfold((i + 1) as nat);
            lemma_pow2_strictly_increases(i as nat, 100);
        }
        res = res * 2;
        i = i + 1;
    }
    proof {
        lemma_pow2_pos(d as nat);
        if d < 100 {
            lemma_pow2_strictly_increases(d as nat, 100);
        }
    }
    res
}

/// A fraction without a remainder, written with its leading bits `t`.
proof fn lemma_whole(t: nat, e: nat)
    ensures
        1 * (t * pow2(e)) == t * pow2(e),
        t * pow2(e) < 1 * ((t + 1) * pow2(e)),
        nearest_magnitude(0, 1) == 0,
{
    lemma_pow2_pos(e);
    assert(t * pow2(e) < (t + 1) * pow2(e)) by (nonlinear_arith)
        requires
            pow2(e) > 0,
    ;
    lemma_exact(0, 0);
    assert(0 * pow2(0) == 0) by (nonlinear_arith);
}

impl Double {
    /// The rounded sum.
    pub fn plus(self, other: Double) -> (res: Double)
        requires
            self.wf(),
            other.wf(),
            size(self@) <= pow2(1300),
            size(other@) <= pow2(1300),
        ensures
            res.wf(),
            res@ == sum(self@, other@),
    {
        let (a, b) = if self.exponent >= other.exponent {
            (self, other)
        } else {
            (other, self)
        };
        let d: u32 = a.exponent - b.exponent;
        let ghost pa = pow2(a.exponent as nat);
        let ghost pb = pow2(b.exponent as nat);
        proof {
            lemma_exponent(a, 1300);
            lemma_exponent(b, 1300);
            lemma_pow2_pos(a.exponent as nat);
            lemma_pow2_pos(b.exponent as nat);
            assert(a.mantissa as nat * pa >= 0) by (nonlinear_arith);
            assert(b.mantissa as nat * pb >= 0) by (nonlinear_arith);
        }
        if d <= 64 {
            let f: u128 = power(d);
            proof {
                lemma2_to64();
                if d < 64 {
                    lemma_pow2_strictly_increases(d as nat, 64);
                }
                lemma_pow2_adds(d as nat, b.exponent as nat);
                assert(a.mantissa * f <= 0x20_0000_0000_0000 * 0x1_0000_0000_0000_0000) by (nonlinear_arith)
                    requires
                        a.mantissa <= 0x20_0000_0000_0000,
                        f <= 0x1_0000_0000_0000_0000,
                ;
                assert(a.mantissa as nat * pa == (a.mantissa * f) * pb) by (nonlinear_arith)
                    requires
                        pa == f * pb,
                ;
            }
            let x: u128 = a.mantissa as u128 * f;
            let y: u128 = b.mantissa as u128;
            let (negative, t): (bool, u128) = if a.negative == b.negative {
                (a.negative, x + y)
            } else if x >= y {
                (a.negative, x - y)
            } else {
                (b.negative, y - x)
            };
            let ghost num = (t * pb) as nat;
            proof {
                lemma_whole(t as nat, b.exponent as nat);
                assert((x + y) * pb == x * pb + y * pb) by (nonlinear_arith);
                assert((x - y) * pb == x * pb - y * pb) by (nonlinear_arith);
                assert((y - x) * pb == y * pb - x * pb) by (nonlinear_arith);
                assert(t > 0 ==> t * pb > 0) by (nonlinear_arith)
                    requires
                        pb > 0,
                ;
                assert(t == 0 ==> t * pb == 0) by (nonlinear_arith);
                assert(t * pb >= 0) by (nonlinear_arith);
            }
            Double::pack(negative, t, b.exponent, false, Ghost(num), Ghost(1))
        } else {
            let ghost pc = pow2((a.exponent - 11) as nat);
            let same = a.negative == b.negative;
            let sticky = b.mantissa != 0;
            let t: u128 = if same || !sticky {
                a.mantissa as u128 * 2048
            } else {
                a.mantissa as u128 * 2048 - 1
            };
            let ghost big = a.mantissa as nat * pa;
            let ghost low = b.mantissa as nat * pb;
            let ghost num: nat = (if same { big + low } else { (big - low) as nat });
            proof {
                lemma2_to64();
                lemma2_to64_rest();
                lemma_pow2_adds(11, (a.exponent - 11) as nat);
                assert(big == (a.mantissa * 2048) * pc) by (nonlinear_arith)
                    requires
                        big == a.mantissa * pa,
                        pa == 2048 * pc,
                ;
                lemma_pow2_adds(53, b.exponent as nat);
                if 53 + b.exponent < a.exponent - 11 {
                    lemma_pow2_strictly_increases((53 + b.exponent) as nat, (a.exponent - 11) as nat);
                }
                assert(low < pc) by (nonlinear_arith)
                    requires
                        low == b.mantissa * pb,
                        b.mantissa < 0x20_0000_0000_0000,
                        0x20_0000_0000_0000 * pb <= pc,
                        pb > 0,
                ;
                assert(low == 0 <==> b.mantissa == 0) by (nonlinear_arith)
                    requires
                        low == b.mantissa * pb,
                        pb > 0,
                ;
                let t1 = (a.mantissa * 2048) as nat;
                assert((t1 + 1) * pc == t1 * pc + pc) by (nonlinear_arith);
                assert((t1 - 1) * pc == t1 * pc - pc) by (nonlinear_arith);
                assert(big >= pc) by (nonlinear_arith)
                    requires
                        big == (a.mantissa * 2048) * pc,
                        a.mantissa >= 1,
                ;
                assert(1 * (t * pc) == t * pc);
                assert(1 * ((t + 1) * pc) == (t + 1) * pc);
            }
            Double::pack(a.negative, t, a.exponent - 11, sticky, Ghost(num), Ghost(1))
        }
    }

    /// The rounded difference.
    pub fn minus(self, other: Double) -> (res: Double)
        requires
            self.wf(),
            other.wf(),
            size(self@) <= pow2(1300),
            size(other@) <= pow2(1300),
        ensures
            res.wf(),
            res@ == sum(self@, -other@),
    {
        self.plus(other.negated())
    }

    /// The rounded product.
    pub fn times(self, other: Double) -> (res: Double)
        requires
            self.wf(),
            other.wf(),
            size(self@) <= pow2(1300),
            size(other@) <= pow2(1300),
            self@ == 0 || size(self@) >= pow2(900),
            other@ == 0 || size(other@) >= pow2(900),
        ensures
            res.wf(),
            res@ == product(self@, other@),
    {
        let ghost pa = pow2(self.exponent as nat);
        let ghost pb = pow2(other.exponent as nat);
        let ghost ma = self.mantissa as nat * pa;
        let ghost mb = other.mantissa as nat * pb;
        proof {
            lemma_pow2_pos(self.exponent as nat);
            lemma_pow2_pos(other.exponent as nat);
            lemma_pow2_pos(900);
            lemma_pow2_pos(1074);
        }
        if self.mantissa == 0 || other.mantissa == 0 {
            proof {
                assert(self@ * other@ == 0) by (nonlinear_arith)
                    requires
                        self@ == 0 || other@ == 0,
                {
                }
                lemma_multiple(0, pow2(1074));
                lemma_whole(0, 0);
                assert(pow2(1074) * 0 == 0) by (nonlinear_arith);
            }
            Double::zero()
        } else {
            proof {
                assert(ma > 0) by (nonlinear_arith)
                    requires
                        ma == self.mantissa * pa,
                        self.mantissa >= 1,
                        pa > 0,
                ;
                assert(mb > 0) by (nonlinear_arith)
                    requires
                        mb == other.mantissa * pb,
                        other.mantissa >= 1,
                        pb > 0,
                ;
                lemma_exponent(self, 1300);
                lemma_exponent(other, 1300);
                lemma_exponent(self, 900);
                lemma_exponent(other, 900);
                assert(self.mantissa * other.mantissa < 0x400_0000_0000_0000_0000_0000_0000) by (nonlinear_arith)
                    requires
                        self.mantissa < 0x20_0000_0000_0000,
                        other.mantissa < 0x20_0000_0000_0000,
                ;
            }
            let t: u128 = self.mantissa as u128 * other.mantissa as u128;
            let e: u32 = self.exponent + other.exponent - 1074;
            let ghost pe = pow2(e as nat);
            let ghost den = pow2(1074);
            let ghost num = ma * mb;
            proof {
                lemma_pow2_adds(self.exponent as nat, other.exponent as nat);
                lemma_pow2_adds(1074, e as nat);
                assert(num == t * (pa * pb)) by (nonlinear_arith)
                    requires
                        num == (self.mantissa * pa) * (other.mantissa * pb),
                        t == self.mantissa * other.mantissa,
                ;
                assert(den * (t * pe) == t * (den * pe)) by (nonlinear_arith);
                assert(den * ((t + 1) * pe) == (t + 1) * (den * pe)) by (nonlinear_arith);
                assert(t * (pa * pb) < (t + 1) * (pa * pb)) by (nonlinear_arith)
                    requires
                        pa > 0,
                        pb > 0,
                ;
                assert(ma * mb > 0) by (nonlinear_arith)
                    requires
                        ma > 0,
                        mb > 0,
                ;
                assert((-(ma as int)) * mb == -(ma * mb)) by (nonlinear_arith);
                assert(ma * (-(mb as int)) == -(ma * mb)) by (nonlinear_arith);
                assert((-(ma as int)) * (-(mb as int)) == ma * mb) by (nonlinear_arith);
            }
            Double::pack(self.negative != other.negative, t, e, false, Ghost(num), Ghost(den))
        }
    }

    /// The rounded quotient.
    pub fn over(self, other: Double) -> (res: Double)
        requires
            self.wf(),
            other.wf(),
            size(self@) <= pow2(1300),
            self@ == 0 || size(self@) >= pow2(900),
            pow2(900) <= other@ <= pow2(1300),
        ensures
            res.wf(),
            res@ == quotient(self@, other@),
    {
        let ghost pa = pow2(self.exponent as nat);
        let ghost pb = pow2(other.exponent as nat);
        let ghost ma = self.mantissa as nat * pa;
        let ghost mb = other.mantissa as nat * pb;
        let ghost u = pow2(1074);
        proof {
            lemma_pow2_pos(self.exponent as nat);
            lemma_pow2_pos(other.exponent as nat);
            lemma_pow2_pos(900);
            lemma_pow2_pos(1074);
            lemma_exponent(other, 1300);
            lemma_exponent(other, 900);
            assert(mb >= 0) by (nonlinear_arith)
                requires
                    mb == other.mantissa * pb,
            ;
        }
        if self.mantissa == 0 {
            proof {
                assert(0 * pa == 0) by (nonlinear_arith);
                assert(0 * unit() == 0) by (nonlinear_arith);
                lemma_multiple(0, mb);
                lemma_whole(0, 0);
                assert(mb * 0 == 0) by (nonlinear_arith);
            }
            Double::zero()
        } else {
            proof {
                assert(ma > 0) by (nonlinear_arith)
                    requires
                        ma == self.mantissa * pa,
                        self.mantissa >= 1,
                        pa > 0,
                ;
                lemma_exponent(self, 1300);
                lemma_exponent(self, 900);
            }
            let n: u128 = self.mantissa as u128 * 0x1_0000_0000_0000_0000;
            let d: u128 = other.mantissa as u128;
            let t: u128 = n / d;
            let sticky = n % d != 0;
            let e: u32 = self.exponent + 1010 - other.exponent;
            let ghost num = ma * u;
            proof {
                lemma_fundamental_div_mod(n as int, d as int);
                assert(t >= 0x40_0000_0000_0000) by (nonlinear_arith)
                    requires
                        n == d * t + n % d,
                        n % d < d,
                        n >= 0x10_0000_0000_0000 * 0x1_0000_0000_0000_0000,
                        d < 0x20_0000_0000_0000,
                ;
                lemma2_to64();
                lemma_pow2_adds(1010, 64);
                lemma_pow2_adds(self.exponent as nat, 1010);
                lemma_pow2_adds(other.exponent as nat, e as nat);
                let g = pow2((self.exponent + 1010) as nat);
                let pe = pow2(e as nat);
                assert(g == pa * pow2(1010));
                assert(g == pb * pe);
                lemma_pow2_pos((self.exponent + 1010) as nat);
                assert(num == n * g) by (nonlinear_arith)
                    requires
                        num == (self.mantissa * pa) * u,
                        u == pow2(1010) * 0x1_0000_0000_0000_0000,
                        g == pa * pow2(1010),
                        n == self.mantissa * 0x1_0000_0000_0000_0000,
                ;
                assert(mb * (t * pe) == (d * t) * g) by (nonlinear_arith)
                    requires
                        mb == d * pb,
                        g == pb * pe,
                ;
                assert(mb * ((t + 1) * pe) == (d * t + d) * g) by (nonlinear_arith)
                    requires
                        mb == d * pb,
                        g == pb * pe,
                ;
                assert((d * t) * g <= n * g < (d * t + d) * g) by (nonlinear_arith)
                    requires
                        n == d * t + n % d,
                        0 <= n % d < d,
                        g > 0,
                ;
                assert(sticky <==> n * g != (d * t) * g) by (nonlinear_arith)
                    requires
                        n == d * t + n % d,
                        sticky <==> n % d != 0,
                        g > 0,
                ;
                assert(ma * u > 0) by (nonlinear_arith)
                    requires
                        ma > 0,
                        u > 0,
                ;
                assert((-(ma as int)) * u == -(ma * u)) by (nonlinear_arith);
            }
            Double::pack(self.negative, t, e, sticky, Ghost(num), Ghost(mb))
        }
    }
}

/// Of two numbers without sign, the one with the smaller exponent is smaller,
/// and among equal exponents the one with the smaller significand.
proof fn lemma_order(a: Double, b: Double)
    requires
        a.wf(),
        b.wf(),
    ensures
        a.exponent < b.exponent ==> a.magnitude() < b.magnitude(),
        a.exponent == b.exponent ==> (a.mantissa < b.mantissa <==> a.magnitude() < b.magnitude()),
{
    let pa = pow2(a.exponent as nat);
    let pb = pow2(b.exponent as nat);
    lemma_pow2_pos(a.exponent as nat);
    lemma_pow2_pos(b.exponent as nat);
    if a.exponent < b.exponent {
        lemma_pow2_unfold((a.exponent + 1) as nat);
        if a.exponent + 1 < b.exponent {
            lemma_pow2_strictly_increases((a.exponent + 1) as nat, b.exponent as nat);
        }
        assert(a.mantissa * pa < b.mantissa * pb) by (nonlinear_arith)
            requires
                a.mantissa < 0x20_0000_0000_0000,
                b.mantissa >= 0x10_0000_0000_0000,
                2 * pa <= pb,
                pa > 0,
        ;
    }
    if a.exponent == b.exponent {
        assert(a.mantissa < b.mantissa <==> a.mantissa * pa < b.mantissa * pb) by (nonlinear_arith)
            requires
                pa == pb,
                pa > 0,
        ;
    }
}

impl Double {
    fn smaller(self, other: Double) -> (res: bool)
        requires
            self.wf(),
            other.wf(),
        ensures
            res == (self.magnitude() < other.magnitude()),
    {
        proof {
            lemma_order(self, other);
            lemma_order(other, self);
        }
        if self.exponent != other.exponent {
            self.exponent < other.exponent
        } else {
            self.mantissa < other.mantissa
        }
    }

    /// Whether the number is below the other one.
    pub fn less(self, other: Double) -> (res: bool)
        requires
            self.wf(),
            other.wf(),
        ensures
            res == (self@ < other@),
    {
        proof {
            lemma_pow2_pos(self.exponent as nat);
            lemma_pow2_pos(other.exponent as nat);
            let ghost ma = self.mantissa * pow2(self.exponent as nat);
            let ghost mb = other.mantissa * pow2(other.exponent as nat);
            assert(self.mantissa > 0 ==> ma > 0) by (nonlinear_arith)
                requires
                    ma == self.mantissa * pow2(self.exponent as nat),
                    pow2(self.exponent as nat) > 0,
            ;
            assert(other.mantissa > 0 ==> mb > 0) by (nonlinear_arith)
                requires
                    mb == other.mantissa * pow2(other.exponent as nat),
                    pow2(other.exponent as nat) > 0,
            ;
        }
        if self.negative {
            if other.negative {
                other.smaller(self)
            } else {
                true
            }
        } else if other.negative {
            false
        } else {
            self.smaller(other)
        }
    }

    /// The larger of the two numbers.
    pub fn max(self, other: Double) -> (res: Double)
        requires
            self.wf(),
            other.wf(),
        ensures
            res.wf(),
            res@ == larger(self@, other@),
    {
        if self.less(other) {
            other
        } else {
            self
        }
    }

    /// The number rounded to an integer, half away from zero, and brought into
    /// the range of `u64`.
    pub fn round(self) -> (res: u64)
        requires
            self.wf(),
        ensures
            res == saturated(rounded(self@)),
    {
        let ghost p: int = pow2(self.exponent as nat) as int;
        let ghost u: int = pow2(1074) as int;
        let ghost a: int = self.mantissa * p;
        proof {
            lemma_pow2_pos(self.exponent as nat);
            lemma_pow2_pos(1074);
            assert(a >= 0) by (nonlinear_arith)
                requires
                    a == self.mantissa * p,
                    p > 0,
            ;
            lemma_fundamental_div_mod(2 * a + u, 2 * u);
            assert((2 * a + u) / (2 * u) >= 0) by (nonlinear_arith)
                requires
                    2 * a + u == (2 * u) * ((2 * a + u) / (2 * u)) + (2 * a + u) % (2 * u),
                    (2 * a + u) % (2 * u) < 2 * u,
                    u > 0,
                    a >= 0,
            ;
        }
        if self.negative {
            proof {
                assert(a > 0) by (nonlinear_arith)
                    requires
                        a == self.mantissa * p,
                        self.mantissa >= 1,
                        p > 0,
                ;
                assert(-self@ * 2 + unit() == 2 * a + u);
                assert(rounded(self@) == -((2 * a + u) / (2 * u)));
            }
            return 0;
        }
        proof {
            assert(self@ * 2 + unit() == 2 * a + u);
            assert(rounded(self@) == (2 * a + u) / (2 * u));
        }
        if self.exponent >= 1074 {
            let d: u32 = self.exponent - 1074;
            proof {
                lemma_pow2_adds(d as nat, 1074);
                let k: int = self.mantissa * pow2(d as nat);
                assert(a == k * u) by (nonlinear_arith)
                    requires
                        a == self.mantissa * p,
                        p == pow2(d as nat) * u,
                        k == self.mantissa * pow2(d as nat),
                ;
                assert(2 * (k * u) + u == k * (2 * u) + u) by (nonlinear_arith);
                lemma_fundamental_div_mod_converse(2 * a + u, 2 * u, k, u);
                if d >= 12 {
                    lemma2_to64();
                    if d > 12 {
                        lemma_pow2_strictly_increases(12, d as nat);
                    }
                    assert(k >= 0x10_0000_0000_0000 * 4096) by (nonlinear_arith)
                        requires
                            k == self.mantissa * pow2(d as nat),
                            self.mantissa >= 0x10_0000_0000_0000,
                            pow2(d as nat) >= 4096,
                    ;
                }
            }
            if d >= 12 {
                u64::MAX
            } else {
                let f: u128 = power(d);
                proof {
                    lemma2_to64();
                    lemma_pow2_strictly_increases(d as nat, 12);
                    assert(self.mantissa * f < 0x1_0000_0000_0000_0000_0000) by (nonlinear_arith)
                        requires
                            self.mantissa < 0x20_0000_0000_0000,
                            f < 4096,
                    ;
                }
                let v: u128 = self.mantissa as u128 * f;
                if v > 0xffff_ffff_ffff_ffff {
                    u64::MAX
                } else {
                    v as u64
                }
            }
        } else {
            let d: u32 = 1074 - self.exponent;
            proof {
                lemma_pow2_adds(d as nat, self.exponent as nat);
            }
            if d >= 55 {
                proof {
                    lemma2_to64();
                    lemma2_to64_rest();
                    if d > 55 {
                        lemma_pow2_strictly_increases(55, d as nat);
                    }
                    assert(2 * a < u) by (nonlinear_arith)
                        requires
                            a == self.mantissa * p,
                            u == pow2(d as nat) * p,
                            self.mantissa < 0x20_0000_0000_0000,
                            pow2(d as nat) >= 0x80_0000_0000_0000,
                            p > 0,
                    ;
                    lemma_fundamental_div_mod_converse(2 * a + u, 2 * u, 0, 2 * a + u);
                }
                0
            } else {
                let f: u128 = power(d);
                let n: u128 = 2 * self.mantissa as u128 + f;
                let v: u128 = n / (2 * f);
                proof {
                    lemma_pow2_pos(d as nat);
                    lemma_fundamental_div_mod(n as int, 2 * f as int);
                    let r: int = n as int % (2 * f);
                    assert(n == (2 * f) * v + r);
                    assert(2 * a + u == v * (2 * u) + r * p) by (nonlinear_arith)
                        requires
                            a == self.mantissa * p,
                            u == f * p,
                            n == 2 * self.mantissa + f,
                            n == (2 * f) * v + r,
                    ;
                    assert(0 <= r * p < 2 * u) by (nonlinear_arith)
                        requires
                            0 <= r < 2 * f,
                            u == f * p,
                            p > 0,
                    ;
                    lemma_fundamental_div_mod_converse(2 * a + u, 2 * u, v as int, r * p);
                    assert(v <= n) by (nonlinear_arith)
                        requires
                            n == (2 * f) * v + r,
                            f >= 1,
                            v >= 0,
                            r >= 0,
                    ;
                    if v > u64::MAX {
                        assert((2 * f) * v >= 2 * (f * v)) by (nonlinear_arith);
                        assert(f * v >= f * 0x1_0000_0000_0000_0000) by (nonlinear_arith)
                            requires
                                v >= 0x1_0000_0000_0000_0000,
                        ;
                        assert(false) by (nonlinear_arith)
                            requires
                                (2 * f) * v + r == 2 * self.mantissa + f,
                                (2 * f) * v >= 2 * (f * v),
                                f * v >= f * 0x1_0000_0000_0000_0000,
                                r >= 0,
                                f >= 1,
                                self.mantissa < 0x20_0000_0000_0000,
                        ;
                    }
                }
                v as u64
            }
        }
    }

    /// The least integer that is not below the number, brought into the range
    /// of `u64`.
    pub fn ceil(self) -> (res: u64)
        requires
            self.wf(),
            self@ >= 0,
            self@ <= pow2(1130),
        ensures
            res == saturated(ceiling(self@)),
    {
        let ghost p: int = pow2(self.exponent as nat) as int;
        let ghost u: int = pow2(1074) as int;
        let ghost a: int = self.mantissa * p;
        proof {
            lemma_pow2_pos(self.exponent as nat);
            lemma_pow2_pos(1074);
            lemma_exponent(self, 1130);
            assert(self.mantissa > 0 ==> a > 0) by (nonlinear_arith)
                requires
                    a == self.mantissa * p,
                    p > 0,
            ;
            assert(self.mantissa == 0 ==> a == 0) by (nonlinear_arith)
                requires
                    a == self.mantissa * p,
            ;
        }
        if self.exponent >= 1074 {
            let d: u32 = self.exponent - 1074;
            let f: u128 = power(d);
            proof {
                lemma_pow2_adds(d as nat, 1074);
                lemma2_to64();
                lemma2_to64_rest();
                if d < 56 {
                    lemma_pow2_strictly_increases(d as nat, 56);
                }
                assert(self.mantissa * f < 0x20_0000_0000_0000 * 0x200_0000_0000_0000) by (nonlinear_arith)
                    requires
                        self.mantissa < 0x20_0000_0000_0000,
                        f <= 0x100_0000_0000_0000,
                ;
                let k = self.mantissa * f;
                assert(-a == (-k) * u) by (nonlinear_arith)
                    requires
                        a == self.mantissa * p,
                        p == f * u,
                        k == self.mantissa * f,
                ;
                lemma_fundamental_div_mod_converse(-a, u, -k, 0);
                assert(k >= 0) by (nonlinear_arith)
                    requires
                        k == self.mantissa * f,
                ;
            }
            let v: u128 = self.mantissa as u128 * f;
            if v > 0xffff_ffff_ffff_ffff {
                u64::MAX
            } else {
                v as u64
            }
        } else {
            let d: u32 = 1074 - self.exponent;
            proof {
                lemma_pow2_adds(d as nat, self.exponent as nat);
            }
            if self.mantissa == 0 {
                proof {
                    lemma_fundamental_div_mod_converse(0, u, 0, 0);
                }
                0
            } else if d >= 55 {
                proof {
                    lemma2_to64();
                    lemma2_to64_rest();
                    if d > 55 {
                        lemma_pow2_strictly_increases(55, d as nat);
                    }
                    assert(a < u) by (nonlinear_arith)
                        requires
                            a == self.mantissa * p,
                            u == pow2(d as nat) * p,
                            self.mantissa < 0x20_0000_0000_0000,
                            pow2(d as nat) >= 0x80_0000_0000_0000,
                            p > 0,
                    ;
                    lemma_fundamental_div_mod_converse(-a, u, -1, u - a);
                }
                1
            } else {
                let f: u128 = power(d);
                let n: u128 = self.mantissa as u128 + (f - 1);
                let v: u128 = n / f;
                proof {
                    lemma_pow2_pos(d as nat);
                    lemma_fundamental_div_mod(n as int, f as int);
                    let r = n % f;
                    let rest = f - 1 - r;
                    assert(-a == (-v) * u + rest * p) by (nonlinear_arith)
                        requires
                            a == self.mantissa * p,
                            u == f * p,
                            n == self.mantissa + f - 1,
                            n == f * v + r,
                            rest == f - 1 - r,
                    ;
                    assert(0 <= rest * p < u) by (nonlinear_arith)
                        requires
                            0 <= rest < f,
                            u == f * p,
                            p > 0,
                    ;
                    lemma_fundamental_div_mod_converse(-a, u, -v, rest * p);
                    assert(v <= self.mantissa) by (nonlinear_arith)
                        requires
                            n == f * v + r,
                            n == self.mantissa + f - 1,
                            f >= 1,
                            r >= 0,
                            self.mantissa >= 1,
                    ;
                }
                v as u64
            }
        }
    }

    /// The sign, the significand and the exponent: the number is the
    /// significand times two to the power of the exponent less 1074.
    pub fn parts(self) -> (res: (bool, u64, u32))
        requires
            self.wf(),
        ensures
            self@ == (if res.0 { -(res.1 * pow2(res.2 as nat)) } else { res.1 * pow2(res.2 as nat) }),
            res.1 < 0x20_0000_0000_0000,
    {
        (self.negative, self.mantissa, self.exponent)
    }
}

/// Integers below 2^53 are represented exactly.
pub proof fn lemma_of_int_exact(n: int)
    requires
        -0x20_0000_0000_0000 < n < 0x20_0000_0000_0000,
    ensures
        of_int(n) == n * unit(),
{
    let m: nat = size(n);
    lemma_nearest_bounds(m * pow2(1074), 1, m, 1074);
    lemma_pow2_pos(1074);
    assert(n >= 0 ==> n * unit() >= 0) by (nonlinear_arith)
        requires
            unit() > 0,
    ;
    assert(n < 0 ==> n * unit() < 0) by (nonlinear_arith)
        requires
            unit() > 0,
    ;
    assert((-n) * unit() == -(n * unit())) by (nonlinear_arith);
}

/// A number has no more leading bits than 53.
proof fn lemma_scale_ceiling(x: nat)
    ensures
        x < 0x20_0000_0000_0000 * pow2(scale(x)),
    decreases x,
{
    lemma2_to64();
    if x >= 0x20_0000_0000_0000 {
        let s = scale(x / 2);
        lemma_scale_ceiling(x / 2);
        lemma_pow2_unfold(s + 1);
        assert(0x20_0000_0000_0000 * (2 * pow2(s)) == 2 * (0x20_0000_0000_0000 * pow2(s))) by (nonlinear_arith);
    }
}

/// The nearest number to a fraction of at least 2^k is a multiple of
/// 2^(k - 52).
proof fn lemma_coarse(num: nat, den: nat, k: nat)
    requires
        den > 0,
        k >= 52,
        num >= den * pow2(k),
    ensures
        nearest_magnitude(num, den) % pow2((k - 52) as nat) == 0,
{
    let x = num / den;
    let s = scale(x);
    lemma_fundamental_div_mod(num as int, den as int);
    assert(x >= pow2(k)) by (nonlinear_arith)
        requires
            num == den * x + num % den,
            0 <= num % den < den,
            num >= den * pow2(k),
    ;
    lemma_scale_ceiling(x);
    lemma2_to64();
    lemma2_to64_rest();
    lemma_pow2_adds(53, s);
    if k >= 53 + s {
        if k > 53 + s {
            lemma_pow2_strictly_increases(53 + s, k);
        }
        assert(false);
    }
    let j = (k - 52) as nat;
    lemma_pow2_adds((s - j) as nat, j);
    let h = half_even(num, den * pow2(s));
    lemma_pow2_pos(j);
    assert(h * pow2(s) == (h * pow2((s - j) as nat)) * pow2(j)) by (nonlinear_arith)
        requires
            pow2(s) == pow2((s - j) as nat) * pow2(j),
    ;
    lemma_fundamental_div_mod_converse((h * pow2(s)) as int, pow2(j) as int, (h * pow2((s - j) as nat)) as int, 0);
}

/// Rounding keeps a multiple of a power of two a multiple of it.
proof fn lemma_keeps_multiple(num: nat, k: nat)
    requires
        num % pow2(k) == 0,
    ensures
        nearest_magnitude(num, 1) % pow2(k) == 0,
{
    let s = scale(num);
    let w = pow2(s);
    let g = pow2(k);
    lemma_pow2_pos(s);
    lemma_pow2_pos(k);
    assert(num / 1 == num);
    assert(1 * w == w) by (nonlinear_arith);
    let c = num / g;
    lemma_fundamental_div_mod(num as int, g as int);
    if s >= k {
        lemma_pow2_adds((s - k) as nat, k);
        let h = half_even(num, w);
        assert(h * w == (h * pow2((s - k) as nat)) * g) by (nonlinear_arith)
            requires
                w == pow2((s - k) as nat) * g,
        ;
        lemma_fundamental_div_mod_converse((h * w) as int, g as int, (h * pow2((s - k) as nat)) as int, 0);
    } else {
        lemma_pow2_adds((k - s) as nat, s);
        let q = c * pow2((k - s) as nat);
        assert(num == q * w) by (nonlinear_arith)
            requires
                num == g * c,
                g == pow2((k - s) as nat) * w,
                q == c * pow2((k - s) as nat),
        ;
        lemma_fundamental_div_mod_converse(num as int, w as int, q as int, 0);
    }
}

/// Whether a number is a multiple of 2^-70. Such a number is zero or not
/// tiny.
pub open spec fn coarse(a: int) -> bool {
    a % (pow2(1004) as int) == 0
}

/// A number that is zero or at least 2^-18 is no finer than 2^-70, and no finer
/// number is tiny without being zero.
pub proof fn lemma_coarse_sizes(a: int)
    ensures
        coarse(0),
        coarse(a) ==> a == 0 || size(a) >= pow2(1004),
{
    let g = pow2(1004) as int;
    lemma_pow2_pos(1004);
    lemma_fundamental_div_mod_converse(0, g, 0, 0);
    if coarse(a) && a != 0 {
        lemma_fundamental_div_mod(a, g);
        let c = a / g;
        assert(size(a) >= g) by (nonlinear_arith)
            requires
                a == g * c,
                a != 0,
                g > 0,
                size(a) == (if a < 0 { -a } else { a }),
        ;
    }
}

proof fn lemma_coarse_sign(a: int)
    ensures
        coarse(a) <==> coarse(-a),
{
    let g = pow2(1004) as int;
    lemma_pow2_pos(1004);
    if coarse(a) {
        lemma_fundamental_div_mod(a, g);
        assert(-a == (-(a / g)) * g) by (nonlinear_arith)
            requires
                a == g * (a / g),
        ;
        lemma_fundamental_div_mod_converse(-a, g, -(a / g), 0);
    }
    if coarse(-a) {
        lemma_fundamental_div_mod(-a, g);
        assert(a == (-((-a) / g)) * g) by (nonlinear_arith)
            requires
                -a == g * ((-a) / g),
        ;
        lemma_fundamental_div_mod_converse(a, g, -((-a) / g), 0);
    }
}

/// The sum of two multiples of 2^-70 is one.
pub proof fn lemma_coarse_sum(a: int, b: int)
    requires
        coarse(a),
        coarse(b),
    ensures
        coarse(sum(a, b)),
{
    let g = pow2(1004) as int;
    lemma_pow2_pos(1004);
    lemma_fundamental_div_mod(a, g);
    lemma_fundamental_div_mod(b, g);
    let c = a / g + b / g;
    assert(a + b == c * g) by (nonlinear_arith)
        requires
            a == g * (a / g),
            b == g * (b / g),
            c == a / g + b / g,
    ;
    lemma_fundamental_div_mod_converse(a + b, g, c, 0);
    if a + b < 0 {
        lemma_coarse_sign(a + b);
        lemma_keeps_multiple((-(a + b)) as nat, 1004);
        lemma_coarse_sign(sum(a, b));
    } else {
        lemma_keeps_multiple((a + b) as nat, 1004);
    }
}

/// A quotient of at least 2^-18 is a multiple of 2^-70.
pub proof fn lemma_coarse_quotient(a: int, b: int)
    requires
        b > 0,
        a == 0 || size(a) * unit() >= b * pow2(1056),
    ensures
        coarse(quotient(a, b)),
{
    let u = unit();
    lemma_pow2_pos(1074);
    lemma_coarse_sizes(0);
    if a == 0 {
        lemma_multiple(0, b as nat);
        lemma_whole(0, 0);
        assert(0 * u == 0) by (nonlinear_arith);
        assert((b as nat) * 0 == 0) by (nonlinear_arith);
    } else {
        let num = (size(a) * u) as nat;
        assert(num >= 0) by (nonlinear_arith)
            requires
                num == size(a) * u,
                u > 0,
        ;
        lemma_coarse(num, b as nat, 1056);
        assert((-a) * u == -(a * u)) by (nonlinear_arith);
        assert(a < 0 ==> a * u < 0) by (nonlinear_arith)
            requires
                u > 0,
        ;
        assert(a > 0 ==> a * u > 0) by (nonlinear_arith)
            requires
                u > 0,
        ;
        lemma_coarse_sign(quotient(a, b));
    }
}

/// Rounding keeps a fraction between the powers of two that it lies between.
proof fn lemma_nearest_range(num: nat, den: nat, l: nat, h: nat)
    requires
        den > 0,
    ensures
        num <= den * pow2(h) ==> nearest_magnitude(num, den) <= pow2(h),
        num >= den * pow2(l) ==> nearest_magnitude(num, den) >= pow2(l),
{
    lemma_nearest_bounds(num, den, 1, h);
    lemma_nearest_bounds(num, den, 1, l);
}

/// The size of the integers.
pub proof fn lemma_of_int_range(n: int, k: nat)
    requires
        0 <= n <= pow2(k),
    ensures
        0 <= of_int(n) <= pow2(1074 + k),
        n >= 1 ==> of_int(n) >= pow2(1074),
        n == 0 ==> of_int(n) == 0,
{
    lemma_pow2_pos(1074);
    lemma_pow2_adds(k, 1074);
    let u = unit();
    assert(n * u <= pow2(k) * u) by (nonlinear_arith)
        requires
            n <= pow2(k),
            u > 0,
    ;
    assert(n * u >= 0) by (nonlinear_arith)
        requires
            n >= 0,
            u > 0,
    ;
    assert(n >= 1 ==> n * u >= u) by (nonlinear_arith)
        requires
            u > 0,
    ;
    assert(n == 0 ==> n * u == 0) by (nonlinear_arith);
    lemma_nearest_range((n * u) as nat, 1, 1074, 1074 + k);
    lemma_whole(0, 0);
}

/// The size of a product.
pub proof fn lemma_product_range(a: int, b: int, la: nat, ha: nat, lb: nat, hb: nat)
    requires
        pow2(la) <= a <= pow2(ha),
        pow2(lb) <= b <= pow2(hb),
        la + lb >= 1074,
        ha + hb >= 1074,
    ensures
        pow2((la + lb - 1074) as nat) <= product(a, b) <= pow2((ha + hb - 1074) as nat),
{
    lemma_pow2_pos(la);
    lemma_pow2_pos(lb);
    lemma_pow2_pos(1074);
    lemma_pow2_adds(la, lb);
    lemma_pow2_adds(ha, hb);
    lemma_pow2_adds(1074, (la + lb - 1074) as nat);
    lemma_pow2_adds(1074, (ha + hb - 1074) as nat);
    assert(pow2(la) * pow2(lb) <= a * b <= pow2(ha) * pow2(hb)) by (nonlinear_arith)
        requires
            0 < pow2(la) <= a <= pow2(ha),
            0 < pow2(lb) <= b <= pow2(hb),
    ;
    lemma_nearest_range((a * b) as nat, pow2(1074), (la + lb - 1074) as nat, (ha + hb - 1074) as nat);
}

/// The size of a quotient.
pub proof fn lemma_quotient_range(a: int, b: int, la: nat, ha: nat, lb: nat, hb: nat)
    requires
        pow2(la) <= a <= pow2(ha),
        pow2(lb) <= b <= pow2(hb),
        la + 1074 >= hb,
        ha + 1074 >= lb,
    ensures
        pow2((la + 1074 - hb) as nat) <= quotient(a, b) <= pow2((ha + 1074 - lb) as nat),
{
    lemma_pow2_pos(la);
    lemma_pow2_pos(lb);
    lemma_pow2_pos(1074);
    let u = unit();
    let l = (la + 1074 - hb) as nat;
    let h = (ha + 1074 - lb) as nat;
    lemma_pow2_adds(la, 1074);
    lemma_pow2_adds(ha, 1074);
    lemma_pow2_adds(hb, l);
    lemma_pow2_adds(lb, h);
    lemma_pow2_pos(l);
    lemma_pow2_pos(h);
    assert(pow2(la) * u <= a * u <= pow2(ha) * u) by (nonlinear_arith)
        requires
            pow2(la) <= a <= pow2(ha),
            u > 0,
    ;
    assert(b * pow2(l) <= pow2(hb) * pow2(l)) by (nonlinear_arith)
        requires
            b <= pow2(hb),
            pow2(l) > 0,
    ;
    assert(b * pow2(h) >= pow2(lb) * pow2(h)) by (nonlinear_arith)
        requires
            b >= pow2(lb),
            pow2(h) > 0,
    ;
    lemma_nearest_range((a * u) as nat, b as nat, l, h);
}

/// The size of a sum.
pub proof fn lemma_sum_range(a: int, b: int, l: nat, h: nat)
    requires
        a >= 0,
        b >= 0,
    ensures
        sum(a, b) >= 0,
        a + b >= pow2(l) ==> sum(a, b) >= pow2(l),
        a + b <= pow2(h) ==> sum(a, b) <= pow2(h),
{
    lemma_nearest_range((a + b) as nat, 1, l, h);
}

/// The sum of numbers below `m` and `n` times 2^e is not above `m + n` times
/// 2^e.
pub proof fn lemma_sum_grows(a: int, b: int, m: nat, n: nat, e: nat)
    requires
        size(a) <= m * pow2(e),
        size(b) <= n * pow2(e),
        m + n < 0x20_0000_0000_0000,
    ensures
        size(sum(a, b)) <= (m + n) * pow2(e),
        a >= 0 && b >= 0 ==> sum(a, b) >= 0,
{
    assert((m + n) * pow2(e) == m * pow2(e) + n * pow2(e)) by (nonlinear_arith);
    lemma_nearest_bounds(size(a + b), 1, m + n, e);
}

/// The size of a number rounded to an integer.
pub proof fn lemma_rounded_range(a: int, k: nat)
    requires
        a <= pow2(1074 + k),
    ensures
        rounded(a) <= pow2(k),
        a >= 0 ==> rounded(a) >= 0,
{
    let u = unit();
    lemma_pow2_pos(1074);
    lemma_pow2_pos(k);
    lemma_pow2_adds(k, 1074);
    if a >= 0 {
        let q = (2 * a + u) / (2 * u);
        assert(a * 2 + u == 2 * a + u);
        lemma_fundamental_div_mod(2 * a + u, 2 * u);
        assert(0 <= q <= pow2(k)) by (nonlinear_arith)
            requires
                2 * a + u == (2 * u) * q + (2 * a + u) % (2 * u),
                0 <= (2 * a + u) % (2 * u) < 2 * u,
                0 <= a <= pow2(k) * u,
                u > 0,
        ;
    } else {
        let b = -a;
        let q = (2 * b + u) / (2 * u);
        assert(-a * 2 + u == 2 * b + u);
        lemma_fundamental_div_mod(2 * b + u, 2 * u);
        assert(0 <= q) by (nonlinear_arith)
            requires
                2 * b + u == (2 * u) * q + (2 * b + u) % (2 * u),
                0 <= (2 * b + u) % (2 * u) < 2 * u,
                0 <= b,
                u > 0,
        ;
    }
}

/// The quotient of nothing is nothing, and of a negative number negative.
pub proof fn lemma_quotient_sign(a: int, b: int)
    requires
        b > 0,
        a <= 0,
    ensures
        quotient(a, b) <= 0,
        a == 0 ==> quotient(a, b) == 0,
{
    let u = unit();
    lemma_pow2_pos(1074);
    assert(a < 0 ==> a * u < 0) by (nonlinear_arith)
        requires
            u > 0,
    ;
    if a == 0 {
        lemma_multiple(0, b as nat);
        lemma_whole(0, 0);
        assert(0 * u == 0) by (nonlinear_arith);
        assert((b as nat) * 0 == 0) by (nonlinear_arith);
    }
}

/// A rounded fraction is off by half a step at most, or by one part in 2^53 of
/// what it is.
pub proof fn lemma_nearest_error(num: nat, den: nat)
    requires
        den > 0,
    ensures
        0x20_0000_0000_0000 * size(nearest_magnitude(num, den) * den - num) <= 0x10_0000_0000_0000 * den + num,
{
    let x = num / den;
    let s = scale(x);
    let w = pow2(s);
    let dw = den * w;
    let k = num / dw;
    let r = num % dw;
    let h = half_even(num, dw);
    let q: nat = 0x10_0000_0000_0000;
    lemma_pow2_pos(s);
    lemma_scale_floor(x);
    lemma2_to64();
    assert(dw > 0) by (nonlinear_arith)
        requires
            dw == den * w,
            den > 0,
            w > 0,
    ;
    lemma_fundamental_div_mod(num as int, dw as int);
    lemma_fundamental_div_mod(num as int, den as int);
    let e = (h * w) * den - num;
    assert((h * w) * den == h * dw) by (nonlinear_arith)
        requires
            dw == den * w,
    ;
    assert(-dw <= 2 * e <= dw) by (nonlinear_arith)
        requires
            e == h * dw - num,
            num == dw * k + r,
            0 <= r < dw,
            (h == k && 2 * r <= dw) || (h == k + 1 && 2 * r >= dw),
    ;
    if s == 0 {
        assert(dw == den) by (nonlinear_arith)
            requires
                dw == den * w,
                w == 1,
        ;
    } else {
        assert(q * dw <= num) by (nonlinear_arith)
            requires
                dw == den * w,
                q * w <= x,
                num == den * x + num % den,
                num % den >= 0,
        ;
    }
}

/// A number rounded to an integer is off by half at most.
pub proof fn lemma_rounded_error(a: int)
    requires
        a >= 0,
    ensures
        -unit() <= 2 * (rounded(a) * unit() - a) <= unit(),
        rounded(a) >= 0,
{
    let u = unit();
    lemma_pow2_pos(1074);
    let q = (a * 2 + u) / (2 * u);
    lemma_fundamental_div_mod(a * 2 + u, 2 * u);
    assert(-u <= 2 * (q * u - a) <= u && q >= 0) by (nonlinear_arith)
        requires
            a * 2 + u == (2 * u) * q + (a * 2 + u) % (2 * u),
            0 <= (a * 2 + u) % (2 * u) < 2 * u,
            a >= 0,
            u > 0,
    ;
}

/// One and so many parts of a whole, as it is computed: off by a part in 2^50 at
/// most.
pub proof fn lemma_raised_factor(c: int, whole: int)
    requires
        0 <= c <= whole <= 200,
        whole >= 1,
    ensures
        ({
            let f = sum(of_int(1), quotient(of_int(c), of_int(whole)));
            let off = whole * f - (whole + c) * unit();
            &&& 0 <= f <= 3 * unit()
            &&& -1_000 * unit() <= 0x20_0000_0000_0000 * off <= 1_000 * unit()
        }),
{
    let u = unit();
    let big: int = 0x10_0000_0000_0000;
    lemma2_to64();
    lemma2_to64_rest();
    lemma_pow2_adds(64, 1010);
    lemma_pow2_pos(1010);
    assert(u >= 0x1_0000_0000_0000_0000) by (nonlinear_arith)
        requires
            u == 0x1_0000_0000_0000_0000 * pow2(1010),
            pow2(1010) >= 1,
    ;
    lemma_of_int_exact(c);
    lemma_of_int_exact(whole);
    lemma_of_int_exact(1);
    let a = c * u;
    let b = whole * u;
    assert(a >= 0 && b > 0) by (nonlinear_arith)
        requires
            a == c * u,
            b == whole * u,
            c >= 0,
            whole >= 1,
            u > 0,
    ;
    let num = a * u;
    assert(num >= 0) by (nonlinear_arith)
        requires
            num == a * u,
            a >= 0,
            u > 0,
    ;
    let q = quotient(a, b);
    lemma_nearest_error(num as nat, b as nat);
    assert(q == nearest_magnitude(num as nat, b as nat));
    let e1 = q * b - num;
    let d1 = whole * q - c * u;
    assert(e1 == u * d1) by (nonlinear_arith)
        requires
            e1 == q * b - num,
            b == whole * u,
            num == a * u,
            a == c * u,
            d1 == whole * q - c * u,
    ;
    assert(big * b + num == u * (big * whole + c * u)) by (nonlinear_arith)
        requires
            b == whole * u,
            num == a * u,
            a == c * u,
    ;
    let k = big * whole + c * u;
    let t = 2 * big * d1;
    assert(2 * big * e1 == u * t) by (nonlinear_arith)
        requires
            e1 == u * d1,
            t == 2 * big * d1,
    ;
    assert(-(u * k) <= 2 * big * e1 <= u * k);
    assert(t <= k) by (nonlinear_arith)
        requires
            u * t <= u * k,
            u > 0,
    ;
    assert(-k <= t) by (nonlinear_arith)
        requires
            -(u * k) <= u * t,
            u > 0,
    ;
    assert(c * u <= whole * u) by (nonlinear_arith)
        requires
            c <= whole,
            u > 0,
    ;
    assert(d1 <= whole + b);
    assert(q <= 3 * u) by (nonlinear_arith)
        requires
            whole * q <= whole + 2 * (whole * u),
            whole >= 1,
            u >= 1,
    ;
    assert(2 * big * (whole * q) <= big * whole + (2 * big + 1) * (c * u)) by (nonlinear_arith)
        requires
            t == 2 * big * d1,
            d1 == whole * q - c * u,
            t <= big * whole + c * u,
    ;
    assert((2 * big + 1) * (c * u) <= (2 * big + 1) * (whole * u)) by (nonlinear_arith)
        requires
            c * u <= whole * u,
            big > 0,
    ;
    assert(2 * big * q <= big + (2 * big + 1) * u) by (nonlinear_arith)
        requires
            2 * big * (whole * q) <= big * whole + (2 * big + 1) * (whole * u),
            whole >= 1,
    ;
    assert(0 <= q);
    assert(q <= u + u / 1_000);
    let f = sum(u, q);
    lemma_nearest_error((u + q) as nat, 1);
    assert(nearest_magnitude((u + q) as nat, 1) * 1 == nearest_magnitude((u + q) as nat, 1)) by (nonlinear_arith);
    assert(of_int(1) == u);
    assert(f == nearest_magnitude((u + q) as nat, 1));
    let d2 = f - (u + q);
    assert(2 * big * size(d2) <= big + u + q);
    assert(0 <= f <= 3 * u);
    let off = whole * f - (whole + c) * u;
    assert(off == whole * d2 + d1) by (nonlinear_arith)
        requires
            off == whole * f - (whole + c) * u,
            d2 == f - (u + q),
            d1 == whole * q - c * u,
    ;
    let z = 2 * big * d2;
    assert(-(big + u + q) <= z <= big + u + q);
    assert(-(whole * (big + u + q)) <= whole * z <= whole * (big + u + q)) by (nonlinear_arith)
        requires
            -(big + u + q) <= z <= big + u + q,
            whole >= 1,
    ;
    assert(2 * big * (whole * d2) == whole * z) by (nonlinear_arith)
        requires
            z == 2 * big * d2,
    ;
    assert(whole * (big + u + q) <= 200 * (big + u + q)) by (nonlinear_arith)
        requires
            0 <= whole <= 200,
            big + u + q >= 0,
    ;
    assert(c * u <= 200 * u) by (nonlinear_arith)
        requires
            c <= 200,
            u > 0,
    ;
    assert(2 * big * off == 2 * big * (whole * d2) + 2 * big * d1) by (nonlinear_arith)
        requires
            off == whole * d2 + d1,
    ;
}

/// A number raised by so many parts of a whole, as it is computed: off by half a
/// part of one at most, for anything up to 2^40.
pub proof fn lemma_raised(a: int, c: int, whole: int)
    requires
        0 <= a <= 0x100_0000_0000 * unit(),
        0 <= c <= whole <= 200,
        whole >= 1,
    ensures
        ({
            let r = product(a, sum(of_int(1), quotient(of_int(c), of_int(whole))));
            &&& r >= 0
            &&& -unit() <= 2 * (whole * r - a * (whole + c)) <= unit()
        }),
{
    let u = unit();
    let big: int = 0x10_0000_0000_0000;
    let f = sum(of_int(1), quotient(of_int(c), of_int(whole)));
    let r = product(a, f);
    lemma2_to64();
    lemma2_to64_rest();
    lemma_pow2_adds(64, 1010);
    lemma_pow2_pos(1010);
    assert(u >= 0x1_0000_0000_0000_0000) by (nonlinear_arith)
        requires
            u == 0x1_0000_0000_0000_0000 * pow2(1010),
            pow2(1010) >= 1,
    ;
    lemma_raised_factor(c, whole);
    let num = a * f;
    assert(0 <= num <= a * (3 * u)) by (nonlinear_arith)
        requires
            num == a * f,
            a >= 0,
            0 <= f <= 3 * u,
    ;
    lemma_nearest_error(num as nat, u as nat);
    assert(r == nearest_magnitude(num as nat, u as nat));
    let e = r * u - num;
    let off = whole * f - (whole + c) * u;
    let d = whole * r - a * (whole + c);
    assert(u * d == whole * e + a * off) by (nonlinear_arith)
        requires
            e == r * u - num,
            num == a * f,
            off == whole * f - (whole + c) * u,
            d == whole * r - a * (whole + c),
    ;
    let x = 0x100_0000_0000int;
    assert(a * (3 * u) <= (3 * x) * (u * u)) by (nonlinear_arith)
        requires
            a <= x * u,
            u > 0,
    ;
    assert(big * u <= u * u) by (nonlinear_arith)
        requires
            big <= u,
            u > 0,
    ;
    assert(-(200 * (big * u + (3 * x) * (u * u))) <= 2 * big * (whole * e) <= 200 * (big * u + (3 * x) * (u * u)))
        by (nonlinear_arith)
        requires
            2 * big * size(e) <= big * u + num,
            num <= (3 * x) * (u * u),
            size(e) >= e,
            size(e) >= -e,
            1 <= whole <= 200,
            u > 0,
            big > 0,
            x > 0,
    ;
    assert(-((1_000 * x) * (u * u)) <= 2 * big * (a * off) <= (1_000 * x) * (u * u)) by (nonlinear_arith)
        requires
            -1_000 * u <= 2 * big * off <= 1_000 * u,
            0 <= a <= x * u,
            u > 0,
            big > 0,
    ;
    assert(2 * big * (u * d) == 2 * big * (whole * e) + 2 * big * (a * off)) by (nonlinear_arith)
        requires
            u * d == whole * e + a * off,
    ;
    let lim = 200 * (big * u) + (1_600 * x) * (u * u);
    assert(200 * (big * u + (3 * x) * (u * u)) + (1_000 * x) * (u * u) == lim) by (nonlinear_arith)
        requires
            lim == 200 * (big * u) + (1_600 * x) * (u * u),
    ;
    assert(lim <= big * (u * u)) by (nonlinear_arith)
        requires
            lim == 200 * (big * u) + (1_600 * x) * (u * u),
            x == 0x100_0000_0000,
            big == 0x10_0000_0000_0000,
            u >= 0x1_0000_0000_0000_0000,
    ;
    assert(-u <= 2 * d <= u) by (nonlinear_arith)
        requires
            -(big * (u * u)) <= 2 * big * (u * d) <= big * (u * u),
            u > 0,
            big > 0,
    ;
}

/// A number divided by an integer: off by a part in 2^53 at most.
pub proof fn lemma_quotient_error(a: int, n: int)
    requires
        a >= 0,
        1 <= n < 0x20_0000_0000_0000,
    ensures
        quotient(a, of_int(n)) >= 0,
        0x20_0000_0000_0000 * size(n * quotient(a, of_int(n)) - a) <= 0x10_0000_0000_0000 * n + a,
{
    let u = unit();
    let big: int = 0x10_0000_0000_0000;
    lemma_pow2_pos(1074);
    lemma_of_int_exact(n);
    let b = n * u;
    let num = a * u;
    assert(b > 0 && num >= 0) by (nonlinear_arith)
        requires
            b == n * u,
            num == a * u,
            n >= 1,
            a >= 0,
            u > 0,
    ;
    let q = quotient(a, b);
    lemma_nearest_error(num as nat, b as nat);
    assert(q == nearest_magnitude(num as nat, b as nat));
    let d = n * q - a;
    let k = big * n + a;
    let t = 2 * big * d;
    assert(q * b - num == u * d) by (nonlinear_arith)
        requires
            b == n * u,
            num == a * u,
            d == n * q - a,
    ;
    assert(big * b + num == u * k) by (nonlinear_arith)
        requires
            b == n * u,
            num == a * u,
            k == big * n + a,
    ;
    assert(2 * big * (u * d) == u * t) by (nonlinear_arith)
        requires
            t == 2 * big * d,
    ;
    assert(t <= k) by (nonlinear_arith)
        requires
            u * t <= u * k,
            u > 0,
    ;
    assert(-k <= t) by (nonlinear_arith)
        requires
            -(u * k) <= u * t,
            u > 0,
    ;
}

/// A part of a number, in tenths, rounded to a multiple of five: off by half of
/// that at most, and by no more than a tenth through the arithmetic.
pub proof fn lemma_tenths(a: int, f: int, tenths: int)
    requires
        0 <= a <= 0x100_0000_0000 * unit(),
        1 <= tenths <= 20,
        f >= 0,
        0x20_0000_0000_0000 * size(10 * f - tenths * unit()) <= 0x10_0000_0000_0000 * 10 + tenths * unit(),
    ensures
        ({
            let t = saturated(rounded(quotient(product(a, f), of_int(5)))) * 5;
            -26 * unit() <= 10 * (t * unit()) - tenths * a <= 26 * unit()
        }),
{
    let u = unit();
    let big: int = 0x10_0000_0000_0000;
    let x0: int = 0x100_0000_0000;
    lemma2_to64();
    lemma2_to64_rest();
    lemma_pow2_adds(64, 1010);
    lemma_pow2_pos(1010);
    assert(u >= 0x1_0000_0000_0000_0000) by (nonlinear_arith)
        requires
            u == 0x1_0000_0000_0000_0000 * pow2(1010),
            pow2(1010) >= 1,
    ;
    assert(0 <= tenths * u <= 20 * u) by (nonlinear_arith)
        requires
            1 <= tenths <= 20,
            u > 0,
    ;
    let df = 10 * f - tenths * u;
    assert(f <= 3 * u);
    let num = a * f;
    assert(0 <= num <= 3 * (a * u)) by (nonlinear_arith)
        requires
            num == a * f,
            a >= 0,
            0 <= f <= 3 * u,
    ;
    lemma_nearest_error(num as nat, u as nat);
    let x = product(a, f);
    assert(x == nearest_magnitude(num as nat, u as nat));
    let e = x * u - num;
    let au = a * u;
    assert(au <= x0 * (u * u)) by (nonlinear_arith)
        requires
            au == a * u,
            a <= x0 * u,
            u > 0,
    ;
    assert(big * u <= u * u) by (nonlinear_arith)
        requires
            big <= u,
            u > 0,
    ;
    let d = 10 * x - tenths * a;
    assert(u * d == 10 * e + a * df) by (nonlinear_arith)
        requires
            e == x * u - num,
            num == a * f,
            df == 10 * f - tenths * u,
            d == 10 * x - tenths * a,
    ;
    assert(-(10 * (big * u + 3 * (x0 * (u * u)))) <= 2 * big * (10 * e) <= 10 * (big * u + 3 * (x0 * (u * u))));
    let z = 2 * big * df;
    assert(-(30 * u) <= z <= 30 * u);
    assert(-(30 * au) <= a * z <= 30 * au) by (nonlinear_arith)
        requires
            -(30 * u) <= z <= 30 * u,
            a >= 0,
            au == a * u,
    ;
    assert(2 * big * (a * df) == a * z) by (nonlinear_arith)
        requires
            z == 2 * big * df,
    ;
    assert(2 * big * (u * d) == 2 * big * (10 * e) + 2 * big * (a * df));
    let lim = 10 * (big * u) + 60 * (x0 * (u * u));
    assert(8 * lim <= big * (u * u)) by (nonlinear_arith)
        requires
            lim == 10 * (big * u) + 60 * (x0 * (u * u)),
            x0 == 0x100_0000_0000,
            big == 0x10_0000_0000_0000,
            u >= 0x1_0000_0000_0000_0000,
    ;
    assert(-u <= 4 * d <= u) by (nonlinear_arith)
        requires
            -(big * (u * u)) <= 16 * (big * (u * d)) <= big * (u * u),
            u > 0,
            big > 0,
    ;
    assert(tenths * a <= 20 * a) by (nonlinear_arith)
        requires
            tenths <= 20,
            a >= 0,
    ;
    lemma_quotient_error(x, 5);
    let q = quotient(x, of_int(5));
    lemma_rounded_error(q);
    let k = rounded(q);
    assert(x <= 3 * (x0 * u));
    let y = 5 * q - x;
    assert(-u <= 40 * y <= u);
    assert(k <= 0xffff_ffff_ffff_ffff) by (nonlinear_arith)
        requires
            2 * (k * u - q) <= u,
            q <= 4 * (x0 * u),
            x0 == 0x100_0000_0000,
            u > 0,
    ;
    assert((k * 5) * u == 5 * (k * u)) by (nonlinear_arith);
}

/// Whole numbers are added up exactly.
pub proof fn lemma_sum_exact(a: int, b: int)
    requires
        0 <= a,
        0 <= b,
        a + b < 0x20_0000_0000_0000,
    ensures
        sum(a * unit(), b * unit()) == (a + b) * unit(),
{
    lemma_of_int_exact(a + b);
    assert(a * unit() + b * unit() == (a + b) * unit()) by (nonlinear_arith);
}

} // verus!
