//! Single-precision numbers by their bits: order, and the little arithmetic that
//! the frame walkers do on times.
use vstd::arithmetic::power2::{lemma2_to64, lemma_pow2_adds, lemma_pow2_pos,
    lemma_pow2_strictly_increases, lemma_pow2_unfold, pow2};
use vstd::prelude::*;

verus! {

/// The bits of 1.
pub const ONE: u32 = 0x3f80_0000;

pub open spec fn negative(b: u32) -> bool {
    b >= 0x8000_0000
}

/// The bits without the sign.
pub open spec fn magnitude(b: u32) -> int {
    b as int % 0x8000_0000
}

pub open spec fn exponent(b: u32) -> int {
    magnitude(b) / 0x80_0000
}

pub open spec fn fraction(b: u32) -> int {
    b as int % 0x80_0000
}

/// Neither an infinity nor a NaN.
pub open spec fn finite(b: u32) -> bool {
    exponent(b) != 0xff
}

/// A number that orders finite values by their bits.
pub open spec fn key(b: u32) -> int {
    if negative(b) {
        -magnitude(b)
    } else {
        magnitude(b)
    }
}

/// The significand: the fraction with the leading one of a normal number.
pub open spec fn significand(b: u32) -> int {
    if exponent(b) == 0 {
        fraction(b)
    } else {
        fraction(b) + 0x80_0000
    }
}

/// The power of two, in units of the smallest number, that scales the significand.
pub open spec fn scale(b: u32) -> int {
    if exponent(b) == 0 {
        0
    } else {
        exponent(b) - 1
    }
}

/// A finite value, in units of the smallest positive number.
pub open spec fn value(b: u32) -> int {
    let v = significand(b) * pow2(scale(b) as nat);
    if negative(b) {
        -v
    } else {
        v
    }
}

proof fn lemma_significand(b: u32)
    ensures
        0 <= significand(b) < 0x100_0000,
        exponent(b) > 0 ==> significand(b) >= 0x80_0000,
        0 <= scale(b) <= 254,
        magnitude(b) == exponent(b) * 0x80_0000 + fraction(b),
        0 <= exponent(b) <= 255,
        0 <= fraction(b) < 0x80_0000,
{
}

proof fn lemma_magnitude_order(a: u32, b: u32)
    requires
        magnitude(a) < magnitude(b),
    ensures
        significand(a) * pow2(scale(a) as nat) < significand(b) * pow2(scale(b) as nat),
{
    lemma_significand(a);
    lemma_significand(b);
    let pa = pow2(scale(a) as nat) as int;
    let pb = pow2(scale(b) as nat) as int;
    let sa = significand(a);
    let sb = significand(b);
    lemma_pow2_pos(scale(a) as nat);
    lemma_pow2_pos(scale(b) as nat);
    if scale(a) == scale(b) {
        assert(sa < sb);
        assert(sa * pa < sb * pa) by (nonlinear_arith)
            requires
                sa < sb,
                pa > 0,
        ;
    } else {
        assert(scale(a) + 1 <= scale(b));
        lemma_pow2_unfold((scale(a) + 1) as nat);
        if scale(a) + 1 < scale(b) {
            lemma_pow2_strictly_increases((scale(a) + 1) as nat, scale(b) as nat);
        }
        assert(2 * pa <= pb);
        assert(sa * pa < sb * pb) by (nonlinear_arith)
            requires
                0 <= sa < 0x100_0000,
                sb >= 0x80_0000,
                2 * pa <= pb,
                pa > 0,
        ;
    }
}

/// Values are ordered as their keys are.
pub proof fn law_key_order(a: u32, b: u32)
    requires
        finite(a),
        finite(b),
    ensures
        key(a) < key(b) <==> value(a) < value(b),
        key(a) == key(b) <==> value(a) == value(b),
{
    lemma_sign(a);
    lemma_sign(b);
    if magnitude(a) < magnitude(b) {
        lemma_magnitude_order(a, b);
    }
    if magnitude(b) < magnitude(a) {
        lemma_magnitude_order(b, a);
    }
    if magnitude(a) == magnitude(b) {
        lemma_same_magnitude(a, b);
    }
}

proof fn lemma_same_magnitude(a: u32, b: u32)
    requires
        magnitude(a) == magnitude(b),
    ensures
        significand(a) == significand(b),
        scale(a) == scale(b),
{
    lemma_significand(a);
    lemma_significand(b);
    assert(fraction(a) == magnitude(a) % 0x80_0000);
    assert(fraction(b) == magnitude(b) % 0x80_0000);
}

proof fn lemma_sign(b: u32)
    ensures
        significand(b) * pow2(scale(b) as nat) >= 0,
        significand(b) * pow2(scale(b) as nat) == 0 <==> magnitude(b) == 0,
{
    lemma_significand(b);
    lemma_pow2_pos(scale(b) as nat);
    let s = significand(b);
    let p = pow2(scale(b) as nat) as int;
    assert(s * p >= 0 && (s * p == 0 <==> s == 0)) by (nonlinear_arith)
        requires
            s >= 0,
            p > 0,
    ;
    assert(s == 0 <==> magnitude(b) == 0);
}

pub fn is_finite(b: u32) -> (r: bool)
    ensures
        r == finite(b),
{
    (b % 0x8000_0000) / 0x80_0000 != 0xff
}

pub fn order_key(b: u32) -> (r: i64)
    ensures
        r == key(b),
{
    if b >= 0x8000_0000 {
        -((b - 0x8000_0000) as i64)
    } else {
        b as i64
    }
}

/// `x` in whole units of `u`, rounded to nearest, halves to even.
pub open spec fn nearest_even(x: int, u: int) -> int {
    let q = x / u;
    let r = x % u;
    if 2 * r > u || (2 * r == u && q % 2 == 1) {
        q + 1
    } else {
        q
    }
}

/// The unit in which times a little below 1 are spaced: two to the minus 24.
pub open spec fn unit() -> int {
    pow2(125) as int
}

/// The single-precision difference of a value from -1 to 1024 and 1, in units of
/// two to the minus 24. From one half on the difference is exact; below, it is
/// rounded to 24 significant bits, that is to the unit above zero and to two of
/// them at or below zero.
pub open spec fn less_one(b: u32) -> int {
    let x = value(b);
    if x >= 0x80_0000 * unit() {
        x / unit() - 0x100_0000
    } else if x > 0 {
        nearest_even(x, unit()) - 0x100_0000
    } else {
        -2 * nearest_even(-x, 2 * unit()) - 0x100_0000
    }
}

/// Whether a time is no earlier than one second before another, in single
/// precision.
pub open spec fn within_second(time: u32, last: u32) -> bool {
    value(time) >= less_one(last) * unit()
}

proof fn lemma_div_scale(a: int, b: int, c: int)
    requires
        0 <= a,
        0 < b,
        0 < c,
    ensures
        (a * c) / (b * c) == a / b,
        (a * c) % (b * c) == (a % b) * c,
{
    vstd::arithmetic::div_mod::lemma_truncate_middle(a, b, c);
    vstd::arithmetic::mul::lemma_mul_is_commutative(a, c);
    vstd::arithmetic::mul::lemma_mul_is_commutative(b, c);
    vstd::arithmetic::mul::lemma_mul_is_commutative(a % b, c);
    let q = a / b;
    let r = a % b;
    vstd::arithmetic::div_mod::lemma_fundamental_div_mod(a, b);
    assert(a * c == (b * c) * q + r * c) by (nonlinear_arith)
        requires
            a == b * q + r,
    ;
    assert(0 <= r * c < b * c) by (nonlinear_arith)
        requires
            0 <= r < b,
            0 < c,
    ;
    vstd::arithmetic::div_mod::lemma_fundamental_div_mod_converse(a * c, b * c, q, r * c);
}

/// The significand and scale of a number, and two to the shift between its scale
/// and the unit's.
fn parts(b: u32) -> (r: (u64, u32))
    ensures
        r.0 == significand(b),
        r.1 == scale(b),
{
    let e: u32 = (b % 0x8000_0000) / 0x80_0000;
    let f: u64 = (b % 0x80_0000) as u64;
    proof {
        lemma_significand(b);
    }
    if e == 0 {
        (f, 0)
    } else {
        (f + 0x80_0000, e - 1)
    }
}

fn two_to(n: u32) -> (r: u64)
    requires
        n <= 32,
    ensures
        r == pow2(n as nat),
        1 <= r <= 0x1_0000_0000,
{
    proof {
        lemma2_to64();
        lemma_pow2_pos(n as nat);
        if n < 32 {
            lemma_pow2_strictly_increases(n as nat, 32);
        }
        vstd::bits::lemma_u64_shl_is_mul(1, n as u64);
    }
    1u64 << (n as u64)
}

/// The whole units in a value, rounded down.
fn floor_units(b: u32) -> (r: i64)
    requires
        scale(b) <= 136,
    ensures
        r == value(b) / unit(),
        -0x10_0000_0000 < r < 0x10_0000_0000,
{
    let (m, s) = parts(b);
    let neg = b >= 0x8000_0000;
    proof {
        lemma_significand(b);
        lemma2_to64();
        lemma_pow2_pos(125);
    }
    if s >= 125 {
        let w: u64 = two_to(s - 125);
        proof {
            if s - 125 < 11 {
                lemma_pow2_strictly_increases((s - 125) as nat, 11);
            }
            lemma_pow2_adds(125, (s - 125) as nat);
            let v = m * w;
            assert(0 <= m * w <= 0x100_0000 * 0x800) by (nonlinear_arith)
                requires
                    0 <= m < 0x100_0000,
                    0 <= w <= 0x800,
            ;
            assert(m * pow2(s as nat) == (m * w) * unit()) by (nonlinear_arith)
                requires
                    pow2(s as nat) == pow2(125) * w,
                    unit() == pow2(125),
            ;
            vstd::arithmetic::div_mod::lemma_div_multiples_vanish(m * w, unit());
            vstd::arithmetic::div_mod::lemma_div_multiples_vanish(-(m * w), unit());
            vstd::arithmetic::mul::lemma_mul_is_commutative(m * w, unit());
            vstd::arithmetic::mul::lemma_mul_is_commutative(-(m * w), unit());
            assert((-(m * w)) * unit() == -((m * w) * unit())) by (nonlinear_arith);
        }
        let v: i64 = (m * w) as i64;
        if neg {
            -v
        } else {
            v
        }
    } else {
        let sh: u32 = 125 - s;
        proof {
            lemma_pow2_adds(s as nat, sh as nat);
            lemma_pow2_pos(s as nat);
            lemma_pow2_pos(sh as nat);
            assert(unit() == pow2(sh as nat) * pow2(s as nat)) by (nonlinear_arith)
                requires
                    unit() == pow2(s as nat) * pow2(sh as nat),
            ;
            lemma_div_scale(m as int, pow2(sh as nat) as int, pow2(s as nat) as int);
        }
        let (q, exact): (u64, bool) = if sh >= 25 {
            proof {
                if sh > 25 {
                    lemma_pow2_strictly_increases(25, sh as nat);
                }
                lemma_pow2_adds(24, 1);
                vstd::arithmetic::div_mod::lemma_small_mod(m as nat, pow2(sh as nat));
                vstd::arithmetic::div_mod::lemma_basic_div(m as int, pow2(sh as nat) as int);
            }
            (0, m == 0)
        } else {
            let w: u64 = two_to(sh);
            proof {
                let w0 = w as int;
                assert(m / w <= m) by (nonlinear_arith)
                    requires
                        w >= 1,
                ;
            }
            (m / w, m % w == 0)
        };
        proof {
            let x = m * pow2(s as nat);
            let r = (m as int % pow2(sh as nat) as int) * pow2(s as nat);
            assert(x / unit() == q);
            assert(x % unit() == r);
            assert((m as int % pow2(sh as nat) as int == 0) == exact);
            assert(r == 0 <==> exact) by (nonlinear_arith)
                requires
                    r == (m as int % pow2(sh as nat) as int) * pow2(s as nat),
                    (m as int % pow2(sh as nat) as int == 0) == exact,
                    pow2(s as nat) > 0,
            ;
            let u = unit();
            assert((-x) / u == if x % u == 0 {
                -(x / u)
            } else {
                -(x / u) - 1
            }) by {
                vstd::arithmetic::div_mod::lemma_fundamental_div_mod(x, u);
                let qq = x / u;
                let rr = x % u;
                if rr == 0 {
                    assert(-x == u * (-qq) + 0) by (nonlinear_arith)
                        requires
                            x == u * qq,
                    ;
                    vstd::arithmetic::div_mod::lemma_fundamental_div_mod_converse(-x, u, -qq, 0);
                } else {
                    assert(-x == u * (-qq - 1) + (u - rr)) by (nonlinear_arith)
                        requires
                            x == u * qq + rr,
                    ;
                    vstd::arithmetic::div_mod::lemma_fundamental_div_mod_converse(
                        -x,
                        u,
                        -qq - 1,
                        u - rr,
                    );
                }
            }
        }
        if !neg {
            q as i64
        } else if exact {
            -(q as i64)
        } else {
            -(q as i64) - 1
        }
    }
}

/// A significand shifted down, rounded to nearest, halves to even.
fn round_shift(m: u64, sh: u32) -> (r: i64)
    requires
        m < 0x100_0000,
    ensures
        r == nearest_even(m as int, pow2(sh as nat) as int),
        0 <= r <= 0x100_0000,
{
    proof {
        lemma2_to64();
        lemma_pow2_pos(sh as nat);
    }
    if sh >= 26 {
        proof {
            if sh > 26 {
                lemma_pow2_strictly_increases(26, sh as nat);
            }
            lemma_pow2_adds(24, 2);
            vstd::arithmetic::div_mod::lemma_small_mod(m as nat, pow2(sh as nat));
            vstd::arithmetic::div_mod::lemma_basic_div(m as int, pow2(sh as nat) as int);
        }
        return 0;
    }
    let w: u64 = two_to(sh);
    let q: u64 = m / w;
    let r: u64 = m % w;
    proof {
        assert(m / w <= m) by (nonlinear_arith)
            requires
                w >= 1,
        ;
        assert(r < w);
    }
    if 2 * r > w || (2 * r == w && q % 2 == 1) {
        q as i64 + 1
    } else {
        q as i64
    }
}

proof fn lemma_nearest_scale(m: int, u: int, c: int)
    requires
        0 <= m,
        0 < u,
        0 < c,
    ensures
        nearest_even(m * c, u * c) == nearest_even(m, u),
{
    lemma_div_scale(m, u, c);
    let r = m % u;
    assert(2 * (r * c) > u * c <==> 2 * r > u) by (nonlinear_arith)
        requires
            0 < c,
    ;
    assert(2 * (r * c) == u * c <==> 2 * r == u) by (nonlinear_arith)
        requires
            0 < c,
    ;
}

/// Below one half in magnitude, or exactly 1: the difference from 1 in units.
fn rounded_less_one(b: u32) -> (r: i64)
    requires
        -magnitude(ONE) <= key(b) < 0x3f00_0000,
    ensures
        r == less_one(b),
        -0x1000_0000 < r < 0x1000_0000,
{
    let (m, s) = parts(b);
    proof {
        lemma_significand(b);
        lemma2_to64();
        lemma_half(b);
        lemma_sign(b);
    }
    if b >= 0x8000_0000 || b == 0 {
        proof {
            assert(s <= 126);
            lemma_pow2_adds(s as nat, (126 - s) as nat);
            lemma_pow2_unfold(126);
            lemma_pow2_pos((126 - s) as nat);
            lemma_pow2_pos(s as nat);
            assert(2 * unit() == pow2((126 - s) as nat) * pow2(s as nat)) by (nonlinear_arith)
                requires
                    2 * unit() == pow2(126),
                    pow2(126) == pow2(s as nat) * pow2((126 - s) as nat),
            ;
            lemma_nearest_scale(m as int, pow2((126 - s) as nat) as int, pow2(s as nat) as int);
        }
        let q: i64 = round_shift(m, 126 - s);
        -2 * q - 0x100_0000
    } else {
        proof {
            assert(s <= 125);
            lemma_pow2_adds(s as nat, (125 - s) as nat);
            lemma_pow2_pos((125 - s) as nat);
            lemma_pow2_pos(s as nat);
            assert(unit() == pow2((125 - s) as nat) * pow2(s as nat)) by (nonlinear_arith)
                requires
                    unit() == pow2(s as nat) * pow2((125 - s) as nat),
            ;
            lemma_nearest_scale(m as int, pow2((125 - s) as nat) as int, pow2(s as nat) as int);
        }
        let q: i64 = round_shift(m, 125 - s);
        q - 0x100_0000
    }
}

/// One half, against the middle of the three cases.
proof fn lemma_half(b: u32)
    requires
        finite(b),
    ensures
        value(b) >= 0x80_0000 * unit() <==> key(b) >= 0x3f00_0000,
{
    let half: u32 = 0x3f00_0000;
    law_key_order(b, half);
    assert(exponent(half) == 126 && fraction(half) == 0);
    assert(value(half) == 0x80_0000 * unit());
}

/// Whether `time` is no earlier than one second before `last`.
pub fn is_within_second(time: u32, last: u32) -> (r: bool)
    requires
        finite(time),
        finite(last),
        key(time) < 0x4480_0000,
        -magnitude(ONE) <= key(last) < 0x4480_0000,
    ensures
        r == within_second(time, last),
{
    proof {
        lemma_significand(time);
        lemma_significand(last);
        lemma2_to64();
        lemma_pow2_pos(125);
        lemma_half(last);
    }
    let bound: i64 = if order_key(last) >= 0x3f00_0000 {
        assert(scale(last) <= 136);
        floor_units(last) - 0x100_0000
    } else {
        rounded_less_one(last)
    };
    assert(bound == less_one(last));
    let (m, s) = parts(time);
    if s > 136 {
        // Far below any bound.
        proof {
            assert(negative(time));
            assert(m >= 0x80_0000);
            lemma_pow2_adds(125, (s - 125) as nat);
            lemma_pow2_strictly_increases(11, (s - 125) as nat);
            let w = pow2((s - 125) as nat) as int;
            assert(m * pow2(s as nat) == (m * w) * unit()) by (nonlinear_arith)
                requires
                    pow2(s as nat) == pow2(125) * w,
                    unit() == pow2(125),
            ;
            assert(m * w >= 0x80_0000 * 0x800) by (nonlinear_arith)
                requires
                    m >= 0x80_0000,
                    w >= 0x800,
            ;
            let mw = m * w;
            assert(-(mw * unit()) < bound * unit()) by (nonlinear_arith)
                requires
                    mw >= 0x4_0000_0000,
                    bound > -0x2_0000_0000,
                    unit() > 0,
            ;
        }
        return false;
    }
    let f: i64 = floor_units(time);
    proof {
        let v = value(time);
        let u = unit();
        vstd::arithmetic::div_mod::lemma_fundamental_div_mod(v, u);
        let b0 = bound as int;
        let f0 = f as int;
        let rem = v % u;
        assert(v >= b0 * u <==> f0 >= b0) by (nonlinear_arith)
            requires
                v == u * f0 + rem,
                0 <= rem < u,
        ;
    }
    f >= bound
}

/// `n` doubled until it has 24 bits.
fn normalize(n: u32) -> (r: (u32, u32))
    requires
        0 < n < 0x100_0000,
    ensures
        r.1 <= 23,
        r.0 == n * pow2(r.1 as nat),
        0x80_0000 <= r.0 < 0x100_0000,
{
    let mut m: u32 = n;
    let mut k: u32 = 0;
    proof {
        lemma2_to64();
    }
    while m < 0x80_0000
        invariant
            0 < n <= m < 0x100_0000,
            m == n * pow2(k as nat),
            k <= 23,
        decreases 0x100_0000 - m,
    {
        proof {
            lemma_pow2_unfold((k + 1) as nat);
            assert(n * (2 * pow2(k as nat)) == 2 * (n * pow2(k as nat))) by (nonlinear_arith);
            if k >= 23 {
                lemma2_to64();
                assert(n * pow2(23) >= 0x80_0000) by (nonlinear_arith)
                    requires
                        n >= 1,
                        pow2(23) == 0x80_0000,
                ;
            }
        }
        m = m * 2;
        k = k + 1;
    }
    (m, k)
}

/// Whether `b` is `n` divided by two to the `k`, without a minus sign on zero.
pub open spec fn is_ratio(b: u32, n: int, k: int) -> bool {
    finite(b) && value(b) * pow2(k as nat) == n * pow2(149) && (n == 0 ==> b == 0)
}

/// The bits of `n` divided by two to the `k`.
pub open spec fn ratio_bits(n: int, k: int) -> u32 {
    choose|b: u32| is_ratio(b, n, k)
}

/// There is only one such number.
pub proof fn law_ratio_unique(a: u32, b: u32, n: int, k: int)
    requires
        is_ratio(a, n, k),
        is_ratio(b, n, k),
        k >= 0,
    ensures
        a == b,
{
    if n != 0 {
        lemma_pow2_pos(k as nat);
        lemma_pow2_pos(149);
        let p = pow2(k as nat) as int;
        let va = value(a);
        let vb = value(b);
        assert(va == vb) by (nonlinear_arith)
            requires
                va * p == vb * p,
                p > 0,
        ;
        assert(va != 0) by (nonlinear_arith)
            requires
                va * p == n * pow2(149),
                n != 0,
                pow2(149) > 0,
        ;
        law_value_decides(a, b);
    }
}

/// The bits of `n` divided by two to the `k`; the quotient is exact.
pub fn from_ratio(n: i32, k: u32) -> (b: u32)
    requires
        -0x100_0000 < n < 0x100_0000,
        k <= 100,
    ensures
        is_ratio(b, n as int, k as int),
        b == ratio_bits(n as int, k as int),
{
    let b: u32 = exact_ratio(n, k);
    proof {
        law_ratio_unique(b, ratio_bits(n as int, k as int), n as int, k as int);
    }
    b
}

fn exact_ratio(n: i32, k: u32) -> (b: u32)
    requires
        -0x100_0000 < n < 0x100_0000,
        k <= 100,
    ensures
        is_ratio(b, n as int, k as int),
{
    if n == 0 {
        proof {
            assert(value(0) == 0) by {
                assert(significand(0) == 0);
                assert(0 * pow2(scale(0) as nat) == 0);
            }
            assert(value(0) * pow2(k as nat) == 0) by (nonlinear_arith)
                requires
                    value(0) == 0,
            ;
            assert(0 * pow2(149) == 0);
        }
        return 0;
    }
    let a: u32 = if n < 0 {
        (-n) as u32
    } else {
        n as u32
    };
    let (m, sh) = normalize(a);
    let e: u32 = 150 - sh - k;
    let mag: u32 = e * 0x80_0000 + (m - 0x80_0000);
    let b: u32 = if n < 0 {
        mag + 0x8000_0000
    } else {
        mag
    };
    proof {
        assert(magnitude(b) == mag);
        assert(exponent(b) == e);
        assert(fraction(b) == m - 0x80_0000);
        assert(significand(b) == m);
        let s = (e - 1) as nat;
        assert(scale(b) == s);
        // m * 2^s * 2^k == a * 2^149, where s + k + sh == 149.
        lemma_pow2_adds(s, k as nat);
        lemma_pow2_adds(sh as nat, s + k as nat);
        let ps = pow2(s) as int;
        let pk = pow2(k as nat) as int;
        let ph = pow2(sh as nat) as int;
        assert((m * ps) * pk == a * pow2(149)) by (nonlinear_arith)
            requires
                m == a * ph,
                pow2(149) == ph * (ps * pk),
        ;
        assert((-(m * ps)) * pk == -(a * pow2(149))) by (nonlinear_arith)
            requires
                (m * ps) * pk == a * pow2(149),
        ;
        assert((-a) * pow2(149) == -(a * pow2(149))) by (nonlinear_arith);
    }
    b
}

/// What the bits of a quotient by a power of two are, whoever divides: bits of
/// equal value are equal but for the sign of zero.
pub proof fn law_value_decides(a: u32, b: u32)
    requires
        finite(a),
        finite(b),
        value(a) == value(b),
        value(a) != 0,
    ensures
        a == b,
{
    law_key_order(a, b);
    lemma_sign(a);
    lemma_sign(b);
}

/// The spacing of single-precision numbers at `m`, for 24 significant bits.
pub open spec fn spacing(m: int) -> int
    decreases m,
{
    if m < 0x100_0000 {
        1
    } else {
        2 * spacing(m / 2)
    }
}

/// `m` rounded to 24 significant bits, halves to even.
pub open spec fn to_single(m: int) -> int {
    nearest_even(m, spacing(m)) * spacing(m)
}

/// A finite time in whole milliseconds, without its sign: the single-precision
/// product, rounded toward zero.
pub open spec fn whole_ms(b: u32) -> int {
    (to_single(1000 * significand(b)) * pow2(scale(b) as nat)) / pow2(149) as int
}

/// A time in milliseconds. What is not a number is zero, and what does not fit is
/// the nearest that does.
pub open spec fn ms_of(b: u32) -> int {
    if exponent(b) == 0xff && fraction(b) != 0 {
        0
    } else if negative(b) {
        if !finite(b) || whole_ms(b) > 0x8000_0000 {
            -0x8000_0000
        } else {
            -whole_ms(b)
        }
    } else {
        if !finite(b) || whole_ms(b) > 0x7fff_ffff {
            0x7fff_ffff
        } else {
            whole_ms(b)
        }
    }
}

fn find_spacing(m: u64) -> (u: u64)
    requires
        m < 0x4_0000_0000,
    ensures
        u == spacing(m as int),
        1 <= u <= 0x800,
{
    let mut u: u64 = 1;
    let mut h: u64 = m;
    proof {
        lemma2_to64();
    }
    while h >= 0x100_0000
        invariant
            h < 0x4_0000_0000,
            1 <= u,
            h * u <= m < 0x4_0000_0000,
            u * spacing(h as int) == spacing(m as int),
            u <= 0x800,
        decreases h,
    {
        proof {
            let h2 = (h / 2) as int;
            assert(h2 * (2 * u) <= h * u) by (nonlinear_arith)
                requires
                    2 * h2 <= h,
                    u >= 1,
            ;
            assert((2 * u) * spacing(h2) == u * (2 * spacing(h2))) by (nonlinear_arith);
            assert(u < 0x400) by (nonlinear_arith)
                requires
                    h * u < 0x4_0000_0000,
                    h >= 0x100_0000,
            ;
        }
        u = u * 2;
        h = h / 2;
    }
    u
}

fn round_single(m: u64) -> (r: u64)
    requires
        m < 0x4_0000_0000,
    ensures
        r == to_single(m as int),
        m >= 0x1_0000_0000 ==> r >= 0x1_0000_0000,
        r <= 0x8_0000_0000,
{
    let u: u64 = find_spacing(m);
    let q: u64 = m / u;
    let rem: u64 = m % u;
    proof {
        vstd::arithmetic::div_mod::lemma_fundamental_div_mod(m as int, u as int);
        assert(q * u <= m) by (nonlinear_arith)
            requires
                m == u * q + rem,
                rem >= 0,
        ;
        assert(q <= m) by (nonlinear_arith)
            requires
                q * u <= m,
                u >= 1,
                q >= 0,
        ;
        assert((q + 1) * u == q * u + u) by (nonlinear_arith);
        if m >= 0x1_0000_0000 {
            lemma_spacing_divides(m as int, u as int);
        }
    }
    if 2 * rem > u || (2 * rem == u && q % 2 == 1) {
        (q + 1) * u
    } else {
        q * u
    }
}

/// Rounding does not cross four thousand million: it is a multiple of the spacing.
proof fn lemma_spacing_divides(m: int, u: int)
    requires
        0x1_0000_0000 <= m < 0x4_0000_0000,
        u == spacing(m),
    ensures
        (m / u) * u >= 0x1_0000_0000,
{
    reveal_with_fuel(spacing, 12);
    assert(u == 0x200 || u == 0x400);
}

/// A time in milliseconds.
pub fn milliseconds(b: u32) -> (t: i32)
    ensures
        t == ms_of(b),
{
    let neg = b >= 0x8000_0000;
    let e: u32 = (b % 0x8000_0000) / 0x80_0000;
    if e == 0xff {
        return if b % 0x80_0000 != 0 {
            0
        } else if neg {
            i32::MIN
        } else {
            i32::MAX
        };
    }
    let (m, s) = parts(b);
    proof {
        lemma_significand(b);
        lemma2_to64();
        lemma_pow2_pos(149);
        lemma_pow2_pos(s as nat);
    }
    let r: u64 = round_single(1000 * m);
    let limit: u64 = 0x8000_0001;
    let whole: u64 = if s >= 149 {
        proof {
            // At least two to the 32.
            lemma_pow2_adds(149, (s - 149) as nat);
            lemma_pow2_pos((s - 149) as nat);
            let w = pow2((s - 149) as nat) as int;
            assert(r * pow2(s as nat) == (r * w) * pow2(149)) by (nonlinear_arith)
                requires
                    pow2(s as nat) == pow2(149) * w,
            ;
            vstd::arithmetic::div_mod::lemma_div_multiples_vanish(r * w, pow2(149) as int);
            vstd::arithmetic::mul::lemma_mul_is_commutative(r * w, pow2(149) as int);
            assert(r * w >= 0x1_0000_0000) by (nonlinear_arith)
                requires
                    r >= 0x1_0000_0000,
                    w >= 1,
            ;
        }
        limit
    } else {
        let sh: u32 = 149 - s;
        proof {
            lemma_pow2_adds(s as nat, sh as nat);
            lemma_pow2_pos(sh as nat);
            assert(pow2(149) == pow2(sh as nat) * pow2(s as nat)) by (nonlinear_arith)
                requires
                    pow2(149) == pow2(s as nat) * pow2(sh as nat),
            ;
            lemma_div_scale(r as int, pow2(sh as nat) as int, pow2(s as nat) as int);
        }
        if sh > 36 {
            proof {
                lemma_pow2_strictly_increases(36, sh as nat);
                lemma_pow2_adds(32, 4);
                vstd::arithmetic::div_mod::lemma_basic_div(r as int, pow2(sh as nat) as int);
            }
            0
        } else {
            proof {
                if sh > 0 && sh < 36 {
                    lemma_pow2_strictly_increases(sh as nat, 36);
                }
                lemma_pow2_adds(32, 4);
                vstd::bits::lemma_u64_shl_is_mul(1, sh as u64);
            }
            let w: u64 = 1u64 << (sh as u64);
            r / w
        }
    };
    if neg {
        if whole > 0x8000_0000 {
            i32::MIN
        } else {
            (-(whole as i64)) as i32
        }
    } else {
        if whole > 0x7fff_ffff {
            i32::MAX
        } else {
            whole as i32
        }
    }
}

} // verus!
