//! Single-precision numbers, given by their bits, in decimal.
use crate::ieee::{finite, fraction, is_finite, nearest_even, negative, scale, significand};
use crate::text::{chars_of, decimal, digit, drop_end, text_of, without_end};
use vstd::arithmetic::power2::{lemma2_to64, lemma_pow2_adds, lemma_pow2_pos,
    lemma_pow2_strictly_increases, pow2};
use vstd::prelude::*;

verus! {

/// Ten to the `n`.
pub open spec fn ten_to(n: nat) -> nat
    decreases n,
{
    if n == 0 {
        1
    } else {
        10 * ten_to((n - 1) as nat)
    }
}

/// A finite number without its sign in units of its last place, `places` behind the
/// point, rounded to nearest, halves to even. The number is its significand times
/// two to its scale less 149.
pub open spec fn in_places(b: u32, places: nat) -> nat {
    let m = significand(b) * ten_to(places);
    if scale(b) >= 149 {
        (m * pow2((scale(b) - 149) as nat)) as nat
    } else {
        nearest_even(m, pow2((149 - scale(b)) as nat) as int) as nat
    }
}

/// The last `n` digits of a number.
pub open spec fn last_digits(v: nat, n: nat) -> Seq<char>
    decreases n,
{
    if n == 0 {
        Seq::empty()
    } else {
        last_digits(v / 10, (n - 1) as nat).push(digit(v))
    }
}

/// A number with `places` digits behind the point.
pub open spec fn fixed_text(b: u32, places: nat) -> Seq<char> {
    if !finite(b) && fraction(b) != 0 {
        "NaN"@
    } else {
        let sign = if negative(b) {
            seq!['-']
        } else {
            Seq::empty()
        };
        if !finite(b) {
            sign + "inf"@
        } else {
            let v = in_places(b, places);
            sign + decimal(v / ten_to(places)) + seq!['.'] + last_digits(
                v % ten_to(places),
                places,
            )
        }
    }
}

/// A number with a fraction, without the zeros at its end and the point that they
/// leave; 0 where nothing but a sign is left.
pub open spec fn short_number(s: Seq<char>) -> Seq<char> {
    let t = without_end(without_end(s, '0'), '.');
    if t.len() == 0 || t == seq!['-'] {
        seq!['0']
    } else {
        t
    }
}

fn shorten_number(text: &str) -> (r: String)
    ensures
        r@ == short_number(text@),
{
    let mut v = chars_of(text);
    drop_end(&mut v, '0');
    drop_end(&mut v, '.');
    if v.len() == 0 || (v.len() == 1 && v[0] == '-') {
        proof {
            if v@.len() == 1 {
                assert(v@ =~= seq!['-']);
            }
        }
        let mut out = String::new();
        out.push('0');
        assert(out@ =~= seq!['0']);
        out
    } else {
        text_of(v.as_slice())
    }
}

/// A number with up to three digits behind the point.
pub open spec fn number_text(b: u32) -> Seq<char> {
    short_number(fixed_text(b, 3))
}

fn push_digit(s: &mut String, n: u128)
    requires
        n < 10,
    ensures
        final(s)@ == old(s)@.push(digit(n as nat)),
{
    s.push(((48 + n) as u8) as char);
    assert(digit(n as nat) == (48 + n) as char);
}

fn push_large(s: &mut String, n: u128)
    ensures
        final(s)@ == old(s)@ + decimal(n as nat),
    decreases n,
{
    if n >= 10 {
        push_large(s, n / 10);
    }
    push_digit(s, n % 10);
    assert(digit(n as nat) == digit((n % 10) as nat));
    assert(s@ =~= old(s)@ + decimal(n as nat));
}

fn push_last(s: &mut String, v: u128, n: u32)
    ensures
        final(s)@ == old(s)@ + last_digits(v as nat, n as nat),
    decreases n,
{
    if n > 0 {
        push_last(s, v / 10, n - 1);
        push_digit(s, v % 10);
        assert(digit(v as nat) == digit((v % 10) as nat));
    }
    assert(s@ =~= old(s)@ + last_digits(v as nat, n as nat));
}

/// A significand and a scale.
fn split(b: u32) -> (r: (u128, u32))
    ensures
        r.0 == significand(b),
        r.1 == scale(b),
        r.0 < 0x100_0000,
        r.1 <= 254,
        finite(b) ==> r.1 <= 253,
{
    let e: u32 = (b % 0x8000_0000) / 0x80_0000;
    let f: u128 = (b % 0x80_0000) as u128;
    if e == 0 {
        (f, 0)
    } else {
        (f + 0x80_0000, e - 1)
    }
}

proof fn lemma_pow2_104()
    ensures
        pow2(104) == 0x100_0000_0000_0000_0000_0000_0000,
{
    lemma2_to64();
    lemma_pow2_adds(64, 40);
    lemma_pow2_adds(32, 8);
}

fn shift_up(m: u128, n: u32) -> (r: u128)
    requires
        m < 0x100_0000,
        n <= 104,
    ensures
        r == m * pow2(n as nat),
    decreases n,
{
    if n == 0 {
        proof {
            lemma2_to64();
        }
        m
    } else {
        let h: u128 = shift_up(m, n - 1);
        proof {
            lemma_pow2_104();
            lemma_pow2_adds((n - 1) as nat, 1);
            lemma2_to64();
            if n < 104 {
                lemma_pow2_strictly_increases(n as nat, 104);
            }
            let p = pow2(n as nat) as int;
            let q = pow2((n - 1) as nat) as int;
            assert(p == 2 * q);
            assert(2 * (m * q) == m * p) by (nonlinear_arith)
                requires
                    p == 2 * q,
            ;
            assert(m * p <= 0xff_ffff * 0x100_0000_0000_0000_0000_0000_0000) by (nonlinear_arith)
                requires
                    0 <= m <= 0xff_ffff,
                    0 <= p <= 0x100_0000_0000_0000_0000_0000_0000,
            ;
        }
        2 * h
    }
}

fn power_of_two(n: u32) -> (r: u128)
    requires
        n <= 104,
    ensures
        r == pow2(n as nat),
        r > 0,
{
    proof {
        lemma_pow2_pos(n as nat);
    }
    shift_up(1, n)
}

fn power_of_ten(n: u32) -> (r: u128)
    requires
        n <= 6,
    ensures
        r == ten_to(n as nat),
        1 <= r <= 1_000_000,
{
    proof {
        reveal_with_fuel(ten_to, 7);
    }
    match n {
        0 => 1,
        1 => 10,
        2 => 100,
        3 => 1000,
        4 => 10_000,
        5 => 100_000,
        _ => 1_000_000,
    }
}

/// The whole part of a finite number without its sign, and what is behind the point in
/// units of the last place.
fn whole_and_rest(b: u32, places: u32) -> (r: (u128, u128))
    requires
        finite(b),
        places <= 6,
    ensures
        r.0 == in_places(b, places as nat) / ten_to(places as nat),
        r.1 == in_places(b, places as nat) % ten_to(places as nat),
{
    let (m, s) = split(b);
    let t: u128 = power_of_ten(places);
    if s >= 149 {
        let w: u128 = shift_up(m, s - 149);
        proof {
            let p = pow2((s - 149) as nat) as int;
            let ti = t as int;
            assert((m * ti) * p == w * ti) by (nonlinear_arith)
                requires
                    w == m * p,
            ;
            assert(w * ti >= 0) by (nonlinear_arith)
                requires
                    w >= 0,
                    ti >= 0,
            ;
            vstd::arithmetic::div_mod::lemma_fundamental_div_mod_converse(
                w * ti,
                ti,
                w as int,
                0,
            );
        }
        (w, 0)
    } else {
        let k: u32 = 149 - s;
        proof {
            assert(m * t <= 0xff_ffff * 1_000_000) by (nonlinear_arith)
                requires
                    m <= 0xff_ffff,
                    t <= 1_000_000,
            ;
            assert(0 <= m * t) by (nonlinear_arith);
        }
        let a: u128 = m * t;
        let v: u128 = if k >= 64 {
            proof {
                lemma2_to64();
                if k > 64 {
                    lemma_pow2_strictly_increases(64, k as nat);
                }
                let d = pow2(k as nat);
                vstd::arithmetic::div_mod::lemma_small_mod(a as nat, d);
                vstd::arithmetic::div_mod::lemma_basic_div(a as int, d as int);
            }
            0
        } else {
            let d: u128 = power_of_two(k);
            let q: u128 = a / d;
            let r: u128 = a % d;
            proof {
                lemma2_to64();
                lemma_pow2_strictly_increases(k as nat, 64);
                assert(q <= a) by (nonlinear_arith)
                    requires
                        q == a / d,
                        d > 0,
                ;
            }
            if 2 * r > d || (2 * r == d && q % 2 == 1) {
                q + 1
            } else {
                q
            }
        };
        assert(v == in_places(b, places as nat));
        (v / t, v % t)
    }
}

/// A number with a fixed count of digits behind the point.
pub fn fixed(b: u32, places: u32) -> (r: String)
    requires
        1 <= places <= 6,
    ensures
        r@ == fixed_text(b, places as nat),
{
    let mut out = String::new();
    let fin = is_finite(b);
    if !fin && b % 0x80_0000 != 0 {
        return "NaN".to_string();
    }
    if b >= 0x8000_0000 {
        out.push('-');
    }
    let ghost sign = out@;
    assert(sign =~= if negative(b) {
        seq!['-']
    } else {
        Seq::empty()
    });
    if !fin {
        out.push_str("inf");
        return out;
    }
    let (w, rest) = whole_and_rest(b, places);
    push_large(&mut out, w);
    out.push('.');
    push_last(&mut out, rest, places);
    assert(out@ =~= fixed_text(b, places as nat));
    out
}

/// A number as JSON.
pub fn json_f32(b: u32) -> (r: String)
    ensures
        r@ == number_text(b),
{
    let s = fixed(b, 3);
    shorten_number(s.as_str())
}

/// A written number is off by at most half of its last place.
pub proof fn law_written_nearest(b: u32, places: nat)
    requires
        scale(b) < 149,
    ensures
        ({
            let exact = significand(b) * ten_to(places);
            let unit = pow2((149 - scale(b)) as nat);
            let off = 2 * (in_places(b, places) * unit - exact);
            -unit <= off <= unit
        }),
{
    let k = (149 - scale(b)) as nat;
    let u = pow2(k) as int;
    let x = significand(b) * ten_to(places);
    lemma_pow2_pos(k);
    assert(x >= 0) by (nonlinear_arith)
        requires
            x == significand(b) * ten_to(places),
            significand(b) >= 0,
            ten_to(places) >= 0,
    ;
    let q = x / u;
    let r = x % u;
    vstd::arithmetic::div_mod::lemma_fundamental_div_mod(x, u);
    vstd::arithmetic::div_mod::lemma_div_pos_is_pos(x, u);
    assert((q + 1) * u == q * u + u) by (nonlinear_arith);
    vstd::arithmetic::mul::lemma_mul_is_commutative(u, q);
}

} // verus!
