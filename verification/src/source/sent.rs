//! The values of networked properties as a server writes them.
use super::sendprop::{bits_for, coord_at, coord_mp_at, coord_whole_at, groups_at, int64_at, int_at,
    items_at, pair_at, prop_at, vector_at, real_at, text_at, with_sign, PropView, Real, SendPropDef,
    SendPropType, SPROP_CELL_COORD, SPROP_CELL_COORD_INTEGRAL, SPROP_CELL_COORD_LOW_PRECISION,
    SPROP_COORD, SPROP_COORD_MP, SPROP_COORD_MP_INTEGRAL, SPROP_COORD_MP_LOW_PRECISION,
    SPROP_NORMAL, SPROP_NOSCALE, SPROP_UNSIGNED, SPROP_VARINT};
use crate::bits::Cursor;
use crate::bytes::has_flag;
use crate::ieee::ratio_bits;
use crate::text::lossy_chars;
use crate::written::{bits_of, bits_of_bytes, flag, grouped_bits, lemma_bits_len, lemma_bytes_len};
use vstd::arithmetic::power2::{lemma2_to64, lemma_pow2_adds, lemma_pow2_pos, lemma_pow2_unfold,
    pow2};
use vstd::prelude::*;

verus! {

/// How the numbers of a property are written.
pub enum Way {
    Coord,
    /// With a fraction of so many bits.
    Multiplayer(nat),
    MultiplayerWhole,
    /// With a fraction of so many bits.
    Cell(nat),
    CellWhole,
    Plain,
    Unit,
    Steps,
}

/// The way of a property, by the first of its marks.
pub open spec fn way_of(flags: u32) -> Way {
    if flags & SPROP_COORD != 0 {
        Way::Coord
    } else if flags & SPROP_COORD_MP != 0 {
        Way::Multiplayer(5)
    } else if flags & SPROP_COORD_MP_LOW_PRECISION != 0 {
        Way::Multiplayer(3)
    } else if flags & SPROP_COORD_MP_INTEGRAL != 0 {
        Way::MultiplayerWhole
    } else if flags & SPROP_CELL_COORD != 0 {
        Way::Cell(5)
    } else if flags & SPROP_CELL_COORD_LOW_PRECISION != 0 {
        Way::Cell(3)
    } else if flags & SPROP_CELL_COORD_INTEGRAL != 0 {
        Way::CellWhole
    } else if flags & SPROP_NOSCALE != 0 {
        Way::Plain
    } else if flags & SPROP_NORMAL != 0 {
        Way::Unit
    } else {
        Way::Steps
    }
}

proof fn lemma_marks(f: u32)
    ensures
        has_flag(f as int, 0) == (f & SPROP_UNSIGNED != 0),
        has_flag(f as int, 1) == (f & SPROP_COORD != 0),
        has_flag(f as int, 2) == (f & SPROP_NOSCALE != 0),
        has_flag(f as int, 5) == (f & SPROP_NORMAL != 0),
        has_flag(f as int, 5) == (f & SPROP_VARINT != 0),
        has_flag(f as int, 13) == (f & SPROP_COORD_MP != 0),
        has_flag(f as int, 14) == (f & SPROP_COORD_MP_LOW_PRECISION != 0),
        has_flag(f as int, 15) == (f & SPROP_COORD_MP_INTEGRAL != 0),
        has_flag(f as int, 20) == (f & SPROP_CELL_COORD != 0),
        has_flag(f as int, 21) == (f & SPROP_CELL_COORD_LOW_PRECISION != 0),
        has_flag(f as int, 22) == (f & SPROP_CELL_COORD_INTEGRAL != 0),
{
    lemma2_to64();
    lemma_pow2_adds(8, 5);
    lemma_pow2_adds(8, 6);
    lemma_pow2_adds(8, 7);
    lemma_pow2_adds(16, 4);
    lemma_pow2_adds(16, 5);
    lemma_pow2_adds(16, 6);
    assert((f & 0x1 != 0) == (f % 2 == 1) && (f & 0x2 != 0) == (f / 2 % 2 == 1) && (f & 0x4 != 0) == (f
        / 4 % 2 == 1) && (f & 0x20 != 0) == (f / 32 % 2 == 1) && (f & 0x2000 != 0) == (f / 0x2000 % 2
        == 1) && (f & 0x4000 != 0) == (f / 0x4000 % 2 == 1) && (f & 0x8000 != 0) == (f / 0x8000 % 2
        == 1) && (f & 0x10_0000 != 0) == (f / 0x10_0000 % 2 == 1) && (f & 0x20_0000 != 0) == (f
        / 0x20_0000 % 2 == 1) && (f & 0x40_0000 != 0) == (f / 0x40_0000 % 2 == 1)) by (bit_vector);
    assert(f as int / 1 == f);
}

/// A number to be written: a magnitude in as many parts of one as its way has, or its
/// bits; whether it is negative; and, in a multiplayer game, whether it is near.
pub struct Number {
    pub v: int,
    pub neg: bool,
    pub near: bool,
}

/// A whole part that is written one less than it is, if it is there.
pub open spec fn whole_part(w: int, n: nat) -> Seq<bool> {
    if w > 0 {
        bits_of(w - 1, n)
    } else {
        Seq::empty()
    }
}

pub open spec fn whole_width(near: bool) -> nat {
    if near {
        11
    } else {
        14
    }
}

/// A number as it is written.
#[verifier::opaque]
pub open spec fn number_bits(way: Way, width: nat, x: Number) -> Seq<bool> {
    match way {
        Way::Coord => if x.v == 0 {
            flag(false) + flag(false)
        } else {
            flag(x.v / 32 > 0) + (flag(x.v % 32 > 0) + (flag(x.neg) + (whole_part(x.v / 32, 14) + if x.v
                % 32 > 0 {
                bits_of(x.v % 32, 5)
            } else {
                Seq::empty()
            })))
        },
        Way::Multiplayer(n) => {
            let one = pow2(n) as int;
            flag(x.near) + (flag(x.v / one > 0) + (flag(x.neg) + (whole_part(
                x.v / one,
                whole_width(x.near),
            ) + bits_of(x.v % one, n))))
        },
        Way::MultiplayerWhole => if x.v == 0 {
            flag(x.near) + flag(false)
        } else {
            flag(x.near) + (flag(true) + (flag(x.neg) + bits_of(x.v - 1, whole_width(x.near))))
        },
        Way::Cell(n) => bits_of(x.v / pow2(n) as int, width) + bits_of(x.v % pow2(n) as int, n),
        Way::CellWhole => bits_of(x.v, width),
        Way::Plain => bits_of(x.v, 32),
        Way::Unit => flag(x.neg) + bits_of(x.v, 11),
        Way::Steps => bits_of(x.v, width),
    }
}

/// Whether a number can be written.
#[verifier::opaque]
pub open spec fn number_fits(way: Way, width: nat, x: Number) -> bool {
    &&& 0 <= x.v
    &&& match way {
        Way::Coord => x.v / 32 <= 0x4000,
        Way::Multiplayer(n) => (n == 3 || n == 5) && (x.v / (pow2(n) as int)) <= pow2(
            whole_width(x.near),
        ),
        Way::MultiplayerWhole => x.v <= pow2(whole_width(x.near)),
        Way::Cell(n) => (n == 3 || n == 5) && width <= 32 && (x.v / (pow2(n) as int)) < pow2(width),
        Way::CellWhole => width <= 32 && x.v < pow2(width),
        Way::Plain => x.v < 0x1_0000_0000,
        Way::Unit => x.v < 2048,
        Way::Steps => width <= 32 && x.v < pow2(width),
    }
}

/// What a number that was written is.
#[verifier::opaque]
pub open spec fn number_real(p: SendPropDef, x: Number) -> Real {
    match way_of(p.flags) {
        Way::Coord => Real::Bits(
            if x.v == 0 {
                0
            } else {
                with_sign(ratio_bits(x.v, 5), x.neg)
            },
        ),
        Way::Multiplayer(n) => Real::Bits(with_sign(ratio_bits(x.v, n as int), x.neg)),
        Way::MultiplayerWhole => Real::Bits(
            if x.v == 0 {
                0
            } else {
                with_sign(ratio_bits(x.v, 0), x.neg)
            },
        ),
        Way::Cell(n) => Real::Cell(
            (x.v / pow2(n) as int) as u32,
            (x.v % pow2(n) as int) as u32,
            n as u32,
        ),
        Way::CellWhole => Real::Cell(x.v as u32, 0, 0),
        Way::Plain => Real::Bits(x.v as u32),
        Way::Unit => Real::Unit(x.neg, x.v as u32),
        Way::Steps => Real::Scaled(x.v as u32, p.bit_count, p.low_value, p.high_value),
    }
}

proof fn lemma_flag_is(c: Cursor, b: bool, rest: Seq<bool>)
    requires
        c.holds(flag(b) + rest),
    ensures
        c.take(1) == Some((if b { 1int } else { 0 }, c.adv(1))),
        c.adv(1).holds(rest),
{
    c.lemma_flag(b, rest);
}

#[verifier::rlimit(50)]
proof fn lemma_coord(c: Cursor, x: Number, rest: Seq<bool>)
    requires
        number_fits(Way::Coord, 0, x),
        c.holds(number_bits(Way::Coord, 0, x) + rest),
    ensures
        coord_at(c) == Some(
            (
                Real::Bits(
                    if x.v == 0 {
                        0
                    } else {
                        with_sign(ratio_bits(x.v, 5), x.neg)
                    },
                ),
                c.past(number_bits(Way::Coord, 0, x)),
            ),
        ),
        c.past(number_bits(Way::Coord, 0, x)).holds(rest),
{
    reveal(number_bits);
    reveal(number_fits);
    lemma2_to64();
    lemma_pow2_adds(8, 6);
    let all = number_bits(Way::Coord, 0, x);
    if x.v == 0 {
        assert(all + rest =~= flag(false) + (flag(false) + rest));
        c.lemma_flag(false, flag(false) + rest);
        c.adv(1).lemma_flag(false, rest);
    } else {
        let (w, f) = (x.v / 32, x.v % 32);
        let fb = if f > 0 {
            bits_of(f, 5)
        } else {
            Seq::empty()
        };
        let wb = whole_part(w, 14);
        lemma_bits_len(w - 1, 14);
        lemma_bits_len(f, 5);
        assert(all + rest =~= flag(w > 0) + (flag(f > 0) + (flag(x.neg) + (wb + (fb + rest)))));
        c.lemma_flag(w > 0, flag(f > 0) + (flag(x.neg) + (wb + (fb + rest))));
        let c1 = c.adv(1);
        c1.lemma_flag(f > 0, flag(x.neg) + (wb + (fb + rest)));
        let c2 = c1.adv(1);
        c2.lemma_flag(x.neg, wb + (fb + rest));
        let c3 = c2.adv(1);
        if w > 0 {
            c3.lemma_number(w - 1, 14, fb + rest);
        } else {
            assert(wb + (fb + rest) =~= fb + rest);
        }
        let c4 = if w > 0 {
            c3.adv(14)
        } else {
            c3
        };
        if f > 0 {
            c4.lemma_number(f, 5, rest);
        } else {
            assert(fb + rest =~= rest);
        }
        assert(x.v == 32 * w + f);
    }
}

#[verifier::rlimit(50)]
proof fn lemma_multiplayer(c: Cursor, n: nat, x: Number, rest: Seq<bool>)
    requires
        number_fits(Way::Multiplayer(n), 0, x),
        c.holds(number_bits(Way::Multiplayer(n), 0, x) + rest),
    ensures
        coord_mp_at(c, n) == Some(
            (
                Real::Bits(with_sign(ratio_bits(x.v, n as int), x.neg)),
                c.past(number_bits(Way::Multiplayer(n), 0, x)),
            ),
        ),
        c.past(number_bits(Way::Multiplayer(n), 0, x)).holds(rest),
{
    reveal(number_bits);
    reveal(number_fits);
    lemma2_to64();
    lemma_pow2_adds(8, 6);
    lemma_pow2_adds(8, 3);
    let all = number_bits(Way::Multiplayer(n), 0, x);
    let one = pow2(n) as int;
    let (w, f) = (x.v / one, x.v % one);
    let k = whole_width(x.near);
    let fb = bits_of(f, n);
    let wb = whole_part(w, k);
    assert(one == 8 || one == 32);
    vstd::arithmetic::div_mod::lemma_fundamental_div_mod(x.v, one);
    assert(one * w == w * one) by (nonlinear_arith);
    if one == 8 {
        assert(0 <= x.v % 8 < 8 && x.v / 8 >= 0);
    } else {
        assert(0 <= x.v % 32 < 32 && x.v / 32 >= 0);
    }
    lemma_bits_len(w - 1, k);
    lemma_bits_len(f, n);
    assert(all + rest =~= flag(x.near) + (flag(w > 0) + (flag(x.neg) + (wb + (fb + rest)))));
    c.lemma_flag(x.near, flag(w > 0) + (flag(x.neg) + (wb + (fb + rest))));
    let c1 = c.adv(1);
    c1.lemma_flag(w > 0, flag(x.neg) + (wb + (fb + rest)));
    let c2 = c1.adv(1);
    c2.lemma_flag(x.neg, wb + (fb + rest));
    let c3 = c2.adv(1);
    if w > 0 {
        c3.lemma_number(w - 1, k, fb + rest);
    } else {
        assert(wb + (fb + rest) =~= fb + rest);
    }
    let c4 = if w > 0 {
        c3.adv(k as int)
    } else {
        c3
    };
    c4.lemma_number(f, n, rest);
}

proof fn lemma_multiplayer_whole(c: Cursor, x: Number, rest: Seq<bool>)
    requires
        number_fits(Way::MultiplayerWhole, 0, x),
        c.holds(number_bits(Way::MultiplayerWhole, 0, x) + rest),
    ensures
        coord_whole_at(c) == Some(
            (
                Real::Bits(
                    if x.v == 0 {
                        0
                    } else {
                        with_sign(ratio_bits(x.v, 0), x.neg)
                    },
                ),
                c.past(number_bits(Way::MultiplayerWhole, 0, x)),
            ),
        ),
        c.past(number_bits(Way::MultiplayerWhole, 0, x)).holds(rest),
{
    reveal(number_bits);
    reveal(number_fits);
    let all = number_bits(Way::MultiplayerWhole, 0, x);
    let k = whole_width(x.near);
    if x.v == 0 {
        assert(all + rest =~= flag(x.near) + (flag(false) + rest));
        c.lemma_flag(x.near, flag(false) + rest);
        c.adv(1).lemma_flag(false, rest);
    } else {
        let b = bits_of(x.v - 1, k);
        lemma_bits_len(x.v - 1, k);
        assert(all + rest =~= flag(x.near) + (flag(true) + (flag(x.neg) + (b + rest))));
        c.lemma_flag(x.near, flag(true) + (flag(x.neg) + (b + rest)));
        c.adv(1).lemma_flag(true, flag(x.neg) + (b + rest));
        c.adv(1).adv(1).lemma_flag(x.neg, b + rest);
        c.adv(1).adv(1).adv(1).lemma_number(x.v - 1, k, rest);
    }
}

/// A number that was written is read back, in each of the ways.
#[verifier::rlimit(50)]
pub proof fn law_number_round_trip(p: SendPropDef, x: Number, c: Cursor, rest: Seq<bool>)
    requires
        number_fits(way_of(p.flags), p.bit_count as nat, x),
        c.holds(number_bits(way_of(p.flags), p.bit_count as nat, x) + rest),
    ensures
        real_at(p, c) == Some(
            (
                number_real(p, x),
                c.past(number_bits(way_of(p.flags), p.bit_count as nat, x)),
            ),
        ),
        c.past(number_bits(way_of(p.flags), p.bit_count as nat, x)).holds(rest),
{
    reveal(number_bits);
    reveal(number_fits);
    reveal(number_real);
    reveal(real_at);
    lemma_marks(p.flags);
    lemma2_to64();
    lemma_pow2_adds(8, 3);
    let width = p.bit_count as nat;
    let way = way_of(p.flags);
    let all = number_bits(way, width, x);
    match way {
        Way::Coord => lemma_coord(c, x, rest),
        Way::Multiplayer(n) => lemma_multiplayer(c, n, x, rest),
        Way::MultiplayerWhole => lemma_multiplayer_whole(c, x, rest),
        Way::Cell(n) => {
            let one = pow2(n) as int;
            let (a, b) = (bits_of(x.v / one, width), bits_of(x.v % one, n));
            lemma_bits_len(x.v / one, width);
            lemma_bits_len(x.v % one, n);
            assert(all + rest =~= a + (b + rest));
            c.lemma_number(x.v / one, width, b + rest);
            c.adv(width as int).lemma_number(x.v % one, n, rest);
        },
        Way::CellWhole => {
            lemma_bits_len(x.v, width);
            c.lemma_number(x.v, width, rest);
        },
        Way::Plain => {
            lemma_bits_len(x.v, 32);
            c.lemma_number(x.v, 32, rest);
        },
        Way::Unit => {
            let b = bits_of(x.v, 11);
            lemma_bits_len(x.v, 11);
            assert(all + rest =~= flag(x.neg) + (b + rest));
            c.lemma_flag(x.neg, b + rest);
            c.adv(1).lemma_number(x.v, 11, rest);
        },
        Way::Steps => {
            lemma_bits_len(x.v, width);
            c.lemma_number(x.v, width, rest);
        },
    }
}

/// A value to be written.
pub enum Sent {
    Int(int),
    Number(Number),
    /// Three numbers; of a vector of length one the third is only its sign.
    Vector(Number, Number, Number),
    Pair(Number, Number),
    Text(Seq<u8>),
    List(Seq<Sent>),
}

/// A signed number as one without a sign: those of either sign take turns.
pub open spec fn turns(v: int) -> int {
    if v >= 0 {
        2 * v
    } else {
        -2 * v - 1
    }
}

/// A whole number of `n` bits, a negative one as its distance from the largest.
pub open spec fn two_sided(v: int, n: nat) -> int {
    if v < 0 {
        v + pow2(n)
    } else {
        v
    }
}

#[verifier::opaque]
pub open spec fn int_bits(flags: u32, width: nat, v: int) -> Seq<bool> {
    if flags & SPROP_VARINT != 0 {
        grouped_bits(
            if flags & SPROP_UNSIGNED != 0 {
                v
            } else {
                turns(v)
            },
        )
    } else {
        bits_of(two_sided(v, width), width)
    }
}

/// The magnitude of a long number.
pub open spec fn abs(v: int) -> int {
    if v < 0 {
        -v
    } else {
        v
    }
}

/// A long number: its sign unless it has none, the lower half, and what is left of its
/// width for the upper one.
#[verifier::opaque]
pub open spec fn long_bits(flags: u32, width: nat, v: int) -> Seq<bool> {
    if flags & SPROP_VARINT != 0 {
        int_bits(flags, width, v)
    } else if flags & SPROP_UNSIGNED != 0 {
        bits_of(v % 0x1_0000_0000, 32) + bits_of(v / 0x1_0000_0000, upper(width, 32))
    } else {
        flag(v < 0) + (bits_of(abs(v) % 0x1_0000_0000, 32) + bits_of(
            abs(v) / 0x1_0000_0000,
            upper(width, 33),
        ))
    }
}

pub open spec fn upper(width: nat, lower: nat) -> nat {
    if width > lower {
        (width - lower) as nat
    } else {
        0
    }
}

#[verifier::opaque]
pub open spec fn int_fits(flags: u32, width: nat, v: int) -> bool {
    if flags & SPROP_VARINT != 0 {
        if flags & SPROP_UNSIGNED != 0 {
            0 <= v < 0x400_0000_0000
        } else {
            -0x200_0000_0000 <= v < 0x200_0000_0000
        }
    } else {
        &&& 1 <= width <= 32
        &&& if flags & SPROP_UNSIGNED != 0 {
            0 <= v < pow2(width)
        } else {
            -pow2((width - 1) as nat) <= v < pow2((width - 1) as nat)
        }
    }
}

#[verifier::opaque]
pub open spec fn long_fits(flags: u32, width: nat, v: int) -> bool {
    if flags & SPROP_VARINT != 0 {
        int_fits(flags, width, v)
    } else if flags & SPROP_UNSIGNED != 0 {
        width <= 64 && 0 <= v <= i64::MAX && v / 0x1_0000_0000 < pow2(upper(width, 32))
    } else {
        width <= 65 && -0x8000_0000_0000_0000 < v <= i64::MAX && abs(v) / 0x1_0000_0000 < pow2(
            upper(width, 33),
        )
    }
}

proof fn lemma_groups(c: Cursor, v: int, k: int, rest: Seq<bool>)
    requires
        0 <= k <= 5,
        0 <= v < pow2((42 - 7 * k) as nat),
        c.holds(grouped_bits(v) + rest),
    ensures
        groups_at(c, k) == Some((v, c.past(grouped_bits(v)))),
        c.past(grouped_bits(v)).holds(rest),
    decreases 6 - k,
{
    lemma2_to64();
    if v < 128 {
        c.lemma_group(v, false, rest);
        lemma_bits_len(v, 7);
    } else {
        let more = grouped_bits(v / 128);
        lemma_bits_len(v % 128, 7);
        assert(grouped_bits(v) + rest =~= (bits_of(v % 128, 7) + flag(true)) + (more + rest));
        c.lemma_group(v % 128, true, more + rest);
        assert(k < 5);
        lemma_pow2_adds((35 - 7 * k) as nat, 7);
        assert(pow2((42 - 7 * k) as nat) == pow2((35 - 7 * k) as nat) * 128);
        lemma_groups(c.adv(8), v / 128, k + 1, rest);
    }
}

/// A whole number that was written is read back.
pub proof fn law_int_round_trip(flags: u32, width: nat, v: int, c: Cursor, rest: Seq<bool>)
    requires
        int_fits(flags, width, v),
        c.holds(int_bits(flags, width, v) + rest),
    ensures
        int_at(flags, width as int, c) == Some((v, c.past(int_bits(flags, width, v)))),
        c.past(int_bits(flags, width, v)).holds(rest),
{
    reveal(int_bits);
    reveal(int_fits);
    lemma_marks(flags);
    lemma2_to64();
    lemma_pow2_adds(32, 10);
    if flags & SPROP_VARINT != 0 {
        let u = if flags & SPROP_UNSIGNED != 0 {
            v
        } else {
            turns(v)
        };
        lemma_groups(c, u, 0, rest);
    } else {
        let u = two_sided(v, width);
        lemma_pow2_unfold(width);
        lemma_pow2_pos((width - 1) as nat);
        lemma_bits_len(u, width);
        c.lemma_number(u, width, rest);
    }
}

/// A long number that was written is read back.
#[verifier::rlimit(50)]
pub proof fn law_long_round_trip(flags: u32, width: nat, v: int, c: Cursor, rest: Seq<bool>)
    requires
        long_fits(flags, width, v),
        c.holds(long_bits(flags, width, v) + rest),
    ensures
        int64_at(flags, width as int, c) == Some((v, c.past(long_bits(flags, width, v)))),
        c.past(long_bits(flags, width, v)).holds(rest),
{
    reveal(long_bits);
    reveal(long_fits);
    lemma_marks(flags);
    lemma2_to64();
    if flags & SPROP_VARINT != 0 {
        law_int_round_trip(flags, width, v, c, rest);
    } else if flags & SPROP_UNSIGNED != 0 {
        let (lo, hi) = (v % 0x1_0000_0000, v / 0x1_0000_0000);
        let n = upper(width, 32);
        lemma_bits_len(lo, 32);
        lemma_bits_len(hi, n);
        assert(long_bits(flags, width, v) + rest =~= bits_of(lo, 32) + (bits_of(hi, n) + rest));
        c.lemma_number(lo, 32, bits_of(hi, n) + rest);
        c.adv(32).lemma_number(hi, n, rest);
        assert(hi * 0x1_0000_0000 + lo == v);
    } else {
        let (lo, hi) = (abs(v) % 0x1_0000_0000, abs(v) / 0x1_0000_0000);
        let n = upper(width, 33);
        lemma_bits_len(lo, 32);
        lemma_bits_len(hi, n);
        assert(long_bits(flags, width, v) + rest =~= flag(v < 0) + (bits_of(lo, 32) + (bits_of(hi, n)
            + rest)));
        c.lemma_flag(v < 0, bits_of(lo, 32) + (bits_of(hi, n) + rest));
        c.adv(1).lemma_number(lo, 32, bits_of(hi, n) + rest);
        c.adv(1).adv(32).lemma_number(hi, n, rest);
        assert(hi * 0x1_0000_0000 + lo == abs(v));
    }
}

/// A text: its length in nine bits, and its bytes.
pub open spec fn text_bits(s: Seq<u8>) -> Seq<bool> {
    bits_of(s.len() as int, 9) + bits_of_bytes(s)
}

/// A text that was written is read back.
pub proof fn law_text_round_trip(s: Seq<u8>, c: Cursor, rest: Seq<bool>)
    requires
        s.len() < 512,
        c.holds(text_bits(s) + rest),
    ensures
        text_at(c) == Some((lossy_chars(s), c.past(text_bits(s)))),
        c.past(text_bits(s)).holds(rest),
{
    lemma2_to64();
    let b = bits_of_bytes(s);
    lemma_bits_len(s.len() as int, 9);
    lemma_bytes_len(s);
    assert(text_bits(s) + rest =~= bits_of(s.len() as int, 9) + (b + rest));
    c.lemma_number(s.len() as int, 9, b + rest);
    c.adv(9).law_bytes_read(s, rest);
}

/// A vector: its three numbers; of one of length one, two and the sign of the third.
pub open spec fn vector_bits(p: SendPropDef, x: Number, y: Number, z: Number) -> Seq<bool> {
    let (way, width) = (way_of(p.flags), p.bit_count as nat);
    number_bits(way, width, x) + (number_bits(way, width, y) + if p.flags & SPROP_NORMAL != 0 {
        flag(z.neg)
    } else {
        number_bits(way, width, z)
    })
}

/// A value of a property as it is written.
#[verifier::opaque]
pub open spec fn sent_bits(p: SendPropDef, v: Sent) -> Seq<bool>
    decreases p, 0int,
{
    let (way, width) = (way_of(p.flags), p.bit_count as nat);
    match (p.prop_type, v) {
        (SendPropType::Int, Sent::Int(n)) => int_bits(p.flags, width, n),
        (SendPropType::Int64, Sent::Int(n)) => long_bits(p.flags, width, n),
        (SendPropType::Float, Sent::Number(x)) => number_bits(way, width, x),
        (SendPropType::Vector, Sent::Vector(x, y, z)) => vector_bits(p, x, y, z),
        (SendPropType::VectorXY, Sent::Pair(x, y)) => number_bits(way, width, x) + number_bits(
            way,
            width,
            y,
        ),
        (SendPropType::String, Sent::Text(s)) => text_bits(s),
        (SendPropType::Array, Sent::List(l)) => match p.element_def {
            Some(e) => bits_of(l.len() as int, count_width(p.element_count as int)) + list_bits(
                *e,
                l,
                l.len(),
            ),
            None => Seq::empty(),
        },
        _ => Seq::empty(),
    }
}

/// The first `n` values of a list, one behind the other.
pub open spec fn list_bits(p: SendPropDef, l: Seq<Sent>, n: nat) -> Seq<bool>
    decreases p, n + 1,
{
    if n == 0 {
        Seq::empty()
    } else {
        list_bits(p, l, (n - 1) as nat) + sent_bits(p, l[n - 1])
    }
}

/// The fewest bits, at least one, in which `n` can be written.
pub open spec fn count_width(n: int) -> nat
    decreases n,
{
    if n <= 1 {
        1
    } else {
        1 + count_width(n / 2)
    }
}

/// Whether a value can be written as one of the property.
#[verifier::opaque]
pub open spec fn sent_fits(p: SendPropDef, v: Sent) -> bool
    decreases p, 0int,
{
    let (way, width) = (way_of(p.flags), p.bit_count as nat);
    match (p.prop_type, v) {
        (SendPropType::Int, Sent::Int(n)) => int_fits(p.flags, width, n),
        (SendPropType::Int64, Sent::Int(n)) => long_fits(p.flags, width, n),
        (SendPropType::Float, Sent::Number(x)) => number_fits(way, width, x),
        (SendPropType::Vector, Sent::Vector(x, y, z)) => number_fits(way, width, x) && number_fits(
            way,
            width,
            y,
        ) && (p.flags & SPROP_NORMAL != 0 || number_fits(way, width, z)),
        (SendPropType::VectorXY, Sent::Pair(x, y)) => number_fits(way, width, x) && number_fits(
            way,
            width,
            y,
        ),
        (SendPropType::String, Sent::Text(s)) => s.len() < 512,
        (SendPropType::Array, Sent::List(l)) => match p.element_def {
            Some(e) => l.len() <= p.element_count && list_fits(*e, l, l.len()),
            None => false,
        },
        _ => false,
    }
}

pub open spec fn list_fits(p: SendPropDef, l: Seq<Sent>, n: nat) -> bool
    decreases p, n + 1,
{
    n == 0 || (list_fits(p, l, (n - 1) as nat) && sent_fits(p, l[n - 1]))
}

/// What a value that was written is.
#[verifier::opaque]
pub open spec fn sent_view(p: SendPropDef, v: Sent) -> PropView
    decreases p, 0int,
{
    match v {
        Sent::Int(n) => PropView::Int(n as i64),
        Sent::Number(x) => PropView::Float(number_real(p, x)),
        Sent::Vector(x, y, z) => PropView::Vector(
            number_real(p, x),
            number_real(p, y),
            if p.flags & SPROP_NORMAL != 0 {
                Real::Rest(z.neg)
            } else {
                number_real(p, z)
            },
        ),
        Sent::Pair(x, y) => PropView::VectorXY(number_real(p, x), number_real(p, y)),
        Sent::Text(s) => PropView::Text(lossy_chars(s)),
        Sent::List(l) => match p.element_def {
            Some(e) => PropView::Array(list_view(*e, l, l.len())),
            None => PropView::Array(Seq::empty()),
        },
    }
}

pub open spec fn list_view(p: SendPropDef, l: Seq<Sent>, n: nat) -> Seq<PropView>
    decreases p, n + 1,
{
    if n == 0 {
        Seq::empty()
    } else {
        list_view(p, l, (n - 1) as nat).push(sent_view(p, l[n - 1]))
    }
}

proof fn lemma_count_width(n: int)
    ensures
        count_width(n) == bits_for(n),
        n >= 0 ==> n < pow2(count_width(n)),
    decreases n,
{
    lemma2_to64();
    if n > 1 {
        lemma_count_width(n / 2);
        lemma_pow2_unfold(count_width(n));
    }
}

proof fn lemma_vector(p: SendPropDef, x: Number, y: Number, z: Number, c: Cursor, rest: Seq<bool>)
    requires
        number_fits(way_of(p.flags), p.bit_count as nat, x),
        number_fits(way_of(p.flags), p.bit_count as nat, y),
        p.flags & SPROP_NORMAL != 0 || number_fits(way_of(p.flags), p.bit_count as nat, z),
        c.holds(vector_bits(p, x, y, z) + rest),
    ensures
        vector_at(p, c) == Some(
            (
                (
                    number_real(p, x),
                    number_real(p, y),
                    if p.flags & SPROP_NORMAL != 0 {
                        Real::Rest(z.neg)
                    } else {
                        number_real(p, z)
                    },
                ),
                c.past(vector_bits(p, x, y, z)),
            ),
        ),
        c.past(vector_bits(p, x, y, z)).holds(rest),
{
    let (way, width) = (way_of(p.flags), p.bit_count as nat);
    let all = vector_bits(p, x, y, z);
    let (a, b) = (number_bits(way, width, x), number_bits(way, width, y));
    let e = if p.flags & SPROP_NORMAL != 0 {
        flag(z.neg)
    } else {
        number_bits(way, width, z)
    };
    lemma_marks(p.flags);
    assert(all + rest =~= a + (b + (e + rest)));
    law_number_round_trip(p, x, c, b + (e + rest));
    let c1 = c.past(a);
    law_number_round_trip(p, y, c1, e + rest);
    let c2 = c1.past(b);
    if p.flags & SPROP_NORMAL != 0 {
        c2.lemma_flag(z.neg, rest);
    } else {
        law_number_round_trip(p, z, c2, rest);
    }
    assert(c2.past(e) == c.past(all));
}

proof fn lemma_pair(p: SendPropDef, x: Number, y: Number, c: Cursor, rest: Seq<bool>)
    requires
        number_fits(way_of(p.flags), p.bit_count as nat, x),
        number_fits(way_of(p.flags), p.bit_count as nat, y),
        c.holds(
            (number_bits(way_of(p.flags), p.bit_count as nat, x) + number_bits(
                way_of(p.flags),
                p.bit_count as nat,
                y,
            )) + rest,
        ),
    ensures
        pair_at(p, c) == Some(
            (
                (number_real(p, x), number_real(p, y)),
                c.past(
                    number_bits(way_of(p.flags), p.bit_count as nat, x) + number_bits(
                        way_of(p.flags),
                        p.bit_count as nat,
                        y,
                    ),
                ),
            ),
        ),
        c.past(
            number_bits(way_of(p.flags), p.bit_count as nat, x) + number_bits(
                way_of(p.flags),
                p.bit_count as nat,
                y,
            ),
        ).holds(rest),
{
    let (way, width) = (way_of(p.flags), p.bit_count as nat);
    let (a, b) = (number_bits(way, width, x), number_bits(way, width, y));
    assert((a + b) + rest =~= a + (b + rest));
    law_number_round_trip(p, x, c, b + rest);
    law_number_round_trip(p, y, c.past(a), rest);
    assert(c.past(a).past(b) == c.past(a + b));
}

/// A value that was written is read back, of every type a property can have.
#[verifier::rlimit(50)]
pub proof fn law_value_round_trip(p: SendPropDef, v: Sent, c: Cursor, rest: Seq<bool>)
    requires
        sent_fits(p, v),
        c.holds(sent_bits(p, v) + rest),
    ensures
        prop_at(p, c) == Some((sent_view(p, v), c.past(sent_bits(p, v)))),
        c.past(sent_bits(p, v)).holds(rest),
    decreases p, 0int,
{
    reveal_with_fuel(sent_bits, 1);
    reveal_with_fuel(sent_fits, 1);
    reveal_with_fuel(sent_view, 1);
    let (way, width) = (way_of(p.flags), p.bit_count as nat);
    lemma_marks(p.flags);
    lemma2_to64();
    match (p.prop_type, v) {
        (SendPropType::Int, Sent::Int(n)) => law_int_round_trip(p.flags, width, n, c, rest),
        (SendPropType::Int64, Sent::Int(n)) => law_long_round_trip(p.flags, width, n, c, rest),
        (SendPropType::Float, Sent::Number(x)) => law_number_round_trip(p, x, c, rest),
        (SendPropType::Vector, Sent::Vector(x, y, z)) => {
            lemma_vector(p, x, y, z, c, rest);
        },
        (SendPropType::VectorXY, Sent::Pair(x, y)) => {
            let (a, b) = (number_bits(way, width, x), number_bits(way, width, y));
            assert(sent_bits(p, v) == a + b);
            lemma_pair(p, x, y, c, rest);
        },
        (SendPropType::String, Sent::Text(s)) => law_text_round_trip(s, c, rest),
        (SendPropType::Array, Sent::List(l)) => {
            let k = count_width(p.element_count as int);
            lemma_count_width(p.element_count as int);
            let e = *(p.element_def->0);
            let b = list_bits(e, l, l.len());
            lemma_bits_len(l.len() as int, k);
            assert(sent_bits(p, v) + rest =~= bits_of(l.len() as int, k) + (b + rest));
            c.lemma_number(l.len() as int, k, b + rest);
            law_list_round_trip(e, l, l.len(), c.adv(k as int), rest);
            assert(c.adv(k as int).past(b) == c.past(sent_bits(p, v)));
        },
        _ => {},
    }
}

/// The same of the values of a list.
pub proof fn law_list_round_trip(p: SendPropDef, l: Seq<Sent>, n: nat, c: Cursor, rest: Seq<bool>)
    requires
        list_fits(p, l, n),
        c.holds(list_bits(p, l, n) + rest),
    ensures
        items_at(p, c, n as int) == Some((list_view(p, l, n), c.past(list_bits(p, l, n)))),
        c.past(list_bits(p, l, n)).holds(rest),
    decreases p, n + 1,
{
    reveal_with_fuel(sent_bits, 1);
    reveal_with_fuel(sent_fits, 1);
    reveal_with_fuel(sent_view, 1);
    if n == 0 {
        assert(list_bits(p, l, n) + rest =~= rest);
        assert(c.past(list_bits(p, l, n)) == c);
    } else {
        let a = list_bits(p, l, (n - 1) as nat);
        let b = sent_bits(p, l[n - 1]);
        assert(list_bits(p, l, n) + rest =~= a + (b + rest));
        law_list_round_trip(p, l, (n - 1) as nat, c, b + rest);
        law_value_round_trip(p, l[n - 1], c.past(a), rest);
        assert(c.past(a).past(b) == c.past(list_bits(p, l, n)));
    }
}

} // verus!
