//! Networked properties: their descriptions, and how their values are read.
use crate::bits::{BitReader, Cursor};
use crate::bytes::{flag, has_flag};
use crate::ieee::{from_ratio, ratio_bits};
use crate::protobuf::reader::{signed64, two64, unzigzag};
use crate::source::csgo::stringtables::{floor_log2, log2};
use crate::text::{lossy, lossy_chars};
use vstd::arithmetic::power2::{lemma2_to64, lemma_pow2_pos, lemma_pow2_strictly_increases,
    lemma_pow2_unfold, pow2};
use vstd::prelude::*;

verus! {

#[derive(Debug, Clone, Copy, PartialEq, Eq, Structural)]
pub enum SendPropType {
    Int,
    Float,
    Vector,
    VectorXY,
    String,
    Array,
    DataTable,
    Int64,
}

/// The type that a number stands for.
pub open spec fn type_of(v: u8) -> Option<SendPropType> {
    match v {
        0 => Some(SendPropType::Int),
        1 => Some(SendPropType::Float),
        2 => Some(SendPropType::Vector),
        3 => Some(SendPropType::VectorXY),
        4 => Some(SendPropType::String),
        5 => Some(SendPropType::Array),
        6 => Some(SendPropType::DataTable),
        7 => Some(SendPropType::Int64),
        _ => None,
    }
}

impl SendPropType {
    /// The type that a number stands for.
    pub fn from_u8(v: u8) -> (r: Option<Self>)
        ensures
            r == type_of(v),
    {
        match v {
            0 => Some(SendPropType::Int),
            1 => Some(SendPropType::Float),
            2 => Some(SendPropType::Vector),
            3 => Some(SendPropType::VectorXY),
            4 => Some(SendPropType::String),
            5 => Some(SendPropType::Array),
            6 => Some(SendPropType::DataTable),
            7 => Some(SendPropType::Int64),
            _ => None,
        }
    }
}

pub const SPROP_UNSIGNED: u32 = 0x1;
pub const SPROP_COORD: u32 = 0x2;
pub const SPROP_NOSCALE: u32 = 0x4;
pub const SPROP_ROUNDDOWN: u32 = 0x8;
pub const SPROP_ROUNDUP: u32 = 0x10;
pub const SPROP_NORMAL_OR_VARINT: u32 = 0x20;
pub const SPROP_EXCLUDE: u32 = 0x40;
pub const SPROP_XYZE: u32 = 0x80;
pub const SPROP_INSIDEARRAY: u32 = 0x100;
pub const SPROP_PROXY_ALWAYS_YES: u32 = 0x200;
pub const SPROP_CHANGES_OFTEN: u32 = 0x400;
pub const SPROP_IS_VECTOR_ELEM: u32 = 0x800;
pub const SPROP_COLLAPSIBLE: u32 = 0x1000;
pub const SPROP_COORD_MP: u32 = 0x2000;
pub const SPROP_COORD_MP_LOW_PRECISION: u32 = 0x4000;
pub const SPROP_COORD_MP_INTEGRAL: u32 = 0x8000;
pub const SPROP_CELL_COORD: u32 = 0x10_0000;
pub const SPROP_CELL_COORD_LOW_PRECISION: u32 = 0x20_0000;
pub const SPROP_CELL_COORD_INTEGRAL: u32 = 0x40_0000;
pub const SPROP_NORMAL: u32 = SPROP_NORMAL_OR_VARINT;
pub const SPROP_VARINT: u32 = SPROP_NORMAL_OR_VARINT;

/// A property: how its values are written. The limits are given by their bits.
#[derive(Debug)]
pub struct SendPropDef {
    pub name: String,
    pub table_name: String,
    pub prop_type: SendPropType,
    pub flags: u32,
    pub bit_count: u32,
    pub low_value: u32,
    pub high_value: u32,
    pub element_count: u16,
    /// What an array holds.
    pub element_def: Option<Box<SendPropDef>>,
    pub priority: u8,
    /// The array that the property is an element of, if it is one.
    pub array_parent: Option<String>,
}

/// A number as it was read.
#[derive(Debug, Clone, Copy, PartialEq, Eq, Structural)]
pub enum Real {
    /// The bits of the number.
    Bits(u32),
    /// A whole part, and a fraction with as many bits as the last says.
    Cell(u32, u32, u32),
    /// Whether it is negative, and how many of the 2047 parts of one.
    Unit(bool, u32),
    /// A step of the two to the second, less one, between two limits.
    Scaled(u32, u32, u32, u32),
    /// What completes two numbers to a vector of length one, and whether it is
    /// negative.
    Rest(bool),
}

#[derive(Debug)]
pub enum PropValue {
    Int(i64),
    Float(Real),
    Vector(Real, Real, Real),
    VectorXY(Real, Real),
    String(String),
    Array(Vec<PropValue>),
}

/// What a `PropValue` says.
pub enum PropView {
    Int(i64),
    Float(Real),
    Vector(Real, Real, Real),
    VectorXY(Real, Real),
    Text(Seq<char>),
    Array(Seq<PropView>),
}

impl PropValue {
    pub open spec fn view(&self) -> PropView
        decreases self,
    {
        match self {
            PropValue::Int(n) => PropView::Int(*n),
            PropValue::Float(r) => PropView::Float(*r),
            PropValue::Vector(x, y, z) => PropView::Vector(*x, *y, *z),
            PropValue::VectorXY(x, y) => PropView::VectorXY(*x, *y),
            PropValue::String(s) => PropView::Text(s@),
            PropValue::Array(v) => PropView::Array(
                Seq::new(
                    v@.len(),
                    |i: int|
                        if 0 <= i < v@.len() {
                            v@[i].view()
                        } else {
                            PropView::Int(0)
                        },
                ),
            ),
        }
    }

    pub fn as_i64(&self) -> (r: Option<i64>)
        ensures
            r == int_of(self@),
    {
        match self {
            PropValue::Int(v) => Some(*v),
            _ => None,
        }
    }

    pub fn as_f32(&self) -> (r: Option<Real>)
        ensures
            r == real_of(self@),
    {
        match self {
            PropValue::Float(v) => Some(*v),
            _ => None,
        }
    }

    pub fn as_vector(&self) -> (r: Option<(Real, Real, Real)>)
        ensures
            r == vector_of(self@),
    {
        match self {
            PropValue::Vector(x, y, z) => Some((*x, *y, *z)),
            _ => None,
        }
    }

    pub fn as_vector_xy(&self) -> (r: Option<(Real, Real)>)
        ensures
            r == vector_xy_of(self@),
    {
        match self {
            PropValue::VectorXY(x, y) => Some((*x, *y)),
            _ => None,
        }
    }
}

pub open spec fn int_of(v: PropView) -> Option<i64> {
    match v {
        PropView::Int(n) => Some(n),
        _ => None,
    }
}

pub open spec fn real_of(v: PropView) -> Option<Real> {
    match v {
        PropView::Float(r) => Some(r),
        _ => None,
    }
}

pub open spec fn vector_of(v: PropView) -> Option<(Real, Real, Real)> {
    match v {
        PropView::Vector(x, y, z) => Some((x, y, z)),
        _ => None,
    }
}

pub open spec fn vector_xy_of(v: PropView) -> Option<(Real, Real)> {
    match v {
        PropView::VectorXY(x, y) => Some((x, y)),
        _ => None,
    }
}

/// An `n`-bit read of a number; no number has more than 32 bits.
pub open spec fn wide(c: Cursor, n: int) -> Option<(int, Cursor)> {
    if n > 32 {
        None
    } else {
        c.take(n as nat)
    }
}

fn read_wide(br: &mut BitReader, n: u32) -> (r: Option<u32>)
    requires
        old(br).wf(),
    ensures
        final(br).wf(),
        final(br)@.d == old(br)@.d,
        match (r, wide(old(br)@, n as int)) {
            (Some(v), Some((w, c))) => v == w && final(br)@ == c,
            (None, None) => true,
            _ => false,
        },
{
    if n > 32 {
        None
    } else {
        br.read_bits(n)
    }
}

/// Groups of seven bits, the lowest first, each but the last marked; six at most.
pub open spec fn groups_at(c: Cursor, k: int) -> Option<(int, Cursor)>
    decreases 6 - k,
{
    match c.take(8) {
        None => None,
        Some((b, e)) => if b < 128 {
            Some((b, e))
        } else if k >= 5 {
            None
        } else {
            match groups_at(e, k + 1) {
                Some((v, f)) => Some((b - 128 + 128 * v, f)),
                None => None,
            }
        },
    }
}

fn read_groups(br: &mut BitReader) -> (r: Option<u64>)
    requires
        old(br).wf(),
    ensures
        final(br).wf(),
        final(br)@.d == old(br)@.d,
        match (r, groups_at(old(br)@, 0)) {
            (Some(v), Some((w, c))) => v == w && final(br)@ == c && v < 0x400_0000_0000,
            (None, None) => true,
            _ => false,
        },
{
    let ghost c0 = br@;
    let mut acc: u64 = 0;
    let mut w: u64 = 1;
    let mut k: u32 = 0;
    proof {
        lemma2_to64();
    }
    while k < 6
        invariant
            br.wf(),
            br@.d == old(br)@.d,
            c0 == old(br)@,
            k <= 6,
            pow2(8) == 256,
            w == pow2((7 * k) as nat),
            w <= 0x400_0000_0000,
            acc < w,
            k < 6 ==> match (groups_at(c0, 0), groups_at(br@, k as int)) {
                (Some((v, e)), Some((x, f))) => v == acc + w * x && e == f,
                (None, None) => true,
                _ => false,
            },
            k == 6 ==> groups_at(c0, 0) is None,
        decreases 6 - k,
    {
        let ghost c = br@;
        match br.read_bits(8) {
            None => {
                return None;
            },
            Some(b) => {
                proof {
                    vstd::arithmetic::power2::lemma_pow2_adds((7 * k) as nat, 7);
                    lemma2_to64();
                    lemma_pow2_pos((7 * k) as nat);
                    assert(pow2((7 * k + 7) as nat) == w * 128);
                    if k < 5 {
                        lemma_pow2_strictly_increases((7 * k + 7) as nat, 42);
                    }
                    vstd::arithmetic::power2::lemma_pow2_adds(32, 10);
                }
                let low: u64 = (b % 128) as u64;
                proof {
                    assert(w * low <= w * 127) by (nonlinear_arith)
                        requires
                            low <= 127,
                            w >= 1,
                    ;
                    assert(w * low + acc < w * 128) by (nonlinear_arith)
                        requires
                            low <= 127,
                            acc < w,
                    ;
                }
                if b < 128 {
                    proof {
                        assert(groups_at(c, k as int) == Some((b as int, br@)));
                    }
                    return Some(acc + w * low);
                }
                proof {
                    let a0 = acc as int;
                    let w0 = w as int;
                    let l0 = low as int;
                    if k < 5 {
                        match groups_at(br@, k + 1) {
                            Some((x, _)) => {
                                assert(a0 + w0 * (l0 + 128 * x) == (a0 + w0 * l0) + (w0 * 128) * x)
                                    by (nonlinear_arith);
                            },
                            None => {},
                        }
                    }
                }
                acc = acc + w * low;
                if k == 5 {
                    return None;
                }
                w = w * 128;
            },
        }
        k += 1;
    }
    None
}

/// `n` bits as a signed number.
pub open spec fn signed_bits(v: int, n: int) -> int {
    if n > 0 && v >= pow2((n - 1) as nat) {
        v - pow2(n as nat)
    } else {
        v
    }
}

fn to_signed(v: u32, n: u32) -> (r: i64)
    requires
        n <= 32,
        v < pow2(n as nat),
    ensures
        r == signed_bits(v as int, n as int),
{
    if n == 0 {
        return v as i64;
    }
    proof {
        lemma2_to64();
        vstd::bits::lemma_u64_shl_is_mul(1, (n - 1) as u64);
        lemma_pow2_unfold(n as nat);
        if n < 32 {
            lemma_pow2_strictly_increases(n as nat, 32);
        }
        lemma_pow2_pos((n - 1) as nat);
    }
    let half: u64 = 1u64 << ((n - 1) as u64);
    if v as u64 >= half {
        v as i64 - 2 * (half as i64)
    } else {
        v as i64
    }
}

/// A whole number: in groups, or in as many bits as the property says.
pub open spec fn int_at(flags: u32, bits: int, c: Cursor) -> Option<(int, Cursor)> {
    if has_flag(flags as int, 5) {
        match groups_at(c, 0) {
            Some((v, e)) => Some(
                (
                    if has_flag(flags as int, 0) {
                        v
                    } else {
                        unzigzag(v)
                    },
                    e,
                ),
            ),
            None => None,
        }
    } else {
        match wide(c, bits) {
            Some((v, e)) => Some(
                (
                    if has_flag(flags as int, 0) {
                        v
                    } else {
                        signed_bits(v, bits)
                    },
                    e,
                ),
            ),
            None => None,
        }
    }
}

fn decode_int(prop: &SendPropDef, br: &mut BitReader) -> (r: Option<i64>)
    requires
        old(br).wf(),
    ensures
        final(br).wf(),
        final(br)@.d == old(br)@.d,
        match (r, int_at(prop.flags, prop.bit_count as int, old(br)@)) {
            (Some(v), Some((w, c))) => v == w && final(br)@ == c,
            (None, None) => true,
            _ => false,
        },
{
    let unsigned = flag(prop.flags, 0);
    if flag(prop.flags, 5) {
        match read_groups(br) {
            Some(v) => {
                if unsigned {
                    Some(v as i64)
                } else if v % 2 == 0 {
                    Some((v / 2) as i64)
                } else {
                    Some(-((v / 2) as i64) - 1)
                }
            },
            None => None,
        }
    } else {
        proof {
            if prop.bit_count <= 32 {
                crate::bits::lemma_bits_bound(br@.d, br@.pos, prop.bit_count as nat);
            }
        }
        match read_wide(br, prop.bit_count) {
            Some(v) => {
                if unsigned {
                    Some(v as i64)
                } else {
                    Some(to_signed(v, prop.bit_count))
                }
            },
            None => None,
        }
    }
}

/// A whole number of up to 64 bits: a sign unless it has none, the low 32 bits, and
/// what is left.
pub open spec fn int64_at(flags: u32, bits: int, c: Cursor) -> Option<(int, Cursor)> {
    let signed = !has_flag(flags as int, 0);
    if has_flag(flags as int, 5) {
        int_at(flags, bits, c)
    } else {
        match if signed {
            c.take(1)
        } else {
            Some((0, c))
        } {
            None => None,
            Some((neg, c1)) => match c1.take(32) {
                None => None,
                Some((lo, c2)) => {
                    let rest = bits - if signed {
                        33int
                    } else {
                        32
                    };
                    match wide(
                        c2,
                        if rest > 0 {
                            rest
                        } else {
                            0
                        },
                    ) {
                        None => None,
                        Some((hi, c3)) => {
                            let v = hi * 0x1_0000_0000 + lo;
                            Some(
                                (
                                    signed64(
                                        if neg == 1 {
                                            (two64() - v) % two64()
                                        } else {
                                            v
                                        },
                                    ),
                                    c3,
                                ),
                            )
                        },
                    }
                },
            },
        }
    }
}

fn wrapped64(v: u64, neg: bool) -> (r: i64)
    ensures
        r == signed64(
            if neg {
                (two64() - v) % two64()
            } else {
                v as int
            },
        ),
{
    let m: u64 = if neg && v > 0 {
        u64::MAX - v + 1
    } else {
        v
    };
    if m < 0x8000_0000_0000_0000 {
        m as i64
    } else {
        let k: u64 = u64::MAX - m;
        -(k as i64) - 1
    }
}

fn decode_int64(prop: &SendPropDef, br: &mut BitReader) -> (r: Option<i64>)
    requires
        old(br).wf(),
    ensures
        final(br).wf(),
        final(br)@.d == old(br)@.d,
        match (r, int64_at(prop.flags, prop.bit_count as int, old(br)@)) {
            (Some(v), Some((w, c))) => v == w && final(br)@ == c,
            (None, None) => true,
            _ => false,
        },
{
    if flag(prop.flags, 5) {
        return decode_int(prop, br);
    }
    let signed = !flag(prop.flags, 0);
    proof {
        lemma2_to64();
    }
    let neg: u32 = if signed {
        match br.read_bits(1) {
            Some(b) => b,
            None => {
                return None;
            },
        }
    } else {
        0
    };
    let lo: u32 = match br.read_bits(32) {
        Some(v) => v,
        None => {
            return None;
        },
    };
    let used: u32 = if signed {
        33
    } else {
        32
    };
    let rest: u32 = if prop.bit_count > used {
        prop.bit_count - used
    } else {
        0
    };
    match read_wide(br, rest) {
        Some(hi) => Some(wrapped64(hi as u64 * 0x1_0000_0000 + lo as u64, neg == 1)),
        None => None,
    }
}

/// A number with the sign bit set or not.
pub open spec fn with_sign(b: u32, neg: bool) -> u32 {
    if neg && b < 0x8000_0000 {
        (b + 0x8000_0000) as u32
    } else {
        b
    }
}

fn put_sign(b: u32, neg: bool) -> (r: u32)
    ensures
        r == with_sign(b, neg),
{
    if neg && b < 0x8000_0000 {
        b + 0x8000_0000
    } else {
        b
    }
}

/// The `n` bits that a flag announces; none of them count zero.
pub open spec fn maybe(c: Cursor, there: bool, n: nat) -> Option<(int, Cursor)> {
    if there {
        c.take(n)
    } else {
        Some((0, c))
    }
}

fn read_maybe(br: &mut BitReader, there: bool, n: u32) -> (r: Option<u32>)
    requires
        old(br).wf(),
        n <= 32,
    ensures
        final(br).wf(),
        final(br)@.d == old(br)@.d,
        match (r, maybe(old(br)@, there, n as nat)) {
            (Some(v), Some((w, c))) => v == w && final(br)@ == c && (v < pow2(n as nat) || v == 0),
            (None, None) => true,
            _ => false,
        },
{
    if there {
        br.read_bits(n)
    } else {
        Some(0)
    }
}

/// One more than a whole part that is there.
pub open spec fn counted(there: bool, v: int) -> int {
    if there {
        v + 1
    } else {
        0
    }
}

/// A coordinate: whether it has a whole part and a fraction in 32nds, its sign, and
/// both.
pub open spec fn coord_at(c: Cursor) -> Option<(Real, Cursor)> {
    match c.take(1) {
        None => None,
        Some((i, c1)) => match c1.take(1) {
            None => None,
            Some((f, c2)) => if i == 0 && f == 0 {
                Some((Real::Bits(0), c2))
            } else {
                match c2.take(1) {
                    None => None,
                    Some((neg, c3)) => match maybe(c3, i == 1, 14) {
                        None => None,
                        Some((v, c4)) => match maybe(c4, f == 1, 5) {
                            None => None,
                            Some((w, c5)) => Some(
                                (
                                    Real::Bits(
                                        with_sign(
                                            ratio_bits(32 * counted(i == 1, v) + w, 5),
                                            neg == 1,
                                        ),
                                    ),
                                    c5,
                                ),
                            ),
                        },
                    },
                }
            },
        },
    }
}

fn decode_coord(br: &mut BitReader) -> (r: Option<Real>)
    requires
        old(br).wf(),
    ensures
        final(br).wf(),
        final(br)@.d == old(br)@.d,
        match (r, coord_at(old(br)@)) {
            (Some(v), Some((w, c))) => v == w && final(br)@ == c,
            (None, None) => true,
            _ => false,
        },
{
    proof {
        lemma2_to64();
    }
    let i: u32 = match br.read_bits(1) {
        Some(v) => v,
        None => {
            return None;
        },
    };
    let f: u32 = match br.read_bits(1) {
        Some(v) => v,
        None => {
            return None;
        },
    };
    if i == 0 && f == 0 {
        return Some(Real::Bits(0));
    }
    let neg: u32 = match br.read_bits(1) {
        Some(v) => v,
        None => {
            return None;
        },
    };
    let v: u32 = match read_maybe(br, i == 1, 14) {
        Some(v) => v,
        None => {
            return None;
        },
    };
    let w: u32 = match read_maybe(br, f == 1, 5) {
        Some(w) => w,
        None => {
            return None;
        },
    };
    let whole: u32 = if i == 1 {
        v + 1
    } else {
        0
    };
    Some(Real::Bits(put_sign(from_ratio((32 * whole + w) as i32, 5), neg == 1)))
}

/// How many bits the whole part of a coordinate has, by whether it is within bounds.
pub open spec fn whole_bits(near: bool) -> nat {
    if near {
        11
    } else {
        14
    }
}

/// A coordinate of a multiplayer game without a fraction: whether it is within
/// bounds and not zero, its sign, and its whole part.
pub open spec fn coord_whole_at(c: Cursor) -> Option<(Real, Cursor)> {
    match c.take(1) {
        None => None,
        Some((near, c1)) => match c1.take(1) {
            None => None,
            Some((i, c2)) => if i == 0 {
                Some((Real::Bits(0), c2))
            } else {
                match c2.take(1) {
                    None => None,
                    Some((neg, c3)) => match c3.take(whole_bits(near == 1)) {
                        None => None,
                        Some((v, c4)) => Some(
                            (Real::Bits(with_sign(ratio_bits(v + 1, 0), neg == 1)), c4),
                        ),
                    },
                }
            },
        },
    }
}

/// A coordinate of a multiplayer game with a fraction of `n` bits.
pub open spec fn coord_mp_at(c: Cursor, n: nat) -> Option<(Real, Cursor)> {
    match c.take(1) {
        None => None,
        Some((near, c1)) => match c1.take(1) {
            None => None,
            Some((i, c2)) => match c2.take(1) {
                None => None,
                Some((neg, c3)) => match maybe(c3, i == 1, whole_bits(near == 1)) {
                    None => None,
                    Some((v, c4)) => match c4.take(n) {
                        None => None,
                        Some((w, c5)) => Some(
                            (
                                Real::Bits(
                                    with_sign(
                                        ratio_bits(
                                            counted(i == 1, v) * pow2(n) + w,
                                            n as int,
                                        ),
                                        neg == 1,
                                    ),
                                ),
                                c5,
                            ),
                        ),
                    },
                },
            },
        },
    }
}

fn decode_coord_mp(br: &mut BitReader, is_integral: bool, low_precision: bool) -> (r: Option<Real>)
    requires
        old(br).wf(),
    ensures
        final(br).wf(),
        final(br)@.d == old(br)@.d,
        match (
            r,
            if is_integral {
                coord_whole_at(old(br)@)
            } else {
                coord_mp_at(
                    old(br)@,
                    if low_precision {
                        3
                    } else {
                        5
                    },
                )
            },
        ) {
            (Some(v), Some((w, c))) => v == w && final(br)@ == c,
            (None, None) => true,
            _ => false,
        },
{
    proof {
        lemma2_to64();
    }
    let near: u32 = match br.read_bits(1) {
        Some(v) => v,
        None => {
            return None;
        },
    };
    let i: u32 = match br.read_bits(1) {
        Some(v) => v,
        None => {
            return None;
        },
    };
    let bits: u32 = if near == 1 {
        11
    } else {
        14
    };
    if is_integral && i == 0 {
        return Some(Real::Bits(0));
    }
    let neg: u32 = match br.read_bits(1) {
        Some(v) => v,
        None => {
            return None;
        },
    };
    let v: u32 = match read_maybe(br, i == 1, bits) {
        Some(v) => v,
        None => {
            return None;
        },
    };
    let whole: u32 = if i == 1 {
        v + 1
    } else {
        0
    };
    if is_integral {
        return Some(Real::Bits(put_sign(from_ratio(whole as i32, 0), neg == 1)));
    }
    let n: u32 = if low_precision {
        3
    } else {
        5
    };
    let unit: u32 = if low_precision {
        8
    } else {
        32
    };
    match br.read_bits(n) {
        Some(w) => {
            let m: u32 = whole * unit + w;
            Some(Real::Bits(put_sign(from_ratio(m as i32, n), neg == 1)))
        },
        None => None,
    }
}

/// An offset within a cell: its whole part and, unless it has none, its fraction of
/// `n` bits.
pub open spec fn cell_at(c: Cursor, bits: int, whole: bool, n: nat) -> Option<(Real, Cursor)> {
    match wide(c, bits) {
        None => None,
        Some((v, c1)) => if whole {
            Some((Real::Cell(v as u32, 0, 0), c1))
        } else {
            match c1.take(n) {
                None => None,
                Some((w, c2)) => Some((Real::Cell(v as u32, w as u32, n as u32), c2)),
            }
        },
    }
}

fn decode_cell_coord(br: &mut BitReader, bits: u32, is_integral: bool, low_precision: bool) -> (r:
    Option<Real>)
    requires
        old(br).wf(),
    ensures
        final(br).wf(),
        final(br)@.d == old(br)@.d,
        match (
            r,
            cell_at(
                old(br)@,
                bits as int,
                is_integral,
                if low_precision {
                    3
                } else {
                    5
                },
            ),
        ) {
            (Some(v), Some((w, c))) => v == w && final(br)@ == c,
            (None, None) => true,
            _ => false,
        },
{
    let v: u32 = match read_wide(br, bits) {
        Some(v) => v,
        None => {
            return None;
        },
    };
    if is_integral {
        return Some(Real::Cell(v, 0, 0));
    }
    let n: u32 = if low_precision {
        3
    } else {
        5
    };
    match br.read_bits(n) {
        Some(w) => Some(Real::Cell(v, w, n)),
        None => None,
    }
}

/// A component of a vector of length one: a sign, and parts of one.
pub open spec fn normal_at(c: Cursor) -> Option<(Real, Cursor)> {
    match c.take(1) {
        None => None,
        Some((neg, c1)) => match c1.take(11) {
            None => None,
            Some((v, c2)) => Some((Real::Unit(neg == 1, v as u32), c2)),
        },
    }
}

fn decode_normal(br: &mut BitReader) -> (r: Option<Real>)
    requires
        old(br).wf(),
    ensures
        final(br).wf(),
        final(br)@.d == old(br)@.d,
        match (r, normal_at(old(br)@)) {
            (Some(v), Some((w, c))) => v == w && final(br)@ == c,
            (None, None) => true,
            _ => false,
        },
{
    match br.read_bool() {
        Some(neg) => match br.read_bits(11) {
            Some(v) => Some(Real::Unit(neg, v)),
            None => None,
        },
        None => None,
    }
}

/// How the numbers of a property are written: what its flags say, the first of them
/// that is set. Nothing set says steps between two limits.
#[verifier::opaque]
pub open spec fn real_at(p: SendPropDef, c: Cursor) -> Option<(Real, Cursor)> {
    let flags = p.flags as int;
    if has_flag(flags, 1) {
        coord_at(c)
    } else if has_flag(flags, 13) {
        coord_mp_at(c, 5)
    } else if has_flag(flags, 14) {
        coord_mp_at(c, 3)
    } else if has_flag(flags, 15) {
        coord_whole_at(c)
    } else if has_flag(flags, 20) {
        cell_at(c, p.bit_count as int, false, 5)
    } else if has_flag(flags, 21) {
        cell_at(c, p.bit_count as int, false, 3)
    } else if has_flag(flags, 22) {
        cell_at(c, p.bit_count as int, true, 5)
    } else if has_flag(flags, 2) {
        match c.take(32) {
            Some((v, e)) => Some((Real::Bits(v as u32), e)),
            None => None,
        }
    } else if has_flag(flags, 5) {
        normal_at(c)
    } else {
        match wide(c, p.bit_count as int) {
            Some((v, e)) => Some(
                (Real::Scaled(v as u32, p.bit_count, p.low_value, p.high_value), e),
            ),
            None => None,
        }
    }
}

fn decode_float(prop: &SendPropDef, br: &mut BitReader) -> (r: Option<Real>)
    requires
        old(br).wf(),
    ensures
        final(br).wf(),
        final(br)@.d == old(br)@.d,
        match (r, real_at(*prop, old(br)@)) {
            (Some(v), Some((w, c))) => v == w && final(br)@ == c,
            (None, None) => true,
            _ => false,
        },
{
    proof {
        reveal(real_at);
    }
    let flags: u32 = prop.flags;
    if flag(flags, 1) {
        decode_coord(br)
    } else if flag(flags, 13) {
        decode_coord_mp(br, false, false)
    } else if flag(flags, 14) {
        decode_coord_mp(br, false, true)
    } else if flag(flags, 15) {
        decode_coord_mp(br, true, false)
    } else if flag(flags, 20) {
        decode_cell_coord(br, prop.bit_count, false, false)
    } else if flag(flags, 21) {
        decode_cell_coord(br, prop.bit_count, false, true)
    } else if flag(flags, 22) {
        decode_cell_coord(br, prop.bit_count, true, false)
    } else if flag(flags, 2) {
        match br.read_bit_float() {
            Some(v) => Some(Real::Bits(v)),
            None => None,
        }
    } else if flag(flags, 5) {
        decode_normal(br)
    } else {
        match read_wide(br, prop.bit_count) {
            Some(v) => Some(Real::Scaled(v, prop.bit_count, prop.low_value, prop.high_value)),
            None => None,
        }
    }
}

/// A vector: three numbers, or two and the sign of the third where its length is
/// one.
pub open spec fn vector_at(p: SendPropDef, c: Cursor) -> Option<((Real, Real, Real), Cursor)> {
    match real_at(p, c) {
        None => None,
        Some((x, c1)) => match real_at(p, c1) {
            None => None,
            Some((y, c2)) => if has_flag(p.flags as int, 5) {
                match c2.take(1) {
                    Some((neg, c3)) => Some(((x, y, Real::Rest(neg == 1)), c3)),
                    None => None,
                }
            } else {
                match real_at(p, c2) {
                    Some((z, c3)) => Some(((x, y, z), c3)),
                    None => None,
                }
            },
        },
    }
}

fn decode_vector(prop: &SendPropDef, br: &mut BitReader) -> (r: Option<(Real, Real, Real)>)
    requires
        old(br).wf(),
    ensures
        final(br).wf(),
        final(br)@.d == old(br)@.d,
        match (r, vector_at(*prop, old(br)@)) {
            (Some(v), Some((w, c))) => v == w && final(br)@ == c,
            (None, None) => true,
            _ => false,
        },
{
    match decode_float(prop, br) {
        None => None,
        Some(x) => match decode_float(prop, br) {
            None => None,
            Some(y) => if flag(prop.flags, 5) {
                match br.read_bool() {
                    Some(neg) => Some((x, y, Real::Rest(neg))),
                    None => None,
                }
            } else {
                match decode_float(prop, br) {
                    Some(z) => Some((x, y, z)),
                    None => None,
                }
            },
        },
    }
}

/// Two numbers.
pub open spec fn pair_at(p: SendPropDef, c: Cursor) -> Option<((Real, Real), Cursor)> {
    match real_at(p, c) {
        None => None,
        Some((x, c1)) => match real_at(p, c1) {
            Some((y, c2)) => Some(((x, y), c2)),
            None => None,
        },
    }
}

fn decode_vector_xy(prop: &SendPropDef, br: &mut BitReader) -> (r: Option<(Real, Real)>)
    requires
        old(br).wf(),
    ensures
        final(br).wf(),
        final(br)@.d == old(br)@.d,
        match (r, pair_at(*prop, old(br)@)) {
            (Some(v), Some((w, c))) => v == w && final(br)@ == c,
            (None, None) => true,
            _ => false,
        },
{
    match decode_float(prop, br) {
        None => None,
        Some(x) => match decode_float(prop, br) {
            Some(y) => Some((x, y)),
            None => None,
        },
    }
}

/// A text: nine bits say how many bytes it has.
pub open spec fn text_at(c: Cursor) -> Option<(Seq<char>, Cursor)> {
    match c.take(9) {
        None => None,
        Some((n, c1)) => if c1.has(8 * n) {
            Some((lossy_chars(c1.byte_seq(n as nat)), c1.adv(8 * n)))
        } else {
            None
        },
    }
}

fn decode_string(br: &mut BitReader) -> (r: Option<std::string::String>)
    requires
        old(br).wf(),
    ensures
        final(br).wf(),
        final(br)@.d == old(br)@.d,
        match (r, text_at(old(br)@)) {
            (Some(v), Some((w, c))) => v@ == w && final(br)@ == c,
            (None, None) => true,
            _ => false,
        },
{
    proof {
        lemma2_to64();
    }
    match br.read_bits(9) {
        None => None,
        Some(n) => match br.read_byte_vec(n as usize) {
            Some(b) => Some(lossy(b.as_slice())),
            None => None,
        },
    }
}

/// How many bits count up to `n`.
pub open spec fn bits_for(n: int) -> int {
    floor_log2(n) + 1
}

/// The value of a property.
pub open spec fn prop_at(p: SendPropDef, c: Cursor) -> Option<(PropView, Cursor)>
    decreases p, 0int,
{
    match p.prop_type {
        SendPropType::Int => match int_at(p.flags, p.bit_count as int, c) {
            Some((v, e)) => Some((PropView::Int(v as i64), e)),
            None => None,
        },
        SendPropType::Int64 => match int64_at(p.flags, p.bit_count as int, c) {
            Some((v, e)) => Some((PropView::Int(v as i64), e)),
            None => None,
        },
        SendPropType::Float => match real_at(p, c) {
            Some((v, e)) => Some((PropView::Float(v), e)),
            None => None,
        },
        SendPropType::Vector => match vector_at(p, c) {
            Some(((x, y, z), e)) => Some((PropView::Vector(x, y, z), e)),
            None => None,
        },
        SendPropType::VectorXY => match pair_at(p, c) {
            Some(((x, y), e)) => Some((PropView::VectorXY(x, y), e)),
            None => None,
        },
        SendPropType::String => match text_at(c) {
            Some((s, e)) => Some((PropView::Text(s), e)),
            None => None,
        },
        SendPropType::Array => match c.take(bits_for(p.element_count as int) as nat) {
            None => None,
            Some((n, c1)) => match p.element_def {
                None => None,
                Some(e) => match items_at(*e, c1, n) {
                    Some((items, c2)) => Some((PropView::Array(items), c2)),
                    None => None,
                },
            },
        },
        SendPropType::DataTable => None,
    }
}

/// `n` values of a property.
pub open spec fn items_at(p: SendPropDef, c: Cursor, n: int) -> Option<(Seq<PropView>, Cursor)>
    decreases p, n,
{
    if n <= 0 {
        Some((Seq::empty(), c))
    } else {
        match items_at(p, c, n - 1) {
            None => None,
            Some((items, c1)) => match prop_at(p, c1) {
                Some((v, c2)) => Some((items.push(v), c2)),
                None => None,
            },
        }
    }
}

proof fn lemma_log_small(n: int, k: int)
    requires
        0 <= n < pow2(k as nat),
        k >= 1,
    ensures
        0 <= floor_log2(n) < k,
    decreases k,
{
    if n > 1 {
        lemma_pow2_unfold(k as nat);
        if k == 1 {
            lemma2_to64();
        }
        lemma_log_small(n / 2, k - 1);
    }
}

/// The values view to `items`.
spec fn views(v: Seq<PropValue>) -> Seq<PropView> {
    Seq::new(v.len(), |i: int| v[i]@)
}

fn decode_array(prop: &SendPropDef, br: &mut BitReader) -> (r: Option<Vec<PropValue>>)
    requires
        old(br).wf(),
        prop.prop_type == SendPropType::Array,
    ensures
        final(br).wf(),
        final(br)@.d == old(br)@.d,
        match (r, prop_at(*prop, old(br)@)) {
            (Some(v), Some((w, c))) => PropValue::Array(v)@ == w && final(br)@ == c,
            (None, None) => true,
            _ => false,
        },
    decreases *prop, 0int,
{
    proof {
        lemma2_to64();
        lemma_log_small(prop.element_count as int, 16);
    }
    let bits: u32 = log2(prop.element_count as u32) + 1;
    let n: u32 = match br.read_bits(bits) {
        Some(n) => n,
        None => {
            return None;
        },
    };
    let ghost c1 = br@;
    match &prop.element_def {
        None => None,
        Some(e) => {
            let mut out: Vec<PropValue> = Vec::new();
            let mut i: u32 = 0;
            assert(views(out@) =~= Seq::empty());
            while i < n
                invariant
                    br.wf(),
                    br@.d == old(br)@.d,
                    i <= n,
                    prop.element_def == Some(*e),
                    items_at(**e, c1, i as int) == Some((views(out@), br@)),
                    prop_at(*prop, old(br)@) == match items_at(**e, c1, n as int) {
                        Some((items, c2)) => Some((PropView::Array(items), c2)),
                        None => None,
                    },
                decreases n - i,
            {
                match decode_prop(&**e, br) {
                    Some(v) => {
                        let ghost before = views(out@);
                        out.push(v);
                        assert(views(out@) =~= before.push(v@));
                    },
                    None => {
                        proof {
                            lemma_items_stop(**e, c1, i + 1, n as int);
                        }
                        return None;
                    },
                }
                i += 1;
            }
            proof {
                let ghost w = PropValue::Array(out);
                match w@ {
                    PropView::Array(s) => {
                        assert(s =~= views(out@));
                    },
                    _ => {},
                }
            }
            Some(out)
        },
    }
}

proof fn lemma_items_stop(p: SendPropDef, c: Cursor, k: int, n: int)
    requires
        0 <= k <= n,
        items_at(p, c, k) is None,
    ensures
        items_at(p, c, n) is None,
    decreases n - k,
{
    if k < n {
        lemma_items_stop(p, c, k, n - 1);
    }
}

/// Reads the value of a property.
pub fn decode_prop(prop: &SendPropDef, br: &mut BitReader) -> (r: Option<PropValue>)
    requires
        old(br).wf(),
    ensures
        final(br).wf(),
        final(br)@.d == old(br)@.d,
        match (r, prop_at(*prop, old(br)@)) {
            (Some(v), Some((w, c))) => v@ == w && final(br)@ == c,
            (None, None) => true,
            _ => false,
        },
    decreases *prop, 1int,
{
    match prop.prop_type {
        SendPropType::Int => match decode_int(prop, br) {
            Some(v) => Some(PropValue::Int(v)),
            None => None,
        },
        SendPropType::Int64 => match decode_int64(prop, br) {
            Some(v) => Some(PropValue::Int(v)),
            None => None,
        },
        SendPropType::Float => match decode_float(prop, br) {
            Some(v) => Some(PropValue::Float(v)),
            None => None,
        },
        SendPropType::Vector => match decode_vector(prop, br) {
            Some((x, y, z)) => Some(PropValue::Vector(x, y, z)),
            None => None,
        },
        SendPropType::VectorXY => match decode_vector_xy(prop, br) {
            Some((x, y)) => Some(PropValue::VectorXY(x, y)),
            None => None,
        },
        SendPropType::String => match decode_string(br) {
            Some(s) => Some(PropValue::String(s)),
            None => None,
        },
        SendPropType::Array => match decode_array(prop, br) {
            Some(v) => Some(PropValue::Array(v)),
            None => None,
        },
        SendPropType::DataTable => None,
    }
}

/// The reader goes on in the same bits, and not past their end.
pub open spec fn onward(a: Cursor, b: Cursor) -> bool {
    b.d == a.d && b.end == a.end && a.pos <= b.pos <= b.end
}

proof fn lemma_groups_onward(c: Cursor, k: int)
    ensures
        groups_at(c, k) matches Some((_, e)) ==> onward(c, e),
    decreases 6 - k,
{
    match c.take(8) {
        Some((b, e)) => if b >= 128 && k < 5 {
            lemma_groups_onward(e, k + 1);
        },
        None => {},
    }
}

proof fn lemma_real_onward(p: SendPropDef, c: Cursor)
    ensures
        real_at(p, c) matches Some((_, e)) ==> onward(c, e),
{
    reveal(real_at);
}

/// A value is read from the bits at the reader, and none behind the end.
pub proof fn lemma_prop_onward(p: SendPropDef, c: Cursor)
    requires
        c.pos <= c.end,
    ensures
        prop_at(p, c) matches Some((_, e)) ==> onward(c, e),
    decreases p, 0int,
{
    lemma_groups_onward(c, 0);
    match p.prop_type {
        SendPropType::Vector | SendPropType::VectorXY | SendPropType::Float => {
            lemma_real_onward(p, c);
            match real_at(p, c) {
                Some((_, c1)) => {
                    lemma_real_onward(p, c1);
                    match real_at(p, c1) {
                        Some((_, c2)) => {
                            lemma_real_onward(p, c2);
                        },
                        None => {},
                    }
                },
                None => {},
            }
        },
        SendPropType::Array => match c.take(bits_for(p.element_count as int) as nat) {
            Some((n, c1)) => match p.element_def {
                Some(e) => {
                    crate::bits::lemma_bits_bound(
                        c.d,
                        c.pos,
                        bits_for(p.element_count as int) as nat,
                    );
                    lemma_items_onward(*e, c1, n);
                },
                None => {},
            },
            None => {},
        },
        SendPropType::String => {
            crate::bits::lemma_bits_bound(c.d, c.pos, 9);
        },
        _ => {},
    }
}

proof fn lemma_items_onward(p: SendPropDef, c: Cursor, n: int)
    requires
        c.pos <= c.end,
    ensures
        items_at(p, c, n) matches Some((_, e)) ==> onward(c, e),
    decreases p, n,
{
    if n > 0 {
        lemma_items_onward(p, c, n - 1);
        match items_at(p, c, n - 1) {
            Some((_, c1)) => lemma_prop_onward(p, c1),
            None => {},
        }
    }
}

} // verus!
