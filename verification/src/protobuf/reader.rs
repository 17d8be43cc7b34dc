//! A cursor over one message's bytes.
use super::{Error, Result};
use crate::bytes::{le_u32, signed32, to_i32, u32_at};
use crate::text::lossy;
use vstd::arithmetic::power2::{lemma2_to64, lemma_pow2_adds, pow2};
use vstd::prelude::*;

verus! {

pub open spec fn two64() -> int {
    0x1_0000_0000_0000_0000
}

/// How many bytes from `pos` on carry the continuation bit.
pub open spec fn continued(d: Seq<u8>, pos: int) -> int
    decreases d.len() - pos,
{
    if pos < 0 || pos >= d.len() || d[pos] < 0x80 {
        0
    } else {
        1 + continued(d, pos + 1)
    }
}

/// The low seven bits of each of the `n` bytes at `pos`, the first least significant.
pub open spec fn groups(d: Seq<u8>, pos: int, n: nat) -> int
    decreases n,
{
    if n == 0 {
        0
    } else {
        groups(d, pos, (n - 1) as nat) + (d[pos + n - 1] % 0x80) * pow2((7 * (n - 1)) as nat)
    }
}

/// The varint at `pos`: its value, reduced to 64 bits, or why there is none, and
/// where reading stops.
pub open spec fn varint(d: Seq<u8>, pos: int) -> (Result<u64>, int) {
    let n = continued(d, pos);
    if n >= 10 && pos + 10 < d.len() {
        (Err(Error::VarintOverflow), pos + 11)
    } else if pos + n >= d.len() {
        (Err(Error::Truncated), d.len() as int)
    } else {
        (Ok((groups(d, pos, (n + 1) as nat) % two64()) as u64), pos + n + 1)
    }
}

/// A length-prefixed run of bytes.
pub open spec fn len_bytes(d: Seq<u8>, pos: int) -> (Result<Seq<u8>>, int) {
    match varint(d, pos) {
        (Ok(v), p) => if p + (v as usize) <= d.len() {
            (Ok(d.subrange(p, p + (v as usize))), p + (v as usize))
        } else {
            (Err(Error::Truncated), p)
        },
        (Err(e), p) => (Err(e), p),
    }
}

/// A 64-bit pattern read as two's complement.
pub open spec fn signed64(u: int) -> int {
    if u < 0x8000_0000_0000_0000 {
        u
    } else {
        u - two64()
    }
}

/// The number that the zigzag code `u` stands for: 0, -1, 1, -2, ...
pub open spec fn unzigzag(u: int) -> int {
    if u % 2 == 0 {
        u / 2
    } else {
        -(u / 2) - 1
    }
}

/// The zigzag code of a number.
pub open spec fn zigzag(n: int) -> int {
    if n >= 0 {
        2 * n
    } else {
        -2 * n - 1
    }
}

#[derive(Debug, Clone, Copy, PartialEq, Eq, Structural)]
pub enum WireType {
    Varint,
    Fixed64,
    Len,
    Fixed32,
}

impl WireType {
    pub open spec fn of_tag(w: u8) -> Result<WireType> {
        if w == 0 {
            Ok(WireType::Varint)
        } else if w == 1 {
            Ok(WireType::Fixed64)
        } else if w == 2 {
            Ok(WireType::Len)
        } else if w == 5 {
            Ok(WireType::Fixed32)
        } else {
            Err(Error::UnsupportedWireType(w))
        }
    }

    fn from_tag(w: u8) -> (r: Result<WireType>)
        ensures
            r == Self::of_tag(w),
    {
        match w {
            0 => Ok(WireType::Varint),
            1 => Ok(WireType::Fixed64),
            2 => Ok(WireType::Len),
            5 => Ok(WireType::Fixed32),
            other => Err(Error::UnsupportedWireType(other)),
        }
    }
}

#[derive(Debug, Clone, Copy, PartialEq)]
pub enum Value<'a> {
    Varint(u64),
    Fixed64(u64),
    Len(&'a [u8]),
    Fixed32(u32),
}

/// What a `Value` says.
pub enum ValueView {
    Varint(u64),
    Fixed64(u64),
    Len(Seq<u8>),
    Fixed32(u32),
}

impl ValueView {
    pub open spec fn number(self) -> Option<u64> {
        match self {
            ValueView::Varint(v) => Some(v),
            ValueView::Fixed64(v) => Some(v),
            ValueView::Fixed32(v) => Some(v as u64),
            ValueView::Len(_) => None,
        }
    }
}

impl<'a> Value<'a> {
    pub open spec fn view(&self) -> ValueView {
        match *self {
            Value::Varint(v) => ValueView::Varint(v),
            Value::Fixed64(v) => ValueView::Fixed64(v),
            Value::Len(b) => ValueView::Len(b@),
            Value::Fixed32(v) => ValueView::Fixed32(v),
        }
    }

    pub fn as_u64(self) -> (r: Option<u64>)
        ensures
            r == self@.number(),
    {
        match self {
            Value::Varint(v) => Some(v),
            Value::Fixed64(v) => Some(v),
            Value::Fixed32(v) => Some(v as u64),
            Value::Len(_) => None,
        }
    }

    pub fn as_i64(self) -> (r: Option<i64>)
        ensures
            match (r, self@.number()) {
                (Some(i), Some(v)) => i == signed64(v as int),
                (None, None) => true,
                _ => false,
            },
    {
        match self.as_u64() {
            Some(v) => if v < 0x8000_0000_0000_0000 {
                Some(v as i64)
            } else {
                Some(-((0xffff_ffff_ffff_ffff - v) as i64) - 1)
            },
            None => None,
        }
    }

    pub fn as_u32(self) -> (r: Option<u32>)
        ensures
            match (r, self@.number()) {
                (Some(u), Some(v)) => u == v % 0x1_0000_0000,
                (None, None) => true,
                _ => false,
            },
    {
        match self.as_u64() {
            Some(v) => Some((v % 0x1_0000_0000) as u32),
            None => None,
        }
    }

    pub fn as_i32(self) -> (r: Option<i32>)
        ensures
            match (r, self@.number()) {
                (Some(i), Some(v)) => i == signed32((v % 0x1_0000_0000) as int),
                (None, None) => true,
                _ => false,
            },
    {
        match self.as_u32() {
            Some(v) => Some(to_i32(v)),
            None => None,
        }
    }

    pub fn as_bool(self) -> (r: Option<bool>)
        ensures
            match (r, self@.number()) {
                (Some(b), Some(v)) => b == (v != 0),
                (None, None) => true,
                _ => false,
            },
    {
        match self.as_u64() {
            Some(v) => Some(v != 0),
            None => None,
        }
    }

    pub fn as_sint32(self) -> (r: Option<i32>)
        ensures
            match (r, self@.number()) {
                (Some(i), Some(v)) => i == unzigzag((v % 0x1_0000_0000) as int),
                (None, None) => true,
                _ => false,
            },
    {
        match self.as_u32() {
            Some(v) => if v % 2 == 0 {
                Some((v / 2) as i32)
            } else {
                Some(-((v / 2) as i32) - 1)
            },
            None => None,
        }
    }

    pub fn as_sint64(self) -> (r: Option<i64>)
        ensures
            match (r, self@.number()) {
                (Some(i), Some(v)) => i == unzigzag(v as int),
                (None, None) => true,
                _ => false,
            },
    {
        match self.as_u64() {
            Some(v) => if v % 2 == 0 {
                Some((v / 2) as i64)
            } else {
                Some(-((v / 2) as i64) - 1)
            },
            None => None,
        }
    }

    /// The IEEE-754 bits of a `float` field.
    pub fn as_f32(self) -> (r: Option<u32>)
        ensures
            r == match self@ {
                ValueView::Fixed32(v) => Some(v),
                _ => None,
            },
    {
        match self {
            Value::Fixed32(v) => Some(v),
            _ => None,
        }
    }

    /// The IEEE-754 bits of a `double` field.
    pub fn as_f64(self) -> (r: Option<u64>)
        ensures
            r == match self@ {
                ValueView::Fixed64(v) => Some(v),
                _ => None,
            },
    {
        match self {
            Value::Fixed64(v) => Some(v),
            _ => None,
        }
    }

    pub fn as_bytes(self) -> (r: Option<&'a [u8]>)
        ensures
            match (r, self@) {
                (Some(b), ValueView::Len(s)) => b@ == s,
                (None, ValueView::Len(_)) => false,
                (Some(_), _) => false,
                (None, _) => true,
            },
    {
        match self {
            Value::Len(b) => Some(b),
            _ => None,
        }
    }

    pub fn as_str(self) -> (r: Option<String>)
        ensures
            match (r, self@) {
                (Some(t), ValueView::Len(s)) => t@ == crate::text::lossy_chars(s) && (
                vstd::utf8::valid_utf8(s) ==> t@ == vstd::utf8::decode_utf8(s)),
                (None, ValueView::Len(_)) => false,
                (Some(_), _) => false,
                (None, _) => true,
            },
    {
        match self {
            Value::Len(b) => Some(lossy(b)),
            _ => None,
        }
    }

    pub fn as_message(self) -> (r: Option<Reader<'a>>)
        ensures
            match (r, self@) {
                (Some(m), ValueView::Len(s)) => m.wf() && m.bytes() == s && m.pos() == 0,
                (None, ValueView::Len(_)) => false,
                (Some(_), _) => false,
                (None, _) => true,
            },
    {
        match self {
            Value::Len(b) => Some(Reader::new(b)),
            _ => None,
        }
    }
}

#[derive(Debug, Clone, Copy, PartialEq)]
pub struct Field<'a> {
    pub number: u32,
    pub value: Value<'a>,
}

/// What a `Field` says.
pub struct FieldView {
    pub number: u32,
    pub value: ValueView,
}

impl<'a> Field<'a> {
    pub open spec fn view(&self) -> FieldView {
        FieldView { number: self.number, value: self.value@ }
    }

    pub fn value(&self) -> (v: Value<'a>)
        ensures
            v == self.value,
    {
        self.value
    }
}

pub open spec fn u64_at(d: Seq<u8>, o: int) -> int {
    u32_at(d, o) + 0x1_0000_0000 * u32_at(d, o + 4)
}

/// The value of wire type `w` at `pos`.
pub open spec fn value_at(d: Seq<u8>, pos: int, w: WireType) -> (Result<ValueView>, int) {
    match w {
        WireType::Varint => match varint(d, pos) {
            (Ok(v), p) => (Ok(ValueView::Varint(v)), p),
            (Err(e), p) => (Err(e), p),
        },
        WireType::Fixed64 => if pos + 8 <= d.len() {
            (Ok(ValueView::Fixed64(u64_at(d, pos) as u64)), pos + 8)
        } else {
            (Err(Error::Truncated), pos)
        },
        WireType::Len => match len_bytes(d, pos) {
            (Ok(b), p) => (Ok(ValueView::Len(b)), p),
            (Err(e), p) => (Err(e), p),
        },
        WireType::Fixed32 => if pos + 4 <= d.len() {
            (Ok(ValueView::Fixed32(u32_at(d, pos) as u32)), pos + 4)
        } else {
            (Err(Error::Truncated), pos)
        },
    }
}

/// The field at `pos`: none at the end of the message.
pub open spec fn field_at(d: Seq<u8>, pos: int) -> (Result<Option<FieldView>>, int) {
    if pos >= d.len() {
        (Ok(None), pos)
    } else {
        match varint(d, pos) {
            (Err(e), p) => (Err(e), p),
            (Ok(tag), p) => match WireType::of_tag((tag % 8) as u8) {
                Err(e) => (Err(e), p),
                Ok(w) => match value_at(d, p, w) {
                    (Err(e), q) => (Err(e), q),
                    (Ok(value), q) => (
                        Ok(Some(FieldView { number: ((tag / 8) % 0x1_0000_0000) as u32, value })),
                        q,
                    ),
                },
            },
        }
    }
}

/// All fields from `pos` on, up to the end or the first one that does not parse.
pub open spec fn fields_from(d: Seq<u8>, pos: int) -> Seq<FieldView>
    decreases d.len() - pos,
    via fields_from_decreases
{
    match field_at(d, pos) {
        (Ok(Some(f)), p) => if pos >= 0 {
            seq![f] + fields_from(d, p)
        } else {
            Seq::empty()
        },
        _ => Seq::empty(),
    }
}

#[via_fn]
proof fn fields_from_decreases(d: Seq<u8>, pos: int) {
    if pos >= 0 && (field_at(d, pos).0 matches Ok(Some(_))) {
        lemma_field_progress(d, pos);
    }
}

pub proof fn lemma_continued(d: Seq<u8>, pos: int)
    requires
        0 <= pos,
    ensures
        0 <= continued(d, pos),
        pos <= d.len() ==> pos + continued(d, pos) <= d.len(),
    decreases d.len() - pos,
{
    if pos < d.len() {
        lemma_continued(d, pos + 1);
    }
}

/// A field that parses takes at least one byte and stays within the message.
pub proof fn lemma_field_progress(d: Seq<u8>, pos: int)
    requires
        0 <= pos,
        field_at(d, pos).0 matches Ok(Some(_)),
    ensures
        pos < field_at(d, pos).1 <= d.len(),
        field_at(d, pos).0->Ok_0->0.value matches ValueView::Len(b) ==> b.len() <= d.len(),
{
    lemma_continued(d, pos);
    let p = varint(d, pos).1;
    lemma_continued(d, p);
    match len_bytes(d, p) {
        (Ok(b), q) => {
            let n = varint(d, p).0->Ok_0 as usize;
            assert(d.subrange(q - n, q).len() == n);
        },
        _ => {},
    }
}

/// Zigzag decoding undoes zigzag encoding.
pub proof fn law_zigzag_round_trip(n: int)
    ensures
        zigzag(n) >= 0,
        unzigzag(zigzag(n)) == n,
{
}

/// Zigzag encoding undoes zigzag decoding, and 32-bit codes stand for 32-bit numbers.
pub proof fn law_unzigzag_round_trip(u: int)
    requires
        0 <= u,
    ensures
        zigzag(unzigzag(u)) == u,
        u < 0x1_0000_0000 ==> -0x8000_0000 <= unzigzag(u) < 0x8000_0000,
{
}

proof fn lemma_groups_bound(d: Seq<u8>, pos: int, n: nat)
    ensures
        0 <= groups(d, pos, n) < pow2(7 * n),
    decreases n,
{
    lemma2_to64();
    if n > 0 {
        lemma_groups_bound(d, pos, (n - 1) as nat);
        lemma_pow2_adds((7 * (n - 1)) as nat, 7);
        let g = (d[pos + n - 1] % 0x80) as int;
        let w = pow2((7 * (n - 1)) as nat) as int;
        assert(0 <= g * w && g * w + w <= w * 128) by (nonlinear_arith)
            requires
                0 <= g <= 127,
                w >= 0,
        ;
    }
}

#[derive(Debug, Clone)]
pub struct Reader<'a> {
    buf: &'a [u8],
    pos: usize,
}

impl<'a> Reader<'a> {
    pub closed spec fn bytes(&self) -> Seq<u8> {
        self.buf@
    }

    pub closed spec fn pos(&self) -> int {
        self.pos as int
    }

    pub closed spec fn wf(&self) -> bool {
        self.pos <= self.buf@.len()
    }

    /// The cursor lies within the bytes.
    pub proof fn lemma_wf(&self)
        requires
            self.wf(),
        ensures
            0 <= self.pos() <= self.bytes().len(),
    {
    }

    pub fn new(buf: &'a [u8]) -> (r: Self)
        ensures
            r.wf(),
            r.bytes() == buf@,
            r.pos() == 0,
    {
        Reader { buf, pos: 0 }
    }

    pub fn is_empty(&self) -> (b: bool)
        requires
            self.wf(),
        ensures
            b == (self.pos() >= self.bytes().len()),
    {
        self.pos >= self.buf.len()
    }

    /// What was not read yet.
    pub fn remaining(&self) -> (r: &'a [u8])
        requires
            self.wf(),
        ensures
            r@ == self.bytes().subrange(self.pos(), self.bytes().len() as int),
            r@.len() == self.bytes().len() - self.pos(),
    {
        vstd::slice::slice_subrange(self.buf, self.pos, self.buf.len())
    }

    /// Reads a varint.
    pub fn read_varint(&mut self) -> (r: Result<u64>)
        requires
            old(self).wf(),
        ensures
            final(self).wf(),
            final(self).bytes() == old(self).bytes(),
            (r, final(self).pos()) == varint(old(self).bytes(), old(self).pos()),
    {
        let ghost d = self.buf@;
        let ghost start = self.pos as int;
        let mut sum: u128 = 0;
        let mut weight: u128 = 1;
        let mut k: usize = 0;
        proof {
            lemma2_to64();
            lemma_continued(d, start);
        }
        loop
            invariant
                d == self.buf@,
                d == old(self).buf@,
                start == old(self).pos,
                self.buf@ == old(self).buf@,
                k <= 10,
                self.pos == start + k,
                self.pos <= self.buf@.len(),
                continued(d, start) == k + continued(d, start + k),
                0 <= continued(d, start + k),
                start + continued(d, start) <= d.len(),
                weight == pow2((7 * k) as nat),
                weight <= 0x40_0000_0000_0000_0000,
                sum == groups(d, start, k as nat),
                sum < weight,
                pow2(7) == 128,
            decreases 10 - k,
        {
            proof {
                lemma_continued(d, start + k);
            }
            if self.pos >= self.buf.len() {
                return Err(Error::Truncated);
            }
            let byte: u8 = self.buf[self.pos];
            self.pos += 1;
            if k >= 10 {
                proof {
                    if byte >= 0x80 {
                        lemma_continued(d, start + 11);
                    }
                }
                return Err(Error::VarintOverflow);
            }
            let low: u128 = (byte % 0x80) as u128;
            proof {
                lemma_groups_bound(d, start, (k + 1) as nat);
                lemma_pow2_adds((7 * k) as nat, 7);
                assert(7 * k + 7 == 7 * (k + 1));
                assert(0 <= low * weight && low * weight + weight <= weight * 128)
                    by (nonlinear_arith)
                    requires
                        low <= 127,
                ;
                lemma_weight(k as nat);
                lemma_continued(d, start + k + 1);
            }
            sum = sum + low * weight;
            if byte < 0x80 {
                assert(continued(d, start + k) == 0);
                return Ok((sum % 0x1_0000_0000_0000_0000) as u64);
            }
            weight = weight * 128;
            k = k + 1;
        }
    }

    /// Reads `n` bytes.
    pub fn read_bytes(&mut self, n: usize) -> (r: Result<&'a [u8]>)
        requires
            old(self).wf(),
        ensures
            final(self).wf(),
            final(self).bytes() == old(self).bytes(),
            match r {
                Ok(b) => old(self).pos() + n <= old(self).bytes().len() && b@ == old(
                    self,
                ).bytes().subrange(old(self).pos(), old(self).pos() + n) && final(self).pos()
                    == old(self).pos() + n,
                Err(e) => e == Error::Truncated && old(self).pos() + n > old(self).bytes().len()
                    && final(self).pos() == old(self).pos(),
            },
    {
        if n > self.buf.len() - self.pos {
            return Err(Error::Truncated);
        }
        let end: usize = self.pos + n;
        let slice = vstd::slice::slice_subrange(self.buf, self.pos, end);
        self.pos = end;
        Ok(slice)
    }

    fn read_fixed32(&mut self) -> (r: Result<u32>)
        requires
            old(self).wf(),
        ensures
            final(self).wf(),
            final(self).bytes() == old(self).bytes(),
            match r {
                Ok(v) => old(self).pos() + 4 <= old(self).bytes().len() && v == u32_at(
                    old(self).bytes(),
                    old(self).pos(),
                ) && final(self).pos() == old(self).pos() + 4,
                Err(e) => e == Error::Truncated && old(self).pos() + 4 > old(self).bytes().len()
                    && final(self).pos() == old(self).pos(),
            },
    {
        if 4 > self.buf.len() - self.pos {
            return Err(Error::Truncated);
        }
        let v: u32 = le_u32(self.buf, self.pos);
        self.pos = self.pos + 4;
        Ok(v)
    }

    fn read_fixed64(&mut self) -> (r: Result<u64>)
        requires
            old(self).wf(),
        ensures
            final(self).wf(),
            final(self).bytes() == old(self).bytes(),
            match r {
                Ok(v) => old(self).pos() + 8 <= old(self).bytes().len() && v == u64_at(
                    old(self).bytes(),
                    old(self).pos(),
                ) && final(self).pos() == old(self).pos() + 8,
                Err(e) => e == Error::Truncated && old(self).pos() + 8 > old(self).bytes().len()
                    && final(self).pos() == old(self).pos(),
            },
    {
        if 8 > self.buf.len() - self.pos {
            return Err(Error::Truncated);
        }
        let lo: u32 = le_u32(self.buf, self.pos);
        let hi: u32 = le_u32(self.buf, self.pos + 4);
        self.pos = self.pos + 8;
        Ok(lo as u64 + 0x1_0000_0000 * hi as u64)
    }

    fn read_len(&mut self) -> (r: Result<&'a [u8]>)
        requires
            old(self).wf(),
        ensures
            final(self).wf(),
            final(self).bytes() == old(self).bytes(),
            match (r, len_bytes(old(self).bytes(), old(self).pos())) {
                (Ok(b), (Ok(s), p)) => b@ == s && final(self).pos() == p,
                (Err(e), (Err(f), p)) => e == f && final(self).pos() == p,
                _ => false,
            },
    {
        match self.read_varint() {
            Ok(n) => {
                let len: usize = n as usize;
                self.read_bytes(len)
            },
            Err(e) => Err(e),
        }
    }

    /// Reads a field; none at the end.
    pub fn next_field(&mut self) -> (r: Result<Option<Field<'a>>>)
        requires
            old(self).wf(),
        ensures
            final(self).wf(),
            final(self).bytes() == old(self).bytes(),
            match (r, field_at(old(self).bytes(), old(self).pos())) {
                (Ok(Some(f)), (Ok(Some(g)), p)) => f@ == g && final(self).pos() == p,
                (Ok(None), (Ok(None), p)) => final(self).pos() == p,
                (Err(e), (Err(f), p)) => e == f && final(self).pos() == p,
                _ => false,
            },
    {
        if self.is_empty() {
            return Ok(None);
        }
        let tag: u64 = match self.read_varint() {
            Ok(v) => v,
            Err(e) => {
                return Err(e);
            },
        };
        let number: u32 = ((tag / 8) % 0x1_0000_0000) as u32;
        let wire = match WireType::from_tag((tag % 8) as u8) {
            Ok(w) => w,
            Err(e) => {
                return Err(e);
            },
        };
        let value = match wire {
            WireType::Varint => match self.read_varint() {
                Ok(v) => Value::Varint(v),
                Err(e) => {
                    return Err(e);
                },
            },
            WireType::Fixed64 => match self.read_fixed64() {
                Ok(v) => Value::Fixed64(v),
                Err(e) => {
                    return Err(e);
                },
            },
            WireType::Len => match self.read_len() {
                Ok(v) => Value::Len(v),
                Err(e) => {
                    return Err(e);
                },
            },
            WireType::Fixed32 => match self.read_fixed32() {
                Ok(v) => Value::Fixed32(v),
                Err(e) => {
                    return Err(e);
                },
            },
        };
        Ok(Some(Field { number, value }))
    }

    /// Reads a field; none at the end, and none where it does not parse.
    pub fn next(&mut self) -> (r: Option<Field<'a>>)
        requires
            old(self).wf(),
        ensures
            final(self).wf(),
            final(self).bytes() == old(self).bytes(),
            final(self).pos() == field_at(old(self).bytes(), old(self).pos()).1,
            match (r, field_at(old(self).bytes(), old(self).pos()).0) {
                (Some(f), Ok(Some(g))) => f@ == g,
                (None, Ok(Some(_))) => false,
                (None, _) => true,
                _ => false,
            },
    {
        match self.next_field() {
            Ok(f) => f,
            Err(_) => None,
        }
    }

    /// The remaining fields in order, up to the end of the message or the first
    /// one that does not parse.
    pub fn fields(self) -> (r: Vec<Field<'a>>)
        requires
            self.wf(),
        ensures
            r@.map_values(|f: Field<'a>| f@) == fields_from(self.bytes(), self.pos()),
    {
        let mut rd = self;
        let mut out: Vec<Field<'a>> = Vec::new();
        let ghost view = |f: Field<'a>| f@;
        proof {
            assert(out@.map_values(view) + fields_from(self.bytes(), self.pos()) =~= fields_from(
                self.bytes(),
                self.pos(),
            ));
        }
        loop
            invariant
                rd.wf(),
                rd.bytes() == self.bytes(),
                view == |f: Field<'a>| f@,
                fields_from(self.bytes(), self.pos()) == out@.map_values(view) + fields_from(
                    rd.bytes(),
                    rd.pos(),
                ),
            decreases rd.bytes().len() - rd.pos(),
        {
            let ghost p = rd.pos();
            let ghost done = out@.map_values(view);
            match rd.next() {
                Some(f) => {
                    proof {
                        lemma_field_progress(rd.bytes(), p);
                        let rest = fields_from(rd.bytes(), rd.pos());
                        assert(done + (seq![f@] + rest) =~= done.push(f@) + rest);
                        assert(out@.push(f).map_values(view) =~= done.push(f@));
                    }
                    out.push(f);
                },
                None => {
                    assert(out@.map_values(view) =~= out@.map_values(view) + Seq::empty());
                    return out;
                },
            }
        }
    }
}

proof fn lemma_weight(k: nat)
    requires
        k < 10,
    ensures
        pow2(7 * k) * 128 <= 0x40_0000_0000_0000_0000,
{
    lemma2_to64();
    lemma_pow2_adds(64, 6);
    lemma_pow2_adds(7 * k, 7);
    if 7 * k + 7 < 70 {
        vstd::arithmetic::power2::lemma_pow2_strictly_increases(7 * k + 7, 70);
    }
}

/// All fields from `pos` on; none where one of them does not parse.
pub open spec fn whole_from(d: Seq<u8>, pos: int) -> Option<Seq<FieldView>>
    decreases d.len() - pos,
    via whole_from_decreases
{
    match field_at(d, pos) {
        (Ok(Some(f)), p) => if pos >= 0 {
            match whole_from(d, p) {
                Some(rest) => Some(seq![f] + rest),
                None => None,
            }
        } else {
            None
        },
        (Ok(None), _) => Some(Seq::empty()),
        _ => None,
    }
}

#[via_fn]
proof fn whole_from_decreases(d: Seq<u8>, pos: int) {
    if pos >= 0 && (field_at(d, pos).0 matches Ok(Some(_))) {
        lemma_field_progress(d, pos);
    }
}

pub open spec fn field_views<'a>(v: Seq<Field<'a>>) -> Seq<FieldView> {
    v.map_values(|f: Field<'a>| f@)
}

/// All fields of a message; none where one of them does not parse.
pub fn whole_fields<'a>(buf: &'a [u8]) -> (r: Option<Vec<Field<'a>>>)
    ensures
        match (r, whole_from(buf@, 0)) {
            (Some(v), Some(s)) => field_views(v@) == s,
            (None, None) => true,
            _ => false,
        },
{
    let mut rd = Reader::new(buf);
    let mut out: Vec<Field<'a>> = Vec::new();
    let ghost all = whole_from(buf@, 0);
    proof {
        match all {
            Some(s) => {
                assert(field_views(out@) + s =~= s);
            },
            None => {},
        }
    }
    loop
        invariant
            rd.wf(),
            rd.bytes() == buf@,
            all == whole_from(buf@, 0),
            match (all, whole_from(buf@, rd.pos())) {
                (Some(s), Some(rest)) => s == field_views(out@) + rest,
                (None, None) => true,
                _ => false,
            },
        decreases rd.bytes().len() - rd.pos(),
    {
        let ghost p = rd.pos();
        let ghost done = field_views(out@);
        proof {
            if field_at(rd.bytes(), p).0 matches Ok(Some(_)) {
                lemma_field_progress(rd.bytes(), p);
            }
        }
        match rd.next_field() {
            Ok(Some(f)) => {
                proof {
                    assert(field_views(out@.push(f)) =~= done.push(f@));
                    match whole_from(buf@, rd.pos()) {
                        Some(rest) => {
                            assert(done + (seq![f@] + rest) =~= done.push(f@) + rest);
                        },
                        None => {},
                    }
                }
                out.push(f);
            },
            Ok(None) => {
                assert(done + Seq::<FieldView>::empty() =~= done);
                return Some(out);
            },
            Err(_) => {
                return None;
            },
        }
    }
}

} // verus!
