//! Little-endian fields of a byte slice.
use crate::text::lossy;
use vstd::arithmetic::power2::pow2;
use vstd::prelude::*;

verus! {

/// The unsigned 16-bit little-endian field at byte `o`.
pub open spec fn u16_at(d: Seq<u8>, o: int) -> int {
    d[o] + 0x100 * d[o + 1]
}

/// The unsigned 32-bit little-endian field at byte `o`.
pub open spec fn u32_at(d: Seq<u8>, o: int) -> int {
    d[o] + 0x100 * d[o + 1] + 0x1_0000 * d[o + 2] + 0x100_0000 * d[o + 3]
}

/// A 16-bit pattern read as two's complement.
pub open spec fn signed16(u: int) -> int {
    if u < 0x8000 { u } else { u - 0x1_0000 }
}

/// A 32-bit pattern read as two's complement.
pub open spec fn signed32(u: int) -> int {
    if u < 0x8000_0000 { u } else { u - 0x1_0000_0000 }
}

/// The signed 16-bit little-endian field at byte `o`.
pub open spec fn i16_at(d: Seq<u8>, o: int) -> int {
    signed16(u16_at(d, o))
}

/// The signed 32-bit little-endian field at byte `o`.
pub open spec fn i32_at(d: Seq<u8>, o: int) -> int {
    signed32(u32_at(d, o))
}

pub fn to_i16(u: u16) -> (r: i16)
    ensures
        r == signed16(u as int),
{
    if u < 0x8000 {
        u as i16
    } else {
        -((0xffff - u) as i16) - 1
    }
}

pub fn to_i32(u: u32) -> (r: i32)
    ensures
        r == signed32(u as int),
{
    if u < 0x8000_0000 {
        u as i32
    } else {
        -((0xffff_ffff - u) as i32) - 1
    }
}

pub fn le_u16(d: &[u8], o: usize) -> (r: u16)
    requires
        o + 2 <= d.len(),
    ensures
        r == u16_at(d@, o as int),
{
    d[o] as u16 + 0x100 * (d[o + 1] as u16)
}

pub fn le_u32(d: &[u8], o: usize) -> (r: u32)
    requires
        o + 4 <= d.len(),
    ensures
        r == u32_at(d@, o as int),
{
    d[o] as u32 + 0x100 * (d[o + 1] as u32) + 0x1_0000 * (d[o + 2] as u32) + 0x100_0000 * (d[o
        + 3] as u32)
}

pub fn le_i16(d: &[u8], o: usize) -> (r: i16)
    requires
        o + 2 <= d.len(),
    ensures
        r == i16_at(d@, o as int),
{
    to_i16(le_u16(d, o))
}

pub fn le_i32(d: &[u8], o: usize) -> (r: i32)
    requires
        o + 4 <= d.len(),
    ensures
        r == i32_at(d@, o as int),
{
    to_i32(le_u32(d, o))
}

/// The place `n` behind `o`, or `n` more than `o` of anything; the largest number that
/// can be counted where that is more.
pub open spec fn ahead_of(o: int, n: int) -> int {
    if o + n <= usize::MAX {
        o + n
    } else {
        usize::MAX as int
    }
}

pub(crate) fn ahead(o: usize, n: usize) -> (r: usize)
    ensures
        r == ahead_of(o as int, n as int),
{
    if n <= usize::MAX - o {
        o + n
    } else {
        usize::MAX
    }
}

/// Whether `n` bytes stand at `o`.
pub(crate) fn fits(d: &[u8], o: usize, n: usize) -> (r: bool)
    ensures
        r == (o + n <= d@.len()),
        r ==> o + n <= usize::MAX,
{
    n <= d.len() && o <= d.len() - n
}

/// The first index from `i` on that holds a zero byte, or the length.
pub open spec fn zero_from(s: Seq<u8>, i: int) -> int
    decreases s.len() - i,
{
    if i >= s.len() {
        s.len() as int
    } else if s[i] == 0 {
        i
    } else {
        zero_from(s, i + 1)
    }
}

/// The bytes before the first zero byte.
pub open spec fn until_zero(s: Seq<u8>) -> Seq<u8> {
    s.take(zero_from(s, 0))
}

/// The zero-terminated string in the `max` bytes at `off`.
pub open spec fn cstr_at(d: Seq<u8>, off: int, max: int) -> Seq<u8> {
    until_zero(d.subrange(off, off + max))
}

pub proof fn lemma_zero_from(s: Seq<u8>, i: int)
    requires
        0 <= i <= s.len(),
    ensures
        i <= zero_from(s, i) <= s.len(),
        forall|k: int| i <= k < zero_from(s, i) ==> s[k] != 0,
        zero_from(s, i) < s.len() ==> s[zero_from(s, i)] == 0,
    decreases s.len() - i,
{
    if i < s.len() && s[i] != 0 {
        lemma_zero_from(s, i + 1);
    }
}

/// The index of the first zero byte, or the length.
pub fn find_zero(s: &[u8]) -> (r: usize)
    ensures
        r == zero_from(s@, 0),
        r <= s@.len(),
{
    let mut i: usize = 0;
    while i < s.len()
        invariant
            i <= s@.len(),
            zero_from(s@, 0) == zero_from(s@, i as int),
        decreases s@.len() - i,
    {
        if s[i] == 0 {
            return i;
        }
        i += 1;
    }
    i
}

/// A fixed-size text field: what stands before its first zero byte.
pub fn read_cstring(d: &[u8], off: usize, max: usize) -> (r: String)
    requires
        off + max <= d.len(),
    ensures
        r@ == crate::text::lossy_chars(cstr_at(d@, off as int, max as int)),
{
    let w = vstd::slice::slice_subrange(d, off, off + max);
    let n: usize = find_zero(w);
    assert(w@.take(n as int) =~= w@.subrange(0, n as int));
    lossy(vstd::slice::slice_subrange(w, 0, n))
}

/// Whether the bytes at `o` spell `pat`.
pub open spec fn spells(d: Seq<u8>, o: int, pat: Seq<u8>) -> bool {
    o + pat.len() <= d.len() && d.subrange(o, o + pat.len()) == pat
}

pub fn starts_with_bytes(d: &[u8], pat: &[u8]) -> (r: bool)
    ensures
        r == spells(d@, 0, pat@),
{
    if d.len() < pat.len() {
        return false;
    }
    crate::text::bytes_eq(vstd::slice::slice_subrange(d, 0, pat.len()), pat)
}

/// Whether bit `k` of a number is set.
pub open spec fn has_flag(n: int, k: int) -> bool {
    (n / pow2(k as nat) as int) % 2 == 1
}

pub fn flag(n: u32, k: u32) -> (r: bool)
    requires
        k < 32,
    ensures
        r == has_flag(n as int, k as int),
{
    proof {
        vstd::bits::lemma_u32_shr_is_div(n, k);
    }
    (n >> k) % 2 == 1
}

/// A byte as a signed number.
pub open spec fn signed8(b: u8) -> int {
    if b < 128 {
        b as int
    } else {
        b - 256
    }
}

pub fn to_i8(b: u8) -> (r: i8)
    ensures
        r == signed8(b),
{
    if b < 128 {
        b as i8
    } else {
        (b as i16 - 256) as i8
    }
}

} // verus!
