//! Quake 3 demos.
//!
//! Blocks of a sequence number, a length and a message of that length. A message is
//! a stream of bits in which whole bytes are written in a prefix code. Positions
//! come with the state of the recorder and with the entities of a snapshot.
use super::huffman::{grown, received, Code, Huff};
use super::{built, client_of, dm_protocol, extension_tail, fits_i32, no_tracks, QuakeDemo,
    QuakeError, QuakeMeta, TrackBuilder, Tracks};
use crate::bits::{bits_at, countable, get_bits, lemma_bits_bound};
use crate::bsp::spawn::{find_char, place_of};
use crate::bytes::{ahead, ahead_of, flag, has_flag, i32_at, le_i32, signed16, signed32, to_i16, to_i32};
use crate::ieee::{finite, from_ratio, is_finite, ratio_bits};
use crate::info::{info_of, info_value};
use crate::maps::labels;
use crate::text::{chars_of, is_empty_text, lower_chars, parse_i32, parse_u32, str_eq, text_of,
    trim, trimmed, whole_number};
use std::collections::HashMap;
use vstd::arithmetic::power2::{lemma2_to64, pow2};
use vstd::prelude::*;

verus! {

/// Where a reader of a message stands.
pub struct Wire {
    pub code: Code,
    pub d: Seq<u8>,
    pub bit: int,
    pub over: bool,
}

impl Wire {
    pub open spec fn end(self) -> int {
        8 * self.d.len() as int
    }

    pub open spec fn valid(self) -> bool {
        0 <= self.bit <= self.end() + 1
    }

    pub open spec fn at(self, bit: int) -> Wire {
        Wire { bit, ..self }
    }

    pub open spec fn fail(self) -> Wire {
        Wire { over: true, ..self }
    }

    /// `n` coded bytes, the first at bit `shift` of the result.
    pub open spec fn octets(self, value: u32, shift: u32, n: int) -> (u32, Wire)
        decreases n,
    {
        if n <= 0 {
            (value, self)
        } else {
            let (s, b) = received(self.code, self.d, self.bit, self.code.root);
            if b > self.end() {
                (0, self.at(b).fail())
            } else {
                self.at(b).octets(
                    value | ((s as u32) << shift),
                    (shift + 8) as u32,
                    n - 1,
                )
            }
        }
    }

    /// A number of `n` bits: those beyond whole bytes first, as they are, and then
    /// the coded bytes.
    pub open spec fn raw(self, n: int) -> (u32, Wire) {
        let k = n % 8;
        if k > 0 && self.bit + k > self.end() {
            (0, self.fail())
        } else {
            self.at(self.bit + k).octets(
                bits_at(self.d, self.bit, k as nat) as u32,
                k as u32,
                n / 8,
            )
        }
    }

    pub open spec fn val(self, n: int) -> u32 {
        self.raw(n).0
    }

    pub open spec fn after(self, n: int) -> Wire {
        self.raw(n).1
    }

    pub open spec fn set(self) -> bool {
        self.val(1) != 0
    }

    /// A byte, or -1 once the message is over.
    pub open spec fn byte(self) -> int {
        if self.after(8).over {
            -1
        } else {
            self.val(8) as int % 256
        }
    }

    pub open spec fn short(self) -> int {
        signed16(self.val(16) as int % 0x1_0000)
    }

    pub open spec fn long(self) -> int {
        signed32(self.val(32) as int)
    }

    /// A text of which `n` characters were read. Characters beyond ASCII and percent
    /// signs are dots.
    pub open spec fn text(self, n: int) -> (Seq<char>, Wire)
        decreases 8193 - n,
    {
        let c = self.byte();
        let w = self.after(8);
        if c <= 0 || n > 8192 {
            (Seq::empty(), w)
        } else {
            let ch = if c > 127 || c == 37 {
                '.'
            } else {
                c as char
            };
            if n >= 8192 {
                (seq![ch], w)
            } else {
                let (rest, e) = w.text(n + 1);
                (seq![ch] + rest, e)
            }
        }
    }

    /// Past `n` bytes.
    pub open spec fn past_bytes(self, n: int) -> Wire
        decreases n,
    {
        if n <= 0 {
            self
        } else {
            self.after(8).past_bytes(n - 1)
        }
    }
}

/// A reader of a message.
struct Msg<'a> {
    data: &'a [u8],
    bit: u64,
    huff: &'a Huff,
    overflow: bool,
}

/// The reader moved only forward in the same message.
spec fn moved(a: Wire, b: Wire) -> bool {
    b.code == a.code && b.d == a.d && b.bit >= a.bit && (a.over ==> b.over)
}

impl<'a> Msg<'a> {
    spec fn view(&self) -> Wire {
        Wire { code: self.huff@, d: self.data@, bit: self.bit as int, over: self.overflow }
    }

    spec fn wf(&self) -> bool {
        self.huff.wf() && countable(self.data@) && self.bit <= 8 * self.data@.len() + 1
    }

    fn new(data: &'a [u8], huff: &'a Huff) -> (m: Self)
        requires
            huff.wf(),
            countable(data@),
        ensures
            m.wf(),
            m@ == (Wire { code: huff@, d: data@, bit: 0, over: false }),
    {
        Msg { data, bit: 0, huff, overflow: false }
    }

    fn read_raw(&mut self, n: u32) -> (v: u32)
        requires
            old(self).wf(),
            1 <= n <= 32,
        ensures
            final(self).wf(),
            moved(old(self)@, final(self)@),
            (v, final(self)@) == old(self)@.raw(n as int),
            n % 8 > 0 && !final(self)@.over ==> final(self)@.bit > old(self)@.bit,
    {
        let end: u64 = 8 * self.data.len() as u64;
        let k: u32 = n % 8;
        let ghost w0 = self@;
        let mut value: u32 = 0;
        if k != 0 {
            if k as u64 > end || self.bit > end - k as u64 {
                self.overflow = true;
                return 0;
            }
            value = get_bits(self.data, self.bit, k);
            self.bit = self.bit + k as u64;
        }
        proof {
            assert(bits_at(w0.d, w0.bit, 0) == 0);
        }
        let ghost w1 = self@;
        let ghost v1 = value;
        let mut shift: u32 = k;
        let mut i: u32 = 0;
        while i < n / 8
            invariant
                self.wf(),
                end == 8 * self.data@.len(),
                moved(w1, self@),
                moved(old(self)@, w1),
                old(self)@.raw(n as int) == w1.octets(v1, k, (n / 8) as int),
                self@.over == w1.over,
                i <= n / 8,
                n <= 32,
                k == n % 8,
                shift == k + 8 * i,
                w1.octets(v1, k, (n / 8) as int) == self@.octets(value, shift, n / 8 - i),
            decreases n / 8 - i,
        {
            let (s, b) = self.huff.offset_receive(self.data, self.bit, end);
            self.bit = b;
            if b > end {
                self.overflow = true;
                return 0;
            }
            value = value | ((s as u32) << shift);
            shift = shift + 8;
            i += 1;
        }
        value
    }

    fn read_flag(&mut self) -> (r: bool)
        requires
            old(self).wf(),
        ensures
            final(self).wf(),
            moved(old(self)@, final(self)@),
            final(self)@ == old(self)@.after(1),
            r == old(self)@.set(),
            !final(self)@.over ==> final(self)@.bit > old(self)@.bit,
    {
        self.read_raw(1) != 0
    }

    fn read_byte(&mut self) -> (r: i32)
        requires
            old(self).wf(),
        ensures
            final(self).wf(),
            moved(old(self)@, final(self)@),
            final(self)@ == old(self)@.after(8),
            r == old(self)@.byte(),
            -1 <= r <= 255,
    {
        let v: u32 = self.read_raw(8);
        if self.overflow {
            -1
        } else {
            (v % 256) as i32
        }
    }

    fn read_short(&mut self) -> (r: i32)
        requires
            old(self).wf(),
        ensures
            final(self).wf(),
            moved(old(self)@, final(self)@),
            final(self)@ == old(self)@.after(16),
            r == old(self)@.short(),
            -0x8000 <= r < 0x8000,
    {
        let v: u32 = self.read_raw(16);
        to_i16((v % 0x1_0000) as u16) as i32
    }

    fn read_long(&mut self) -> (r: i32)
        requires
            old(self).wf(),
        ensures
            final(self).wf(),
            moved(old(self)@, final(self)@),
            final(self)@ == old(self)@.after(32),
            r == old(self)@.long(),
    {
        to_i32(self.read_raw(32))
    }

    fn read_string(&mut self) -> (s: String)
        requires
            old(self).wf(),
        ensures
            final(self).wf(),
            moved(old(self)@, final(self)@),
            (s@, final(self)@) == old(self)@.text(0),
    {
        let mut out = String::new();
        let mut n: u32 = 0;
        let ghost all = self@.text(0);
        assert(out@ + all.0 =~= all.0);
        loop
            invariant
                self.wf(),
                moved(old(self)@, self@),
                n <= 8192,
                all == old(self)@.text(0),
                all.0 == out@ + self@.text(n as int).0,
                all.1 == self@.text(n as int).1,
            decreases 8193 - n,
        {
            let ghost w = self@;
            let ghost done = out@;
            let c: i32 = self.read_byte();
            if c <= 0 {
                assert(done + Seq::<char>::empty() =~= done);
                return out;
            }
            let ch: char = if c > 127 || c == 37 {
                '.'
            } else {
                (c as u8) as char
            };
            out.push(ch);
            if n >= 8192 {
                assert(done + seq![ch] =~= done.push(ch));
                return out;
            }
            proof {
                let rest = self@.text(n + 1).0;
                assert(done + (seq![ch] + rest) =~= done.push(ch) + rest);
            }
            n += 1;
        }
    }

    fn skip_bytes(&mut self, n: u32)
        requires
            old(self).wf(),
        ensures
            final(self).wf(),
            moved(old(self)@, final(self)@),
            final(self)@ == old(self)@.past_bytes(n as int),
    {
        let mut i: u32 = 0;
        while i < n
            invariant
                self.wf(),
                moved(old(self)@, self@),
                i <= n,
                self@.past_bytes(n - i) == old(self)@.past_bytes(n as int),
            decreases n - i,
        {
            let _ = self.read_byte();
            i += 1;
        }
    }
}

pub const ENT_FIELDS: usize = 51;

pub const PS_FIELDS: usize = 48;

/// How many bits a field of an entity has; none where it is a fraction.
pub open spec fn ent_width(i: int) -> int {
    match i as u8 {
        17 => 19,
        27 => 24,
        28 | 50 => 16,
        9 | 15 | 18 | 30 => 10,
        0 | 22 | 38 | 39 | 40 | 45 | 49 => 32,
        11 | 12 | 13 | 14 | 16 | 19 | 20 | 23 | 29 | 31 | 32 | 36 => 8,
        _ => 0,
    }
}

fn ent_bits(i: usize) -> (w: u32)
    requires
        i < ENT_FIELDS,
    ensures
        w == ent_width(i as int),
        w <= 32,
{
    match i {
        17 => 19,
        27 => 24,
        28 | 50 => 16,
        9 | 15 | 18 | 30 => 10,
        0 | 22 | 38 | 39 | 40 | 45 | 49 => 32,
        11 | 12 | 13 | 14 | 16 | 19 | 20 | 23 | 29 | 31 | 32 | 36 => 8,
        _ => 0,
    }
}

/// How many bits a field of the recorder's state has, negative for a signed one;
/// none where it is a fraction.
pub open spec fn ps_width(i: int) -> int {
    match i as u8 {
        0 => 32,
        28 => -8,
        37 => 12,
        41 => 5,
        8 | 12 => -16,
        15 | 21 => 4,
        20 | 23 | 46 => 10,
        13 | 19 | 22 | 24 | 25 | 26 | 35 | 36 | 47 => 16,
        1 | 2 | 4 | 5 | 6 | 7 | 9 | 10 | 42 | 43 | 44 | 45 => 0,
        _ => 8,
    }
}

fn ps_bits(i: usize) -> (w: i32)
    requires
        i < PS_FIELDS,
    ensures
        w == ps_width(i as int),
        w == -16 || w == -8 || 0 <= w <= 32,
{
    match i {
        0 => 32,
        28 => -8,
        37 => 12,
        41 => 5,
        8 | 12 => -16,
        15 | 21 => 4,
        20 | 23 | 46 => 10,
        13 | 19 | 22 | 24 | 25 | 26 | 35 | 36 | 47 => 16,
        1 | 2 | 4 | 5 | 6 | 7 | 9 | 10 | 42 | 43 | 44 | 45 => 0,
        _ => 8,
    }
}

/// A whole number that a fraction is written as, moved up to be positive.
pub open spec fn trunc_bits(v: u32) -> u32 {
    ratio_bits(v - 4096, 0)
}

proof fn lemma_trunc(w: Wire)
    requires
        w.valid(),
        received(w.code, w.d, w.bit + 5, w.code.root).0 <= 256,
        received(w.code, w.d, w.bit + 5, w.code.root).0 >= 0,
    ensures
        w.val(13) <= 0x3fff,
{
    reveal_with_fuel(Wire::octets, 3);
    lemma_bits_bound(w.d, w.bit, 5);
    lemma2_to64();
    let a = bits_at(w.d, w.bit, 5) as u32;
    let s = received(w.code, w.d, w.bit + 5, w.code.root).0 as u32;
    assert(a < 32);
    assert((a | (s << 5u32)) <= 0x3fff) by (bit_vector)
        requires
            a < 32,
            s <= 256,
    ;
}

/// A fraction behind the flag that says how it is written: a small whole number,
/// or all of its bits.
pub open spec fn fraction_at(w: Wire) -> (u32, Wire) {
    let w1 = w.after(1);
    if !w.set() {
        (trunc_bits(w1.val(13)), w1.after(13))
    } else {
        (w1.val(32), w1.after(32))
    }
}

fn read_fraction(m: &mut Msg) -> (v: u32)
    requires
        old(m).wf(),
    ensures
        final(m).wf(),
        moved(old(m)@, final(m)@),
        (v, final(m)@) == fraction_at(old(m)@),
{
    if !m.read_flag() {
        let v: u32 = read_small(m);
        from_ratio(v as i32 - 4096, 0)
    } else {
        m.read_raw(32)
    }
}

fn read_small(m: &mut Msg) -> (v: u32)
    requires
        old(m).wf(),
    ensures
        final(m).wf(),
        moved(old(m)@, final(m)@),
        (v, final(m)@) == old(m)@.raw(13),
        v <= 0x3fff,
{
    proof {
        m.huff.lemma_byte(m@.d, m@.bit + 5);
        lemma_trunc(m@);
    }
    m.read_raw(13)
}

/// The new value of a field of an entity.
pub open spec fn entity_value(w: Wire, i: int) -> (u32, Wire) {
    let w1 = w.after(1);
    if !w.set() {
        (0, w1)
    } else if ent_width(i) == 0 {
        fraction_at(w1)
    } else {
        (w1.val(ent_width(i)), w1.after(ent_width(i)))
    }
}

fn read_entity_value(m: &mut Msg, i: usize) -> (v: u32)
    requires
        i < ENT_FIELDS,
        old(m).wf(),
    ensures
        final(m).wf(),
        moved(old(m)@, final(m)@),
        (v, final(m)@) == entity_value(old(m)@, i as int),
{
    if !m.read_flag() {
        return 0;
    }
    let n: u32 = ent_bits(i);
    if n == 0 {
        read_fraction(m)
    } else {
        m.read_raw(n)
    }
}

/// An entity after the fields from `i` up to `n`, each behind a flag that says
/// whether it changed.
pub open spec fn entity_fields(w: Wire, e: Seq<u32>, i: int, n: int) -> (Seq<u32>, Wire)
    decreases n - i,
{
    if i >= n {
        (e, w)
    } else if !w.set() {
        entity_fields(w.after(1), e, i + 1, n)
    } else {
        let (v, w2) = entity_value(w.after(1), i);
        entity_fields(w2, e.update(i, v), i + 1, n)
    }
}

/// An entity after a delta; none where it was removed.
pub open spec fn entity_delta(w: Wire, from: Seq<u32>) -> (Option<Seq<u32>>, Wire) {
    let w1 = w.after(1);
    let w2 = w1.after(1);
    let n = w2.byte();
    let w3 = w2.after(8);
    if w.set() {
        (None, w1)
    } else if !w1.set() {
        (Some(from), w2)
    } else if n < 0 || n > ENT_FIELDS {
        (Some(from), w3.fail())
    } else {
        let (e, w4) = entity_fields(w3, from, 0, n);
        (Some(e), w4)
    }
}

fn copy_of(v: &Vec<u32>) -> (r: Vec<u32>)
    ensures
        r@ == v@,
{
    let mut r: Vec<u32> = Vec::new();
    let mut i: usize = 0;
    while i < v.len()
        invariant
            i <= v@.len(),
            r@ == v@.take(i as int),
        decreases v@.len() - i,
    {
        r.push(v[i]);
        i += 1;
        assert(v@.take(i as int) =~= v@.take(i - 1).push(v@[i - 1]));
    }
    assert(v@.take(i as int) =~= v@);
    r
}

fn read_delta_entity(m: &mut Msg, from: &Vec<u32>) -> (r: Option<Vec<u32>>)
    requires
        old(m).wf(),
        from@.len() == ENT_FIELDS,
    ensures
        final(m).wf(),
        moved(old(m)@, final(m)@),
        final(m)@ == entity_delta(old(m)@, from@).1,
        match (r, entity_delta(old(m)@, from@).0) {
            (Some(e), Some(x)) => e@ == x && e@.len() == ENT_FIELDS,
            (None, None) => true,
            _ => false,
        },
{
    if m.read_flag() {
        return None;
    }
    let mut to = copy_of(from);
    if !m.read_flag() {
        return Some(to);
    }
    let n: i32 = m.read_byte();
    if n < 0 || n > 51 {
        m.overflow = true;
        return Some(to);
    }
    let ghost w3 = m@;
    let mut i: usize = 0;
    while i < n as usize
        invariant
            m.wf(),
            moved(old(m)@, m@),
            0 <= n <= ENT_FIELDS,
            i <= n,
            to@.len() == ENT_FIELDS,
            entity_fields(m@, to@, i as int, n as int) == entity_fields(w3, from@, 0, n as int),
        decreases n - i,
    {
        if m.read_flag() {
            let v: u32 = read_entity_value(m, i);
            to.set(i, v);
        }
        i += 1;
    }
    Some(to)
}

/// The low `n` bits with their sign spread over all.
pub open spec fn spread(v: u32, n: int) -> u32 {
    if has_flag(v as int, n - 1) {
        (0x1_0000_0000 - pow2(n as nat) + v as int % pow2(n as nat) as int) as u32
    } else {
        v
    }
}

fn spread_sign(v: u32, n: u32) -> (r: u32)
    requires
        n == 8 || n == 16,
    ensures
        r == spread(v, n as int),
{
    proof {
        lemma2_to64();
    }
    if !flag(v, n - 1) {
        v
    } else if n == 8 {
        0xffff_ff00 + v % 256
    } else {
        0xffff_0000 + v % 0x1_0000
    }
}

/// The new value of a field of the recorder's state.
pub open spec fn player_value(w: Wire, i: int) -> (u32, Wire) {
    let n = ps_width(i);
    if n == 0 {
        fraction_at(w)
    } else if n < 0 {
        (spread(w.val(-n), -n), w.after(-n))
    } else {
        (w.val(n), w.after(n))
    }
}

fn read_player_value(m: &mut Msg, i: usize) -> (v: u32)
    requires
        i < PS_FIELDS,
        old(m).wf(),
    ensures
        final(m).wf(),
        moved(old(m)@, final(m)@),
        (v, final(m)@) == player_value(old(m)@, i as int),
{
    let n: i32 = ps_bits(i);
    if n == 0 {
        read_fraction(m)
    } else if n < 0 {
        let k: u32 = (-n) as u32;
        let v: u32 = m.read_raw(k);
        spread_sign(v, k)
    } else {
        m.read_raw(n as u32)
    }
}

pub open spec fn player_fields(w: Wire, p: Seq<u32>, i: int, n: int) -> (Seq<u32>, Wire)
    decreases n - i,
{
    if i >= n {
        (p, w)
    } else if !w.set() {
        player_fields(w.after(1), p, i + 1, n)
    } else {
        let (v, w2) = player_value(w.after(1), i);
        player_fields(w2, p.update(i, v), i + 1, n)
    }
}

/// Past the items of a list that a mask announces, from number `i` on.
pub open spec fn items_end(w: Wire, mask: int, i: int, width: int) -> Wire
    decreases 16 - i,
{
    if i >= 16 {
        w
    } else if has_flag(mask, i) {
        items_end(w.after(width), mask, i + 1, width)
    } else {
        items_end(w, mask, i + 1, width)
    }
}

/// Past a list, if there is one.
pub open spec fn list_end(w: Wire, width: int) -> Wire {
    let w1 = w.after(1);
    if w.set() {
        items_end(w1.after(16), w1.val(16) as int, 0, width)
    } else {
        w1
    }
}

fn skip_list(m: &mut Msg, width: u32)
    requires
        old(m).wf(),
        1 <= width <= 32,
    ensures
        final(m).wf(),
        moved(old(m)@, final(m)@),
        final(m)@ == list_end(old(m)@, width as int),
{
    if !m.read_flag() {
        return ;
    }
    let mask: u32 = m.read_raw(16);
    let ghost w2 = m@;
    let mut i: u32 = 0;
    while i < 16
        invariant
            m.wf(),
            moved(old(m)@, m@),
            1 <= width <= 32,
            i <= 16,
            items_end(m@, mask as int, i as int, width as int) == items_end(
                w2,
                mask as int,
                0,
                width as int,
            ),
        decreases 16 - i,
    {
        if flag(mask, i) {
            let _ = m.read_raw(width);
        }
        i += 1;
    }
}

/// The recorder's state after a delta.
pub open spec fn player_delta(w: Wire, p: Seq<u32>) -> (Seq<u32>, Wire) {
    let n = w.byte();
    let w1 = w.after(8);
    if n < 0 || n > PS_FIELDS {
        (p, w1.fail())
    } else {
        let (q, w2) = player_fields(w1, p, 0, n);
        let w3 = w2.after(1);
        (
            q,
            if w2.set() {
                list_end(list_end(list_end(list_end(w3, 16), 16), 16), 32)
            } else {
                w3
            },
        )
    }
}

fn read_delta_playerstate(m: &mut Msg, ps: &mut Vec<u32>)
    requires
        old(m).wf(),
        old(ps)@.len() == PS_FIELDS,
    ensures
        final(m).wf(),
        moved(old(m)@, final(m)@),
        final(ps)@.len() == PS_FIELDS,
        (final(ps)@, final(m)@) == player_delta(old(m)@, old(ps)@),
{
    let n: i32 = m.read_byte();
    if n < 0 || n > 48 {
        m.overflow = true;
        return ;
    }
    let ghost w1 = m@;
    let mut i: usize = 0;
    while i < n as usize
        invariant
            m.wf(),
            moved(old(m)@, m@),
            0 <= n <= PS_FIELDS,
            i <= n,
            ps@.len() == PS_FIELDS,
            player_fields(m@, ps@, i as int, n as int) == player_fields(
                w1,
                old(ps)@,
                0,
                n as int,
            ),
        decreases n - i,
    {
        if m.read_flag() {
            let v: u32 = read_player_value(m, i);
            ps.set(i, v);
        }
        i += 1;
    }
    if m.read_flag() {
        skip_list(m, 16);
        skip_list(m, 16);
        skip_list(m, 16);
        skip_list(m, 32);
    }
}

/// Where the data of the players start among the configuration strings.
pub const CS_PLAYERS: u32 = 544;

pub const MAX_CLIENTS: u32 = 64;

/// What is known while a demo is read.
struct Q3State {
    tb: TrackBuilder,
    strings: HashMap<u32, String>,
    baselines: HashMap<u16, Vec<u32>>,
    ents: HashMap<u16, Vec<u32>>,
    player: Vec<u32>,
    client_num: i32,
    base_time: Option<i32>,
    max_tick: i32,
    snaps: usize,
}

/// What a `Q3State` says.
#[verifier::ext_equal]
pub struct Game {
    pub tb: Tracks,
    pub strings: Map<u32, Seq<char>>,
    pub baselines: Map<u16, Seq<u32>>,
    pub ents: Map<u16, Seq<u32>>,
    pub player: Seq<u32>,
    pub client_num: i32,
    pub base_time: Option<i32>,
    pub max_tick: int,
    /// How many snapshots came, as far as they can be counted.
    pub snaps: int,
}

pub open spec fn states(m: Map<u16, Vec<u32>>) -> Map<u16, Seq<u32>> {
    m.map_values(|v: Vec<u32>| v@)
}

/// All states have the fields of an entity.
spec fn full_states(m: Map<u16, Vec<u32>>) -> bool {
    forall|k: u16| #[trigger] m.contains_key(k) ==> m[k]@.len() == ENT_FIELDS
}

impl Q3State {
    spec fn view(&self) -> Game {
        Game {
            tb: self.tb@,
            strings: labels(self.strings@),
            baselines: states(self.baselines@),
            ents: states(self.ents@),
            player: self.player@,
            client_num: self.client_num,
            base_time: self.base_time,
            max_tick: self.max_tick as int,
            snaps: self.snaps as int,
        }
    }

    spec fn wf(&self) -> bool {
        &&& full_states(self.baselines@)
        &&& full_states(self.ents@)
        &&& self.player@.len() == PS_FIELDS
    }
}

pub open spec fn zeros(n: int) -> Seq<u32> {
    Seq::new(n as nat, |i: int| 0u32)
}

pub open spec fn new_game() -> Game {
    Game {
        tb: no_tracks(),
        strings: Map::empty(),
        baselines: Map::empty(),
        ents: Map::empty(),
        player: zeros(PS_FIELDS as int),
        client_num: -1i32,
        base_time: None,
        max_tick: 0,
        snaps: 0,
    }
}

fn make_zeros(n: usize) -> (v: Vec<u32>)
    ensures
        v@ == zeros(n as int),
{
    let mut v: Vec<u32> = Vec::new();
    let mut i: usize = 0;
    while i < n
        invariant
            i <= n,
            v@ =~= zeros(i as int),
        decreases n - i,
    {
        v.push(0);
        i += 1;
    }
    v
}

/// The place of the first character from `i` on that is no quotation mark.
pub open spec fn past_quotes(s: Seq<char>, i: int) -> int
    decreases s.len() - i,
{
    if 0 <= i < s.len() && s[i] == '"' {
        past_quotes(s, i + 1)
    } else {
        i
    }
}

/// The length without the quotation marks at the end, down to `from`.
pub open spec fn before_quotes(s: Seq<char>, from: int, n: int) -> int
    decreases n,
{
    if from < n <= s.len() && from >= 0 && s[n - 1] == '"' {
        before_quotes(s, from, n - 1)
    } else {
        n
    }
}

/// A text without quotation marks at its ends.
pub open spec fn unquoted(s: Seq<char>) -> Seq<char> {
    let i = past_quotes(s, 0);
    s.subrange(i, before_quotes(s, i, s.len() as int))
}

fn strip_quotes(t: &str) -> (r: String)
    ensures
        r@ == unquoted(t@),
{
    let s = chars_of(t);
    let mut i: usize = 0;
    while i < s.len() && s[i] == '"'
        invariant
            i <= s@.len(),
            past_quotes(s@, 0) == past_quotes(s@, i as int),
        decreases s@.len() - i,
    {
        i += 1;
    }
    let mut n: usize = s.len();
    while n > i && s[n - 1] == '"'
        invariant
            i <= n <= s@.len(),
            before_quotes(s@, i as int, s@.len() as int) == before_quotes(s@, i as int, n as int),
        decreases n,
    {
        n -= 1;
    }
    text_of(vstd::slice::slice_subrange(s.as_slice(), i, n))
}

/// The configuration string that a server command sets, and its number.
pub open spec fn config_update(s: Seq<char>) -> Option<(u32, Seq<char>)> {
    let a = place_of(s, ' ', 0);
    let b = place_of(s, ' ', a + 1);
    if s.subrange(0, a) != "cs"@ || a >= s.len() {
        None
    } else {
        match whole_number(s.subrange(a + 1, b), false) {
            Some(n) => if n <= u32::MAX {
                let rest = if b < s.len() {
                    s.subrange(b + 1, s.len() as int)
                } else {
                    Seq::empty()
                };
                Some((n as u32, unquoted(trimmed(rest))))
            } else {
                None
            },
            None => None,
        }
    }
}

/// The configuration strings after a server command.
pub open spec fn commanded(strings: Map<u32, Seq<char>>, s: Seq<char>) -> Map<u32, Seq<char>> {
    match config_update(s) {
        Some((k, v)) => strings.insert(k, v),
        None => strings,
    }
}

proof fn lemma_number_positive(s: Seq<char>)
    requires
        whole_number(s, false) is Some,
    ensures
        whole_number(s, false)->0 >= 0,
{
    let from = crate::text::digits_start(s, false);
    crate::text::lemma_digits_grow(s, from, from, s.len() as int);
}

fn handle_server_command(t: &str, strings: &mut HashMap<u32, String>)
    ensures
        labels(final(strings)@) == commanded(labels(old(strings)@), t@),
{
    broadcast use vstd::std_specs::hash::group_hash_axioms;

    let s = chars_of(t);
    let a: usize = find_char(s.as_slice(), ' ', 0);
    let word = text_of(vstd::slice::slice_subrange(s.as_slice(), 0, a));
    if !str_eq(word.as_str(), "cs") || a >= s.len() {
        return ;
    }
    let b: usize = find_char(s.as_slice(), ' ', a + 1);
    let number = text_of(vstd::slice::slice_subrange(s.as_slice(), a + 1, b));
    match parse_u32(number.as_str()) {
        Some(k) => {
            let rest = if b < s.len() {
                text_of(vstd::slice::slice_subrange(s.as_slice(), b + 1, s.len()))
            } else {
                let e = String::new();
                assert(e@ =~= Seq::empty());
                e
            };
            let rest = trim(rest.as_str());
            let v = strip_quotes(rest.as_str());
            let ghost s0 = strings@;
            let ghost vv = v@;
            strings.insert(k, v);
            assert(labels(strings@) =~= labels(s0).insert(k, vv));
        },
        None => {
            proof {
                if whole_number(number@, false) is Some {
                    lemma_number_positive(number@);
                }
            }
        },
    }
}

/// The states of the game from which entities start, and the configuration strings:
/// the entries from `w` on.
pub open spec fn entries_from(w: Wire, st: Game) -> (Wire, Game, bool)
    decreases w.end() + 2 - w.bit,
{
    if w.over {
        (w, st, false)
    } else {
        let cmd = w.byte();
        let w1 = w.after(8);
        if cmd == 3 {
            let k = w1.short();
            let (s, w2) = w1.after(16).text(0);
            let st2 = if k >= 0 {
                Game { strings: st.strings.insert(k as u32, s), ..st }
            } else {
                st
            };
            if w.bit < w2.bit && w2.d == w.d && w2.bit <= w.end() + 1 {
                entries_from(w2, st2)
            } else {
                (w2, st2, false)
            }
        } else if cmd == 4 {
            let k = w1.val(10) as int;
            let (e, w2) = entity_delta(w1.after(10), zeros(ENT_FIELDS as int));
            let st2 = match e {
                Some(e) => if k <= 1023 {
                    Game { baselines: st.baselines.insert(k as u16, e), ..st }
                } else {
                    st
                },
                None => st,
            };
            if w.bit < w2.bit && w2.d == w.d && w2.bit <= w.end() + 1 {
                entries_from(w2, st2)
            } else {
                (w2, st2, false)
            }
        } else {
            (w1, st, true)
        }
    }
}

/// The state of the game at the start: entries, and the number of the recorder,
/// which is read unless the message is over before the entries end.
pub open spec fn gamestate_at(w: Wire, st: Game) -> (Wire, Game) {
    let (w1, s, ended) = entries_from(w.after(32), st);
    if ended {
        (w1.after(32).after(32), Game { client_num: w1.long() as i32, ..s })
    } else {
        (w1, s)
    }
}

proof fn lemma_states_insert(m: Map<u16, Vec<u32>>, k: u16, v: Vec<u32>)
    ensures
        states(m.insert(k, v)) == states(m).insert(k, v@),
        full_states(m) && v@.len() == ENT_FIELDS ==> full_states(m.insert(k, v)),
{
    assert(states(m.insert(k, v)) =~= states(m).insert(k, v@));
}

fn parse_config(m: &mut Msg, st: &mut Q3State)
    requires
        old(m).wf(),
        old(st).wf(),
    ensures
        final(m).wf(),
        moved(old(m)@, final(m)@),
        final(st).wf(),
        ({
            let k = old(m)@.short();
            let (s, w2) = old(m)@.after(16).text(0);
            final(m)@ == w2 && final(st)@ == if k >= 0 {
                Game { strings: old(st)@.strings.insert(k as u32, s), ..old(st)@ }
            } else {
                old(st)@
            }
        }),
{
    broadcast use vstd::std_specs::hash::group_hash_axioms;

    let k: i32 = m.read_short();
    let s = m.read_string();
    if k >= 0 {
        let ghost s0 = st.strings@;
        let ghost sv = s@;
        st.strings.insert(k as u32, s);
        assert(labels(st.strings@) =~= labels(s0).insert(k as u32, sv));
    }
}

fn parse_baseline(m: &mut Msg, st: &mut Q3State)
    requires
        old(m).wf(),
        old(st).wf(),
    ensures
        final(m).wf(),
        moved(old(m)@, final(m)@),
        final(st).wf(),
        ({
            let k = old(m)@.val(10) as int;
            let (e, w2) = entity_delta(old(m)@.after(10), zeros(ENT_FIELDS as int));
            final(m)@ == w2 && final(st)@ == match e {
                Some(e) => if k <= 1023 {
                    Game { baselines: old(st)@.baselines.insert(k as u16, e), ..old(st)@ }
                } else {
                    old(st)@
                },
                None => old(st)@,
            }
        }),
{
    broadcast use vstd::std_specs::hash::group_hash_axioms;

    let k: u32 = m.read_raw(10);
    let null = make_zeros(ENT_FIELDS);
    match read_delta_entity(m, &null) {
        Some(e) => {
            if k <= 1023 {
                proof {
                    lemma_states_insert(st.baselines@, k as u16, e);
                }
                st.baselines.insert(k as u16, e);
            }
        },
        None => {},
    }
}

fn read_entries(m: &mut Msg, st: &mut Q3State) -> (ended: bool)
    requires
        old(m).wf(),
        old(st).wf(),
    ensures
        final(m).wf(),
        moved(old(m)@, final(m)@),
        final(st).wf(),
        (final(m)@, final(st)@, ended) == entries_from(old(m)@, old(st)@),
{
    while !m.overflow
        invariant
            m.wf(),
            moved(old(m)@, m@),
            st.wf(),
            entries_from(m@, st@) == entries_from(old(m)@, old(st)@),
        decreases m@.end() + 2 - m@.bit,
    {
        let before: u64 = m.bit;
        let cmd: i32 = m.read_byte();
        if cmd == 3 {
            parse_config(m, st);
        } else if cmd == 4 {
            parse_baseline(m, st);
        } else {
            return true;
        }
        if m.bit <= before {
            return false;
        }
    }
    false
}

fn parse_gamestate(m: &mut Msg, st: &mut Q3State)
    requires
        old(m).wf(),
        old(st).wf(),
    ensures
        final(m).wf(),
        moved(old(m)@, final(m)@),
        final(st).wf(),
        (final(m)@, final(st)@) == gamestate_at(old(m)@, old(st)@),
{
    let _ = m.read_long();
    if read_entries(m, st) {
        st.client_num = m.read_long();
        let _ = m.read_long();
    }
}

pub open spec fn state_of(m: Map<u16, Seq<u32>>, n: Map<u16, Seq<u32>>, k: u16) -> Seq<u32> {
    if m.contains_key(k) {
        m[k]
    } else if n.contains_key(k) {
        n[k]
    } else {
        zeros(ENT_FIELDS as int)
    }
}

/// The tracks after an entity was seen: a player's life is noted, and its position
/// where it is finite.
pub open spec fn sighted(tb: Tracks, k: int, tick: i32, e: Seq<u32>) -> Tracks {
    if e[11] == 1 && k < MAX_CLIENTS {
        let t = tb.with_life(k as u32, tick, has_flag(e[17] as int, 0));
        if finite(e[1]) && finite(e[2]) && finite(e[5]) {
            t.with_pos(k as u32, (tick, e[1], e[2], e[5])).with_yaw(
                k as u32,
                (tick, e[6], e[8]),
            )
        } else {
            t
        }
    } else {
        tb
    }
}

/// An entity of a snapshot: the game after its delta.
pub open spec fn entity_at(w: Wire, k: int, tick: i32, st: Game) -> (Wire, Game) {
    let num = k as u16;
    let (e, w1) = entity_delta(w, state_of(st.ents, st.baselines, num));
    (
        w1,
        match e {
            None => Game { ents: st.ents.remove(num), ..st },
            Some(e) => Game {
                ents: st.ents.insert(num, e),
                tb: sighted(st.tb, k, tick, e),
                ..st
            },
        },
    )
}

/// The entities of a snapshot from `w` on.
pub open spec fn entities_from(w: Wire, tick: i32, st: Game) -> (Wire, Game)
    decreases w.end() + 2 - w.bit,
{
    if w.over {
        (w, st)
    } else {
        let k = w.val(10) as int;
        let w1 = w.after(10);
        if k >= 1023 {
            (w1, st)
        } else {
            let (w2, s) = entity_at(w1, k, tick, st);
            if w.bit < w2.bit && w2.d == w.d && w2.bit <= w.end() + 1 {
                entities_from(w2, tick, s)
            } else {
                (w2, s)
            }
        }
    }
}

fn read_entity(m: &mut Msg, k: u32, tick: i32, st: &mut Q3State)
    requires
        old(m).wf(),
        old(st).wf(),
        k < 1023,
    ensures
        final(m).wf(),
        moved(old(m)@, final(m)@),
        final(st).wf(),
        (final(m)@, final(st)@) == entity_at(old(m)@, k as int, tick, old(st)@),
{
    broadcast use vstd::std_specs::hash::group_hash_axioms;

    let num: u16 = k as u16;
    let from = match st.ents.get(&num) {
        Some(e) => copy_of(e),
        None => match st.baselines.get(&num) {
            Some(e) => copy_of(e),
            None => make_zeros(ENT_FIELDS),
        },
    };
    assert(from@ == state_of(st@.ents, st@.baselines, num));
    match read_delta_entity(m, &from) {
        None => {
            let ghost e0 = st.ents@;
            st.ents.remove(&num);
            assert(states(st.ents@) =~= states(e0).remove(num));
        },
        Some(e) => {
            if e[11] == 1 && k < MAX_CLIENTS {
                st.tb.life(k, tick, flag(e[17], 0));
                if is_finite(e[1]) && is_finite(e[2]) && is_finite(e[5]) {
                    st.tb.pos(k, tick, e[1], e[2], e[5]);
                    st.tb.yaw(k, tick, e[6], e[8]);
                }
            }
            proof {
                lemma_states_insert(st.ents@, num, e);
            }
            st.ents.insert(num, e);
        },
    }
}

fn read_entities(m: &mut Msg, tick: i32, st: &mut Q3State)
    requires
        old(m).wf(),
        old(st).wf(),
    ensures
        final(m).wf(),
        moved(old(m)@, final(m)@),
        final(st).wf(),
        (final(m)@, final(st)@) == entities_from(old(m)@, tick, old(st)@),
{
    while !m.overflow
        invariant
            m.wf(),
            moved(old(m)@, m@),
            st.wf(),
            entities_from(m@, tick, st@) == entities_from(old(m)@, tick, old(st)@),
        decreases m@.end() + 2 - m@.bit,
    {
        let before: u64 = m.bit;
        let k: u32 = m.read_raw(10);
        if k >= 1023 {
            return ;
        }
        read_entity(m, k, tick, st);
        if m.bit <= before {
            return ;
        }
    }
}

/// The tick of a snapshot: the time since the first one, in milliseconds.
pub open spec fn tick_of(time: int, base: int) -> int {
    if time <= base {
        0
    } else if time - base > i32::MAX {
        i32::MAX as int
    } else {
        time - base
    }
}

/// The tracks after a state of the recorder: the position and the view where they
/// are finite, and whether it is dead.
pub open spec fn recorded(tb: Tracks, client: i32, tick: i32, p: Seq<u32>) -> Tracks {
    if client < 0 {
        tb
    } else {
        let k = client as u32;
        let t = if finite(p[1]) && finite(p[2]) && finite(p[9]) {
            tb.with_pos(k, (tick, p[1], p[2], p[9])).with_yaw(k, (tick, p[6], p[7])).with_view(
                (tick, p[7], p[6]),
            )
        } else {
            tb
        };
        t.with_life(k, tick, p[34] == 3)
    }
}

/// The start of a snapshot: its time, and what follows two bytes and the areas.
pub open spec fn snapshot_head(w: Wire) -> (int, Wire) {
    let w1 = w.after(32).after(8).after(8);
    let n = w1.byte();
    (w.long(), w1.after(8).past_bytes(n))
}

pub open spec fn snapshot_at(w: Wire, st: Game) -> (Wire, Game) {
    let (time, w1) = snapshot_head(w);
    let base = match st.base_time {
        Some(b) => b as int,
        None => time,
    };
    let tick = tick_of(time, base) as i32;
    let (p, w2) = player_delta(w1, st.player);
    let s = Game {
        base_time: Some(base as i32),
        max_tick: if tick > st.max_tick {
            tick as int
        } else {
            st.max_tick
        },
        player: p,
        tb: recorded(st.tb, st.client_num, tick, p),
        ..st
    };
    entities_from(w2, tick, s)
}

fn read_snapshot_head(m: &mut Msg) -> (time: i32)
    requires
        old(m).wf(),
    ensures
        final(m).wf(),
        moved(old(m)@, final(m)@),
        (time as int, final(m)@) == snapshot_head(old(m)@),
{
    let time: i32 = m.read_long();
    let _ = m.read_byte();
    let _ = m.read_byte();
    let n: i32 = m.read_byte();
    if n > 0 {
        m.skip_bytes(n as u32);
    }
    time
}

fn parse_snapshot(m: &mut Msg, st: &mut Q3State)
    requires
        old(m).wf(),
        old(st).wf(),
    ensures
        final(m).wf(),
        moved(old(m)@, final(m)@),
        final(st).wf(),
        (final(m)@, final(st)@) == snapshot_at(old(m)@, old(st)@),
{
    let time: i32 = read_snapshot_head(m);
    let base: i32 = match st.base_time {
        Some(b) => b,
        None => time,
    };
    st.base_time = Some(base);
    let since: i64 = time as i64 - base as i64;
    let tick: i32 = if since <= 0 {
        0
    } else if since > 0x7fff_ffff {
        i32::MAX
    } else {
        since as i32
    };
    if tick > st.max_tick {
        st.max_tick = tick;
    }
    read_delta_playerstate(m, &mut st.player);
    if st.client_num >= 0 {
        let k: u32 = st.client_num as u32;
        let x: u32 = st.player[1];
        let y: u32 = st.player[2];
        let z: u32 = st.player[9];
        if is_finite(x) && is_finite(y) && is_finite(z) {
            let yaw: u32 = st.player[6];
            let pitch: u32 = st.player[7];
            st.tb.pos(k, tick, x, y, z);
            st.tb.yaw(k, tick, yaw, pitch);
            st.tb.view_angles.push((tick, pitch, yaw));
        }
        let dead = st.player[34] == 3;
        st.tb.life(k, tick, dead);
    }
    read_entities(m, tick, st);
}

/// Past a download.
pub open spec fn download_end(w: Wire) -> Wire {
    let w1 = w.after(16);
    if w.short() == 0 {
        w1
    } else {
        w1.after(16).past_bytes(w1.short())
    }
}

/// A command behind its number; none where the message ends with it.
#[verifier::opaque]
pub open spec fn command_at(w: Wire, cmd: int, st: Game) -> (Option<Wire>, Game) {
    if cmd == 1 {
        (Some(w), st)
    } else if cmd == 5 {
        let (s, w1) = w.after(32).text(0);
        (Some(w1), Game { strings: commanded(st.strings, s), ..st })
    } else if cmd == 2 {
        let (w1, s) = gamestate_at(w, st);
        (Some(w1), s)
    } else if cmd == 7 {
        let (w1, s) = snapshot_at(w, st);
        (Some(w1), Game { snaps: ahead_of(s.snaps, 1), ..s })
    } else if cmd == 6 {
        (Some(download_end(w)), st)
    } else {
        (None, st)
    }
}

/// The commands of a message from `w` on.
pub open spec fn commands_from(w: Wire, st: Game) -> Game
    decreases w.end() + 2 - w.bit,
{
    if w.over {
        st
    } else {
        match command_at(w.after(8), w.byte(), st) {
            (Some(w2), s) => if w.bit < w2.bit && w2.d == w.d && w2.bit <= w.end() + 1 {
                commands_from(w2, s)
            } else {
                s
            },
            (None, s) => s,
        }
    }
}

proof fn lemma_entries_names(w: Wire, st: Game)
    ensures
        entries_from(w, st).1.tb == st.tb,
    decreases w.end() + 2 - w.bit,
{
    if !w.over {
        let cmd = w.byte();
        let w1 = w.after(8);
        if cmd == 3 {
            let k = w1.short();
            let (s, w2) = w1.after(16).text(0);
            let st2 = if k >= 0 {
                Game { strings: st.strings.insert(k as u32, s), ..st }
            } else {
                st
            };
            if w.bit < w2.bit && w2.d == w.d && w2.bit <= w.end() + 1 {
                lemma_entries_names(w2, st2);
            }
        } else if cmd == 4 {
            let k = w1.val(10) as int;
            let (e, w2) = entity_delta(w1.after(10), zeros(ENT_FIELDS as int));
            let st2 = match e {
                Some(e) => if k <= 1023 {
                    Game { baselines: st.baselines.insert(k as u16, e), ..st }
                } else {
                    st
                },
                None => st,
            };
            if w.bit < w2.bit && w2.d == w.d && w2.bit <= w.end() + 1 {
                lemma_entries_names(w2, st2);
            }
        }
    }
}

/// Names stay as they are while entities are read.
proof fn lemma_entities_names(w: Wire, tick: i32, st: Game)
    ensures
        entities_from(w, tick, st).1.tb.names == st.tb.names,
        entities_from(w, tick, st).1.tb.primary == st.tb.primary,
    decreases w.end() + 2 - w.bit,
{
    if !w.over && (w.val(10) as int) < 1023 {
        let k = w.val(10) as int;
        let (w2, s) = entity_at(w.after(10), k, tick, st);
        assert(s.tb.names == st.tb.names && s.tb.primary == st.tb.primary);
        if w.bit < w2.bit && w2.d == w.d && w2.bit <= w.end() + 1 {
            lemma_entities_names(w2, tick, s);
        }
    }
}

proof fn lemma_command_names(w: Wire, cmd: int, st: Game)
    ensures
        command_at(w, cmd, st).1.tb.names == st.tb.names,
        command_at(w, cmd, st).1.tb.primary == st.tb.primary,
{
    reveal(command_at);
    lemma_entries_names(w.after(32), st);
    if cmd == 7 {
        let (time, w1) = snapshot_head(w);
        let base = match st.base_time {
            Some(b) => b as int,
            None => time,
        };
        let tick = tick_of(time, base) as i32;
        let (p, w2) = player_delta(w1, st.player);
        let s = Game {
            base_time: Some(base as i32),
            max_tick: if tick > st.max_tick {
                tick as int
            } else {
                st.max_tick
            },
            player: p,
            tb: recorded(st.tb, st.client_num, tick, p),
            ..st
        };
        lemma_entities_names(w2, tick, s);
    }
}

proof fn lemma_commands_names(w: Wire, st: Game)
    ensures
        commands_from(w, st).tb.names == st.tb.names,
        commands_from(w, st).tb.primary == st.tb.primary,
    decreases w.end() + 2 - w.bit,
{
    if !w.over {
        lemma_command_names(w.after(8), w.byte(), st);
        match command_at(w.after(8), w.byte(), st) {
            (Some(w2), s) => if w.bit < w2.bit && w2.d == w.d && w2.bit <= w.end() + 1 {
                lemma_commands_names(w2, s);
            },
            _ => {},
        }
    }
}

fn read_command(m: &mut Msg, cmd: i32, st: &mut Q3State) -> (ok: bool)
    requires
        old(m).wf(),
        old(st).wf(),
    ensures
        final(m).wf(),
        moved(old(m)@, final(m)@),
        final(st).wf(),
        final(st)@ == command_at(old(m)@, cmd as int, old(st)@).1,
        match command_at(old(m)@, cmd as int, old(st)@).0 {
            Some(w) => ok && final(m)@ == w,
            None => !ok,
        },
{
    proof {
        lemma_command_names(m@, cmd as int, st@);
        reveal(command_at);
    }
    if cmd == 1 {
        true
    } else if cmd == 5 {
        let _ = m.read_long();
        let s = m.read_string();
        handle_server_command(s.as_str(), &mut st.strings);
        true
    } else if cmd == 2 {
        parse_gamestate(m, st);
        true
    } else if cmd == 7 {
        parse_snapshot(m, st);
        st.snaps = ahead(st.snaps, 1);
        true
    } else if cmd == 6 {
        if m.read_short() != 0 {
            let n: i32 = m.read_short();
            if n > 0 {
                m.skip_bytes(n as u32);
            }
        }
        true
    } else {
        false
    }
}

fn read_commands(m: &mut Msg, st: &mut Q3State)
    requires
        old(m).wf(),
        old(st).wf(),
    ensures
        final(m).wf(),
        final(st).wf(),
        final(st)@ == commands_from(old(m)@, old(st)@),
{
    while !m.overflow
        invariant
            m.wf(),
            moved(old(m)@, m@),
            st.wf(),
            commands_from(m@, st@) == commands_from(old(m)@, old(st)@),
        decreases m@.end() + 2 - m@.bit,
    {
        let before: u64 = m.bit;
        let cmd: i32 = m.read_byte();
        proof {
            lemma_command_names(m@, cmd as int, st@);
        }
        if !read_command(m, cmd, st) {
            return ;
        }
        if m.bit <= before {
            return ;
        }
    }
}

/// A block: the commands of a message behind a number.
pub open spec fn message_of(code: Code, d: Seq<u8>, st: Game) -> Game {
    commands_from((Wire { code, d, bit: 0, over: false }).after(32), st)
}

/// The blocks of a demo from `p` on.
pub open spec fn blocks_from(code: Code, d: Seq<u8>, p: int, st: Game) -> Game
    decreases d.len() - p,
{
    if p < 0 || p + 8 > d.len() {
        st
    } else {
        let n = i32_at(d, p + 4);
        if n < 0 || p + 8 + n > d.len() {
            st
        } else {
            blocks_from(
                code,
                d,
                p + 8 + n,
                message_of(code, d.subrange(p + 8, p + 8 + n), st),
            )
        }
    }
}

/// The game that a demo tells.
pub open spec fn game_of(d: Seq<u8>) -> Game {
    blocks_from(grown(256), d, 0, new_game())
}

pub open spec fn or_empty(o: Option<Seq<char>>) -> Seq<char> {
    match o {
        Some(s) => s,
        None => Seq::empty(),
    }
}

pub open spec fn string_of(strings: Map<u32, Seq<char>>, k: u32) -> Seq<char> {
    if strings.contains_key(k) {
        strings[k]
    } else {
        Seq::empty()
    }
}

/// The tracks after the data of the players from number `i` on: their names, and
/// that those of the third team only watch.
pub open spec fn players_from(strings: Map<u32, Seq<char>>, i: int, tb: Tracks) -> Tracks
    decreases MAX_CLIENTS - i,
{
    if i >= MAX_CLIENTS {
        tb
    } else {
        let s = string_of(strings, (CS_PLAYERS + i) as u32);
        let t = tb.with_name(i as u32, or_empty(info_of(s, "n"@, true)));
        let watches = fits_i32(whole_number(trimmed(or_empty(info_of(s, "t"@, true))), true))
            == Some(3i32);
        players_from(
            strings,
            i + 1,
            if s.len() > 0 && watches {
                t.with_observer(i as u32, 0, true)
            } else if s.len() > 0 {
                t
            } else {
                tb
            },
        )
    }
}

/// The tracks of a game that is over.
pub open spec fn finished(st: Game) -> Tracks {
    let t = players_from(st.strings, 0, st.tb);
    Tracks {
        primary: if st.client_num >= 0 {
            Some(st.client_num as u32)
        } else {
            t.primary
        },
        ..t
    }
}

/// The value of a key; empty where there is none.
fn info_text(s: &str, name: &str) -> (r: String)
    ensures
        r@ == or_empty(info_of(s@, name@, true)),
{
    match info_value(s, name, true) {
        Some(v) => v,
        None => {
            let e = String::new();
            assert(e@ =~= Seq::empty());
            e
        },
    }
}

fn string_at(strings: &HashMap<u32, String>, k: u32) -> (r: String)
    ensures
        r@ == string_of(labels(strings@), k),
{
    broadcast use vstd::std_specs::hash::group_hash_axioms;

    match strings.get(&k) {
        Some(s) => s.clone(),
        None => {
            let e = String::new();
            assert(e@ =~= Seq::empty());
            e
        },
    }
}

fn name_players(strings: &HashMap<u32, String>, tb: &mut TrackBuilder)
    ensures
        final(tb)@ == players_from(labels(strings@), 0, old(tb)@),
{
    let mut i: u32 = 0;
    while i < MAX_CLIENTS
        invariant
            i <= MAX_CLIENTS,
            players_from(labels(strings@), i as int, tb@) == players_from(
                labels(strings@),
                0,
                old(tb)@,
            ),
        decreases MAX_CLIENTS - i,
    {
        let s = string_at(strings, CS_PLAYERS + i);
        if !is_empty_text(s.as_str()) {
            let name = info_text(s.as_str(), "n");
            tb.name(i, name);
            let team = info_text(s.as_str(), "t");
            let team = trim(team.as_str());
            let watches = match parse_i32(team.as_str()) {
                Some(n) => n == 3,
                None => false,
            };
            if watches {
                tb.observe(i, 0, true);
            }
        }
        i += 1;
    }
}

/// The protocol that the name of a demo says.
pub open spec fn protocol_of(name: Seq<char>) -> i32 {
    match extension_tail(lower_chars(name)) {
        Some(t) => match fits_i32(whole_number(trimmed(t), true)) {
            Some(n) => n,
            None => 68,
        },
        None => 68,
    }
}

/// Whether `q` says what a demo tells.
pub open spec fn tells(q: QuakeDemo, d: Seq<u8>, name: Seq<char>) -> bool {
    let st = game_of(d);
    let info = string_of(st.strings, 0);
    let map = or_empty(info_of(info, "mapname"@, true));
    let server = or_empty(info_of(info, "sv_hostname"@, true));
    &&& q.meta.map@ == map
    &&& q.meta.server@ == server
    &&& q.meta.client@ == client_of(finished(st))
    &&& q.meta.game@ == "quake3"@
    &&& q.meta.protocol == protocol_of(name)
    &&& q.meta.ticks == st.max_tick
    &&& q.meta.tick_rate == 1000
    &&& q.meta.ncmds == st.snaps
    &&& q.mpd.map@ == map
    &&& q.mpd.server@ == server
    &&& q.mpd.ticks == st.max_tick
    &&& built(q.mpd, finished(st))
}

/// Reads a Quake 3 demo. It never fails: what cannot be read ends the message or the
/// demo.
pub fn parse(data: &[u8], name: &str) -> (r: Result<QuakeDemo, QuakeError>)
    ensures
        r matches Ok(q) && tells(q, data@, name@),
{
    broadcast use vstd::std_specs::hash::group_hash_axioms;

    let protocol: i32 = match dm_protocol(name) {
        Some(n) => n,
        None => 68,
    };
    let huff = Huff::build();
    let mut st = Q3State {
        tb: TrackBuilder::new(),
        strings: HashMap::new(),
        baselines: HashMap::new(),
        ents: HashMap::new(),
        player: make_zeros(PS_FIELDS),
        client_num: -1,
        base_time: None,
        max_tick: 0,
        snaps: 0,
    };
    let ghost code = grown(256);
    proof {
        assert(st@ =~= new_game());
        assert(st@ == new_game());
    }
    let mut p: usize = 0;
    while p <= data.len() && data.len() - p >= 8
        invariant_except_break
            blocks_from(code, data@, p as int, st@) == game_of(data@),
        invariant
            p <= data.len(),
            huff.wf(),
            huff@ == code,
            code == grown(256),
            st.wf(),
            st@.tb.names == Map::<u32, Seq<char>>::empty(),
            st@.tb.primary is None,
        ensures
            st@ == game_of(data@),
        decreases data.len() - p,
    {
        let n: i32 = le_i32(data, p + 4);
        if n < 0 || n as usize > data.len() - p - 8 {
            break;
        }
        let q: usize = p + 8 + n as usize;
        let block = vstd::slice::slice_subrange(data, p + 8, q);
        let mut m = Msg::new(block, &huff);
        let _ = m.read_long();
        proof {
            lemma_commands_names(m@, st@);
        }
        read_commands(&mut m, &mut st);
        p = q;
    }
    let mut tb = st.tb;
    name_players(&st.strings, &mut tb);
    if st.client_num >= 0 {
        tb.primary = Some(st.client_num as u32);
    }
    assert(tb@ =~= finished(game_of(data@)));
    let info = string_at(&st.strings, 0);
    let map = info_text(info.as_str(), "mapname");
    let server = info_text(info.as_str(), "sv_hostname");
    let meta = QuakeMeta {
        map: map.clone(),
        server: server.clone(),
        client: tb.client(),
        game: "quake3".to_owned(),
        protocol,
        ticks: st.max_tick,
        tick_rate: 1000,
        ncmds: st.snaps,
    };
    let mpd = tb.build(map, server, st.max_tick);
    Ok(QuakeDemo { meta, mpd })
}

proof fn lemma_entity_fields_beyond(w: Wire, e: Seq<u32>, i: int, n: int)
    requires
        0 <= i,
        n <= e.len(),
    ensures
        entity_fields(w, e, i, n).0.len() == e.len(),
        forall|j: int|
            0 <= j < e.len() && (j < i || j >= n) ==> #[trigger] entity_fields(w, e, i, n).0[j] == e[j],
    decreases n - i,
{
    if i < n {
        if !w.set() {
            lemma_entity_fields_beyond(w.after(1), e, i + 1, n);
        } else {
            let (v, w2) = entity_value(w.after(1), i);
            lemma_entity_fields_beyond(w2, e.update(i, v), i + 1, n);
        }
    }
}

/// A delta changes none of the fields beyond those that it counts: the others are
/// those of the entity that it starts from.
pub proof fn law_entity_delta_is_local(w: Wire, from: Seq<u32>, j: int)
    requires
        from.len() == ENT_FIELDS,
        0 <= j < ENT_FIELDS,
        !w.set(),
        !w.after(1).set() || w.after(1).after(1).byte() <= j,
    ensures
        entity_delta(w, from).0 matches Some(to) && to.len() == from.len() && to[j] == from[j],
{
    let w2 = w.after(1).after(1);
    if w2.byte() <= ENT_FIELDS {
        lemma_entity_fields_beyond(w2.after(8), from, 0, w2.byte());
    }
}

proof fn lemma_player_fields_beyond(w: Wire, p: Seq<u32>, i: int, n: int)
    requires
        0 <= i,
        n <= p.len(),
    ensures
        player_fields(w, p, i, n).0.len() == p.len(),
        forall|j: int|
            0 <= j < p.len() && (j < i || j >= n) ==> #[trigger] player_fields(w, p, i, n).0[j] == p[j],
    decreases n - i,
{
    if i < n {
        if !w.set() {
            lemma_player_fields_beyond(w.after(1), p, i + 1, n);
        } else {
            let (v, w2) = player_value(w.after(1), i);
            lemma_player_fields_beyond(w2, p.update(i, v), i + 1, n);
        }
    }
}

/// The same of the recorder's state.
pub proof fn law_player_delta_is_local(w: Wire, p: Seq<u32>, j: int)
    requires
        p.len() == PS_FIELDS,
        0 <= j < PS_FIELDS,
        w.byte() <= j,
    ensures
        player_delta(w, p).0.len() == p.len(),
        player_delta(w, p).0[j] == p[j],
{
    if w.byte() <= PS_FIELDS {
        lemma_player_fields_beyond(w.after(8), p, 0, w.byte());
    }
}

} // verus!
