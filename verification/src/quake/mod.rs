//! Demos of the Quake engines. They are recordings of what the server sent, so
//! positions are read, not simulated.
use crate::bytes::{le_u16, le_u32, signed16, signed32, signed8, starts_with_bytes, spells, to_i16,
    to_i32, to_i8, u16_at, u32_at, zero_from};
use crate::ieee::{from_ratio, ratio_bits};
use crate::maps::{is_lowest, labels, list_of, lists, lowest_key, push_to, pushed, sorted_keys};
use crate::multi_player::{metas, Change, MetaView, MultiPlayerData, PlayerMeta, Point, Turn};
use crate::text::{chars_of, ends, holds, is_empty_text, lower_chars, lowercase, occurs_at,
    parse_i32, stands_at, text_ends, text_holds, text_of, texts, trim, trimmed, whole_number};
use std::collections::HashMap;
use vstd::prelude::*;

pub mod q1;
pub mod q2;
pub mod huffman;
pub mod q3;
pub mod sent;
pub mod sent_bytes;

verus! {

#[derive(Debug, Clone, Copy, PartialEq, Eq, Structural)]
pub enum QuakeKind {
    /// NetQuake.
    Q1Net,
    /// QuakeWorld, single or multi-view.
    QwMvd,
    Q2,
    Q3,
}

/// Why a demo could not be read.
#[derive(Debug, Clone, Copy, PartialEq, Eq, Structural)]
pub enum QuakeError {
    /// QuakeWorld demos are written in a protocol that the two ends negotiate.
    QuakeWorld,
}

impl QuakeError {
    pub open spec fn text(self) -> Seq<char> {
        "QuakeWorld .qwd/.mvd demos use an extension-negotiated protocol (the sample carries FTE extensions) distinct from NetQuake; not yet supported. Vanilla NetQuake .dem files decode via the Q1 path."@
    }

    /// What an error says.
    pub fn message(&self) -> (s: String)
        ensures
            s@ == self.text(),
    {
        "QuakeWorld .qwd/.mvd demos use an extension-negotiated protocol (the sample carries FTE extensions) distinct from NetQuake; not yet supported. Vanilla NetQuake .dem files decode via the Q1 path.".to_owned()
    }
}

/// What a demo says of itself. It lasts `ticks` at `tick_rate` to the second.
#[derive(Debug)]
pub struct QuakeMeta {
    pub map: String,
    pub server: String,
    pub client: String,
    pub game: String,
    pub protocol: i32,
    pub ticks: i32,
    pub tick_rate: i32,
    pub ncmds: usize,
}

pub struct QuakeDemo {
    pub meta: QuakeMeta,
    pub mpd: MultiPlayerData,
}

/// Demos of the Source engine and of its predecessor begin with one of these.
pub open spec fn is_valve(d: Seq<u8>) -> bool {
    ||| spells(d, 0, seq![72u8, 76, 50, 68, 69, 77, 79, 0])
    ||| spells(d, 0, seq![71u8, 77, 79, 68, 69, 77, 79, 0])
    ||| spells(d, 0, seq![72u8, 76, 68, 69, 77, 79, 0, 0])
}

/// The engine whose demo a file is, by its name.
pub open spec fn kind_of(name: Seq<char>, d: Seq<u8>) -> Option<QuakeKind> {
    if is_valve(d) {
        None
    } else {
        kind_in(lower_chars(name))
    }
}

fn detect_valve(data: &[u8]) -> (r: bool)
    ensures
        r == is_valve(data@),
{
    let a: [u8; 8] = [72, 76, 50, 68, 69, 77, 79, 0];
    let b: [u8; 8] = [71, 77, 79, 68, 69, 77, 79, 0];
    let c: [u8; 8] = [72, 76, 68, 69, 77, 79, 0, 0];
    assert(a@ =~= seq![72u8, 76, 50, 68, 69, 77, 79, 0]);
    assert(b@ =~= seq![71u8, 77, 79, 68, 69, 77, 79, 0]);
    assert(c@ =~= seq![72u8, 76, 68, 69, 77, 79, 0, 0]);
    starts_with_bytes(data, a.as_slice()) || starts_with_bytes(data, b.as_slice())
        || starts_with_bytes(data, c.as_slice())
}

/// Which engine's demo a file is, if any.
pub fn detect(name: &str, data: &[u8]) -> (r: Option<QuakeKind>)
    ensures
        r == kind_of(name@, data@),
{
    if detect_valve(data) {
        return None;
    }
    let low = lowercase(name);
    kind_by_name(low.as_str())
}

/// The kind that a name in lower case says.
pub open spec fn kind_in(low: Seq<char>) -> Option<QuakeKind> {
    if holds(low, ".dm_"@) {
        Some(QuakeKind::Q3)
    } else if ends(low, ".dm2"@) {
        Some(QuakeKind::Q2)
    } else if ends(low, ".mvd"@) || ends(low, ".qwd"@) {
        Some(QuakeKind::QwMvd)
    } else if ends(low, ".dem"@) {
        Some(QuakeKind::Q1Net)
    } else {
        None
    }
}

/// The kind of a demo by the end of its name.
pub fn kind_by_name(low: &str) -> (r: Option<QuakeKind>)
    ensures
        r == kind_in(low@),
{
    if text_holds(low, ".dm_") {
        Some(QuakeKind::Q3)
    } else if text_ends(low, ".dm2") {
        Some(QuakeKind::Q2)
    } else if text_ends(low, ".mvd") || text_ends(low, ".qwd") {
        Some(QuakeKind::QwMvd)
    } else if text_ends(low, ".dem") {
        Some(QuakeKind::Q1Net)
    } else {
        None
    }
}

/// The last place at or before `i` where `pat` stands, or none.
pub open spec fn last_place(s: Seq<char>, pat: Seq<char>, i: int) -> Option<int>
    decreases i + 1,
{
    if i < 0 {
        None
    } else if occurs_at(s, pat, i) {
        Some(i)
    } else {
        last_place(s, pat, i - 1)
    }
}

/// What stands behind the last `.dm_` of a name.
pub open spec fn extension_tail(low: Seq<char>) -> Option<Seq<char>> {
    match last_place(low, ".dm_"@, low.len() as int) {
        Some(i) => Some(low.subrange(i + 4, low.len() as int)),
        None => None,
    }
}

/// A whole number that fits in 32 bits.
pub open spec fn fits_i32(n: Option<int>) -> Option<i32> {
    match n {
        Some(v) => if i32::MIN <= v <= i32::MAX {
            Some(v as i32)
        } else {
            None
        },
        None => None,
    }
}

/// The protocol number of a Quake 3 demo, from its extension.
pub fn dm_protocol(name: &str) -> (r: Option<i32>)
    ensures
        r == match extension_tail(lower_chars(name@)) {
            Some(t) => fits_i32(whole_number(trimmed(t), true)),
            None => None,
        },
{
    let low = lowercase(name);
    match find_tail(low.as_str()) {
        Some(t) => {
            let t = trim(t.as_str());
            parse_i32(t.as_str())
        },
        None => None,
    }
}

/// What follows the `.dm_` of a name.
pub fn find_tail(low: &str) -> (r: Option<String>)
    ensures
        match (r, extension_tail(low@)) {
            (Some(t), Some(e)) => t@ == e,
            (None, None) => true,
            _ => false,
        },
{
    let s = chars_of(low);
    let pat = chars_of(".dm_");
    proof {
        reveal_strlit(".dm_");
    }
    let mut i: usize = s.len();
    loop
        invariant
            s@ == low@,
            pat@ == ".dm_"@,
            pat@.len() == 4,
            i <= s@.len(),
            last_place(s@, pat@, s@.len() as int) == last_place(s@, pat@, i as int),
        decreases i,
    {
        if stands_at(s.as_slice(), pat.as_slice(), i) {
            assert(i + 4 <= s.len());
            return Some(text_of(vstd::slice::slice_subrange(s.as_slice(), i + 4, s.len())));
        }
        if i == 0 {
            assert(last_place(s@, pat@, -1) is None);
            return None;
        }
        i -= 1;
    }
}

/// Where a byte reader stands. Past the end it reads zeros and remembers that it
/// did.
pub struct Feed {
    pub d: Seq<u8>,
    pub pos: int,
    pub over: bool,
}

/// The character that a byte of a Quake text stands for, if it is a readable one:
/// the colour bit does not count, and digits and brackets have glyphs of their own.
pub open spec fn glyph(c: u8) -> Option<char> {
    let low = (c % 128) as int;
    if 0x12 <= low <= 0x1b {
        Some((48 + low - 0x12) as char)
    } else if low == 0x10 {
        Some('[')
    } else if low == 0x11 {
        Some(']')
    } else if 0x20 <= low <= 0x7e {
        Some(low as char)
    } else {
        None
    }
}

pub open spec fn readable(d: Seq<u8>, i: int, end: int) -> Seq<char>
    decreases end - i,
{
    if i >= end {
        Seq::empty()
    } else {
        match glyph(d[i]) {
            Some(c) => seq![c] + readable(d, i + 1, end),
            None => readable(d, i + 1, end),
        }
    }
}

impl Feed {
    pub open spec fn left(self) -> int {
        self.d.len() - self.pos
    }

    pub open spec fn valid(self) -> bool {
        0 <= self.pos <= self.d.len()
    }

    #[verifier::opaque]
    pub open spec fn skip(self, n: int) -> Feed {
        if n > self.left() {
            Feed { d: self.d, pos: self.d.len() as int, over: true }
        } else {
            Feed { d: self.d, pos: self.pos + n, over: self.over }
        }
    }

    /// Skipping only moves forward, and past the end only there.
    pub proof fn lemma_skip(self, n: int)
        requires
            self.valid(),
            n >= 0,
        ensures
            self.skip(n).valid(),
            self.skip(n).d == self.d,
            self.skip(n).pos >= self.pos,
            n <= self.left() ==> self.skip(n).pos == self.pos + n && self.skip(n).over == self.over,
            n > self.left() ==> self.skip(n).over,
    {
        reveal(Feed::skip);
    }

    /// Taking `n` bytes that are there moves that far and nothing else; taking more than
    /// there are moves to the end and is remembered from then on. The bytes stay, and
    /// what is taken in two parts that are there is taken whole.
    pub proof fn law_take(self, n: int, m: int)
        requires
            self.valid(),
            n >= 0,
            m >= 0,
        ensures
            self.skip(n).valid(),
            self.skip(n).d == self.d,
            n <= self.left() ==> self.skip(n) == (Feed { pos: self.pos + n, ..self }),
            n > self.left() ==> self.skip(n) == (Feed {
                pos: self.d.len() as int,
                over: true,
                ..self
            }),
            self.over ==> self.skip(n).over,
            self.skip(n).over ==> self.skip(n).skip(m).over,
            n + m <= self.left() ==> self.skip(n).skip(m) == self.skip(n + m),
    {
        reveal(Feed::skip);
    }

    pub open spec fn skip_if(self, set: bool, n: int) -> Feed {
        if set {
            self.skip(n)
        } else {
            self
        }
    }

    pub open spec fn fail(self) -> Feed {
        Feed { d: self.d, pos: self.pos, over: true }
    }

    pub open spec fn byte(self) -> u8 {
        if self.left() >= 1 {
            self.d[self.pos]
        } else {
            0
        }
    }

    pub open spec fn short(self) -> int {
        if self.left() >= 2 {
            u16_at(self.d, self.pos)
        } else {
            0
        }
    }

    pub open spec fn word(self) -> int {
        if self.left() >= 4 {
            u32_at(self.d, self.pos)
        } else {
            0
        }
    }

    /// The text up to the next zero byte or the end.
    pub open spec fn text(self) -> Seq<char> {
        readable(self.d, self.pos, zero_from(self.d, self.pos))
    }

    pub open spec fn past_text(self) -> Feed {
        let z = zero_from(self.d, self.pos);
        Feed {
            d: self.d,
            pos: if z < self.d.len() {
                z + 1
            } else {
                self.d.len() as int
            },
            over: self.over,
        }
    }

    /// A coordinate in eighths.
    pub open spec fn coord(self) -> u32 {
        ratio_bits(signed16(self.short()), 3)
    }
}

/// A byte of a turn as an angle.
pub open spec fn angle8(n: int) -> u32 {
    ratio_bits(45 * n, 5)
}

/// Two bytes of a turn as an angle.
pub open spec fn angle16(n: int) -> u32 {
    ratio_bits(45 * n, 13)
}

/// A bounds-checked little-endian reader.
pub struct ByteReader<'a> {
    pub data: &'a [u8],
    pub pos: usize,
    pub overflow: bool,
}

impl<'a> ByteReader<'a> {
    pub open spec fn view(&self) -> Feed {
        Feed { d: self.data@, pos: self.pos as int, over: self.overflow }
    }

    pub open spec fn wf(&self) -> bool {
        self.pos <= self.data@.len()
    }

    pub fn new(data: &'a [u8]) -> (r: Self)
        ensures
            r.wf(),
            r@ == (Feed { d: data@, pos: 0, over: false }),
    {
        ByteReader { data, pos: 0, overflow: false }
    }

    pub fn remaining(&self) -> (n: usize)
        ensures
            n == if self.pos <= self.data@.len() {
                self.data@.len() - self.pos
            } else {
                0
            },
    {
        if self.pos <= self.data.len() {
            self.data.len() - self.pos
        } else {
            0
        }
    }

    pub fn eof(&self) -> (r: bool)
        ensures
            r == (self.pos >= self.data@.len()),
    {
        self.pos >= self.data.len()
    }

    /// The next `n` bytes, if they are there. Where they are not, the reader moves to the
    /// end and remembers it.
    pub fn take(&mut self, n: usize) -> (r: Option<&'a [u8]>)
        requires
            old(self).wf(),
        ensures
            final(self).wf(),
            final(self).data == old(self).data,
            match r {
                Some(b) => {
                    &&& n <= old(self)@.left()
                    &&& b@ == old(self).data@.subrange(old(self).pos as int, old(self).pos + n)
                    &&& final(self).pos == old(self).pos + n
                    &&& final(self).overflow == old(self).overflow
                },
                None => {
                    &&& n > old(self)@.left()
                    &&& final(self).pos == old(self).data@.len()
                    &&& final(self).overflow
                },
            },
            final(self)@.d == old(self)@.d,
            final(self)@.pos >= old(self)@.pos,
            final(self)@ == old(self)@.skip(n as int),
    {
        proof {
            reveal(Feed::skip);
        }
        if n > self.data.len() - self.pos {
            self.overflow = true;
            self.pos = self.data.len();
            return None;
        }
        let p: usize = self.pos;
        self.pos = self.pos + n;
        Some(vstd::slice::slice_subrange(self.data, p, p + n))
    }

    pub fn skip(&mut self, n: usize)
        requires
            old(self).wf(),
        ensures
            final(self).wf(),
            final(self)@.d == old(self)@.d,
            final(self)@.pos >= old(self)@.pos,
            final(self)@ == old(self)@.skip(n as int),
    {
        let _ = self.take(n);
    }

    pub(crate) fn skip_if(&mut self, set: bool, n: usize)
        requires
            old(self).wf(),
        ensures
            final(self).wf(),
            final(self)@.d == old(self)@.d,
            final(self)@.pos >= old(self)@.pos,
            final(self)@ == old(self)@.skip_if(set, n as int),
    {
        if set {
            self.skip(n);
        }
    }

    pub fn read_u8(&mut self) -> (v: u8)
        requires
            old(self).wf(),
        ensures
            final(self).wf(),
            final(self)@.d == old(self)@.d,
            final(self)@.pos >= old(self)@.pos,
            v == old(self)@.byte(),
            final(self)@ == old(self)@.skip(1),
    {
        match self.take(1) {
            Some(b) => b[0],
            None => 0,
        }
    }

    pub fn read_i8(&mut self) -> (v: i8)
        requires
            old(self).wf(),
        ensures
            final(self).wf(),
            final(self)@.d == old(self)@.d,
            final(self)@.pos >= old(self)@.pos,
            v == signed8(old(self)@.byte()),
            final(self)@ == old(self)@.skip(1),
    {
        to_i8(self.read_u8())
    }

    pub fn read_u16(&mut self) -> (v: u16)
        requires
            old(self).wf(),
        ensures
            final(self).wf(),
            final(self)@.d == old(self)@.d,
            final(self)@.pos >= old(self)@.pos,
            v == old(self)@.short(),
            final(self)@ == old(self)@.skip(2),
    {
        match self.take(2) {
            Some(b) => le_u16(b, 0),
            None => 0,
        }
    }

    pub fn read_i16(&mut self) -> (v: i16)
        requires
            old(self).wf(),
        ensures
            final(self).wf(),
            final(self)@.d == old(self)@.d,
            final(self)@.pos >= old(self)@.pos,
            v == signed16(old(self)@.short()),
            final(self)@ == old(self)@.skip(2),
    {
        to_i16(self.read_u16())
    }

    pub fn read_u32(&mut self) -> (v: u32)
        requires
            old(self).wf(),
        ensures
            final(self).wf(),
            final(self)@.d == old(self)@.d,
            final(self)@.pos >= old(self)@.pos,
            v == old(self)@.word(),
            final(self)@ == old(self)@.skip(4),
    {
        match self.take(4) {
            Some(b) => le_u32(b, 0),
            None => 0,
        }
    }

    pub fn read_i32(&mut self) -> (v: i32)
        requires
            old(self).wf(),
        ensures
            final(self).wf(),
            final(self)@.d == old(self)@.d,
            final(self)@.pos >= old(self)@.pos,
            v == signed32(old(self)@.word()),
            final(self)@ == old(self)@.skip(4),
    {
        to_i32(self.read_u32())
    }

    /// The bits of a single-precision number.
    pub fn read_f32(&mut self) -> (v: u32)
        requires
            old(self).wf(),
        ensures
            final(self).wf(),
            final(self)@.d == old(self)@.d,
            final(self)@.pos >= old(self)@.pos,
            v == old(self)@.word(),
            final(self)@ == old(self)@.skip(4),
    {
        self.read_u32()
    }

    /// The next `n` bytes; none of them where there are fewer.
    pub fn read_bytes(&mut self, n: usize) -> (v: &'a [u8])
        requires
            old(self).wf(),
        ensures
            final(self).wf(),
            final(self)@.d == old(self)@.d,
            final(self)@.pos >= old(self)@.pos,
            final(self)@ == old(self)@.skip(n as int),
            v@ == if n <= old(self)@.left() {
                old(self)@.d.subrange(old(self)@.pos, old(self)@.pos + n)
            } else {
                Seq::empty()
            },
    {
        match self.take(n) {
            Some(b) => b,
            None => {
                let none = vstd::slice::slice_subrange(self.data, 0, 0);
                assert(none@ =~= Seq::empty());
                none
            },
        }
    }

    /// Reads a text up to a zero byte or the end.
    pub fn read_string(&mut self) -> (s: String)
        requires
            old(self).wf(),
        ensures
            final(self).wf(),
            final(self)@.d == old(self)@.d,
            final(self)@.pos >= old(self)@.pos,
            s@ == old(self)@.text(),
            final(self)@ == old(self)@.past_text(),
    {
        let ghost d = self.data@;
        let ghost z = zero_from(d, self.pos as int);
        let ghost all = readable(d, self.pos as int, z);
        let mut out = String::new();
        proof {
            crate::bytes::lemma_zero_from(d, self.pos as int);
            assert(out@ + all =~= all);
        }
        while self.pos < self.data.len()
            invariant
                self.wf(),
                self.data@ == d,
                self.overflow == old(self).overflow,
                self.pos >= old(self).pos,
                old(self).wf(),
                d == old(self).data@,
                z == zero_from(d, self.pos as int),
                z == zero_from(d, old(self).pos as int),
                self.pos <= z <= d.len(),
                all == out@ + readable(d, self.pos as int, z),
                all == old(self)@.text(),
            decreases d.len() - self.pos,
        {
            let c: u8 = self.data[self.pos];
            let ghost p = self.pos as int;
            self.pos = self.pos + 1;
            if c == 0 {
                assert(out@ + Seq::<char>::empty() =~= out@);
                return out;
            }
            let low: u8 = c % 128;
            let ghost rest = readable(d, p + 1, z);
            let ghost done = out@;
            proof {
                crate::bytes::lemma_zero_from(d, p + 1);
            }
            if 0x12 <= low && low <= 0x1b {
                out.push((48 + (low - 0x12)) as char);
            } else if low == 0x10 {
                out.push('[');
            } else if low == 0x11 {
                out.push(']');
            } else if 0x20 <= low && low <= 0x7e {
                out.push(low as char);
            }
            proof {
                match glyph(c) {
                    Some(g) => {
                        assert(out@ =~= done.push(g));
                        assert(done + (seq![g] + rest) =~= done.push(g) + rest);
                    },
                    None => {},
                }
            }
        }
        assert(out@ + Seq::<char>::empty() =~= out@);
        out
    }

    /// A coordinate in eighths of a unit.
    pub fn read_coord_q2(&mut self) -> (v: u32)
        requires
            old(self).wf(),
        ensures
            final(self).wf(),
            final(self)@.d == old(self)@.d,
            final(self)@.pos >= old(self)@.pos,
            v == old(self)@.coord(),
            final(self)@ == old(self)@.skip(2),
    {
        let n: i32 = self.read_i16() as i32;
        from_ratio(n, 3)
    }

    pub fn read_angle8(&mut self) -> (v: u32)
        requires
            old(self).wf(),
        ensures
            final(self).wf(),
            final(self)@.d == old(self)@.d,
            final(self)@.pos >= old(self)@.pos,
            v == angle8(old(self)@.byte() as int),
            final(self)@ == old(self)@.skip(1),
    {
        let n: i32 = self.read_u8() as i32;
        from_ratio(45 * n, 5)
    }

    pub fn read_angle16(&mut self) -> (v: u32)
        requires
            old(self).wf(),
        ensures
            final(self).wf(),
            final(self)@.d == old(self)@.d,
            final(self)@.pos >= old(self)@.pos,
            v == angle16(old(self)@.short()),
            final(self)@ == old(self)@.skip(2),
    {
        let n: i32 = self.read_u16() as i32;
        from_ratio(45 * n, 13)
    }
}

/// What a `TrackBuilder` holds.
#[verifier::ext_equal]
pub struct Tracks {
    pub tracks: Map<u32, Seq<Point>>,
    pub yaws: Map<u32, Seq<Turn>>,
    pub names: Map<u32, Seq<char>>,
    pub primary: Option<u32>,
    pub view_angles: Seq<Turn>,
    pub life_states: Map<u32, Seq<Change>>,
    pub observer_modes: Map<u32, Seq<Change>>,
}

pub open spec fn no_tracks() -> Tracks {
    Tracks {
        tracks: Map::empty(),
        yaws: Map::empty(),
        names: Map::empty(),
        primary: None,
        view_angles: Seq::empty(),
        life_states: Map::empty(),
        observer_modes: Map::empty(),
    }
}

pub open spec fn state_byte(set: bool) -> u8 {
    if set {
        1
    } else {
        0
    }
}

/// The states of an entity after one more, which is noted only where it is another
/// than the last.
pub open spec fn noted(m: Map<u32, Seq<Change>>, eid: u32, tick: i32, set: bool) -> Map<
    u32,
    Seq<Change>,
> {
    let v = state_byte(set);
    if m.contains_key(eid) && m[eid].len() > 0 && m[eid].last().1 == v {
        m
    } else {
        pushed(m, eid, (tick, v))
    }
}

impl Tracks {
    /// A position and the view direction that goes with it.
    pub open spec fn with_pos(self, eid: u32, p: Point) -> Tracks {
        Tracks { tracks: pushed(self.tracks, eid, p), ..self }
    }

    pub open spec fn with_yaw(self, eid: u32, y: Turn) -> Tracks {
        Tracks { yaws: pushed(self.yaws, eid, y), ..self }
    }

    pub open spec fn with_view(self, v: Turn) -> Tracks {
        Tracks { view_angles: self.view_angles.push(v), ..self }
    }

    pub open spec fn with_name(self, eid: u32, name: Seq<char>) -> Tracks {
        if name.len() > 0 {
            Tracks { names: self.names.insert(eid, name), ..self }
        } else {
            self
        }
    }

    pub open spec fn with_life(self, eid: u32, tick: i32, dead: bool) -> Tracks {
        Tracks { life_states: noted(self.life_states, eid, tick, dead), ..self }
    }

    pub open spec fn with_observer(self, eid: u32, tick: i32, spectating: bool) -> Tracks {
        Tracks { observer_modes: noted(self.observer_modes, eid, tick, spectating), ..self }
    }
}

/// The tracks of a demo while it is read.
pub struct TrackBuilder {
    pub tracks: HashMap<u32, Vec<Point>>,
    /// Tick, yaw and pitch.
    pub yaws: HashMap<u32, Vec<Turn>>,
    pub names: HashMap<u32, String>,
    pub primary: Option<u32>,
    /// Tick, pitch and yaw of the recorder.
    pub view_angles: Vec<Turn>,
    /// From which tick on a player is dead (1) or alive (0).
    pub life_states: HashMap<u32, Vec<Change>>,
    /// From which tick on a player watches (1) or plays (0).
    pub observer_modes: HashMap<u32, Vec<Change>>,
}

/// Notes a state where it is another than the last.
fn note(m: &mut HashMap<u32, Vec<Change>>, eid: u32, tick: i32, set: bool)
    ensures
        lists(final(m)@) == noted(lists(old(m)@), eid, tick, set),
{
    broadcast use vstd::std_specs::hash::group_hash_axioms;

    let v: u8 = if set {
        1
    } else {
        0
    };
    let same = match m.get(&eid) {
        Some(s) => s.len() > 0 && s[s.len() - 1].1 == v,
        None => false,
    };
    if !same {
        push_to(m, eid, (tick, v));
    }
}

/// The data of a player of whom only the name is known.
pub open spec fn plain_meta(eid: u32, name: Seq<char>) -> MetaView {
    MetaView {
        name,
        steam_id: Seq::empty(),
        user_id: eid,
        is_fake: false,
        is_hltv: false,
        aliases: seq![name],
    }
}

/// The names with the data that goes with them.
pub open spec fn plain_metas(names: Map<u32, Seq<char>>) -> Map<u32, MetaView> {
    Map::new(|k: u32| names.contains_key(k), |k: u32| plain_meta(k, names[k]))
}

fn make_meta(eid: u32, name: &String) -> (p: PlayerMeta)
    ensures
        p@ == plain_meta(eid, name@),
{
    let mut aliases: Vec<String> = Vec::new();
    aliases.push(name.clone());
    let steam_id = String::new();
    let p = PlayerMeta {
        name: name.clone(),
        steam_id,
        user_id: eid,
        is_fake: false,
        is_hltv: false,
        aliases,
    };
    assert(texts(p.aliases@) =~= seq![name@]);
    assert(p.steam_id@ =~= Seq::empty());
    p
}

/// The data of the players of whom only the names are known.
fn make_metas(names: &HashMap<u32, String>) -> (r: HashMap<u32, PlayerMeta>)
    ensures
        metas(r@) == plain_metas(labels(names@)),
{
    broadcast use vstd::std_specs::hash::group_hash_axioms;

    let ks = sorted_keys(names);
    let mut r: HashMap<u32, PlayerMeta> = HashMap::new();
    let mut i: usize = 0;
    while i < ks.len()
        invariant
            i <= ks@.len(),
            crate::maps::are_keys(ks@, names@.dom()),
            forall|k: u32| #[trigger] r@.contains_key(k) <==> ks@.take(i as int).contains(k),
            forall|k: u32| #[trigger]
                r@.contains_key(k) ==> r@[k]@ == plain_meta(k, labels(names@)[k]),
        decreases ks@.len() - i,
    {
        broadcast use vstd::std_specs::hash::group_hash_axioms;

        let k: u32 = ks[i];
        let ghost r0 = r@;
        assert(ks@.contains(ks@[i as int]));
        assert(names@.contains_key(k));
        match names.get(&k) {
            Some(n) => {
                let meta = make_meta(k, n);
                r.insert(k, meta);
            },
            None => {},
        }
        i += 1;
        proof {
            let t = ks@.take(i as int);
            let t0 = ks@.take(i - 1);
            assert(t =~= t0.push(k));
            assert forall|x: u32| #[trigger] r@.contains_key(x) <==> t.contains(x) by {
                assert(r0.contains_key(x) <==> t0.contains(x));
                if t0.contains(x) {
                    let j = choose|j: int| 0 <= j < t0.len() && t0[j] == x;
                    assert(t[j] == x);
                }
                if x == k {
                    assert(t[i - 1] == k);
                }
            }
        }
    }
    proof {
        assert(ks@.take(ks@.len() as int) =~= ks@);
        assert forall|k: u32| metas(r@).contains_key(k) <==> labels(names@).contains_key(k) by {
            assert(r@.contains_key(k) <==> ks@.contains(k));
        }
        assert(metas(r@) =~= plain_metas(labels(names@)));
    }
    r
}

/// The entity that the demo is told of: the recorder, or the lowest one that has a
/// track.
pub open spec fn is_primary(t: Tracks, low: Option<u32>) -> bool {
    match t.primary {
        Some(_) => low == t.primary,
        None => is_lowest(t.tracks.dom(), low),
    }
}

impl TrackBuilder {
    pub open spec fn view(&self) -> Tracks {
        Tracks {
            tracks: lists(self.tracks@),
            yaws: lists(self.yaws@),
            names: labels(self.names@),
            primary: self.primary,
            view_angles: self.view_angles@,
            life_states: lists(self.life_states@),
            observer_modes: lists(self.observer_modes@),
        }
    }

    pub fn new() -> (t: Self)
        ensures
            t@ == no_tracks(),
    {
        broadcast use vstd::std_specs::hash::group_hash_axioms;

        let t = TrackBuilder {
            tracks: HashMap::new(),
            yaws: HashMap::new(),
            names: HashMap::new(),
            primary: None,
            view_angles: Vec::new(),
            life_states: HashMap::new(),
            observer_modes: HashMap::new(),
        };
        assert(t@ =~= no_tracks());
        t
    }

    pub fn pos(&mut self, eid: u32, tick: i32, x: u32, y: u32, z: u32)
        ensures
            final(self)@ == old(self)@.with_pos(eid, (tick, x, y, z)),
    {
        push_to(&mut self.tracks, eid, (tick, x, y, z));
    }

    pub fn yaw(&mut self, eid: u32, tick: i32, yaw: u32, pitch: u32)
        ensures
            final(self)@ == old(self)@.with_yaw(eid, (tick, yaw, pitch)),
    {
        push_to(&mut self.yaws, eid, (tick, yaw, pitch));
    }

    pub fn name(&mut self, eid: u32, name: String)
        ensures
            final(self)@ == old(self)@.with_name(eid, name@),
    {
        broadcast use vstd::std_specs::hash::group_hash_axioms;

        if !is_empty_text(name.as_str()) {
            let ghost n0 = self.names@;
            let ghost nv = name@;
            self.names.insert(eid, name);
            assert(labels(self.names@) =~= labels(n0).insert(eid, nv));
        }
    }

    /// Notes that a player dies or comes back; a state that lasts is noted once.
    pub fn life(&mut self, eid: u32, tick: i32, dead: bool)
        ensures
            final(self)@ == old(self)@.with_life(eid, tick, dead),
    {
        note(&mut self.life_states, eid, tick, dead);
    }

    /// Notes that a player starts or stops watching.
    pub fn observe(&mut self, eid: u32, tick: i32, spectating: bool)
        ensures
            final(self)@ == old(self)@.with_observer(eid, tick, spectating),
    {
        note(&mut self.observer_modes, eid, tick, spectating);
    }

    /// The name of the recorder, if it is known.
    pub(crate) fn client(&self) -> (s: String)
        ensures
            s@ == client_of(self@),
    {
        broadcast use vstd::std_specs::hash::group_hash_axioms;

        match self.primary {
            Some(p) => match self.names.get(&p) {
                Some(n) => n.clone(),
                None => {
                    let s = String::new();
                    assert(s@ =~= Seq::empty());
                    s
                },
            },
            None => {
                let s = String::new();
                assert(s@ =~= Seq::empty());
                s
            },
        }
    }

    pub fn build(self, map: String, server: String, ticks: i32) -> (r: MultiPlayerData)
        ensures
            r.map == map,
            r.server == server,
            r.ticks == ticks,
            built(r, self@),
    {
        broadcast use vstd::std_specs::hash::group_hash_axioms;

        let names = make_metas(&self.names);
        let primary_entity: Option<u32> = match self.primary {
            Some(p) => Some(p),
            None => lowest_key(&self.tracks),
        };
        assert(self@.tracks.dom() =~= self.tracks@.dom());
        MultiPlayerData {
            map,
            server,
            ticks,
            tracks: self.tracks,
            names,
            life_states: self.life_states,
            observer_modes: self.observer_modes,
            yaws: self.yaws,
            weapons: HashMap::new(),
            weapon_classes: HashMap::new(),
            primary_entity,
            view_angles: self.view_angles,
        }
    }
}

pub open spec fn client_of(t: Tracks) -> Seq<char> {
    match t.primary {
        Some(p) => if t.names.contains_key(p) {
            t.names[p]
        } else {
            Seq::empty()
        },
        None => Seq::empty(),
    }
}

/// Whether the data of all players say what the tracks do.
pub open spec fn built(r: MultiPlayerData, t: Tracks) -> bool {
    &&& lists(r.tracks@) == t.tracks
    &&& lists(r.yaws@) == t.yaws
    &&& metas(r.names@) == plain_metas(t.names)
    &&& r.view_angles@ == t.view_angles
    &&& lists(r.life_states@) == t.life_states
    &&& lists(r.observer_modes@) == t.observer_modes
    &&& r.weapons@ == Map::<u32, Vec<(i32, i32)>>::empty()
    &&& r.weapon_classes@ == Map::<i32, String>::empty()
    &&& is_primary(t, r.primary_entity)
}

/// States that follow each other in a list differ.
pub open spec fn alternating(s: Seq<Change>) -> bool {
    forall|i: int| 0 < i < s.len() ==> (#[trigger] s[i]).1 != s[i - 1].1
}

/// Noting a state keeps every list alternating.
pub proof fn law_states_alternate(
    m: Map<u32, Seq<Change>>,
    eid: u32,
    tick: i32,
    set: bool,
    k: u32,
)
    requires
        alternating(list_of(m, eid)),
        alternating(list_of(m, k)),
    ensures
        alternating(list_of(noted(m, eid, tick, set), k)),
{
}

/// Reads a demo of a known kind. Only QuakeWorld demos are refused.
pub fn parse(kind: QuakeKind, data: &[u8], name: &str) -> (r: Result<QuakeDemo, QuakeError>)
    ensures
        match kind {
            QuakeKind::Q2 => r matches Ok(q) && q2::tells(q, data@),
            QuakeKind::Q3 => r matches Ok(q) && q3::tells(q, data@, name@),
            QuakeKind::Q1Net => r matches Ok(q) && q1::tells(q, data@),
            QuakeKind::QwMvd => r == Err::<QuakeDemo, QuakeError>(QuakeError::QuakeWorld),
        },
{
    match kind {
        QuakeKind::Q2 => q2::parse(data),
        QuakeKind::Q3 => q3::parse(data, name),
        QuakeKind::Q1Net => q1::parse_netquake(data),
        QuakeKind::QwMvd => q1::parse_qw_mvd(data),
    }
}

} // verus!
