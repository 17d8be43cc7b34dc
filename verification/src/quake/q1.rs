//! NetQuake demos.
//!
//! A line with the number of a CD track, and then blocks: a length, the view angles
//! of the recorder, and a message of that length. An entity update has the high bit
//! of its first byte set.
use super::{angle8, built, client_of, no_tracks, ByteReader, Feed, QuakeDemo, QuakeError,
    QuakeMeta, TrackBuilder, Tracks};
use crate::bytes::{flag, has_flag, signed16, signed32, signed8};
use crate::ieee::{from_ratio, milliseconds, ms_of};
use crate::maps::{are_keys, labels, sorted_keys};
use crate::text::is_empty_text;
use std::collections::HashMap;
use vstd::prelude::*;

verus! {

/// An entity: the bits of its origin and of the two angles that matter.
#[derive(Debug, Clone, Copy, PartialEq, Eq, Structural)]
pub struct Ent {
    pub x: u32,
    pub y: u32,
    pub z: u32,
    pub pitch: u32,
    pub yaw: u32,
    pub seen: bool,
}

pub open spec fn unseen() -> Ent {
    Ent { x: 0, y: 0, z: 0, pitch: 0, yaw: 0, seen: false }
}

/// What is known while a demo is read.
struct Q1State {
    tb: TrackBuilder,
    ents: HashMap<u16, Ent>,
    names: HashMap<u32, String>,
    map: String,
    view_entity: i32,
    time: u32,
    max_tick: i32,
}

/// What a `Q1State` says.
#[verifier::ext_equal]
pub struct Game {
    pub tb: Tracks,
    pub ents: Map<u16, Ent>,
    pub names: Map<u32, Seq<char>>,
    pub map: Seq<char>,
    pub view_entity: int,
    pub time: u32,
    pub max_tick: int,
}

impl Q1State {
    spec fn view(&self) -> Game {
        Game {
            tb: self.tb@,
            ents: self.ents@,
            names: labels(self.names@),
            map: self.map@,
            view_entity: self.view_entity as int,
            time: self.time,
            max_tick: self.max_tick as int,
        }
    }
}

pub open spec fn new_game() -> Game {
    Game {
        tb: no_tracks(),
        ents: Map::empty(),
        names: Map::empty(),
        map: Seq::empty(),
        view_entity: -1,
        time: 0,
        max_tick: 0,
    }
}

/// A signed byte of a turn as an angle.
pub open spec fn angle_at(f: Feed) -> u32 {
    angle8(signed8(f.byte()))
}

fn read_angle_i8(m: &mut ByteReader) -> (v: u32)
    requires
        old(m).wf(),
    ensures
        final(m).wf(),
        final(m)@.d == old(m)@.d,
        final(m)@.pos >= old(m)@.pos,
        v == angle_at(old(m)@),
        final(m)@ == old(m)@.skip(1),
{
    let n: i32 = m.read_i8() as i32;
    from_ratio(45 * n, 5)
}

/// The flags and the number of an update.
pub open spec fn update_head(f: Feed, low: int) -> (int, u16, Feed) {
    let more = has_flag(low, 0);
    let bits = if more {
        low + 256 * f.byte()
    } else {
        low
    };
    let g = f.skip_if(more, 1);
    if has_flag(bits, 14) {
        (bits, g.short() as u16, g.skip(2))
    } else {
        (bits, g.byte() as u16, g.skip(1))
    }
}

/// Where the origin of an update starts: behind model, frame, colours, skin and
/// effects.
pub open spec fn update_skip(f: Feed, bits: int) -> Feed {
    f.skip_if(has_flag(bits, 10), 1).skip_if(has_flag(bits, 6), 1).skip_if(
        has_flag(bits, 11),
        1,
    ).skip_if(has_flag(bits, 12), 1).skip_if(has_flag(bits, 13), 1)
}

pub open spec fn coord_if(f: Feed, set: bool, old: u32) -> (u32, Feed) {
    if set {
        (f.coord(), f.skip(2))
    } else {
        (old, f)
    }
}

pub open spec fn angle_if(f: Feed, set: bool, old: u32) -> (u32, Feed) {
    if set {
        (angle_at(f), f.skip(1))
    } else {
        (old, f)
    }
}

/// An entity after an update.
pub open spec fn updated(f: Feed, bits: int, e: Ent) -> (Ent, Feed) {
    let (x, f1) = coord_if(f, has_flag(bits, 1), e.x);
    let (pitch, f2) = angle_if(f1, has_flag(bits, 8), e.pitch);
    let (y, f3) = coord_if(f2, has_flag(bits, 2), e.y);
    let (yaw, f4) = angle_if(f3, has_flag(bits, 4), e.yaw);
    let (z, f5) = coord_if(f4, has_flag(bits, 3), e.z);
    (Ent { x, y, z, pitch, yaw, seen: true }, f5.skip_if(has_flag(bits, 9), 1))
}

/// An update: the entity is kept, and sampled where it moved or is new.
pub open spec fn update_at(f: Feed, low: int, st: Game) -> (Feed, Game) {
    let (bits, num, g) = update_head(f, low);
    let before = if st.ents.contains_key(num) {
        st.ents[num]
    } else {
        unseen()
    };
    let (e, h) = updated(update_skip(g, bits), bits, before);
    let moved = has_flag(bits, 1) || has_flag(bits, 2) || has_flag(bits, 3) || !before.seen;
    let tick = ms_of(st.time) as i32;
    (
        h,
        Game {
            ents: st.ents.insert(num, e),
            tb: if moved {
                st.tb.with_pos(num as u32, (tick, e.x, e.y, e.z)).with_yaw(
                    num as u32,
                    (tick, e.yaw, e.pitch),
                )
            } else {
                st.tb
            },
            ..st
        },
    )
}

pub(crate) fn read_coord_if(m: &mut ByteReader, set: bool, old_v: u32) -> (v: u32)
    requires
        old(m).wf(),
    ensures
        final(m).wf(),
        final(m)@.d == old(m)@.d,
        final(m)@.pos >= old(m)@.pos,
        (v, final(m)@) == coord_if(old(m)@, set, old_v),
{
    if set {
        m.read_coord_q2()
    } else {
        old_v
    }
}

fn read_angle_if(m: &mut ByteReader, set: bool, old_v: u32) -> (v: u32)
    requires
        old(m).wf(),
    ensures
        final(m).wf(),
        final(m)@.d == old(m)@.d,
        final(m)@.pos >= old(m)@.pos,
        (v, final(m)@) == angle_if(old(m)@, set, old_v),
{
    if set {
        read_angle_i8(m)
    } else {
        old_v
    }
}

fn read_update_head(m: &mut ByteReader, low: u32) -> (r: (u32, u16))
    requires
        old(m).wf(),
        low < 128,
    ensures
        final(m).wf(),
        (r.0 as int, r.1, final(m)@) == update_head(old(m)@, low as int),
        final(m)@.d == old(m)@.d,
        final(m)@.pos >= old(m)@.pos,
{
    let mut bits: u32 = low;
    if flag(bits, 0) {
        bits = bits + 256 * (m.read_u8() as u32);
    }
    let num: u16 = if flag(bits, 14) {
        m.read_u16()
    } else {
        m.read_u8() as u16
    };
    (bits, num)
}

fn skip_update(m: &mut ByteReader, bits: u32)
    requires
        old(m).wf(),
    ensures
        final(m).wf(),
        final(m)@ == update_skip(old(m)@, bits as int),
        final(m)@.d == old(m)@.d,
        final(m)@.pos >= old(m)@.pos,
{
    m.skip_if(flag(bits, 10), 1);
    m.skip_if(flag(bits, 6), 1);
    m.skip_if(flag(bits, 11), 1);
    m.skip_if(flag(bits, 12), 1);
    m.skip_if(flag(bits, 13), 1);
}

fn read_updated(m: &mut ByteReader, bits: u32, before: Ent) -> (e: Ent)
    requires
        old(m).wf(),
    ensures
        final(m).wf(),
        (e, final(m)@) == updated(old(m)@, bits as int, before),
        final(m)@.d == old(m)@.d,
        final(m)@.pos >= old(m)@.pos,
{
    let x: u32 = read_coord_if(m, flag(bits, 1), before.x);
    let pitch: u32 = read_angle_if(m, flag(bits, 8), before.pitch);
    let y: u32 = read_coord_if(m, flag(bits, 2), before.y);
    let yaw: u32 = read_angle_if(m, flag(bits, 4), before.yaw);
    let z: u32 = read_coord_if(m, flag(bits, 3), before.z);
    m.skip_if(flag(bits, 9), 1);
    Ent { x, y, z, pitch, yaw, seen: true }
}

fn parse_update(m: &mut ByteReader, low: u32, st: &mut Q1State)
    requires
        old(m).wf(),
        low < 128,
    ensures
        final(m).wf(),
        (final(m)@, final(st)@) == update_at(old(m)@, low as int, old(st)@),
        final(m)@.d == old(m)@.d,
        final(m)@.pos >= old(m)@.pos,
{
    broadcast use vstd::std_specs::hash::group_hash_axioms;

    let (bits, num) = read_update_head(m, low);
    let before = match st.ents.get(&num) {
        Some(e) => *e,
        None => Ent { x: 0, y: 0, z: 0, pitch: 0, yaw: 0, seen: false },
    };
    skip_update(m, bits);
    let e = read_updated(m, bits, before);
    st.ents.insert(num, e);
    if flag(bits, 1) || flag(bits, 2) || flag(bits, 3) || !before.seen {
        let tick: i32 = milliseconds(st.time);
        st.tb.pos(num as u32, tick, e.x, e.y, e.z);
        st.tb.yaw(num as u32, tick, e.yaw, e.pitch);
    }
}

/// A baseline: the entity behind model, frame, colours and skin.
pub open spec fn baseline_at(f: Feed) -> (Ent, Feed) {
    let g = f.skip(1).skip(1).skip(1).skip(1);
    let x = g.coord();
    let g1 = g.skip(2);
    let pitch = angle_at(g1);
    let g2 = g1.skip(1);
    let y = g2.coord();
    let g3 = g2.skip(2);
    let yaw = angle_at(g3);
    let g4 = g3.skip(1);
    let z = g4.coord();
    (Ent { x, y, z, pitch, yaw, seen: true }, g4.skip(2).skip(1))
}

fn read_baseline_body(m: &mut ByteReader) -> (e: Ent)
    requires
        old(m).wf(),
    ensures
        final(m).wf(),
        final(m)@.d == old(m)@.d,
        final(m)@.pos >= old(m)@.pos,
        (e, final(m)@) == baseline_at(old(m)@),
{
    m.skip(1);
    m.skip(1);
    m.skip(1);
    m.skip(1);
    let x: u32 = m.read_coord_q2();
    let pitch: u32 = read_angle_i8(m);
    let y: u32 = m.read_coord_q2();
    let yaw: u32 = read_angle_i8(m);
    let z: u32 = m.read_coord_q2();
    m.skip(1);
    Ent { x, y, z, pitch, yaw, seen: true }
}

/// Past the status of the recorder.
pub open spec fn status_end(f: Feed) -> Feed {
    let bits = f.short();
    f.skip(2).skip_if(has_flag(bits, 0), 1).skip_if(has_flag(bits, 1), 1).skip_if(
        has_flag(bits, 2),
        1,
    ).skip_if(has_flag(bits, 5), 1).skip_if(has_flag(bits, 3), 1).skip_if(
        has_flag(bits, 6),
        1,
    ).skip_if(has_flag(bits, 4), 1).skip_if(has_flag(bits, 7), 1).skip_if(
        has_flag(bits, 9),
        4,
    ).skip_if(has_flag(bits, 12), 1).skip_if(has_flag(bits, 13), 1).skip_if(
        has_flag(bits, 14),
        1,
    ).skip(2).skip(6)
}

fn parse_clientdata(m: &mut ByteReader)
    requires
        old(m).wf(),
    ensures
        final(m).wf(),
        final(m)@.d == old(m)@.d,
        final(m)@.pos >= old(m)@.pos,
        final(m)@ == status_end(old(m)@),
{
    let bits: u32 = m.read_u16() as u32;
    m.skip_if(flag(bits, 0), 1);
    m.skip_if(flag(bits, 1), 1);
    m.skip_if(flag(bits, 2), 1);
    m.skip_if(flag(bits, 5), 1);
    m.skip_if(flag(bits, 3), 1);
    m.skip_if(flag(bits, 6), 1);
    m.skip_if(flag(bits, 4), 1);
    m.skip_if(flag(bits, 7), 1);
    m.skip_if(flag(bits, 9), 4);
    m.skip_if(flag(bits, 12), 1);
    m.skip_if(flag(bits, 13), 1);
    m.skip_if(flag(bits, 14), 1);
    m.skip(2);
    m.skip(6);
}

/// How many bytes follow the kind of a temporary entity.
pub open spec fn temp_len(kind: u8) -> Option<int> {
    match kind {
        0 | 1 | 2 | 3 | 4 | 7 | 8 | 10 | 11 => Some(6),
        5 | 6 | 9 | 13 => Some(14),
        12 => Some(8),
        _ => None,
    }
}

/// Past a temporary entity; one of an unknown kind ends the block.
pub open spec fn temp_end(f: Feed) -> Feed {
    match temp_len(f.byte()) {
        Some(n) => f.skip(1).skip(n),
        None => f.skip(1).fail(),
    }
}

fn parse_temp_entity(m: &mut ByteReader)
    requires
        old(m).wf(),
    ensures
        final(m).wf(),
        final(m)@.d == old(m)@.d,
        final(m)@.pos >= old(m)@.pos,
        final(m)@ == temp_end(old(m)@),
{
    match m.read_u8() {
        0 | 1 | 2 | 3 | 4 | 7 | 8 | 10 | 11 => m.skip(6),
        5 | 6 | 9 | 13 => m.skip(14),
        12 => m.skip(8),
        _ => {
            m.overflow = true;
        },
    }
}

/// Past a list of names: up to an empty one.
pub open spec fn list_end(f: Feed) -> Feed
    decreases f.left(),
    via list_end_decreases
{
    let g = f.past_text();
    if !f.valid() || f.text().len() == 0 || g.over {
        g
    } else {
        list_end(g)
    }
}

#[via_fn]
proof fn list_end_decreases(f: Feed) {
    if f.valid() {
        lemma_text_moves(f);
    }
}

proof fn lemma_text_moves(f: Feed)
    requires
        f.valid(),
    ensures
        f.past_text().valid(),
        f.past_text().pos >= f.pos,
        f.text().len() > 0 ==> f.past_text().pos > f.pos,
{
    crate::bytes::lemma_zero_from(f.d, f.pos);
}

fn skip_list(m: &mut ByteReader)
    requires
        old(m).wf(),
    ensures
        final(m).wf(),
        final(m)@.d == old(m)@.d,
        final(m)@.pos >= old(m)@.pos,
        final(m)@ == list_end(old(m)@),
{
    loop
        invariant
            m.wf(),
            m@.d == old(m)@.d,
            m@.pos >= old(m)@.pos,
            list_end(m@) == list_end(old(m)@),
        decreases m@.left(),
    {
        proof {
            lemma_text_moves(m@);
        }
        let s = m.read_string();
        if is_empty_text(s.as_str()) || m.overflow {
            return ;
        }
    }
}

/// Past a sound.
pub open spec fn sound_end(f: Feed) -> Feed {
    let mask = f.byte() as int;
    f.skip(1).skip_if(has_flag(mask, 0), 1).skip_if(has_flag(mask, 1), 1).skip(2).skip(1).skip(6)
}

/// How many bytes follow a message of a fixed size.
pub open spec fn fixed_len(cmd: u8) -> Option<int> {
    match cmd {
        1 | 27 | 28 | 30 | 33 => Some(0),
        24 | 25 => Some(1),
        16 | 17 | 32 => Some(2),
        10 | 14 => Some(3),
        4 => Some(4),
        3 => Some(5),
        19 => Some(8),
        29 => Some(9),
        18 => Some(11),
        _ => None,
    }
}

fn fixed_size(cmd: u8) -> (r: Option<usize>)
    ensures
        match (r, fixed_len(cmd)) {
            (Some(n), Some(v)) => n == v,
            (None, None) => true,
            _ => false,
        },
{
    match cmd {
        1 | 27 | 28 | 30 | 33 => Some(0),
        24 | 25 => Some(1),
        16 | 17 | 32 => Some(2),
        10 | 14 => Some(3),
        4 => Some(4),
        3 => Some(5),
        19 => Some(8),
        29 => Some(9),
        18 => Some(11),
        _ => None,
    }
}

/// A message behind its number, none where the block ends with it.
pub open spec fn message_at(f: Feed, cmd: u8, st: Game) -> (Option<Feed>, Game) {
    match fixed_len(cmd) {
        Some(n) => (Some(f.skip(n)), st),
        None => if cmd == 5 {
            (Some(f.skip(2)), Game { view_entity: signed16(f.short()), ..st })
        } else if cmd == 6 {
            (Some(sound_end(f)), st)
        } else if cmd == 7 {
            let time = f.word() as u32;
            let tick = ms_of(time);
            (
                Some(f.skip(4)),
                Game {
                    time,
                    max_tick: if tick > st.max_tick {
                        tick
                    } else {
                        st.max_tick
                    },
                    ..st
                },
            )
        } else if cmd == 8 || cmd == 9 || cmd == 26 || cmd == 31 || cmd == 34 {
            (Some(f.past_text()), st)
        } else if cmd == 11 {
            let g = f.skip(4).skip(1).skip(1);
            (Some(list_end(list_end(g.past_text()))), Game { map: g.text(), ..st })
        } else if cmd == 12 {
            (Some(f.skip(1).past_text()), st)
        } else if cmd == 13 {
            let g = f.skip(1);
            (
                Some(g.past_text()),
                Game { names: st.names.insert((f.byte() + 1) as u32, g.text()), ..st },
            )
        } else if cmd == 15 {
            (Some(status_end(f)), st)
        } else if cmd == 20 {
            (Some(baseline_at(f).1), st)
        } else if cmd == 22 {
            let (e, g) = baseline_at(f.skip(2));
            (Some(g), Game { ents: st.ents.insert(f.short() as u16, e), ..st })
        } else if cmd == 23 {
            (Some(temp_end(f)), st)
        } else {
            (None, st)
        },
    }
}

fn read_message(m: &mut ByteReader, cmd: u8, st: &mut Q1State) -> (ok: bool)
    requires
        old(m).wf(),
    ensures
        final(m).wf(),
        final(m)@.d == old(m)@.d,
        final(m)@.pos >= old(m)@.pos,
        final(st)@ == message_at(old(m)@, cmd, old(st)@).1,
        match message_at(old(m)@, cmd, old(st)@).0 {
            Some(g) => ok && final(m)@ == g,
            None => !ok,
        },
{
    broadcast use vstd::std_specs::hash::group_hash_axioms;

    match fixed_size(cmd) {
        Some(n) => {
            m.skip(n);
            return true;
        },
        None => {},
    }
    match cmd {
        5 => {
            st.view_entity = m.read_i16() as i32;
        },
        6 => {
            let mask: u32 = m.read_u8() as u32;
            m.skip_if(flag(mask, 0), 1);
            m.skip_if(flag(mask, 1), 1);
            m.skip(2);
            m.skip(1);
            m.skip(6);
        },
        7 => {
            st.time = m.read_f32();
            let tick: i32 = milliseconds(st.time);
            if tick > st.max_tick {
                st.max_tick = tick;
            }
        },
        8 | 9 | 26 | 31 | 34 => {
            let _ = m.read_string();
        },
        11 => {
            m.skip(4);
            m.skip(1);
            m.skip(1);
            st.map = m.read_string();
            skip_list(m);
            skip_list(m);
        },
        12 => {
            m.skip(1);
            let _ = m.read_string();
        },
        13 => {
            let slot: u8 = m.read_u8();
            let name = m.read_string();
            let ghost n0 = st.names@;
            let ghost nv = name@;
            let k: u32 = slot as u32 + 1;
            st.names.insert(k, name);
            assert(labels(st.names@) =~= labels(n0).insert(k, nv));
        },
        15 => parse_clientdata(m),
        20 => {
            let _ = read_baseline_body(m);
        },
        22 => {
            let num: u16 = m.read_u16();
            let e = read_baseline_body(m);
            st.ents.insert(num, e);
        },
        23 => parse_temp_entity(m),
        _ => {
            return false;
        },
    }
    true
}

/// One message or update: what follows it, none where the block ends with it.
#[verifier::opaque]
pub open spec fn step_at(f: Feed, st: Game) -> (Option<Feed>, Game) {
    let cmd = f.byte();
    let g = f.skip(1);
    if cmd >= 128 {
        let (h, s) = update_at(g, cmd - 128, st);
        (Some(h), s)
    } else {
        message_at(g, cmd, st)
    }
}

/// The messages of a block from `f` on.
pub open spec fn block_from(f: Feed, st: Game) -> Game
    decreases f.left(),
{
    if f.pos >= f.d.len() || f.over || f.pos < 0 {
        st
    } else {
        match step_at(f, st) {
            (Some(h), s) => if h.d == f.d && f.pos < h.pos && h.pos <= f.d.len() {
                block_from(h, s)
            } else {
                s
            },
            (None, s) => s,
        }
    }
}

fn read_step(m: &mut ByteReader, st: &mut Q1State) -> (ok: bool)
    requires
        old(m).wf(),
        old(m)@.left() > 0,
    ensures
        final(m).wf(),
        final(m)@.d == old(m)@.d,
        final(m)@.pos > old(m)@.pos,
        final(st)@ == step_at(old(m)@, old(st)@).1,
        match step_at(old(m)@, old(st)@).0 {
            Some(g) => ok && final(m)@ == g,
            None => !ok,
        },
{
    proof {
        reveal(step_at);
        m@.lemma_skip(1);
    }
    let cmd: u8 = m.read_u8();
    if cmd >= 128 {
        parse_update(m, cmd as u32 - 128, st);
        true
    } else {
        read_message(m, cmd, st)
    }
}

fn read_block(d: &[u8], st: &mut Q1State)
    ensures
        final(st)@ == block_from((Feed { d: d@, pos: 0, over: false }), old(st)@),
{
    let mut m = ByteReader::new(d);
    while m.pos < m.data.len() && !m.overflow
        invariant
            m.wf(),
            block_from(m@, st@) == block_from((Feed { d: d@, pos: 0, over: false }), old(st)@),
        decreases m@.left(),
    {
        if !read_step(&mut m, st) {
            return ;
        }
    }
}

/// Where the first block starts: behind the first line.
pub open spec fn first_block(d: Seq<u8>, i: int) -> int
    decreases d.len() - i,
{
    if i >= d.len() {
        d.len() as int
    } else if d[i] == 10 {
        i + 1
    } else {
        first_block(d, i + 1)
    }
}

pub open spec fn is_zero(b: int) -> bool {
    b % 0x8000_0000 == 0
}

/// The blocks from `f` on, of which `n` were read: the game after them, and how many
/// there were.
pub open spec fn blocks_from(f: Feed, st: Game, n: int) -> (Game, int)
    decreases f.left(),
    via blocks_from_decreases
{
    if f.left() < 4 || f.pos < 0 {
        (st, n)
    } else {
        let len = signed32(f.word());
        let g = f.skip(4);
        let pitch = g.word();
        let yaw = g.skip(4).word();
        let h = g.skip(4).skip(4).skip(4);
        let e = h.skip(len);
        if len < 0 || e.over {
            (st, n)
        } else {
            let s = block_from(
                (Feed { d: f.d.subrange(h.pos, h.pos + len), pos: 0, over: false }),
                st,
            );
            let tick = ms_of(s.time) as i32;
            let s = if !is_zero(pitch) || !is_zero(yaw) {
                Game { tb: s.tb.with_view((tick, pitch as u32, yaw as u32)), ..s }
            } else {
                s
            };
            blocks_from(e, s, n + 1)
        }
    }
}

#[via_fn]
proof fn blocks_from_decreases(f: Feed, st: Game, n: int) {
    if f.valid() && f.left() >= 4 {
        lemma_block_end(f);
    }
}

proof fn lemma_block_end(f: Feed)
    requires
        f.valid(),
        f.left() >= 4,
    ensures
        ({
            let h = f.skip(4).skip(4).skip(4).skip(4);
            h.valid() && h.d == f.d && h.pos > f.pos && forall|n: int|
                n >= 0 ==> (#[trigger] h.skip(n)).valid() && h.skip(n).d == f.d && h.skip(n).pos
                    >= h.pos
        }),
{
    f.lemma_skip(4);
    f.skip(4).lemma_skip(4);
    f.skip(4).skip(4).lemma_skip(4);
    f.skip(4).skip(4).skip(4).lemma_skip(4);
    let h = f.skip(4).skip(4).skip(4).skip(4);
    assert forall|n: int| n >= 0 implies (#[trigger] h.skip(n)).valid() && h.skip(n).d == f.d
        && h.skip(n).pos >= h.pos by {
        h.lemma_skip(n);
    }
}

/// The names that are not empty.
pub open spec fn named(names: Map<u32, Seq<char>>) -> Map<u32, Seq<char>> {
    Map::new(|k: u32| names.contains_key(k) && names[k].len() > 0, |k: u32| names[k])
}

/// The tracks of a game that is over.
pub open spec fn finished(st: Game) -> Tracks {
    Tracks {
        names: named(st.names),
        primary: if st.view_entity >= 0 {
            Some(st.view_entity as u32)
        } else {
            None
        },
        ..st.tb
    }
}

/// The game that a demo tells, and the number of its blocks.
pub open spec fn game_of(d: Seq<u8>) -> (Game, int) {
    blocks_from((Feed { d, pos: first_block(d, 0), over: false }), new_game(), 0)
}

/// Copies the names that are not empty.
fn keep_names(names: &HashMap<u32, String>, tb: &mut TrackBuilder)
    requires
        old(tb)@.names == Map::<u32, Seq<char>>::empty(),
    ensures
        final(tb)@ == (Tracks { names: named(labels(names@)), ..old(tb)@ }),
{
    broadcast use vstd::std_specs::hash::group_hash_axioms;

    let ks = sorted_keys(names);
    let ghost all = labels(names@);
    let mut i: usize = 0;
    while i < ks.len()
        invariant
            i <= ks@.len(),
            all == labels(names@),
            are_keys(ks@, names@.dom()),
            tb@ == (Tracks { names: tb@.names, ..old(tb)@ }),
            forall|k: u32| #[trigger]
                tb@.names.contains_key(k) <==> ks@.take(i as int).contains(k) && all[k].len() > 0,
            forall|k: u32| #[trigger] tb@.names.contains_key(k) ==> tb@.names[k] == all[k],
        decreases ks@.len() - i,
    {
        broadcast use vstd::std_specs::hash::group_hash_axioms;

        let k: u32 = ks[i];
        let ghost n0 = tb@.names;
        assert(ks@.contains(ks@[i as int]));
        assert(names@.contains_key(k));
        match names.get(&k) {
            Some(n) => tb.name(k, n.clone()),
            None => {},
        }
        i += 1;
        proof {
            let t = ks@.take(i as int);
            let t0 = ks@.take(i - 1);
            assert(t =~= t0.push(k));
            assert forall|x: u32| #[trigger] tb@.names.contains_key(x) <==> t.contains(x)
                && all[x].len() > 0 by {
                assert(n0.contains_key(x) <==> t0.contains(x) && all[x].len() > 0);
                if t0.contains(x) {
                    let j = choose|j: int| 0 <= j < t0.len() && t0[j] == x;
                    assert(t[j] == x);
                }
                if x == k {
                    assert(t[i - 1] == k);
                }
            }
        }
    }
    proof {
        assert(ks@.take(ks@.len() as int) =~= ks@);
        assert forall|k: u32| all.contains_key(k) <==> ks@.contains(k) by {}
        assert(tb@.names =~= named(all));
    }
}

/// Whether `q` says what a demo tells.
pub open spec fn tells(q: QuakeDemo, d: Seq<u8>) -> bool {
    let (st, n) = game_of(d);
    &&& q.meta.map@ == st.map
    &&& q.meta.server@ == Seq::<char>::empty()
    &&& q.meta.client@ == client_of(finished(st))
    &&& q.meta.game@ == "quake1"@
    &&& q.meta.protocol == 15
    &&& q.meta.ticks == st.max_tick
    &&& q.meta.tick_rate == 1000
    &&& q.meta.ncmds == n
    &&& q.mpd.map@ == st.map
    &&& q.mpd.server@ == Seq::<char>::empty()
    &&& q.mpd.ticks == st.max_tick
    &&& built(q.mpd, finished(st))
}

/// Reads a NetQuake demo. It never fails: what cannot be read ends the block or the
/// demo.
pub fn parse_netquake(data: &[u8]) -> (r: Result<QuakeDemo, QuakeError>)
    ensures
        r matches Ok(q) && tells(q, data@),
{
    let mut r = ByteReader::new(data);
    while r.pos < r.data.len()
        invariant_except_break
            first_block(data@, 0) == first_block(data@, r.pos as int),
        invariant
            r.wf(),
            !r.overflow,
            r.data@ == data@,
        ensures
            r.pos == first_block(data@, 0),
        decreases r.data@.len() - r.pos,
    {
        proof {
            r@.lemma_skip(1);
        }
        let c: u8 = r.read_u8();
        if c == 10 {
            break;
        }
    }
    let mut st = Q1State {
        tb: TrackBuilder::new(),
        ents: HashMap::new(),
        names: HashMap::new(),
        map: String::new(),
        view_entity: -1,
        time: 0,
        max_tick: 0,
    };
    let mut n: usize = 0;
    proof {
        broadcast use vstd::std_specs::hash::group_hash_axioms;

        assert(st@ =~= new_game());
        assert(st@ == new_game());
    }
    loop
        invariant_except_break
            blocks_from(r@, st@, n as int) == game_of(data@),
            n <= r.pos,
            st@.tb.names == Map::<u32, Seq<char>>::empty(),
            st@.tb.primary is None,
        invariant
            r.wf(),
            r@.d == data@,
        ensures
            (st@, n as int) == game_of(data@),
            st@.tb.names == Map::<u32, Seq<char>>::empty(),
            st@.tb.primary is None,
        decreases r@.left(),
    {
        if r.remaining() < 4 {
            break;
        }
        proof {
            lemma_block_end(r@);
            if signed32(r@.word()) >= 0 {
                r@.skip(4).skip(4).skip(4).skip(4).lemma_skip(signed32(r@.word()));
            }
        }
        let len: i32 = r.read_i32();
        let pitch: u32 = r.read_f32();
        let yaw: u32 = r.read_f32();
        let _ = r.read_f32();
        if len < 0 {
            break;
        }
        let block = r.read_bytes(len as usize);
        if r.overflow {
            break;
        }
        n = n + 1;
        proof {
            lemma_block_names(Feed { d: block@, pos: 0, over: false }, st@);
        }
        read_block(block, &mut st);
        let tick: i32 = milliseconds(st.time);
        if pitch % 0x8000_0000 != 0 || yaw % 0x8000_0000 != 0 {
            st.tb.view_angles.push((tick, pitch, yaw));
        }
    }
    let mut tb = st.tb;
    if st.view_entity >= 0 {
        tb.primary = Some(st.view_entity as u32);
    }
    keep_names(&st.names, &mut tb);
    proof {
        assert(tb@ =~= finished(game_of(data@).0));
    }
    let server = String::new();
    let server2 = String::new();
    assert(server@ =~= Seq::empty());
    assert(server2@ =~= Seq::empty());
    let meta = QuakeMeta {
        map: st.map.clone(),
        server,
        client: tb.client(),
        game: "quake1".to_owned(),
        protocol: 15,
        ticks: st.max_tick,
        tick_rate: 1000,
        ncmds: n,
    };
    let mpd = tb.build(st.map, server2, st.max_tick);
    Ok(QuakeDemo { meta, mpd })
}

/// Blocks name nobody in the tracks.
proof fn lemma_block_names(f: Feed, st: Game)
    ensures
        block_from(f, st).tb.names == st.tb.names,
        block_from(f, st).tb.primary == st.tb.primary,
    decreases f.left(),
{
    if !(f.pos >= f.d.len() || f.over || f.pos < 0) {
        assert(step_at(f, st).1.tb.names == st.tb.names && step_at(f, st).1.tb.primary
            == st.tb.primary) by {
            reveal(step_at);
        }
        match step_at(f, st) {
            (Some(h), s) => if h.d == f.d && f.pos < h.pos && h.pos <= f.d.len() {
                lemma_block_names(h, s);
            },
            _ => {},
        }
    }
}

/// QuakeWorld demos are refused, whatever they hold.
pub fn parse_qw_mvd(_data: &[u8]) -> (r: Result<QuakeDemo, QuakeError>)
    ensures
        r == Err::<QuakeDemo, QuakeError>(QuakeError::QuakeWorld),
{
    Err(QuakeError::QuakeWorld)
}

} // verus!
