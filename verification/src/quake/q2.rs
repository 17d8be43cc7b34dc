//! Quake 2 demos.
//!
//! Blocks of a length and a message of that length. Entities and the state of the
//! recorder come as deltas; names stand in the configuration strings.
use super::{angle16, angle8, built, client_of, no_tracks, ByteReader, Feed, QuakeDemo, QuakeError,
    QuakeMeta, TrackBuilder, Tracks};
use super::q1::{coord_if, unseen, Ent, read_coord_if};
use crate::bsp::spawn::{find_char, place_of};
use crate::bytes::{flag, has_flag, signed16, signed32};
use crate::maps::labels;
use crate::text::{chars_of, text_of};
use std::collections::HashMap;
use vstd::prelude::*;

verus! {

/// Where the names of the players start among the configuration strings.
pub const CS_PLAYERSKINS: u32 = 1312;

pub const MAX_CLIENTS: u32 = 256;

/// What is known while a demo is read.
struct Q2State {
    tb: TrackBuilder,
    strings: HashMap<u32, String>,
    ents: HashMap<u16, Ent>,
    map: String,
    playernum: i32,
    protocol: i32,
    max_frame: i32,
    frames: usize,
    pm_type: u8,
}

/// What a `Q2State` says.
#[verifier::ext_equal]
pub struct Game {
    pub tb: Tracks,
    pub strings: Map<u32, Seq<char>>,
    pub ents: Map<u16, Ent>,
    pub map: Seq<char>,
    pub playernum: int,
    pub protocol: int,
    pub max_frame: int,
    pub frames: int,
    pub pm_type: u8,
}

impl Q2State {
    spec fn view(&self) -> Game {
        Game {
            tb: self.tb@,
            strings: labels(self.strings@),
            ents: self.ents@,
            map: self.map@,
            playernum: self.playernum as int,
            protocol: self.protocol as int,
            max_frame: self.max_frame as int,
            frames: self.frames as int,
            pm_type: self.pm_type,
        }
    }

    /// A player's number is a short.
    spec fn wf(&self) -> bool {
        -0x8000 <= self.playernum < 0x8000
    }
}

pub open spec fn new_game() -> Game {
    Game {
        tb: no_tracks(),
        strings: Map::empty(),
        ents: Map::empty(),
        map: Seq::empty(),
        playernum: -1,
        protocol: 34,
        max_frame: 0,
        frames: 0,
        pm_type: 0,
    }
}

/// The flags of an entity: up to four bytes, each of which says whether the next
/// follows.
pub open spec fn flags_at(f: Feed) -> (int, Feed) {
    let b0 = f.byte() as int;
    let f0 = f.skip(1);
    let m1 = has_flag(b0, 7);
    let b1 = if m1 {
        b0 + 0x100 * f0.byte()
    } else {
        b0
    };
    let f1 = f0.skip_if(m1, 1);
    let m2 = has_flag(b1, 15);
    let b2 = if m2 {
        b1 + 0x1_0000 * f1.byte()
    } else {
        b1
    };
    let f2 = f1.skip_if(m2, 1);
    let m3 = has_flag(b2, 23);
    let b3 = if m3 {
        b2 + 0x100_0000 * f2.byte()
    } else {
        b2
    };
    (b3, f2.skip_if(m3, 1))
}

/// The flags and the number of an entity.
pub open spec fn head_at(f: Feed) -> (u16, int, Feed) {
    let (bits, g) = flags_at(f);
    if has_flag(bits, 8) {
        (g.short() as u16, bits, g.skip(2))
    } else {
        (g.byte() as u16, bits, g.skip(1))
    }
}

fn parse_entity_bits(m: &mut ByteReader) -> (r: (u16, u32))
    requires
        old(m).wf(),
    ensures
        final(m).wf(),
        final(m)@.d == old(m)@.d,
        final(m)@.pos >= old(m)@.pos,
        old(m)@.left() > 0 ==> final(m)@.pos > old(m)@.pos,
        old(m)@.left() <= 0 ==> r.0 == 0,
        (r.0, r.1 as int, final(m)@) == head_at(old(m)@),
{
    proof {
        m@.lemma_skip(1);
        lemma_no_flags();
    }
    let mut bits: u32 = m.read_u8() as u32;
    if flag(bits, 7) {
        bits = bits + 0x100 * (m.read_u8() as u32);
    }
    if flag(bits, 15) {
        bits = bits + 0x1_0000 * (m.read_u8() as u32);
    }
    if flag(bits, 23) {
        bits = bits + 0x100_0000 * (m.read_u8() as u32);
    }
    let num: u16 = if flag(bits, 8) {
        m.read_u16()
    } else {
        m.read_u8() as u16
    };
    (num, bits)
}

proof fn lemma_no_flags()
    ensures
        forall|k: int| #![trigger has_flag(0, k)] k >= 0 ==> !has_flag(0, k),
{
    assert forall|k: int| #![trigger has_flag(0, k)] k >= 0 implies !has_flag(0, k) by {
        vstd::arithmetic::power2::lemma_pow2_pos(k as nat);
        vstd::arithmetic::div_mod::lemma_basic_div(0, vstd::arithmetic::power2::pow2(k as nat) as int);
    }
}

/// Past a field that is one byte, two bytes or, with both flags, four bytes wide.
pub open spec fn sized_end(f: Feed, one: bool, two: bool) -> Feed {
    if one && two {
        f.skip(4)
    } else if one {
        f.skip(1)
    } else if two {
        f.skip(2)
    } else {
        f
    }
}

fn skip_sized(m: &mut ByteReader, one: bool, two: bool)
    requires
        old(m).wf(),
    ensures
        final(m).wf(),
        final(m)@.d == old(m)@.d,
        final(m)@.pos >= old(m)@.pos,
        final(m)@ == sized_end(old(m)@, one, two),
{
    if one && two {
        m.skip(4);
    } else if one {
        m.skip(1);
    } else if two {
        m.skip(2);
    }
}

/// Where the origin starts: behind models, frame, skin, effects and rendering.
pub open spec fn looks_end(f: Feed, bits: int) -> Feed {
    let g = f.skip_if(has_flag(bits, 11), 1).skip_if(has_flag(bits, 20), 1).skip_if(
        has_flag(bits, 21),
        1,
    ).skip_if(has_flag(bits, 22), 1).skip_if(has_flag(bits, 4), 1).skip_if(
        has_flag(bits, 17),
        2,
    );
    let g = sized_end(g, has_flag(bits, 16), has_flag(bits, 25));
    let g = sized_end(g, has_flag(bits, 14), has_flag(bits, 19));
    sized_end(g, has_flag(bits, 12), has_flag(bits, 18))
}

fn skip_looks(m: &mut ByteReader, bits: u32)
    requires
        old(m).wf(),
    ensures
        final(m).wf(),
        final(m)@.d == old(m)@.d,
        final(m)@.pos >= old(m)@.pos,
        final(m)@ == looks_end(old(m)@, bits as int),
{
    m.skip_if(flag(bits, 11), 1);
    m.skip_if(flag(bits, 20), 1);
    m.skip_if(flag(bits, 21), 1);
    m.skip_if(flag(bits, 22), 1);
    m.skip_if(flag(bits, 4), 1);
    m.skip_if(flag(bits, 17), 2);
    skip_sized(m, flag(bits, 16), flag(bits, 25));
    skip_sized(m, flag(bits, 14), flag(bits, 19));
    skip_sized(m, flag(bits, 12), flag(bits, 18));
}

pub open spec fn angle_if(f: Feed, set: bool, old: u32) -> (u32, Feed) {
    if set {
        (angle8(f.byte() as int), f.skip(1))
    } else {
        (old, f)
    }
}

fn read_angle_if(m: &mut ByteReader, set: bool, old_v: u32) -> (v: u32)
    requires
        old(m).wf(),
    ensures
        final(m).wf(),
        final(m)@.d == old(m)@.d,
        final(m)@.pos >= old(m)@.pos,
        (v, final(m)@) == angle_if(old(m)@, set, old_v),
{
    if set {
        m.read_angle8()
    } else {
        old_v
    }
}

/// An entity after a delta.
pub open spec fn delta_at(f: Feed, bits: int, e: Ent) -> (Ent, Feed) {
    let g = looks_end(f, bits);
    let (x, g1) = coord_if(g, has_flag(bits, 0), e.x);
    let (y, g2) = coord_if(g1, has_flag(bits, 1), e.y);
    let (z, g3) = coord_if(g2, has_flag(bits, 9), e.z);
    let (pitch, g4) = angle_if(g3, has_flag(bits, 10), e.pitch);
    let (yaw, g5) = angle_if(g4, has_flag(bits, 2), e.yaw);
    let h = g5.skip_if(has_flag(bits, 3), 1).skip_if(has_flag(bits, 24), 6).skip_if(
        has_flag(bits, 26),
        1,
    ).skip_if(has_flag(bits, 5), 1).skip_if(has_flag(bits, 27), 2);
    (Ent { x, y, z, pitch, yaw, seen: true }, h)
}

fn parse_delta(m: &mut ByteReader, bits: u32, e: Ent) -> (r: Ent)
    requires
        old(m).wf(),
    ensures
        final(m).wf(),
        final(m)@.d == old(m)@.d,
        final(m)@.pos >= old(m)@.pos,
        (r, final(m)@) == delta_at(old(m)@, bits as int, e),
{
    skip_looks(m, bits);
    let x: u32 = read_coord_if(m, flag(bits, 0), e.x);
    let y: u32 = read_coord_if(m, flag(bits, 1), e.y);
    let z: u32 = read_coord_if(m, flag(bits, 9), e.z);
    let pitch: u32 = read_angle_if(m, flag(bits, 10), e.pitch);
    let yaw: u32 = read_angle_if(m, flag(bits, 2), e.yaw);
    m.skip_if(flag(bits, 3), 1);
    m.skip_if(flag(bits, 24), 6);
    m.skip_if(flag(bits, 26), 1);
    m.skip_if(flag(bits, 5), 1);
    m.skip_if(flag(bits, 27), 2);
    Ent { x, y, z, pitch, yaw, seen: true }
}

pub open spec fn ent_of(ents: Map<u16, Ent>, num: u16) -> Ent {
    if ents.contains_key(num) {
        ents[num]
    } else {
        unseen()
    }
}

/// The entities and tracks after the delta of an entity: it is sampled where it
/// moved or is new.
pub open spec fn entity_at(f: Feed, num: u16, bits: int, frame: i32, st: Game) -> (Feed, Game) {
    let before = ent_of(st.ents, num);
    let (e, g) = delta_at(f, bits, before);
    let moved = has_flag(bits, 0) || has_flag(bits, 1) || has_flag(bits, 9) || !before.seen;
    (
        g,
        Game {
            ents: st.ents.insert(num, e),
            tb: if moved {
                st.tb.with_pos(num as u32, (frame, e.x, e.y, e.z)).with_yaw(
                    num as u32,
                    (frame, e.yaw, e.pitch),
                )
            } else {
                st.tb
            },
            ..st
        },
    )
}

/// The entities of an update from `f` on, up to number zero.
pub open spec fn entities_from(f: Feed, frame: i32, st: Game) -> (Feed, Game)
    decreases f.left(),
{
    if f.over || !f.valid() {
        (f, st)
    } else {
        let (num, bits, g) = head_at(f);
        let (h, s) = if has_flag(bits, 6) {
            (g, Game { ents: st.ents.remove(num), ..st })
        } else {
            entity_at(g, num, bits, frame, st)
        };
        if num == 0 {
            (g, st)
        } else if h.d == f.d && f.pos < h.pos && h.pos <= f.d.len() {
            entities_from(h, frame, s)
        } else {
            (h, s)
        }
    }
}

fn read_entity(m: &mut ByteReader, num: u16, bits: u32, frame: i32, st: &mut Q2State)
    requires
        old(m).wf(),
        old(st).wf(),
    ensures
        final(m).wf(),
        final(m)@.d == old(m)@.d,
        final(m)@.pos >= old(m)@.pos,
        final(st).wf(),
        (final(m)@, final(st)@) == entity_at(old(m)@, num, bits as int, frame, old(st)@),
{
    broadcast use vstd::std_specs::hash::group_hash_axioms;

    let before = match st.ents.get(&num) {
        Some(e) => *e,
        None => Ent { x: 0, y: 0, z: 0, pitch: 0, yaw: 0, seen: false },
    };
    let e = parse_delta(m, bits, before);
    st.ents.insert(num, e);
    if flag(bits, 0) || flag(bits, 1) || flag(bits, 9) || !before.seen {
        st.tb.pos(num as u32, frame, e.x, e.y, e.z);
        st.tb.yaw(num as u32, frame, e.yaw, e.pitch);
    }
}

fn parse_packet_entities(m: &mut ByteReader, frame: i32, st: &mut Q2State)
    requires
        old(m).wf(),
        old(st).wf(),
    ensures
        final(m).wf(),
        final(m)@.d == old(m)@.d,
        final(m)@.pos >= old(m)@.pos,
        final(st).wf(),
        (final(m)@, final(st)@) == entities_from(old(m)@, frame, old(st)@),
        final(st)@.frames == old(st)@.frames,
{
    broadcast use vstd::std_specs::hash::group_hash_axioms;

    while !m.overflow
        invariant
            m.wf(),
            m@.d == old(m)@.d,
            m@.pos >= old(m)@.pos,
            st.wf(),
            st@.frames == old(st)@.frames,
            entities_from(m@, frame, st@) == entities_from(old(m)@, frame, old(st)@),
        decreases m@.left(),
    {
        broadcast use vstd::std_specs::hash::group_hash_axioms;

        let (num, bits) = parse_entity_bits(m);
        if num == 0 {
            return ;
        }
        if flag(bits, 6) {
            st.ents.remove(&num);
        } else {
            read_entity(m, num, bits, frame, st);
        }
    }
}

/// Past the statistics that a mask announces, from number `i` on.
pub open spec fn stats_end(f: Feed, bits: int, i: int) -> Feed
    decreases 32 - i,
{
    if i >= 32 {
        f
    } else {
        stats_end(f.skip_if(has_flag(bits, i), 2), bits, i + 1)
    }
}

fn skip_stats(m: &mut ByteReader, bits: u32)
    requires
        old(m).wf(),
    ensures
        final(m).wf(),
        final(m)@.d == old(m)@.d,
        final(m)@.pos >= old(m)@.pos,
        final(m)@ == stats_end(old(m)@, bits as int, 0),
{
    let mut i: u32 = 0;
    while i < 32
        invariant
            m.wf(),
            m@.d == old(m)@.d,
            m@.pos >= old(m)@.pos,
            i <= 32,
            stats_end(m@, bits as int, i as int) == stats_end(old(m)@, bits as int, 0),
        decreases 32 - i,
    {
        m.skip_if(flag(bits, i), 2);
        i += 1;
    }
}

/// What the state of the recorder says that matters.
pub struct PlayerView {
    pub pm_type: u8,
    pub origin: Option<(u32, u32, u32)>,
    /// Pitch and yaw.
    pub angles: Option<(u32, u32)>,
}

/// The kind of motion and the origin.
pub open spec fn motion_at(f: Feed, bits: int, pm: u8) -> (u8, Option<(u32, u32, u32)>, Feed) {
    let kind = if has_flag(bits, 0) {
        f.byte()
    } else {
        pm
    };
    let g = f.skip_if(has_flag(bits, 0), 1);
    if has_flag(bits, 1) {
        (
            kind,
            Some((g.coord(), g.skip(2).coord(), g.skip(2).skip(2).coord())),
            g.skip(2).skip(2).skip(2),
        )
    } else {
        (kind, None, g)
    }
}

fn read_motion(m: &mut ByteReader, bits: u32, pm: u8) -> (r: (u8, Option<(u32, u32, u32)>))
    requires
        old(m).wf(),
    ensures
        final(m).wf(),
        final(m)@.d == old(m)@.d,
        final(m)@.pos >= old(m)@.pos,
        (r.0, r.1, final(m)@) == motion_at(old(m)@, bits as int, pm),
{
    let kind: u8 = if flag(bits, 0) {
        m.read_u8()
    } else {
        pm
    };
    if flag(bits, 1) {
        let x: u32 = m.read_coord_q2();
        let y: u32 = m.read_coord_q2();
        let z: u32 = m.read_coord_q2();
        (kind, Some((x, y, z)))
    } else {
        (kind, None)
    }
}

/// The view angles, behind velocity, time, flags, gravity, turn and eye height.
pub open spec fn view_at(f: Feed, bits: int) -> (Option<(u32, u32)>, Feed) {
    let g = f.skip_if(has_flag(bits, 2), 6).skip_if(has_flag(bits, 3), 1).skip_if(
        has_flag(bits, 4),
        1,
    ).skip_if(has_flag(bits, 5), 2).skip_if(has_flag(bits, 6), 6).skip_if(has_flag(bits, 7), 3);
    if has_flag(bits, 8) {
        (
            Some((angle16(g.short()), angle16(g.skip(2).short()))),
            g.skip(2).skip(2).skip(2),
        )
    } else {
        (None, g)
    }
}

fn read_view(m: &mut ByteReader, bits: u32) -> (r: Option<(u32, u32)>)
    requires
        old(m).wf(),
    ensures
        final(m).wf(),
        final(m)@.d == old(m)@.d,
        final(m)@.pos >= old(m)@.pos,
        (r, final(m)@) == view_at(old(m)@, bits as int),
{
    m.skip_if(flag(bits, 2), 6);
    m.skip_if(flag(bits, 3), 1);
    m.skip_if(flag(bits, 4), 1);
    m.skip_if(flag(bits, 5), 2);
    m.skip_if(flag(bits, 6), 6);
    m.skip_if(flag(bits, 7), 3);
    if flag(bits, 8) {
        let pitch: u32 = m.read_angle16();
        let yaw: u32 = m.read_angle16();
        m.skip(2);
        Some((pitch, yaw))
    } else {
        None
    }
}

/// Past kick, weapon, blend, field of view, drawing and statistics.
pub open spec fn rest_end(f: Feed, bits: int) -> Feed {
    let g = f.skip_if(has_flag(bits, 9), 3).skip_if(has_flag(bits, 12), 1).skip_if(
        has_flag(bits, 13),
        1,
    ).skip_if(has_flag(bits, 10), 4).skip_if(has_flag(bits, 11), 1).skip_if(
        has_flag(bits, 14),
        1,
    );
    stats_end(g.skip(4), g.word(), 0)
}

fn skip_rest(m: &mut ByteReader, bits: u32)
    requires
        old(m).wf(),
    ensures
        final(m).wf(),
        final(m)@.d == old(m)@.d,
        final(m)@.pos >= old(m)@.pos,
        final(m)@ == rest_end(old(m)@, bits as int),
{
    m.skip_if(flag(bits, 9), 3);
    m.skip_if(flag(bits, 12), 1);
    m.skip_if(flag(bits, 13), 1);
    m.skip_if(flag(bits, 10), 4);
    m.skip_if(flag(bits, 11), 1);
    m.skip_if(flag(bits, 14), 1);
    let stats: u32 = m.read_u32();
    skip_stats(m, stats);
}

/// The state of the recorder.
pub open spec fn player_at(f: Feed, pm: u8) -> (PlayerView, Feed) {
    let bits = f.short();
    let (pm_type, origin, g) = motion_at(f.skip(2), bits, pm);
    let (angles, h) = view_at(g, bits);
    (PlayerView { pm_type, origin, angles }, rest_end(h, bits))
}

/// The tracks after a state of the recorder.
pub open spec fn recorded(tb: Tracks, playernum: int, frame: i32, p: PlayerView) -> Tracks {
    if playernum < 0 {
        tb
    } else {
        let eid = (playernum + 1) as u32;
        let t1 = match p.origin {
            Some((x, y, z)) => tb.with_pos(eid, (frame, x, y, z)),
            None => tb,
        };
        let t2 = match p.angles {
            Some((pitch, yaw)) => t1.with_yaw(eid, (frame, yaw, pitch)).with_view(
                (frame, pitch, yaw),
            ),
            None => t1,
        };
        t2.with_life(eid, frame, p.pm_type == 2 || p.pm_type == 3)
    }
}

pub open spec fn playerinfo_at(f: Feed, frame: i32, st: Game) -> (Feed, Game) {
    let (p, g) = player_at(f, st.pm_type);
    (
        g,
        Game { pm_type: p.pm_type, tb: recorded(st.tb, st.playernum, frame, p), ..st },
    )
}

fn parse_playerinfo(m: &mut ByteReader, frame: i32, st: &mut Q2State)
    requires
        old(m).wf(),
        old(st).wf(),
    ensures
        final(m).wf(),
        final(m)@.d == old(m)@.d,
        final(m)@.pos >= old(m)@.pos,
        final(st).wf(),
        (final(m)@, final(st)@) == playerinfo_at(old(m)@, frame, old(st)@),
{
    let bits: u32 = m.read_u16() as u32;
    let (kind, origin) = read_motion(m, bits, st.pm_type);
    let angles = read_view(m, bits);
    skip_rest(m, bits);
    st.pm_type = kind;
    if st.playernum >= 0 {
        let eid: u32 = st.playernum as u32 + 1;
        match origin {
            Some((x, y, z)) => st.tb.pos(eid, frame, x, y, z),
            None => {},
        }
        match angles {
            Some((pitch, yaw)) => {
                st.tb.yaw(eid, frame, yaw, pitch);
                st.tb.view_angles.push((frame, pitch, yaw));
            },
            None => {},
        }
        st.tb.life(eid, frame, kind == 2 || kind == 3);
    }
}

/// How many bytes follow the kind of a temporary entity.
pub open spec fn temp_len(kind: u8) -> Option<int> {
    match kind {
        0 | 1 | 2 | 4 | 9 | 12 | 13 | 14 | 26 => Some(7),
        5 | 6 | 7 | 8 | 17 | 18 | 20 | 21 | 22 | 28 => Some(6),
        3 | 11 | 23 | 27 => Some(12),
        10 | 15 | 25 | 29 => Some(9),
        16 | 19 => Some(14),
        24 => Some(20),
        _ => None,
    }
}

/// Past a temporary entity; one of an unknown kind ends the block.
pub open spec fn temp_end(f: Feed) -> Feed {
    match temp_len(f.byte()) {
        Some(n) => f.skip(1).skip(n),
        None => f.skip(1).fail(),
    }
}

fn parse_temp_entity(m: &mut ByteReader)
    requires
        old(m).wf(),
    ensures
        final(m).wf(),
        final(m)@.d == old(m)@.d,
        final(m)@.pos >= old(m)@.pos,
        final(m)@ == temp_end(old(m)@),
{
    match m.read_u8() {
        0 | 1 | 2 | 4 | 9 | 12 | 13 | 14 | 26 => m.skip(7),
        5 | 6 | 7 | 8 | 17 | 18 | 20 | 21 | 22 | 28 => m.skip(6),
        3 | 11 | 23 | 27 => m.skip(12),
        10 | 15 | 25 | 29 => m.skip(9),
        16 | 19 => m.skip(14),
        24 => m.skip(20),
        _ => {
            m.overflow = true;
        },
    }
}

/// Past a sound.
pub open spec fn sound_end(f: Feed) -> Feed {
    let bits = f.byte() as int;
    f.skip(1).skip(1).skip_if(has_flag(bits, 0), 1).skip_if(has_flag(bits, 1), 1).skip_if(
        has_flag(bits, 4),
        1,
    ).skip_if(has_flag(bits, 3), 2).skip_if(has_flag(bits, 2), 6)
}

fn skip_sound(m: &mut ByteReader)
    requires
        old(m).wf(),
    ensures
        final(m).wf(),
        final(m)@.d == old(m)@.d,
        final(m)@.pos >= old(m)@.pos,
        final(m)@ == sound_end(old(m)@),
{
    let bits: u32 = m.read_u8() as u32;
    m.skip(1);
    m.skip_if(flag(bits, 0), 1);
    m.skip_if(flag(bits, 1), 1);
    m.skip_if(flag(bits, 4), 1);
    m.skip_if(flag(bits, 3), 2);
    m.skip_if(flag(bits, 2), 6);
}

/// Past a download; a length that is not positive says that nothing follows.
pub open spec fn download_end(f: Feed) -> Feed {
    let n = signed16(f.short());
    f.skip(2).skip(1).skip_if(n > 0, n)
}

/// A frame: its number, the state of the recorder and the entities. Where one of
/// the two does not follow, the block ends.
pub open spec fn frame_at(f: Feed, st: Game) -> (Option<Feed>, Game) {
    let frame = signed32(f.word());
    let g = f.skip(4).skip(4).skip(1);
    let g = g.skip(1).skip(g.byte() as int);
    let s = Game {
        max_frame: if frame > st.max_frame {
            frame
        } else {
            st.max_frame
        },
        frames: st.frames + 1,
        ..st
    };
    if g.byte() != 17 {
        (None, s)
    } else {
        let (h, s) = playerinfo_at(g.skip(1), frame as i32, s);
        if h.byte() != 18 && h.byte() != 19 {
            (None, s)
        } else {
            let (e, s) = entities_from(h.skip(1), frame as i32, s);
            (Some(e), s)
        }
    }
}

fn parse_frame(m: &mut ByteReader, st: &mut Q2State) -> (ok: bool)
    requires
        old(m).wf(),
        old(st).wf(),
        old(st)@.frames < usize::MAX,
    ensures
        final(m).wf(),
        final(m)@.d == old(m)@.d,
        final(m)@.pos >= old(m)@.pos,
        final(st).wf(),
        final(st)@ == frame_at(old(m)@, old(st)@).1,
        final(st)@.frames == old(st)@.frames + 1,
        match frame_at(old(m)@, old(st)@).0 {
            Some(g) => ok && final(m)@ == g,
            None => !ok,
        },
{
    let frame: i32 = m.read_i32();
    m.skip(4);
    m.skip(1);
    let n: usize = m.read_u8() as usize;
    m.skip(n);
    if frame > st.max_frame {
        st.max_frame = frame;
    }
    st.frames = st.frames + 1;
    if m.read_u8() != 17 {
        return false;
    }
    parse_playerinfo(m, frame, st);
    let c: u8 = m.read_u8();
    if c != 18 && c != 19 {
        return false;
    }
    parse_packet_entities(m, frame, st);
    true
}

/// What the server says of itself.
pub open spec fn server_at(f: Feed, st: Game) -> (Feed, Game) {
    let g = f.skip(4).skip(4).skip(1).past_text();
    let h = g.skip(2);
    (
        h.past_text(),
        Game {
            protocol: signed32(f.word()),
            playernum: signed16(g.short()),
            map: h.text(),
            ..st
        },
    )
}

/// A baseline; the one of number zero is not kept.
pub open spec fn baseline_at(f: Feed, st: Game) -> (Feed, Game) {
    let (num, bits, g) = head_at(f);
    let (e, h) = delta_at(g, bits, unseen());
    (
        h,
        if num != 0 {
            Game { ents: st.ents.insert(num, e), ..st }
        } else {
            st
        },
    )
}

pub open spec fn some_feed(p: (Feed, Game)) -> (Option<Feed>, Game) {
    (Some(p.0), p.1)
}

/// A message behind its number; none where the block ends with it.
#[verifier::opaque]
pub open spec fn message_at(f: Feed, cmd: u8, st: Game) -> (Option<Feed>, Game) {
    if cmd == 6 {
        (Some(f), st)
    } else if cmd == 12 {
        some_feed(server_at(f, st))
    } else if cmd == 13 {
        let g = f.skip(2);
        (
            Some(g.past_text()),
            Game { strings: st.strings.insert(f.short() as u32, g.text()), ..st },
        )
    } else if cmd == 14 {
        some_feed(baseline_at(f, st))
    } else if cmd == 20 {
        frame_at(f, st)
    } else if cmd == 17 {
        some_feed(playerinfo_at(f, st.max_frame as i32, st))
    } else if cmd == 18 || cmd == 19 {
        some_feed(entities_from(f, st.max_frame as i32, st))
    } else if cmd == 1 || cmd == 2 {
        (Some(f.skip(2).skip(1)), st)
    } else if cmd == 3 {
        (Some(temp_end(f)), st)
    } else if cmd == 4 || cmd == 11 || cmd == 15 {
        (Some(f.past_text()), st)
    } else if cmd == 5 {
        (Some(f.skip(512)), st)
    } else if cmd == 10 {
        (Some(f.skip(1).past_text()), st)
    } else if cmd == 9 {
        (Some(sound_end(f)), st)
    } else if cmd == 16 {
        (Some(download_end(f)), st)
    } else {
        (None, st)
    }
}

fn parse_server(m: &mut ByteReader, st: &mut Q2State)
    requires
        old(m).wf(),
        old(st).wf(),
    ensures
        final(m).wf(),
        final(m)@.d == old(m)@.d,
        final(m)@.pos >= old(m)@.pos,
        final(st).wf(),
        (final(m)@, final(st)@) == server_at(old(m)@, old(st)@),
{
    st.protocol = m.read_i32();
    m.skip(4);
    m.skip(1);
    let _ = m.read_string();
    st.playernum = m.read_i16() as i32;
    st.map = m.read_string();
}

fn parse_baseline(m: &mut ByteReader, st: &mut Q2State)
    requires
        old(m).wf(),
        old(st).wf(),
    ensures
        final(m).wf(),
        final(m)@.d == old(m)@.d,
        final(m)@.pos >= old(m)@.pos,
        final(st).wf(),
        (final(m)@, final(st)@) == baseline_at(old(m)@, old(st)@),
{
    broadcast use vstd::std_specs::hash::group_hash_axioms;

    let (num, bits) = parse_entity_bits(m);
    let e = parse_delta(
        m,
        bits,
        Ent { x: 0, y: 0, z: 0, pitch: 0, yaw: 0, seen: false },
    );
    if num != 0 {
        st.ents.insert(num, e);
    }
}

fn read_message(m: &mut ByteReader, cmd: u8, st: &mut Q2State) -> (ok: bool)
    requires
        old(m).wf(),
        old(st).wf(),
        old(st)@.frames < usize::MAX,
    ensures
        final(m).wf(),
        final(m)@.d == old(m)@.d,
        final(m)@.pos >= old(m)@.pos,
        final(st).wf(),
        final(st)@ == message_at(old(m)@, cmd, old(st)@).1,
        final(st)@.frames <= old(st)@.frames + 1,
        match message_at(old(m)@, cmd, old(st)@).0 {
            Some(g) => ok && final(m)@ == g,
            None => !ok,
        },
{
    broadcast use vstd::std_specs::hash::group_hash_axioms;

    proof {
        reveal(message_at);
    }
    match cmd {
        6 => {},
        12 => parse_server(m, st),
        13 => {
            let k: u32 = m.read_u16() as u32;
            let text = m.read_string();
            let ghost s0 = st.strings@;
            let ghost tv = text@;
            st.strings.insert(k, text);
            assert(labels(st.strings@) =~= labels(s0).insert(k, tv));
        },
        14 => parse_baseline(m, st),
        20 => {
            return parse_frame(m, st);
        },
        17 => parse_playerinfo(m, st.max_frame, st),
        18 | 19 => parse_packet_entities(m, st.max_frame, st),
        1 | 2 => {
            m.skip(2);
            m.skip(1);
        },
        3 => parse_temp_entity(m),
        4 | 11 | 15 => {
            let _ = m.read_string();
        },
        5 => m.skip(512),
        10 => {
            m.skip(1);
            let _ = m.read_string();
        },
        9 => skip_sound(m),
        16 => {
            let n: i16 = m.read_i16();
            m.skip(1);
            if n > 0 {
                m.skip(n as usize);
            }
        },
        _ => {
            return false;
        },
    }
    true
}

/// The messages of a block from `f` on.
pub open spec fn block_from(f: Feed, st: Game) -> Game
    decreases f.left(),
{
    if f.pos >= f.d.len() || f.over || f.pos < 0 {
        st
    } else {
        match message_at(f.skip(1), f.byte(), st) {
            (Some(h), s) => if h.d == f.d && f.pos < h.pos && h.pos <= f.d.len() {
                block_from(h, s)
            } else {
                s
            },
            (None, s) => s,
        }
    }
}

fn read_block(d: &[u8], st: &mut Q2State)
    requires
        old(st).wf(),
        old(st)@.frames + d.len() <= usize::MAX,
    ensures
        final(st).wf(),
        final(st)@.frames <= old(st)@.frames + d.len(),
        final(st)@ == block_from((Feed { d: d@, pos: 0, over: false }), old(st)@),
{
    let mut m = ByteReader::new(d);
    while m.pos < m.data.len() && !m.overflow
        invariant
            m.wf(),
            m@.d == d@,
            st.wf(),
            old(st)@.frames + d.len() <= usize::MAX,
            st@.frames <= old(st)@.frames + m.pos,
            block_from(m@, st@) == block_from((Feed { d: d@, pos: 0, over: false }), old(st)@),
        decreases m@.left(),
    {
        proof {
            m@.lemma_skip(1);
        }
        let cmd: u8 = m.read_u8();
        if !read_message(&mut m, cmd, st) {
            return ;
        }
    }
}

/// The blocks from `f` on.
pub open spec fn blocks_from(f: Feed, st: Game) -> Game
    decreases f.left(),
    via blocks_from_decreases
{
    if f.left() < 4 || f.pos < 0 {
        st
    } else {
        let len = signed32(f.word());
        let g = f.skip(4);
        let e = g.skip(len);
        if len <= 0 || e.over {
            st
        } else {
            blocks_from(
                e,
                block_from(
                    (Feed { d: f.d.subrange(g.pos, g.pos + len), pos: 0, over: false }),
                    st,
                ),
            )
        }
    }
}

#[via_fn]
proof fn blocks_from_decreases(f: Feed, st: Game) {
    if f.valid() && f.left() >= 4 && signed32(f.word()) > 0 {
        f.lemma_skip(4);
        f.skip(4).lemma_skip(signed32(f.word()));
    }
}

/// The game that a demo tells.
pub open spec fn game_of(d: Seq<u8>) -> Game {
    blocks_from((Feed { d, pos: 0, over: false }), new_game())
}

/// A text up to its first backslash.
pub open spec fn up_to_slash(s: Seq<char>) -> Seq<char> {
    s.subrange(0, place_of(s, '\\', 0))
}

/// The name of entity `k`, as the configuration strings tell it.
pub open spec fn name_of(strings: Map<u32, Seq<char>>, k: u32) -> Seq<char> {
    let i = (CS_PLAYERSKINS + k - 1) as u32;
    if 1 <= k <= MAX_CLIENTS && strings.contains_key(i) {
        up_to_slash(strings[i])
    } else {
        Seq::empty()
    }
}

pub open spec fn names_of(strings: Map<u32, Seq<char>>) -> Map<u32, Seq<char>> {
    Map::new(|k: u32| name_of(strings, k).len() > 0, |k: u32| name_of(strings, k))
}

/// The tracks of a game that is over.
pub open spec fn finished(st: Game) -> Tracks {
    Tracks {
        names: names_of(st.strings),
        primary: if st.playernum >= 0 {
            Some((st.playernum + 1) as u32)
        } else {
            None
        },
        ..st.tb
    }
}

pub open spec fn server_of(strings: Map<u32, Seq<char>>) -> Seq<char> {
    if strings.contains_key(0) {
        strings[0]
    } else {
        Seq::empty()
    }
}

fn head_of(s: &String) -> (r: String)
    ensures
        r@ == up_to_slash(s@),
{
    let cs = chars_of(s.as_str());
    let n: usize = find_char(cs.as_slice(), '\\', 0);
    text_of(vstd::slice::slice_subrange(cs.as_slice(), 0, n))
}

fn keep_names(strings: &HashMap<u32, String>, tb: &mut TrackBuilder)
    requires
        old(tb)@.names == Map::<u32, Seq<char>>::empty(),
    ensures
        final(tb)@ == (Tracks { names: names_of(labels(strings@)), ..old(tb)@ }),
{
    let ghost all = labels(strings@);
    let mut i: u32 = 0;
    while i < MAX_CLIENTS
        invariant
            i <= MAX_CLIENTS,
            all == labels(strings@),
            tb@ == (Tracks { names: tb@.names, ..old(tb)@ }),
            forall|k: u32| #[trigger]
                tb@.names.contains_key(k) <==> k <= i && name_of(all, k).len() > 0,
            forall|k: u32| #[trigger] tb@.names.contains_key(k) ==> tb@.names[k] == name_of(all, k),
        decreases MAX_CLIENTS - i,
    {
        broadcast use vstd::std_specs::hash::group_hash_axioms;

        let ghost n0 = tb@.names;
        match strings.get(&(CS_PLAYERSKINS + i)) {
            Some(s) => tb.name(i + 1, head_of(s)),
            None => {},
        }
        i += 1;
    }
    assert(tb@.names =~= names_of(all));
}

/// Messages name nobody in the tracks.
proof fn lemma_message_names(f: Feed, cmd: u8, st: Game)
    ensures
        message_at(f, cmd, st).1.tb.names == st.tb.names,
        message_at(f, cmd, st).1.tb.primary == st.tb.primary,
{
    reveal(message_at);
    lemma_entities_names(f, st.max_frame as i32, st);
    if cmd == 20 {
        let frame = signed32(f.word()) as i32;
        let g = f.skip(4).skip(4).skip(1);
        let g = g.skip(1).skip(g.byte() as int);
        let s = Game {
            max_frame: if signed32(f.word()) > st.max_frame {
                signed32(f.word())
            } else {
                st.max_frame
            },
            frames: st.frames + 1,
            ..st
        };
        let (h, s2) = playerinfo_at(g.skip(1), frame, s);
        lemma_entities_names(h.skip(1), frame, s2);
    }
}

proof fn lemma_entities_names(f: Feed, frame: i32, st: Game)
    ensures
        entities_from(f, frame, st).1.tb.names == st.tb.names,
        entities_from(f, frame, st).1.tb.primary == st.tb.primary,
    decreases f.left(),
{
    if !f.over && f.valid() {
        let (num, bits, g) = head_at(f);
        let (h, s) = if has_flag(bits, 6) {
            (g, Game { ents: st.ents.remove(num), ..st })
        } else {
            entity_at(g, num, bits, frame, st)
        };
        assert(s.tb.names == st.tb.names && s.tb.primary == st.tb.primary);
        if num != 0 && h.d == f.d && f.pos < h.pos && h.pos <= f.d.len() {
            lemma_entities_names(h, frame, s);
        }
    }
}

proof fn lemma_block_names(f: Feed, st: Game)
    ensures
        block_from(f, st).tb.names == st.tb.names,
        block_from(f, st).tb.primary == st.tb.primary,
    decreases f.left(),
{
    if !(f.pos >= f.d.len() || f.over || f.pos < 0) {
        lemma_message_names(f.skip(1), f.byte(), st);
        match message_at(f.skip(1), f.byte(), st) {
            (Some(h), s) => if h.d == f.d && f.pos < h.pos && h.pos <= f.d.len() {
                lemma_block_names(h, s);
            },
            _ => {},
        }
    }
}

/// Whether `q` says what a demo tells.
pub open spec fn tells(q: QuakeDemo, d: Seq<u8>) -> bool {
    let st = game_of(d);
    &&& q.meta.map@ == st.map
    &&& q.meta.server@ == server_of(st.strings)
    &&& q.meta.client@ == client_of(finished(st))
    &&& q.meta.game@ == "quake2"@
    &&& q.meta.protocol == st.protocol
    &&& q.meta.ticks == st.max_frame
    &&& q.meta.tick_rate == 10
    &&& q.meta.ncmds == st.frames
    &&& q.mpd.map@ == st.map
    &&& q.mpd.server@ == server_of(st.strings)
    &&& q.mpd.ticks == st.max_frame
    &&& built(q.mpd, finished(st))
}

/// Reads a Quake 2 demo. It never fails: what cannot be read ends the block or the
/// demo.
pub fn parse(data: &[u8]) -> (r: Result<QuakeDemo, QuakeError>)
    ensures
        r matches Ok(q) && tells(q, data@),
{
    broadcast use vstd::std_specs::hash::group_hash_axioms;

    let mut r = ByteReader::new(data);
    let mut st = Q2State {
        tb: TrackBuilder::new(),
        strings: HashMap::new(),
        ents: HashMap::new(),
        map: String::new(),
        playernum: -1,
        protocol: 34,
        max_frame: 0,
        frames: 0,
        pm_type: 0,
    };
    proof {
        assert(st@ =~= new_game());
        assert(st@ == new_game());
    }
    loop
        invariant_except_break
            blocks_from(r@, st@) == game_of(data@),
            st@.frames <= r.pos,
            !r.overflow,
        invariant
            r.wf(),
            r@.d == data@,
            st.wf(),
            st@.tb.names == Map::<u32, Seq<char>>::empty(),
            st@.tb.primary is None,
        ensures
            st@ == game_of(data@),
        decreases r@.left(),
    {
        if r.remaining() < 4 {
            break;
        }
        proof {
            r@.lemma_skip(4);
            if signed32(r@.word()) > 0 {
                r@.skip(4).lemma_skip(signed32(r@.word()));
            }
        }
        let len: i32 = r.read_i32();
        if len <= 0 {
            break;
        }
        let block = r.read_bytes(len as usize);
        if r.overflow {
            break;
        }
        proof {
            lemma_block_names(Feed { d: block@, pos: 0, over: false }, st@);
        }
        read_block(block, &mut st);
    }
    let mut tb = st.tb;
    if st.playernum >= 0 {
        tb.primary = Some(st.playernum as u32 + 1);
    }
    keep_names(&st.strings, &mut tb);
    assert(tb@ =~= finished(game_of(data@)));
    let server = match st.strings.get(&0) {
        Some(s) => s.clone(),
        None => {
            let s = String::new();
            assert(s@ =~= Seq::empty());
            s
        },
    };
    let meta = QuakeMeta {
        map: st.map.clone(),
        server: server.clone(),
        client: tb.client(),
        game: "quake2".to_owned(),
        protocol: st.protocol,
        ticks: st.max_frame,
        tick_rate: 10,
        ncmds: st.frames,
    };
    let mpd = tb.build(st.map, server, st.max_frame);
    Ok(QuakeDemo { meta, mpd })
}

} // verus!
