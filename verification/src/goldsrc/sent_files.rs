//! Demos of GoldSrc as they are written: the header, the directory, frames and the messages
//! about players.
use super::entities::{past_cstr, past_cstrs, server_message, user_message, Net};
use super::{frame_step, sample_at, take_entry, FrameStep, GoldSrcMeta, Playback};
use crate::bytes::{cstr_at, i32_at, u32_at, zero_from};
use crate::info::info_of;
use crate::source::sent_tables::{field, text_in};
use crate::text::lossy_chars;
use crate::written::{law_word_reads, law_zero_is_found, le32, lemma_lies, lemma_lies_at, lies,
    no_zero};
use vstd::prelude::*;

verus! {

proof fn lemma_field(d: Seq<u8>, o: int, s: Seq<u8>, w: nat)
    requires
        text_in(s, w),
        lies(d, o, field(s, w)),
    ensures
        cstr_at(d, o, w as int) == s,
{
    let x = d.subrange(o, o + w);
    let z = Seq::new((w - s.len() - 1) as nat, |i: int| 0u8);
    assert(field(s, w) =~= s.push(0) + z);
    assert(x.subrange(0, w as int) =~= x);
    lemma_lies(x, 0, s.push(0), z);
    law_zero_is_found(x, 0, s);
    assert(x.take(s.len() as int) =~= s) by {
        assert forall|i: int| 0 <= i < s.len() implies x[i] == s[i] by {
            assert(field(s, w)[i] == s[i]);
        }
    }
}

/// A header as it is written: the magic, the protocols, the map, the game, the sum of the
/// map's bytes and where the directory stands.
pub open spec fn head_bytes(magic: Seq<u8>, demo: i32, net: i32, map: Seq<u8>, game: Seq<u8>, sum: i32, dir: i32) -> Seq<u8> {
    magic + (le32(demo as int) + (le32(net as int) + (field(map, 260) + (field(game, 260) + (le32(
        sum as int,
    ) + le32(dir as int))))))
}

/// A header that was written is read back.
pub proof fn law_header_round_trip(
    m: GoldSrcMeta,
    d: Seq<u8>,
    magic: Seq<u8>,
    demo: i32,
    net: i32,
    map: Seq<u8>,
    game: Seq<u8>,
    sum: i32,
    dir: i32,
)
    requires
        m.is_of(d),
        magic.len() == 8,
        text_in(map, 260),
        text_in(game, 260),
        lies(d, 0, head_bytes(magic, demo, net, map, game, sum, dir)),
    ensures
        m.demo_protocol == demo,
        m.net_protocol == net,
        m.map_name@ == lossy_chars(map),
        m.game_dir@ == lossy_chars(game),
        i32_at(d, 540) == dir,
{
    let t5 = le32(sum as int) + le32(dir as int);
    let t4 = field(game, 260) + t5;
    let t3 = field(map, 260) + t4;
    let t2 = le32(net as int) + t3;
    lemma_lies(d, 0, magic, le32(demo as int) + t2);
    lemma_lies(d, 8, le32(demo as int), t2);
    lemma_lies(d, 12, le32(net as int), t3);
    lemma_lies(d, 16, field(map, 260), t4);
    lemma_lies(d, 276, field(game, 260), t5);
    lemma_lies(d, 536, le32(sum as int), le32(dir as int));
    law_word_reads(d, 8, demo as int);
    law_word_reads(d, 12, net as int);
    lemma_field(d, 16, map, 260);
    lemma_field(d, 276, game, 260);
    law_word_reads(d, 540, dir as int);
}

/// An entry of the directory: a number, a title, flags and a track of music, and then how
/// long it plays, in how many frames, where it starts and how long it is.
pub struct Segment {
    pub number: i32,
    pub title: Seq<u8>,
    pub flags: i32,
    pub track: i32,
    pub time: u32,
    pub frames: i32,
    pub offset: i32,
    pub length: i32,
}

pub open spec fn segment_bytes(s: Segment) -> Seq<u8> {
    le32(s.number as int) + (s.title + (le32(s.flags as int) + (le32(s.track as int) + (le32(
        s.time as int,
    ) + (le32(s.frames as int) + (le32(s.offset as int) + le32(s.length as int)))))))
}

/// An entry that was written: the segment of most frames is the one that is played, with
/// its own time and place.
pub proof fn law_segment_round_trip(d: Seq<u8>, e: int, s: Segment, p: Playback)
    requires
        s.title.len() == 64,
        lies(d, e, segment_bytes(s)),
        s.offset > 0,
        s.length > 0,
        s.offset + s.length <= d.len(),
    ensures
        segment_bytes(s).len() == 92,
        take_entry(d, e, p) == if s.frames > p.frame_count {
            Playback {
                frame_count: s.frames,
                duration: s.time,
                play_offset: s.offset as usize,
                play_length: s.length as usize,
            }
        } else {
            p
        },
{
    let t6 = le32(s.offset as int) + le32(s.length as int);
    let t5 = le32(s.frames as int) + t6;
    let t4 = le32(s.time as int) + t5;
    let t3 = le32(s.track as int) + t4;
    let t2 = le32(s.flags as int) + t3;
    lemma_lies(d, e, le32(s.number as int), s.title + t2);
    lemma_lies(d, e + 4, s.title, t2);
    lemma_lies(d, e + 68, le32(s.flags as int), t3);
    lemma_lies(d, e + 72, le32(s.track as int), t4);
    lemma_lies(d, e + 76, le32(s.time as int), t5);
    lemma_lies(d, e + 80, le32(s.frames as int), t6);
    lemma_lies(d, e + 84, le32(s.offset as int), le32(s.length as int));
    law_word_reads(d, e + 76, s.time as int);
    law_word_reads(d, e + 80, s.frames as int);
    law_word_reads(d, e + 84, s.offset as int);
    law_word_reads(d, e + 88, s.length as int);
}

/// What a frame holds. Before the messages of a packet stand the flags and the place and
/// the angles of the view, and a lot that is of no use.
pub enum Body {
    Packet(Seq<u8>, (u32, u32, u32), (u32, u32, u32), Seq<u8>, Seq<u8>),
    Start,
    Console(Seq<u8>),
    Client(Seq<u8>),
    End,
    Event(Seq<u8>),
    Animation(Seq<u8>),
    /// A channel, a sample and the rest of how it is played.
    Sound(i32, Seq<u8>, Seq<u8>),
    Data(Seq<u8>),
}

pub open spec fn kind_of(b: Body, first: bool) -> u8 {
    match b {
        Body::Packet(_, _, _, _, _) => if first {
            0
        } else {
            1
        },
        Body::Start => 2,
        Body::Console(_) => 3,
        Body::Client(_) => 4,
        Body::End => 5,
        Body::Event(_) => 6,
        Body::Animation(_) => 7,
        Body::Sound(_, _, _) => 8,
        Body::Data(_) => 9,
    }
}

pub open spec fn three(v: (u32, u32, u32)) -> Seq<u8> {
    le32(v.0 as int) + (le32(v.1 as int) + le32(v.2 as int))
}

pub open spec fn body_bytes(b: Body) -> Seq<u8> {
    match b {
        Body::Packet(flags, place, angles, more, p) => flags + (three(place) + (three(angles) + (more + (
        le32(p.len() as int) + p)))),
        Body::Console(s) => s,
        Body::Client(s) => s,
        Body::Event(s) => s,
        Body::Animation(s) => s,
        Body::Sound(channel, sample, more) => le32(channel as int) + (le32(sample.len() as int) + (
        sample + more)),
        Body::Data(s) => le32(s.len() as int) + s,
        _ => Seq::empty(),
    }
}

pub open spec fn body_fits(b: Body) -> bool {
    match b {
        Body::Packet(flags, _, _, more, p) => flags.len() == 4 && more.len() == 436 && p.len() <= 65536,
        Body::Console(s) => s.len() == 64,
        // Where the player is and looks, its weapons and its field of view.
        Body::Client(s) => s.len() == 12 + 12 + 4 + 4,
        // Flags, a number, a delay and the arguments.
        Body::Event(s) => s.len() == 4 + 4 + 4 + 64,
        Body::Animation(s) => s.len() == 4 + 4,
        Body::Sound(_, sample, more) => sample.len() <= 8192 && more.len() == 16,
        Body::Data(s) => s.len() <= 2_000_000,
        _ => true,
    }
}

/// A frame: its kind, its time, its number and what it holds.
pub open spec fn frame_bytes(b: Body, first: bool, time: u32, number: i32) -> Seq<u8> {
    seq![kind_of(b, first)] + (le32(time as int) + (le32(number as int) + body_bytes(b)))
}

proof fn lemma_frame(d: Seq<u8>, p: int, b: Body, first: bool, time: u32, number: i32)
    requires
        lies(d, p, frame_bytes(b, first, time, number)),
    ensures
        d[p] == kind_of(b, first),
        u32_at(d, p + 1) == time,
        lies(d, p + 9, body_bytes(b)),
        0 <= p,
        p + 9 + body_bytes(b).len() <= d.len(),
        frame_bytes(b, first, time, number).len() == 9 + body_bytes(b).len(),
{
    let t = le32(number as int) + body_bytes(b);
    lemma_lies(d, p, seq![kind_of(b, first)], le32(time as int) + t);
    lemma_lies_at(d, p, seq![kind_of(b, first)], 0);
    lemma_lies(d, p + 1, le32(time as int), t);
    lemma_lies(d, p + 5, le32(number as int), body_bytes(b));
    law_word_reads(d, p + 1, time as int);
}

proof fn lemma_three(d: Seq<u8>, o: int, v: (u32, u32, u32))
    requires
        lies(d, o, three(v)),
    ensures
        u32_at(d, o) == v.0,
        u32_at(d, o + 4) == v.1,
        u32_at(d, o + 8) == v.2,
{
    lemma_lies(d, o, le32(v.0 as int), le32(v.1 as int) + le32(v.2 as int));
    lemma_lies(d, o + 4, le32(v.1 as int), le32(v.2 as int));
    law_word_reads(d, o, v.0 as int);
    law_word_reads(d, o + 4, v.1 as int);
    law_word_reads(d, o + 8, v.2 as int);
}

/// A frame that was written is stepped over, to right behind it; the last one ends the
/// segment.
pub proof fn law_frame_is_stepped_over(d: Seq<u8>, p: int, b: Body, first: bool, time: u32, number: i32)
    requires
        body_fits(b),
        lies(d, p, frame_bytes(b, first, time, number)),
    ensures
        frame_step(d, p) == if b is End {
            FrameStep::End
        } else {
            FrameStep::Next(p + frame_bytes(b, first, time, number).len())
        },
{
    lemma_frame(d, p, b, first, time, number);
    let o = p + 9;
    match b {
        Body::Packet(flags, place, angles, more, m) => {
            lemma_packet(d, o, flags, place, angles, more, m);
        },
        Body::Sound(channel, sample, more) => {
            let t = le32(sample.len() as int) + (sample + more);
            lemma_lies(d, o, le32(channel as int), t);
            lemma_lies(d, o + 4, le32(sample.len() as int), sample + more);
            law_word_reads(d, o + 4, sample.len() as int);
        },
        Body::Data(s) => {
            lemma_lies(d, o, le32(s.len() as int), s);
            law_word_reads(d, o, s.len() as int);
        },
        _ => {},
    }
}

proof fn lemma_packet(
    d: Seq<u8>,
    o: int,
    flags: Seq<u8>,
    place: (u32, u32, u32),
    angles: (u32, u32, u32),
    more: Seq<u8>,
    m: Seq<u8>,
)
    requires
        body_fits(Body::Packet(flags, place, angles, more, m)),
        lies(d, o, body_bytes(Body::Packet(flags, place, angles, more, m))),
    ensures
        u32_at(d, o + 4) == place.0,
        u32_at(d, o + 8) == place.1,
        u32_at(d, o + 12) == place.2,
        u32_at(d, o + 16) == angles.0,
        u32_at(d, o + 20) == angles.1,
        i32_at(d, o + 464) == m.len(),
        lies(d, o + 468, m),
{
    let t4 = le32(m.len() as int) + m;
    let t3 = more + t4;
    let t2 = three(angles) + t3;
    lemma_lies(d, o, flags, three(place) + t2);
    lemma_lies(d, o + 4, three(place), t2);
    lemma_lies(d, o + 16, three(angles), t3);
    lemma_lies(d, o + 28, more, t4);
    lemma_lies(d, o + 464, le32(m.len() as int), m);
    lemma_three(d, o + 4, place);
    lemma_three(d, o + 16, angles);
    law_word_reads(d, o + 464, m.len() as int);
}

/// A packet that was written gives a sample of the camera: its time, its place and its
/// pitch and yaw.
pub proof fn law_packet_is_sampled(
    d: Seq<u8>,
    p: int,
    first: bool,
    time: u32,
    number: i32,
    flags: Seq<u8>,
    place: (u32, u32, u32),
    angles: (u32, u32, u32),
    more: Seq<u8>,
    m: Seq<u8>,
)
    requires
        body_fits(Body::Packet(flags, place, angles, more, m)),
        lies(d, p, frame_bytes(Body::Packet(flags, place, angles, more, m), first, time, number)),
    ensures
        sample_at(d, p) == (time, place.0, place.1, place.2, angles.0, angles.1),
{
    let b = Body::Packet(flags, place, angles, more, m);
    lemma_frame(d, p, b, first, time, number);
    lemma_packet(d, p + 9, flags, place, angles, more, m);
}

proof fn lemma_past_text(d: Seq<u8>, o: int, s: Seq<u8>)
    requires
        no_zero(s),
        lies(d, o, s.push(0)),
    ensures
        past_cstr(d, o) == Some(o + s.len() + 1),
        d.subrange(o, zero_from(d, o)) == s,
{
    law_zero_is_found(d, o, s);
    assert(s.push(0) =~= s + seq![0u8]);
    lemma_lies(d, o, s, seq![0u8]);
}

/// The greeting of a server: the protocol, a count, the sum of the map's bytes, one of the
/// game's code, how many players there can be, which one the client is and the kind of the
/// game; then four texts.
#[verifier::rlimit(50)]
pub proof fn law_greeting_round_trip(
    d: Seq<u8>,
    p: int,
    before: Seq<u8>,
    most: u8,
    slot: u8,
    kind: u8,
    dir: Seq<u8>,
    host: Seq<u8>,
    map: Seq<u8>,
    cycle: Seq<u8>,
    last: u8,
    st: Net,
)
    requires
        // Three numbers of four bytes and a sum of sixteen.
        before.len() == 4 + 4 + 4 + 16,
        no_zero(dir),
        no_zero(host),
        no_zero(map),
        no_zero(cycle),
        lies(
            d,
            p,
            before + (seq![most, slot, kind] + (dir.push(0) + (host.push(0) + (map.push(0) + (
            cycle.push(0) + seq![last]))))),
        ),
    ensures
        server_message(d, p, st) == (
            Some(
                p + 31 + dir.len() + 1 + host.len() + 1 + map.len() + 1 + cycle.len() + 1 + 1,
            ),
            Net { max_client: most, ..st },
        ),
{
    let t4 = cycle.push(0) + seq![last];
    let t3 = map.push(0) + t4;
    let t2 = host.push(0) + t3;
    let t1 = dir.push(0) + t2;
    let three = seq![most, slot, kind];
    lemma_lies(d, p, before, three + t1);
    lemma_lies(d, p + 28, three, t1);
    lemma_lies_at(d, p + 28, three, 0);
    let a = p + 31;
    lemma_lies(d, a, dir.push(0), t2);
    lemma_past_text(d, a, dir);
    let b = a + dir.len() + 1;
    lemma_lies(d, b, host.push(0), t3);
    lemma_past_text(d, b, host);
    let c = b + host.len() + 1;
    lemma_lies(d, c, map.push(0), t4);
    lemma_past_text(d, c, map);
    let e = c + map.len() + 1;
    lemma_lies(d, e, cycle.push(0), seq![last]);
    lemma_past_text(d, e, cycle);
    reveal_with_fuel(past_cstrs, 5);
}

/// A message about a player: its slot, a number, its keys and values and a hash. The
/// entity of a player is the slot's, one more.
pub proof fn law_user_round_trip(d: Seq<u8>, p: int, slot: u8, number: i32, info: Seq<u8>, hash: Seq<u8>, st: Net)
    requires
        no_zero(info),
        hash.len() == 16,
        lies(d, p, seq![slot] + (le32(number as int) + (info.push(0) + hash))),
    ensures
        user_message(d, p, st) == (
            Some(p + 1 + 4 + info.len() + 1 + 16),
            match info_of(lossy_chars(info), "name"@, false) {
                Some(name) => if name.len() > 0 {
                    Net { names: st.names.insert((slot + 1) as u32, name), ..st }
                } else {
                    st
                },
                None => st,
            },
        ),
{
    let t = info.push(0) + hash;
    lemma_lies(d, p, seq![slot], le32(number as int) + t);
    lemma_lies_at(d, p, seq![slot], 0);
    lemma_lies(d, p + 1, le32(number as int), t);
    lemma_lies(d, p + 5, info.push(0), hash);
    lemma_past_text(d, p + 5, info);
}

} // verus!
