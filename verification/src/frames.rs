//! Demos of Source as they are written: the header, and frames one after another.
use crate::bytes::{cstr_at, i32_at, u32_at, until_zero};
use crate::constants::HEADER_SIZE;
use crate::dump::{visit_at, Held, Layout};
use crate::header::{usercmd_of, DemoHeader};
use crate::packets::{block_end, head_len, info_of, packet_at, packets_from, userinfo_in,
    userinfo_step, DemoPacketInfo, PacketStep};
use crate::session::{recorded_at, typed, with_input, with_typed, Container, Recorded};
use crate::source::player_tracks::payloads::{csgo_packet, game_packet, Reading};
use crate::source::player_tracks::{after_strings, finite, walked, Journey, Step};
use crate::text::lossy_chars;
use crate::written::{law_word_reads, law_zero_is_found, le32, lemma_lies, lemma_lies_at, lies,
    no_zero};
use vstd::prelude::*;

verus! {

/// A text in a field of 260 bytes.
pub open spec fn field260(s: Seq<u8>) -> Seq<u8> {
    s + Seq::new((260 - s.len()) as nat, |i: int| 0u8)
}

/// What a header says.
pub struct Head {
    pub magic: Seq<u8>,
    pub demo_protocol: i32,
    pub net_protocol: i32,
    pub server: Seq<u8>,
    pub client: Seq<u8>,
    pub map: Seq<u8>,
    pub game: Seq<u8>,
    pub playback_time: u32,
    pub ticks: i32,
    pub frames: i32,
    pub sign_on_length: i32,
}

/// A header as it is written.
pub open spec fn head_bytes(h: Head) -> Seq<u8> {
    h.magic + (le32(h.demo_protocol as int) + (le32(h.net_protocol as int) + (field260(h.server) + (
    field260(h.client) + (field260(h.map) + (field260(h.game) + (le32(h.playback_time as int) + (le32(
        h.ticks as int,
    ) + (le32(h.frames as int) + le32(h.sign_on_length as int))))))))))
}

pub open spec fn text260(s: Seq<u8>) -> bool {
    s.len() < 260 && no_zero(s)
}

proof fn lemma_text260(d: Seq<u8>, o: int, s: Seq<u8>)
    requires
        text260(s),
        lies(d, o, field260(s)),
    ensures
        cstr_at(d, o, 260) == s,
{
    let w = d.subrange(o, o + 260);
    let z = Seq::new((260 - s.len() - 1) as nat, |i: int| 0u8);
    assert(field260(s) =~= s.push(0) + z);
    lemma_lies(w, 0, s.push(0), z);
    assert(w.subrange(0, 260) =~= w);
    law_zero_is_found(w, 0, s);
    assert(w.take(s.len() as int) =~= s) by {
        assert forall|i: int| 0 <= i < s.len() implies w[i] == s[i] by {
            assert(field260(s)[i] == s[i]);
        }
    }
}

/// A header that was written is read back, each field as it was meant.
#[verifier::rlimit(50)]
pub proof fn law_header_round_trip(h: DemoHeader, x: Head, d: Seq<u8>)
    requires
        h.is_of(d),
        x.magic.len() == 8,
        text260(x.server),
        text260(x.client),
        text260(x.map),
        text260(x.game),
        lies(d, 0, head_bytes(x)),
    ensures
        head_bytes(x).len() == HEADER_SIZE,
        h.demo_protocol == x.demo_protocol,
        h.net_protocol == x.net_protocol,
        h.server_name@ == lossy_chars(x.server),
        h.client_name@ == lossy_chars(x.client),
        h.map_name@ == lossy_chars(x.map),
        h.game_dir@ == lossy_chars(x.game),
        h.playback_time == x.playback_time,
        h.ticks == x.ticks,
        h.frames == x.frames,
        h.sign_on_length == x.sign_on_length,
{
    let t9 = le32(x.sign_on_length as int);
    let t8 = le32(x.frames as int) + t9;
    let t7 = le32(x.ticks as int) + t8;
    let t6 = le32(x.playback_time as int) + t7;
    let t5 = field260(x.game) + t6;
    let t4 = field260(x.map) + t5;
    let t3 = field260(x.client) + t4;
    let t2 = field260(x.server) + t3;
    let t1 = le32(x.net_protocol as int) + t2;
    let t0 = le32(x.demo_protocol as int) + t1;
    lemma_lies(d, 0, x.magic, t0);
    lemma_lies(d, 8, le32(x.demo_protocol as int), t1);
    law_word_reads(d, 8, x.demo_protocol as int);
    lemma_lies(d, 12, le32(x.net_protocol as int), t2);
    law_word_reads(d, 12, x.net_protocol as int);
    lemma_lies(d, 16, field260(x.server), t3);
    lemma_text260(d, 16, x.server);
    lemma_lies(d, 276, field260(x.client), t4);
    lemma_text260(d, 276, x.client);
    lemma_lies(d, 536, field260(x.map), t5);
    lemma_text260(d, 536, x.map);
    lemma_lies(d, 796, field260(x.game), t6);
    lemma_text260(d, 796, x.game);
    lemma_lies(d, 1056, le32(x.playback_time as int), t7);
    law_word_reads(d, 1056, x.playback_time as int);
    lemma_lies(d, 1060, le32(x.ticks as int), t8);
    law_word_reads(d, 1060, x.ticks as int);
    lemma_lies(d, 1064, le32(x.frames as int), t9);
    law_word_reads(d, 1064, x.frames as int);
    law_word_reads(d, 1068, x.sign_on_length as int);
}

/// The camera before a packet: flags, where it stands, where it looks, and the rest.
pub struct Camera {
    pub flags: i32,
    pub x: u32,
    pub y: u32,
    pub z: u32,
    pub pitch: u32,
    pub yaw: u32,
    pub rest: Seq<u8>,
}

/// What a frame holds.
pub enum What {
    /// A packet: the camera, two sequence numbers and the messages; before the game
    /// starts or in it.
    Packet(bool, Camera, i32, i32, Seq<u8>),
    Sync,
    Console(Seq<u8>),
    /// A number and an input.
    Input(i32, Seq<u8>),
    Tables(Seq<u8>),
    Stop,
    /// A number and data; not in the oldest demos.
    Custom(i32, Seq<u8>),
    Strings(Seq<u8>),
}

/// A frame: its tick, the player of the screen and what it holds.
pub struct Frame {
    pub tick: i32,
    pub slot: u8,
    pub what: What,
}

/// The number of a frame. Data got a number of its own, and strings another.
pub open spec fn number(new: bool, w: What) -> u8 {
    match w {
        What::Packet(start, _, _, _, _) => if start {
            1
        } else {
            2
        },
        What::Sync => 3,
        What::Console(_) => 4,
        What::Input(_, _) => 5,
        What::Tables(_) => 6,
        What::Stop => 7,
        What::Custom(_, _) => 8,
        What::Strings(_) => if new {
            9
        } else {
            8
        },
    }
}

/// Bytes behind their count.
pub open spec fn counted(b: Seq<u8>) -> Seq<u8> {
    le32(b.len() as int) + b
}

pub open spec fn camera_bytes(c: Camera) -> Seq<u8> {
    le32(c.flags as int) + (le32(c.x as int) + (le32(c.y as int) + (le32(c.z as int) + (le32(
        c.pitch as int,
    ) + (le32(c.yaw as int) + c.rest)))))
}

pub open spec fn body(w: What) -> Seq<u8> {
    match w {
        What::Packet(_, c, a, b, p) => camera_bytes(c) + (le32(a as int) + (le32(b as int) + counted(
            p,
        ))),
        What::Console(s) => counted(s),
        What::Input(n, p) => le32(n as int) + counted(p),
        What::Tables(p) => counted(p),
        What::Custom(n, p) => le32(n as int) + counted(p),
        What::Strings(p) => counted(p),
        _ => Seq::empty(),
    }
}

/// The head of a frame.
pub open spec fn start(new: bool, f: Frame) -> Seq<u8> {
    seq![number(new, f.what)] + (le32(f.tick as int) + (if new {
        seq![f.slot]
    } else {
        Seq::empty()
    }))
}

/// A frame as it is written.
pub open spec fn frame_bytes(new: bool, f: Frame) -> Seq<u8> {
    start(new, f) + body(f.what)
}

pub open spec fn payload(w: What) -> Seq<u8> {
    match w {
        What::Packet(_, _, _, _, p) => p,
        What::Console(p) => p,
        What::Input(_, p) => p,
        What::Tables(p) => p,
        What::Custom(_, p) => p,
        What::Strings(p) => p,
        _ => Seq::empty(),
    }
}

pub open spec fn frame_fits(new: bool, info: int, f: Frame) -> bool {
    &&& payload(f.what).len() < 0x8000_0000
    &&& f.what matches What::Packet(_, c, _, _, _) ==> 24 + c.rest.len() == info
    &&& f.what is Custom ==> new
}

proof fn lemma_start(new: bool, f: Frame, d: Seq<u8>, off: int)
    requires
        lies(d, off, frame_bytes(new, f)),
    ensures
        d[off] == number(new, f.what),
        i32_at(d, off + 1) == f.tick,
        lies(d, off + start(new, f).len(), body(f.what)),
        start(new, f).len() == if new {
            6nat
        } else {
            5
        },
        off >= 0,
        off + start(new, f).len() + body(f.what).len() <= d.len(),
{
    let (a, b) = (seq![number(new, f.what)], le32(f.tick as int));
    let c = if new {
        seq![f.slot]
    } else {
        Seq::empty()
    };
    lemma_lies(d, off, start(new, f), body(f.what));
    lemma_lies(d, off, a, b + c);
    lemma_lies_at(d, off, a, 0);
    lemma_lies(d, off + 1, b, c);
    law_word_reads(d, off + 1, f.tick as int);
}

proof fn lemma_counted(d: Seq<u8>, o: int, p: Seq<u8>)
    requires
        lies(d, o, counted(p)),
        p.len() < 0x8000_0000,
    ensures
        i32_at(d, o) == p.len(),
        d.subrange(o + 4, o + 4 + p.len()) == p,
        block_end(d, o, 0, 4) == Some(o + 4 + p.len()),
        o + 4 + p.len() <= d.len(),
        0 <= o,
{
    lemma_lies(d, o, le32(p.len() as int), p);
    law_word_reads(d, o, p.len() as int);
}

proof fn lemma_numbered(d: Seq<u8>, o: int, n: int, p: Seq<u8>)
    requires
        lies(d, o, le32(n) + counted(p)),
        -0x8000_0000 <= n < 0x8000_0000,
        p.len() < 0x8000_0000,
    ensures
        i32_at(d, o) == n,
        u32_at(d, o) == crate::written::twos(n, 0x1_0000_0000),
        i32_at(d, o + 4) == p.len(),
        d.subrange(o + 8, o + 8 + p.len()) == p,
        block_end(d, o, 4, 8) == Some(o + 8 + p.len()),
        o + 8 + p.len() <= d.len(),
        0 <= o,
{
    lemma_lies(d, o, le32(n), counted(p));
    law_word_reads(d, o, n);
    lemma_counted(d, o + 4, p);
}

#[verifier::rlimit(50)]
proof fn lemma_packet(d: Seq<u8>, o: int, c: Camera, a: i32, b: i32, p: Seq<u8>)
    requires
        lies(d, o, body(What::Packet(true, c, a, b, p))),
        p.len() < 0x8000_0000,
    ensures
        ({
            let info = 24 + c.rest.len() as int;
            &&& u32_at(d, o + 4) == c.x
            &&& u32_at(d, o + 8) == c.y
            &&& u32_at(d, o + 12) == c.z
            &&& u32_at(d, o + 16) == c.pitch
            &&& u32_at(d, o + 20) == c.yaw
            &&& i32_at(d, o + info) == a
            &&& i32_at(d, o + info + 4) == b
            &&& i32_at(d, o + info + 8) == p.len()
            &&& d.subrange(o + info + 12, o + info + 12 + p.len()) == p
            &&& block_end(d, o, info + 8, info + 12) == Some(o + info + 12 + p.len())
            &&& o + info + 12 + p.len() <= d.len()
            &&& 0 <= o
        }),
{
    let info = 24 + c.rest.len() as int;
    let t = le32(b as int) + counted(p);
    lemma_lies(d, o, camera_bytes(c), le32(a as int) + t);
    let k4 = le32(c.yaw as int) + c.rest;
    let k3 = le32(c.pitch as int) + k4;
    let k2 = le32(c.z as int) + k3;
    let k1 = le32(c.y as int) + k2;
    lemma_lies(d, o, le32(c.flags as int), le32(c.x as int) + k1);
    lemma_lies(d, o + 4, le32(c.x as int), k1);
    law_word_reads(d, o + 4, c.x as int);
    lemma_lies(d, o + 8, le32(c.y as int), k2);
    law_word_reads(d, o + 8, c.y as int);
    lemma_lies(d, o + 12, le32(c.z as int), k3);
    law_word_reads(d, o + 12, c.z as int);
    lemma_lies(d, o + 16, le32(c.pitch as int), k4);
    law_word_reads(d, o + 16, c.pitch as int);
    lemma_lies(d, o + 20, le32(c.yaw as int), c.rest);
    law_word_reads(d, o + 20, c.yaw as int);
    lemma_lies(d, o + info, le32(a as int), t);
    law_word_reads(d, o + info, a as int);
    lemma_lies(d, o + info + 4, le32(b as int), counted(p));
    law_word_reads(d, o + info + 4, b as int);
    lemma_counted(d, o + info + 8, p);
}

/// Where the messages of a frame stand: what the container tells of it.
pub open spec fn shown(new: bool, f: Frame, off: int) -> DemoPacketInfo {
    let o = off + start(new, f).len();
    let e = off + frame_bytes(new, f).len();
    let cmd = number(new, f.what);
    match f.what {
        What::Packet(_, _, _, _, p) => info_of(cmd, f.tick as int, e - p.len(), e),
        What::Console(_) => info_of(cmd, f.tick as int, e, e),
        _ => info_of(cmd, f.tick as int, o, o),
    }
}

/// A frame that was written is found: its number and tick, where the messages of a packet
/// start and end, and where the next frame stands.
pub proof fn law_frame_is_found(proto: i32, info: int, f: Frame, d: Seq<u8>, off: int)
    requires
        frame_fits(proto > 3, info, f),
        lies(d, off, frame_bytes(proto > 3, f)),
    ensures
        packet_at(d, proto, info, off) == if f.what is Stop {
            PacketStep::Last(shown(proto > 3, f, off))
        } else {
            PacketStep::Next(shown(proto > 3, f, off), off + frame_bytes(proto > 3, f).len())
        },
        f.what matches What::Packet(_, _, _, _, p) ==> d.subrange(
            off + frame_bytes(proto > 3, f).len() - p.len(),
            off + frame_bytes(proto > 3, f).len(),
        ) == p,
{
    let new = proto > 3;
    lemma_start(new, f, d, off);
    let o = off + start(new, f).len();
    match f.what {
        What::Packet(_, c, a, b, p) => lemma_packet(d, o, c, a, b, p),
        What::Console(p) => lemma_counted(d, o, p),
        What::Input(n, p) => lemma_numbered(d, o, n as int, p),
        What::Tables(p) => lemma_counted(d, o, p),
        What::Custom(n, p) => lemma_numbered(d, o, n as int, p),
        What::Strings(p) => lemma_counted(d, o, p),
        _ => {},
    }
}

/// Frames one after another.
pub open spec fn frames_bytes(new: bool, fs: Seq<Frame>) -> Seq<u8>
    decreases fs.len(),
{
    if fs.len() == 0 {
        Seq::empty()
    } else {
        frame_bytes(new, fs[0]) + frames_bytes(new, fs.drop_first())
    }
}

pub open spec fn all_shown(new: bool, fs: Seq<Frame>, off: int) -> Seq<DemoPacketInfo>
    decreases fs.len(),
{
    if fs.len() == 0 {
        Seq::empty()
    } else {
        seq![shown(new, fs[0], off)] + all_shown(
            new,
            fs.drop_first(),
            off + frame_bytes(new, fs[0]).len(),
        )
    }
}

/// The frames of a demo that ends with a stop are found one after another, each once.
pub proof fn law_frames_are_found(proto: i32, info: int, fs: Seq<Frame>, d: Seq<u8>, off: int)
    requires
        info >= 0,
        fs.len() > 0,
        fs.last().what is Stop,
        forall|i: int| 0 <= i < fs.len() ==> frame_fits(proto > 3, info, #[trigger] fs[i]),
        forall|i: int| 0 <= i < fs.len() - 1 ==> !((#[trigger] fs[i]).what is Stop),
        lies(d, off, frames_bytes(proto > 3, fs)),
    ensures
        packets_from(d, proto, info, off) == all_shown(proto > 3, fs, off),
    decreases fs.len(),
{
    let new = proto > 3;
    let a = frame_bytes(new, fs[0]);
    let t = fs.drop_first();
    lemma_lies(d, off, a, frames_bytes(new, t));
    law_frame_is_found(proto, info, fs[0], d, off);
    if fs.len() == 1 {
        assert(fs.last() == fs[0]);
        assert(all_shown(new, t, off + a.len()) =~= Seq::empty());
        assert(all_shown(new, fs, off) =~= seq![shown(new, fs[0], off)]);
    } else {
        assert(t.last() == fs.last());
        assert forall|i: int| 0 <= i < t.len() implies frame_fits(new, info, #[trigger] t[i]) by {
            assert(t[i] == fs[i + 1]);
        }
        assert forall|i: int| 0 <= i < t.len() - 1 implies !((#[trigger] t[i]).what is Stop) by {
            assert(t[i] == fs[i + 1]);
        }
        assert(!(fs[0].what is Stop));
        law_frames_are_found(proto, info, t, d, off + a.len());
    }
}

/// A number whose magnitude is zero: of the two zeros, either.
pub open spec fn nowhere(c: Camera) -> bool {
    (c.x == 0 || c.x == 0x8000_0000) && (c.y == 0 || c.y == 0x8000_0000) && (c.z == 0 || c.z
        == 0x8000_0000)
}

/// What a frame adds to the recording: a packet of the game the place of the camera,
/// unless it stands at the origin, a console frame what was typed, and an input itself.
pub open spec fn after_frame(f: Frame, r: Recorded) -> Recorded {
    match f.what {
        What::Packet(false, c, _, _, _) => if nowhere(c) {
            r
        } else {
            Recorded { positions: r.positions.push((f.tick, c.x, c.y, c.z)), ..r }
        },
        What::Console(s) => with_typed(r, f.tick, typed(s)),
        What::Input(_, p) => with_input(r, f.tick, usercmd_of(p)),
        _ => r,
    }
}

/// A frame that was written adds what it holds to the recording.
#[verifier::spinoff_prover]
#[verifier::rlimit(60)]
pub proof fn law_frame_is_recorded(proto: i32, c: Container, f: Frame, d: Seq<u8>, off: int, r: Recorded)
    requires
        frame_fits(proto > 3, c.info as int, f),
        c.head == head_len(proto),
        c.custom == (proto > 3),
        !(f.what is Stop),
        lies(d, off, frame_bytes(proto > 3, f)),
    ensures
        recorded_at(d, c, off, r) == (
            after_frame(f, r),
            Some(off + frame_bytes(proto > 3, f).len()),
        ),
{
    let new = proto > 3;
    lemma_start(new, f, d, off);
    let o = off + start(new, f).len();
    match f.what {
        What::Packet(_, c, a, b, p) => lemma_packet(d, o, c, a, b, p),
        What::Console(p) => lemma_counted(d, o, p),
        What::Input(n, p) => lemma_numbered(d, o, n as int, p),
        What::Tables(p) => lemma_counted(d, o, p),
        What::Custom(n, p) => lemma_numbered(d, o, n as int, p),
        What::Strings(p) => lemma_counted(d, o, p),
        _ => {},
    }
}

/// The names of players come from the frames of strings and from no others.
pub proof fn law_names_are_in_strings(proto: i32, info: int, f: Frame, d: Seq<u8>, off: int)
    requires
        frame_fits(proto > 3, info, f),
        !(f.what is Stop),
        lies(d, off, frame_bytes(proto > 3, f)),
    ensures
        userinfo_step(d, proto, info, off) == Some(
            (
                match f.what {
                    What::Strings(p) => userinfo_in(p),
                    _ => Seq::empty(),
                },
                off + frame_bytes(proto > 3, f).len(),
            ),
        ),
{
    let new = proto > 3;
    lemma_start(new, f, d, off);
    let o = off + start(new, f).len();
    match f.what {
        What::Packet(_, c, a, b, p) => lemma_packet(d, o, c, a, b, p),
        What::Console(p) => lemma_counted(d, o, p),
        What::Input(n, p) => lemma_numbered(d, o, n as int, p),
        What::Tables(p) => lemma_counted(d, o, p),
        What::Custom(n, p) => lemma_numbered(d, o, n as int, p),
        What::Strings(p) => lemma_counted(d, o, p),
        _ => {},
    }
}

/// What a listing tells of a frame.
pub open spec fn held(l: Layout, f: Frame) -> Held {
    match f.what {
        What::Packet(_, _, a, b, p) => Held::Packet(a, b, p.len() as i32),
        What::Sync => Held::Sync,
        What::Console(s) => Held::Console(lossy_chars(until_zero(s))),
        What::Input(n, p) => Held::Input(
            n,
            match usercmd_of(p).command_number {
                Some(k) => k,
                None => crate::written::twos(n as int, 0x1_0000_0000) as u32,
            },
            if l.net <= 7 {
                None
            } else {
                Some(usercmd_of(p))
            },
        ),
        What::Tables(p) => Held::Tables(p.len() as i32),
        What::Stop => Held::Stop,
        What::Custom(_, p) => Held::Custom(p.len() as i32),
        What::Strings(p) => Held::Strings(p.len() as i32),
    }
}

/// A frame that was written is listed.
pub proof fn law_frame_is_listed(l: Layout, f: Frame, d: Seq<u8>, off: int)
    requires
        frame_fits(l.proto > 3, l.info, f),
        lies(d, off, frame_bytes(l.proto > 3, f)),
    ensures
        visit_at(d, l, off) == (
            held(l, f),
            if f.what is Stop {
                None
            } else {
                Some(off + frame_bytes(l.proto > 3, f).len())
            },
        ),
{
    let new = l.proto > 3;
    lemma_start(new, f, d, off);
    let o = off + start(new, f).len();
    match f.what {
        What::Packet(_, c, a, b, p) => lemma_packet(d, o, c, a, b, p),
        What::Console(p) => lemma_counted(d, o, p),
        What::Input(n, p) => lemma_numbered(d, o, n as int, p),
        What::Tables(p) => lemma_counted(d, o, p),
        What::Custom(n, p) => lemma_numbered(d, o, n as int, p),
        What::Strings(p) => lemma_counted(d, o, p),
        _ => {},
    }
}

/// What a frame adds to what is known of the players: a packet its messages, and one of
/// the game the view of the camera where it is finite, and strings the players that they
/// name. Tables are handed over.
pub open spec fn after_walk(f: Frame, j: Journey, end: int) -> Journey {
    match f.what {
        What::Packet(start, c, _, _, p) => {
            let seen = Journey {
                off: end,
                angles: if !start && finite(c.pitch) && finite(c.yaw) {
                    j.angles.push((f.tick, c.pitch, c.yaw))
                } else {
                    j.angles
                },
                ..j
            };
            if j.csgo {
                let (s, strings) = csgo_packet(
                    p,
                    j.scene,
                    j.strings,
                    f.tick,
                    j.live,
                    j.tables,
                    j.class_bits,
                );
                Journey { scene: s, strings, ..seen }
            } else {
                Journey {
                    scene: game_packet(
                        p,
                        j.scene,
                        Reading {
                            tick: f.tick,
                            engine: j.engine,
                            live: j.live,
                            tables: j.tables,
                            class_bits: j.class_bits,
                            userinfo: j.userinfo,
                        },
                    ),
                    ..seen
                }
            }
        },
        What::Strings(p) => Journey { off: end, ..after_strings(j, p) },
        _ => Journey { off: end, ..j },
    }
}

/// A frame that was written is walked over.
#[verifier::spinoff_prover]
#[verifier::rlimit(60)]
pub proof fn law_frame_is_walked(f: Frame, j: Journey, d: Seq<u8>)
    requires
        frame_fits(j.engine.newer, j.info, f),
        !(f.what is Stop),
        d.len() <= usize::MAX,
        lies(d, j.off, frame_bytes(j.engine.newer, f)),
    ensures
        ({
            let end = j.off + frame_bytes(j.engine.newer, f).len();
            walked(d, j) == (
                after_walk(f, j, end),
                match f.what {
                    What::Tables(p) => Step::Tables((end - p.len()) as usize, end as usize),
                    _ => Step::More,
                },
            )
        }),
{
    let new = j.engine.newer;
    lemma_start(new, f, d, j.off);
    let o = j.off + start(new, f).len();
    match f.what {
        What::Packet(_, c, a, b, p) => lemma_packet(d, o, c, a, b, p),
        What::Console(p) => lemma_counted(d, o, p),
        What::Input(n, p) => lemma_numbered(d, o, n as int, p),
        What::Tables(p) => lemma_counted(d, o, p),
        What::Custom(n, p) => lemma_numbered(d, o, n as int, p),
        What::Strings(p) => lemma_counted(d, o, p),
        _ => {},
    }
}

} // verus!
