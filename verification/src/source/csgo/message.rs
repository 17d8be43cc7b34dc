//! Framing of the messages in a packet payload: id, size, body.
use crate::protobuf::reader::{lemma_continued, len_bytes, varint};
use crate::protobuf::wire::{
    encoded, law_varint_round_trip, lemma_shift_varint, lemma_varint_extends,
};
use crate::protobuf::{Error, Reader};
use vstd::prelude::*;

verus! {

#[derive(Debug, Clone, Copy, PartialEq, Eq, Structural)]
pub enum MsgKind {
    NetNop,
    NetDisconnect,
    NetTick,
    NetStringCmd,
    NetSignonState,
    SvcServerInfo,
    SvcSendTable,
    SvcClassInfo,
    SvcCreateStringTable,
    SvcUpdateStringTable,
    SvcPacketEntities,
    SvcGameEvent,
    SvcGameEventList,
    Other(u32),
}

impl MsgKind {
    /// The number that a message of this kind goes by.
    pub open spec fn id(self) -> u32 {
        match self {
            MsgKind::NetNop => 0,
            MsgKind::NetDisconnect => 1,
            MsgKind::NetTick => 4,
            MsgKind::NetStringCmd => 5,
            MsgKind::NetSignonState => 7,
            MsgKind::SvcServerInfo => 8,
            MsgKind::SvcSendTable => 9,
            MsgKind::SvcClassInfo => 10,
            MsgKind::SvcCreateStringTable => 12,
            MsgKind::SvcUpdateStringTable => 13,
            MsgKind::SvcGameEvent => 25,
            MsgKind::SvcPacketEntities => 26,
            MsgKind::SvcGameEventList => 30,
            MsgKind::Other(n) => n,
        }
    }

    /// Whether a number has a kind of its own.
    pub open spec fn named(id: u32) -> bool {
        ||| id <= 1
        ||| 4 <= id <= 5
        ||| 7 <= id <= 10
        ||| 12 <= id <= 13
        ||| 25 <= id <= 26
        ||| id == 30
    }

    /// The kind of a message by its number.
    pub fn from_id(id: u32) -> (k: MsgKind)
        ensures
            k.id() == id,
            k is Other <==> !Self::named(id),
    {
        match id {
            0 => MsgKind::NetNop,
            1 => MsgKind::NetDisconnect,
            4 => MsgKind::NetTick,
            5 => MsgKind::NetStringCmd,
            7 => MsgKind::NetSignonState,
            8 => MsgKind::SvcServerInfo,
            9 => MsgKind::SvcSendTable,
            10 => MsgKind::SvcClassInfo,
            12 => MsgKind::SvcCreateStringTable,
            13 => MsgKind::SvcUpdateStringTable,
            25 => MsgKind::SvcGameEvent,
            26 => MsgKind::SvcPacketEntities,
            30 => MsgKind::SvcGameEventList,
            other => MsgKind::Other(other),
        }
    }

    pub open spec fn label(self) -> Seq<char> {
        match self {
            MsgKind::NetNop => "net_NOP"@,
            MsgKind::NetDisconnect => "net_Disconnect"@,
            MsgKind::NetTick => "net_Tick"@,
            MsgKind::NetStringCmd => "net_StringCmd"@,
            MsgKind::NetSignonState => "net_SignonState"@,
            MsgKind::SvcServerInfo => "svc_ServerInfo"@,
            MsgKind::SvcSendTable => "svc_SendTable"@,
            MsgKind::SvcClassInfo => "svc_ClassInfo"@,
            MsgKind::SvcCreateStringTable => "svc_CreateStringTable"@,
            MsgKind::SvcUpdateStringTable => "svc_UpdateStringTable"@,
            MsgKind::SvcGameEvent => "svc_GameEvent"@,
            MsgKind::SvcPacketEntities => "svc_PacketEntities"@,
            MsgKind::SvcGameEventList => "svc_GameEventList"@,
            MsgKind::Other(_) => "other"@,
        }
    }

    /// What a kind of message is called.
    pub fn name(self) -> (s: &'static str)
        ensures
            s@ == self.label(),
    {
        match self {
            MsgKind::NetNop => "net_NOP",
            MsgKind::NetDisconnect => "net_Disconnect",
            MsgKind::NetTick => "net_Tick",
            MsgKind::NetStringCmd => "net_StringCmd",
            MsgKind::NetSignonState => "net_SignonState",
            MsgKind::SvcServerInfo => "svc_ServerInfo",
            MsgKind::SvcSendTable => "svc_SendTable",
            MsgKind::SvcClassInfo => "svc_ClassInfo",
            MsgKind::SvcCreateStringTable => "svc_CreateStringTable",
            MsgKind::SvcUpdateStringTable => "svc_UpdateStringTable",
            MsgKind::SvcGameEvent => "svc_GameEvent",
            MsgKind::SvcPacketEntities => "svc_PacketEntities",
            MsgKind::SvcGameEventList => "svc_GameEventList",
            MsgKind::Other(_) => "other",
        }
    }
}

#[derive(Debug, Clone, Copy)]
pub struct NetMessage<'a> {
    pub id: u32,
    pub kind: MsgKind,
    pub body: &'a [u8],
}

/// One framed message: its number and its body.
pub struct Frame {
    pub id: u32,
    pub body: Seq<u8>,
}

impl<'a> NetMessage<'a> {
    pub open spec fn view(&self) -> Frame {
        Frame { id: self.id, body: self.body@ }
    }

    /// The kind is the one that the number stands for.
    pub open spec fn wf(&self) -> bool {
        self.kind.id() == self.id && (self.kind is Other <==> !MsgKind::named(self.id))
    }
}

/// The complete frame at `pos`, if there is one, and where it ends.
pub open spec fn frame_at(d: Seq<u8>, pos: int) -> Option<(Frame, int)> {
    if pos < 0 || pos >= d.len() {
        None
    } else {
        match varint(d, pos) {
            (Ok(id), p) => match len_bytes(d, p) {
                (Ok(body), q) => Some((Frame { id: (id % 0x1_0000_0000) as u32, body }, q)),
                _ => None,
            },
            _ => None,
        }
    }
}

/// The complete frames from `pos` on.
pub open spec fn frames_from(d: Seq<u8>, pos: int) -> Seq<Frame>
    decreases d.len() - pos,
    via frames_from_decreases
{
    match frame_at(d, pos) {
        Some((f, p)) => seq![f] + frames_from(d, p),
        None => Seq::empty(),
    }
}

#[via_fn]
proof fn frames_from_decreases(d: Seq<u8>, pos: int) {
    if frame_at(d, pos) is Some {
        lemma_frame_progress(d, pos);
    }
}

/// A frame takes at least two bytes and stays within the payload.
pub proof fn lemma_frame_progress(d: Seq<u8>, pos: int)
    requires
        frame_at(d, pos) is Some,
    ensures
        pos + 2 <= (frame_at(d, pos)->0).1 <= d.len(),
{
    lemma_continued(d, pos);
    lemma_continued(d, varint(d, pos).1);
}

/// Reads the complete messages of a packet.
pub fn scan_payload<'a>(payload: &'a [u8]) -> (out: Vec<NetMessage<'a>>)
    ensures
        out@.map_values(|m: NetMessage<'a>| m@) == frames_from(payload@, 0),
        forall|i: int| 0 <= i < out@.len() ==> (#[trigger] out@[i]).wf(),
{
    let ghost d = payload@;
    let ghost view = |m: NetMessage<'a>| m@;
    let mut reader = Reader::new(payload);
    let mut out: Vec<NetMessage<'a>> = Vec::new();
    assert(out@.map_values(view) + frames_from(d, 0) =~= frames_from(d, 0));
    loop
        invariant
            reader.wf(),
            reader.bytes() == d,
            d == payload@,
            view == |m: NetMessage<'a>| m@,
            0 <= reader.pos(),
            frames_from(d, 0) == out@.map_values(view) + frames_from(d, reader.pos()),
            forall|i: int| 0 <= i < out@.len() ==> (#[trigger] out@[i]).wf(),
        decreases d.len() - reader.pos(),
    {
        let ghost pos = reader.pos();
        let ghost done = out@.map_values(view);
        assert(done + Seq::empty() =~= done);
        if reader.is_empty() {
            return out;
        }
        let id: u32 = match reader.read_varint() {
            Ok(v) => (v % 0x1_0000_0000) as u32,
            Err(_) => {
                return out;
            },
        };
        let size: usize = match reader.read_varint() {
            Ok(v) => v as usize,
            Err(_) => {
                return out;
            },
        };
        let body = match reader.read_bytes(size) {
            Ok(b) => b,
            Err(_) => {
                return out;
            },
        };
        let m = NetMessage { id, kind: MsgKind::from_id(id), body };
        proof {
            assert(frame_at(d, pos) == Some((m@, reader.pos())));
            lemma_frame_progress(d, pos);
            let rest = frames_from(d, reader.pos());
            assert(done + (seq![m@] + rest) =~= done.push(m@) + rest);
            assert(out@.push(m).map_values(view) =~= done.push(m@));
        }
        out.push(m);
    }
}

proof fn lemma_frame_extends(a: Seq<u8>, b: Seq<u8>, pos: int)
    requires
        frame_at(a, pos) is Some,
    ensures
        frame_at(a + b, pos) == frame_at(a, pos),
{
    lemma_varint_extends(a, b, pos);
    let p = varint(a, pos).1;
    lemma_varint_extends(a, b, p);
    let q = varint(a, p).1;
    let n = (varint(a, p).0->Ok_0) as usize;
    assert((a + b).subrange(q, q + n) =~= a.subrange(q, q + n));
}

/// Where the frames from `pos` on end.
pub open spec fn frames_end(d: Seq<u8>, pos: int) -> int
    decreases d.len() - pos,
    via frames_end_decreases
{
    match frame_at(d, pos) {
        Some((_, p)) => frames_end(d, p),
        None => pos,
    }
}

#[via_fn]
proof fn frames_end_decreases(d: Seq<u8>, pos: int) {
    if frame_at(d, pos) is Some {
        lemma_frame_progress(d, pos);
    }
}

proof fn lemma_shift_frames(a: Seq<u8>, b: Seq<u8>, pos: int)
    requires
        0 <= pos <= b.len(),
    ensures
        frames_from(a + b, a.len() + pos) == frames_from(b, pos),
    decreases b.len() - pos,
{
    if pos < b.len() {
        lemma_shift_varint(a, b, pos);
        if varint(b, pos).0 is Ok {
            lemma_continued(b, pos);
            let p = varint(b, pos).1;
            lemma_shift_varint(a, b, p);
            if varint(b, p).0 is Ok {
                lemma_continued(b, p);
                let q = varint(b, p).1;
                let n = (varint(b, p).0->Ok_0) as usize;
                if q + n <= b.len() {
                    assert((a + b).subrange(a.len() + q, a.len() + q + n) =~= b.subrange(q, q + n));
                    lemma_shift_frames(a, b, q + n);
                }
            }
        }
    }
}

/// Frames are read one after the other: where a payload is made of complete
/// frames, what follows it is framed as it would be alone.
pub proof fn law_frames_concatenate(a: Seq<u8>, b: Seq<u8>, pos: int)
    requires
        0 <= pos <= a.len(),
        frames_end(a, pos) == a.len(),
    ensures
        frames_from(a + b, pos) == frames_from(a, pos) + frames_from(b, 0),
    decreases a.len() - pos,
{
    match frame_at(a, pos) {
        Some((f, p)) => {
            lemma_frame_progress(a, pos);
            lemma_frame_extends(a, b, pos);
            law_frames_concatenate(a, b, p);
            assert(seq![f] + (frames_from(a, p) + frames_from(b, 0)) =~= (seq![f] + frames_from(
                a,
                p,
            )) + frames_from(b, 0));
        },
        None => {
            lemma_shift_frames(a, b, 0);
            assert(frames_from(a, pos) + frames_from(b, 0) =~= frames_from(b, 0));
        },
    }
}

/// A message as it is sent: its number, the length of its body, and the body.
pub open spec fn framed(f: Frame) -> Seq<u8> {
    encoded(f.id as nat) + encoded(f.body.len()) + f.body
}

/// A message that is sent is read back, whatever its number and whatever follows it.
pub proof fn law_frame_round_trip(f: Frame, rest: Seq<u8>)
    requires
        f.body.len() <= usize::MAX,
    ensures
        frames_from(framed(f) + rest, 0) == seq![f] + frames_from(rest, 0),
{
    let a = encoded(f.id as nat);
    let b = encoded(f.body.len());
    let tail = b + f.body + rest;
    let d = framed(f) + rest;
    assert(d =~= a + tail);
    law_varint_round_trip(f.id as u64, tail);
    let more = f.body + rest;
    assert(tail =~= b + more);
    law_varint_round_trip(f.body.len() as u64, more);
    lemma_continued(tail, 0);
    lemma_shift_varint(a, tail, 0);
    let p = a.len() as int;
    let q = p + b.len();
    let n = f.body.len() as int;
    assert(varint(d, 0) == (Ok::<u64, Error>(f.id as u64), p));
    assert(varint(d, p) == (Ok::<u64, Error>(f.body.len() as u64), q));
    assert(d.subrange(q, q + n) =~= f.body);
    assert(frame_at(d, 0) == Some((f, q + n)));
    assert(d =~= framed(f) + rest);
    lemma_shift_frames(framed(f), rest, 0);
}

} // verus!
