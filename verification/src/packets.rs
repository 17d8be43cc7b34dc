//! Walkers of the demo command stream.
use crate::bits::{bits_at, countable, get_bits, BitReader, Cursor};
use crate::bytes::{ahead, ahead_of, fits, i32_at, le_i32, until_zero};
use crate::constants::{HEADER_SIZE, SPLIT_SIZE};
use crate::text::{is_empty_text, lossy, lossy_chars, str_eq};
use std::collections::HashMap;
use vstd::arithmetic::power2::{lemma2_to64, pow2};
use vstd::prelude::*;

verus! {

/// One command of the stream and the bytes of its payload.
#[derive(Debug, Clone, Copy, PartialEq, Eq, Structural)]
pub struct DemoPacketInfo {
    pub cmd: u8,
    pub tick: i32,
    pub payload_start: usize,
    pub payload_end: usize,
}

/// Bytes of a command's head: number, tick and, from protocol 4 on, the slot.
pub open spec fn head_len(proto: i32) -> int {
    if proto > 3 {
        6
    } else {
        5
    }
}

/// Whether a packet length that reads well sits behind `n` slots' camera blocks.
pub open spec fn slots_fit(d: Seq<u8>, n: int) -> bool {
    let start = HEADER_SIZE + 6;
    let o = start + SPLIT_SIZE * n + 8;
    &&& o + 4 <= d.len()
    &&& 0 < i32_at(d, o) < d.len() - start
    &&& o + 4 + i32_at(d, o) < d.len()
}

/// The number of splitscreen slots in each camera block: fixed where the engine
/// is Portal 2's, else the first of 4 and 2 that fits the first packet, else 1.
pub open spec fn splitscreen(d: Seq<u8>, proto: i32, p2_engine: bool) -> int {
    if proto <= 3 {
        1
    } else if p2_engine {
        2
    } else if d.len() > HEADER_SIZE + 6 + 100 {
        if slots_fit(d, 4) {
            4
        } else if slots_fit(d, 2) {
            2
        } else {
            1
        }
    } else {
        1
    }
}

fn check_slots(d: &[u8], n: usize) -> (r: bool)
    requires
        n <= 4,
        d.len() > HEADER_SIZE + 6,
    ensures
        r == slots_fit(d@, n as int),
{
    let start: usize = HEADER_SIZE + 6;
    let o: usize = start + SPLIT_SIZE * n + 8;
    if o + 4 > d.len() {
        return false;
    }
    let length: i32 = le_i32(d, o);
    if length <= 0 {
        return false;
    }
    (length as usize) < d.len() - start && o + 4 + (length as usize) < d.len()
}

/// How many players the head of a packet is about.
pub fn detect_splitscreen(data: &[u8], demo_protocol: i32, p2_engine: bool) -> (r: usize)
    ensures
        r == splitscreen(data@, demo_protocol, p2_engine),
        1 <= r <= 4,
{
    if demo_protocol > 3 && p2_engine {
        return 2;
    }
    if demo_protocol > 3 && data.len() > HEADER_SIZE + 6 + 100 {
        if check_slots(data, 4) {
            return 4;
        }
        if check_slots(data, 2) {
            return 2;
        }
    }
    1
}

/// What the walker finds at an offset: the end of the stream, its last command,
/// or a command and where the next one starts.
pub enum PacketStep {
    Stop,
    Last(DemoPacketInfo),
    Next(DemoPacketInfo, int),
}

pub open spec fn info_of(cmd: u8, tick: int, start: int, end: int) -> DemoPacketInfo {
    DemoPacketInfo {
        cmd,
        tick: tick as i32,
        payload_start: ahead_of(start, 0) as usize,
        payload_end: ahead_of(end, 0) as usize,
    }
}

/// The end of a block whose length stands `at` bytes and whose data starts `head`
/// bytes behind `o`; none where the block does not lie within the data.
pub open spec fn block_end(d: Seq<u8>, o: int, at: int, head: int) -> Option<int> {
    if o + head > d.len() || i32_at(d, o + at) < 0 || o + head + i32_at(d, o + at) > d.len() {
        None
    } else {
        Some(o + head + i32_at(d, o + at))
    }
}

pub open spec fn packet_at(d: Seq<u8>, proto: i32, info: int, off: int) -> PacketStep {
    if off + 5 > d.len() {
        PacketStep::Stop
    } else {
        let cmd = d[off];
        let tick = i32_at(d, off + 1);
        let o = off + head_len(proto);
        let here = info_of(cmd, tick, o, o);
        if cmd == 3 {
            PacketStep::Next(here, o)
        } else if cmd == 7 {
            PacketStep::Last(here)
        } else if cmd == 1 || cmd == 2 {
            match block_end(d, o, info + 8, info + 12) {
                Some(e) => PacketStep::Next(info_of(cmd, tick, o + info + 12, e), e),
                None => PacketStep::Stop,
            }
        } else if cmd == 4 {
            match block_end(d, o, 0, 4) {
                Some(e) => PacketStep::Next(info_of(cmd, tick, e, e), e),
                None => PacketStep::Stop,
            }
        } else if cmd == 5 || (cmd == 8 && proto > 3) {
            match block_end(d, o, 4, 8) {
                Some(e) => PacketStep::Next(here, e),
                None => PacketStep::Stop,
            }
        } else if cmd == 6 || cmd == 8 || cmd == 9 {
            match block_end(d, o, 0, 4) {
                Some(e) => PacketStep::Next(here, e),
                None => PacketStep::Stop,
            }
        } else {
            PacketStep::Stop
        }
    }
}

/// The commands from `off` on.
pub open spec fn packets_from(d: Seq<u8>, proto: i32, info: int, off: int) -> Seq<DemoPacketInfo>
    decreases d.len() + 1 - off,
{
    if off < 0 || info < 0 {
        Seq::empty()
    } else {
        match packet_at(d, proto, info, off) {
            PacketStep::Stop => Seq::empty(),
            PacketStep::Last(p) => seq![p],
            PacketStep::Next(p, next) => seq![p] + packets_from(d, proto, info, next),
        }
    }
}

/// The commands of a demo.
pub open spec fn packets_of(d: Seq<u8>, proto: i32, p2_engine: bool) -> Seq<DemoPacketInfo> {
    packets_from(d, proto, SPLIT_SIZE * splitscreen(d, proto, p2_engine), HEADER_SIZE as int)
}

pub(crate) fn find_block(d: &[u8], o: usize, at: usize, head: usize) -> (r: Option<usize>)
    requires
        at + 4 <= head,
    ensures
        match (r, block_end(d@, o as int, at as int, head as int)) {
            (Some(e), Some(f)) => e == f,
            (None, None) => true,
            _ => false,
        },
{
    if !fits(d, o, head) {
        return None;
    }
    let length: i32 = le_i32(d, o + at);
    if length < 0 || (length as usize) > d.len() - (o + head) {
        return None;
    }
    Some(o + head + length as usize)
}

/// Walks the commands of a demo: each with its tick and the place of its payload.
#[verifier::spinoff_prover]
#[verifier::rlimit(60)]
pub fn iterate_demo_packets(data: &[u8], demo_protocol: i32, p2_engine: bool) -> (r: Vec<
    DemoPacketInfo,
>)
    ensures
        r@ == packets_of(data@, demo_protocol, p2_engine),
{
    let hdr: usize = if demo_protocol > 3 {
        6
    } else {
        5
    };
    let info: usize = SPLIT_SIZE * detect_splitscreen(data, demo_protocol, p2_engine);
    let ghost d = data@;
    let ghost all = packets_of(d, demo_protocol, p2_engine);
    let mut packets: Vec<DemoPacketInfo> = Vec::new();
    let mut offset: usize = HEADER_SIZE;
    assert(packets@ + packets_from(d, demo_protocol, info as int, offset as int) =~= all);
    while offset < data.len() && data.len() - offset >= 5
        invariant_except_break
            all == packets@ + packets_from(d, demo_protocol, info as int, offset as int),
        invariant
            d == data@,
            hdr == head_len(demo_protocol),
            info <= 4 * SPLIT_SIZE,
        ensures
            packets@ == all,
        decreases
                if offset < data.len() {
                    data.len() - offset
                } else {
                    0
                },
    {
        let cmd: u8 = data[offset];
        let tick: i32 = le_i32(data, offset + 1);
        let ghost done = packets@;
        let ghost step = packet_at(d, demo_protocol, info as int, offset as int);
        let o: usize = ahead(offset, hdr);
        let mut p = DemoPacketInfo { cmd, tick, payload_start: o, payload_end: o };
        let next: Option<usize> = match cmd {
            3 => Some(o),
            7 => {
                packets.push(p);
                assert(packets@ =~= done + seq![p]);
                break;
            },
            1 | 2 => {
                p.payload_start = ahead(o, info + 12);
                find_block(data, o, info + 8, info + 12)
            },
            4 => find_block(data, o, 0, 4),
            5 => find_block(data, o, 4, 8),
            8 => if demo_protocol > 3 {
                find_block(data, o, 4, 8)
            } else {
                find_block(data, o, 0, 4)
            },
            6 | 9 => find_block(data, o, 0, 4),
            _ => None,
        };
        match next {
            Some(n) => {
                if cmd == 1 || cmd == 2 {
                    p.payload_end = n;
                }
                if cmd == 4 {
                    p.payload_start = n;
                    p.payload_end = n;
                }
                packets.push(p);
                proof {
                    assert(step matches PacketStep::Next(q, m) && q == p && n == ahead_of(m, 0)
                        && packets_from(d, demo_protocol, info as int, m) == packets_from(
                        d,
                        demo_protocol,
                        info as int,
                        n as int,
                    ));
                    let rest = packets_from(d, demo_protocol, info as int, n as int);
                    assert(done + (seq![p] + rest) =~= packets@ + rest);
                }
                offset = n;
            },
            None => {
                assert(step is Stop);
                assert(done + Seq::empty() =~= done);
                break;
            },
        }
    }
    packets
}

/// Every payload of a walk lies behind `off`, ends no later than the next one
/// starts, is no longer than a signed number of 32 bits can say and, where it is not
/// empty, lies within the data.
pub proof fn law_payloads_in_order(d: Seq<u8>, proto: i32, info: int, off: int)
    requires
        d.len() <= usize::MAX,
        0 <= off,
        0 <= info,
    ensures
        forall|i: int|
            0 <= i < packets_from(d, proto, info, off).len() ==> {
                let p = #[trigger] packets_from(d, proto, info, off)[i];
                &&& off < p.payload_start <= p.payload_end
                &&& p.payload_start < p.payload_end ==> p.payload_end <= d.len()
                &&& p.payload_end - p.payload_start <= i32::MAX
            },
        forall|i: int, j: int|
            0 <= i < j < packets_from(d, proto, info, off).len() ==> (
            #[trigger] packets_from(d, proto, info, off)[i]).payload_end < (
            #[trigger] packets_from(d, proto, info, off)[j]).payload_start,
    decreases d.len() + 1 - off,
{
    match packet_at(d, proto, info, off) {
        PacketStep::Next(p, next) => {
            law_payloads_in_order(d, proto, info, next);
            let all = packets_from(d, proto, info, off);
            let rest = packets_from(d, proto, info, next);
            assert forall|i: int| 1 <= i < all.len() implies #[trigger] all[i] == rest[i - 1] by {}
            assert(p.payload_end <= next);
        },
        _ => {},
    }
}

/// A player named by the userinfo string table.
#[derive(Debug)]
pub struct UserinfoEntry {
    pub slot: usize,
    pub id: i32,
    pub name: String,
    pub is_fake: bool,
}

/// What a `UserinfoEntry` says.
pub struct Entry {
    pub slot: usize,
    pub id: i32,
    pub name: Seq<char>,
    pub is_fake: bool,
}

impl UserinfoEntry {
    pub open spec fn view(&self) -> Entry {
        Entry { slot: self.slot, id: self.id, name: self.name@, is_fake: self.is_fake }
    }
}

pub open spec fn views(v: Seq<UserinfoEntry>) -> Seq<Entry> {
    v.map_values(|e: UserinfoEntry| e@)
}

/// The entry that a player-info blob of 52 bytes or more gives: name at byte 16,
/// user id at byte 48, bot flag at byte 124.
pub open spec fn blob_entry(b: Seq<u8>, slot: int) -> Seq<Entry> {
    let name = lossy_chars(until_zero(b.subrange(16, 48)));
    let id = i32_at(b, 48);
    if name.len() > 0 && id > 0 {
        seq![
            Entry {
                slot: slot as usize,
                id: id as i32,
                name,
                is_fake: b.len() > 124 && b[124] != 0,
            },
        ]
    } else {
        Seq::empty()
    }
}

/// The entry of a slot that has a key and no blob to read.
pub open spec fn key_entry(key: Seq<char>, slot: int) -> Seq<Entry> {
    if key.len() > 0 {
        seq![Entry { slot: slot as usize, id: (slot + 1) as i32, name: key, is_fake: false }]
    } else {
        Seq::empty()
    }
}

/// One string of a table: its key and, where flagged, its data.
pub open spec fn string_at(c: Cursor, slot: int, userinfo: bool) -> Option<(Seq<Entry>, Cursor)> {
    match c.cstring(512) {
        None => None,
        Some((key, c)) => if !c.has(1) {
            None
        } else if c.val(1) != 1 {
            Some((if userinfo { key_entry(lossy_chars(key), slot) } else { Seq::empty() }, c.adv(1)))
        } else if !c.adv(1).has(16) || c.adv(1).val(16) > 8192 {
            None
        } else {
            let len = c.adv(1).val(16);
            let c = c.adv(17);
            if !c.has(8 * len) {
                None
            } else if !userinfo {
                Some((Seq::empty(), c.adv(8 * len)))
            } else if len >= 52 {
                Some((blob_entry(c.byte_seq(len as nat), slot), c.adv(8 * len)))
            } else {
                Some((key_entry(lossy_chars(key), slot), c.adv(8 * len)))
            }
        },
    }
}

/// The strings of a table from `slot` to `n`.
pub open spec fn strings_from(c: Cursor, slot: int, n: int, userinfo: bool) -> Option<
    (Seq<Entry>, Cursor),
>
    decreases n - slot,
{
    if slot >= n {
        Some((Seq::empty(), c))
    } else {
        match string_at(c, slot, userinfo) {
            None => None,
            Some((e, c)) => match strings_from(c, slot + 1, n, userinfo) {
                None => None,
                Some((rest, c)) => Some((e + rest, c)),
            },
        }
    }
}

/// Past `n` client-side strings.
pub open spec fn client_strings(c: Cursor, n: int) -> Option<Cursor>
    decreases n,
{
    if n <= 0 {
        Some(c)
    } else {
        match c.cstring(512) {
            None => None,
            Some((_, c)) => if !c.has(1) {
                None
            } else if c.val(1) != 1 {
                client_strings(c.adv(1), n - 1)
            } else if !c.adv(1).has(16) || !c.adv(17).has(8 * c.adv(1).val(16)) {
                None
            } else {
                client_strings(c.adv(17).adv(8 * c.adv(1).val(16)), n - 1)
            },
        }
    }
}

/// One table: name, strings and, where flagged, client-side strings.
pub open spec fn table_at(c: Cursor) -> Option<(Seq<Entry>, Cursor)> {
    match c.cstring(64) {
        None => None,
        Some((name, c)) => if !c.has(16) || c.val(16) > 4096 {
            None
        } else {
            match strings_from(c.adv(16), 0, c.val(16), lossy_chars(name) == "userinfo"@) {
                None => None,
                Some((e, c)) => if !c.has(1) {
                    None
                } else if c.val(1) != 1 {
                    Some((e, c.adv(1)))
                } else if !c.adv(1).has(16) {
                    None
                } else {
                    match client_strings(c.adv(17), c.adv(1).val(16)) {
                        None => None,
                        Some(c) => Some((e, c)),
                    }
                },
            }
        },
    }
}

pub open spec fn tables_from(c: Cursor, n: int) -> Option<Seq<Entry>>
    decreases n,
{
    if n <= 0 {
        Some(Seq::empty())
    } else {
        match table_at(c) {
            None => None,
            Some((e, c)) => match tables_from(c, n - 1) {
                None => None,
                Some(rest) => Some(e + rest),
            },
        }
    }
}

/// The players that a string-table block names: none where the block does not
/// parse to its end, or names nobody.
pub open spec fn userinfo_in(d: Seq<u8>) -> Seq<Entry> {
    let c = Cursor { d, pos: 0, end: 8 * d.len() as int };
    if !c.has(8) || c.val(8) == 0 || c.val(8) > 64 {
        Seq::empty()
    } else {
        match tables_from(c.adv(8), c.val(8)) {
            Some(e) => e,
            None => Seq::empty(),
        }
    }
}

proof fn lemma_views_push(v: Seq<UserinfoEntry>, e: UserinfoEntry)
    ensures
        views(v.push(e)) == views(v) + seq![e@],
{
    assert(views(v.push(e)) =~= views(v) + seq![e@]);
}

/// Reads one string; false where it does not parse.
fn read_string(br: &mut BitReader, slot: usize, userinfo: bool, out: &mut Vec<UserinfoEntry>) -> (ok:
    bool)
    requires
        old(br).wf(),
        slot < 4096,
    ensures
        final(br).wf(),
        match string_at(old(br)@, slot as int, userinfo) {
            Some((e, c)) => ok && final(br)@ == c && views(final(out)@) == views(old(out)@) + e,
            None => !ok,
        },
{
    let ghost before = views(out@);
    proof {
        lemma2_to64();
        assert(before + Seq::<Entry>::empty() =~= before);
    }
    let key = match br.read_cstring_any(512) {
        Some(s) => s,
        None => {
            return false;
        },
    };
    let has_data = match br.read_bool() {
        Some(b) => b,
        None => {
            return false;
        },
    };
    if has_data {
        let len: usize = match br.read_bits(16) {
            Some(v) => v as usize,
            None => {
                return false;
            },
        };
        if len > 8192 {
            return false;
        }
        let b = match br.read_byte_vec(len) {
            Some(b) => b,
            None => {
                return false;
            },
        };
        if userinfo && len >= 52 {
            let w = vstd::slice::slice_subrange(b.as_slice(), 16, 48);
            let n: usize = crate::bytes::find_zero(w);
            assert(w@.take(n as int) =~= w@.subrange(0, n as int));
            let name = lossy(vstd::slice::slice_subrange(w, 0, n));
            let id: i32 = le_i32(b.as_slice(), 48);
            let is_fake = len > 124 && b[124] != 0;
            if !is_empty_text(name.as_str()) && id > 0 {
                let e = UserinfoEntry { slot, id, name, is_fake };
                proof {
                    lemma_views_push(out@, e);
                }
                out.push(e);
            }
            return true;
        }
    }
    if userinfo && !is_empty_text(key.as_str()) {
        let e = UserinfoEntry { slot, id: slot as i32 + 1, name: key, is_fake: false };
        proof {
            lemma_views_push(out@, e);
        }
        out.push(e);
    }
    true
}

/// Skips `n` client-side strings; false where one does not parse.
pub(crate) fn skip_client_strings(br: &mut BitReader, n: usize) -> (ok: bool)
    requires
        old(br).wf(),
    ensures
        final(br).wf(),
        match client_strings(old(br)@, n as int) {
            Some(c) => ok && final(br)@ == c,
            None => !ok,
        },
{
    let mut i: usize = 0;
    proof {
        lemma2_to64();
    }
    while i < n
        invariant
            br.wf(),
            i <= n,
            pow2(16) == 0x1_0000,
            client_strings(old(br)@, n as int) == client_strings(br@, n - i),
        decreases n - i,
    {
        match br.read_cstring_bytes(512) {
            Some(_) => {},
            None => {
                return false;
            },
        }
        match br.read_bool() {
            Some(has_data) => {
                if has_data {
                    match br.read_bits(16) {
                        Some(l) => {
                            if !br.skip(8 * l) {
                                return false;
                            }
                        },
                        None => {
                            return false;
                        },
                    }
                }
            },
            None => {
                return false;
            },
        }
        i += 1;
    }
    true
}

/// Reads one table; false where it does not parse.
fn read_table(br: &mut BitReader, out: &mut Vec<UserinfoEntry>) -> (ok: bool)
    requires
        old(br).wf(),
    ensures
        final(br).wf(),
        match table_at(old(br)@) {
            Some((e, c)) => ok && final(br)@ == c && views(final(out)@) == views(old(out)@) + e,
            None => !ok,
        },
{
    proof {
        lemma2_to64();
    }
    let name = match br.read_cstring_any(64) {
        Some(s) => s,
        None => {
            return false;
        },
    };
    let n: usize = match br.read_bits(16) {
        Some(v) => v as usize,
        None => {
            return false;
        },
    };
    if n > 4096 {
        return false;
    }
    let userinfo = str_eq(name.as_str(), "userinfo");
    let ghost start = br@;
    let ghost before = views(out@);
    let mut slot: usize = 0;
    assert(before + Seq::<Entry>::empty() =~= before);
    while slot < n
        invariant
            br.wf(),
            slot <= n <= 4096,
            strings_from(start, 0, n as int, userinfo) is None ==> table_at(old(br)@) is None,
            match (strings_from(start, 0, n as int, userinfo), strings_from(br@, slot as int, n as int, userinfo)) {
                (Some((all, c)), Some((rest, c2))) => before + all == views(out@) + rest && c == c2,
                (None, None) => true,
                _ => false,
            },
        decreases n - slot,
    {
        let ghost c = br@;
        let ghost sofar = views(out@);
        if !read_string(br, slot, userinfo, out) {
            return false;
        }
        proof {
            let e = (string_at(c, slot as int, userinfo)->0).0;
            match strings_from(br@, slot + 1, n as int, userinfo) {
                Some((rest, _)) => {
                    assert(sofar + (e + rest) =~= (sofar + e) + rest);
                },
                None => {},
            }
        }
        slot += 1;
    }
    assert(views(out@) + Seq::<Entry>::empty() =~= views(out@));
    match br.read_bool() {
        Some(has) => {
            if has {
                match br.read_bits(16) {
                    Some(m) => skip_client_strings(br, m as usize),
                    None => false,
                }
            } else {
                true
            }
        },
        None => false,
    }
}

/// The players that a string-table block names, if it names any and parses.
pub fn try_parse_userinfo_tables(payload: &[u8]) -> (r: Option<Vec<UserinfoEntry>>)
    requires
        countable(payload@),
    ensures
        r is Some <==> userinfo_in(payload@).len() > 0,
        r is Some ==> views(r->0@) == userinfo_in(payload@),
{
    proof {
        lemma2_to64();
    }
    let mut br = BitReader::new(payload);
    let n: usize = match br.read_bits(8) {
        Some(v) => v as usize,
        None => {
            return None;
        },
    };
    if n == 0 || n > 64 {
        return None;
    }
    let ghost start = br@;
    let mut out: Vec<UserinfoEntry> = Vec::new();
    let mut i: usize = 0;
    proof {
        assert(views(out@) =~= Seq::empty());
        match tables_from(start, n as int) {
            Some(all) => {
                assert(views(out@) + all =~= all);
            },
            None => {},
        }
    }
    while i < n
        invariant
            br.wf(),
            i <= n <= 64,
            match (tables_from(start, n as int), tables_from(br@, n - i)) {
                (Some(all), Some(rest)) => all == views(out@) + rest,
                (None, None) => true,
                _ => false,
            },
            userinfo_in(payload@) == match tables_from(start, n as int) {
                Some(e) => e,
                None => Seq::empty(),
            },
        decreases n - i,
    {
        let ghost c = br@;
        let ghost sofar = views(out@);
        if !read_table(&mut br, &mut out) {
            return None;
        }
        proof {
            let e = (table_at(c)->0).0;
            match tables_from(br@, n - i - 1) {
                Some(rest) => {
                    assert(sofar + (e + rest) =~= (sofar + e) + rest);
                },
                None => {},
            }
        }
        i += 1;
    }
    assert(views(out@) + Seq::<Entry>::empty() =~= views(out@));
    assert(views(out@).len() == out@.len());
    if out.len() == 0 {
        None
    } else {
        Some(out)
    }
}

/// The names by user id, later entries over earlier ones.
pub open spec fn fold_names(es: Seq<Entry>) -> Map<i32, (Seq<char>, bool)>
    decreases es.len(),
{
    if es.len() == 0 {
        Map::empty()
    } else {
        fold_names(es.drop_last()).insert(es.last().id, (es.last().name, es.last().is_fake))
    }
}

/// The user ids by slot, later entries over earlier ones.
pub open spec fn fold_slots(es: Seq<Entry>) -> Map<usize, i32>
    decreases es.len(),
{
    if es.len() == 0 {
        Map::empty()
    } else {
        fold_slots(es.drop_last()).insert(es.last().slot, es.last().id)
    }
}

/// The texts of a map from user id to name.
pub open spec fn names_view(m: Map<i32, (String, bool)>) -> Map<i32, (Seq<char>, bool)> {
    m.map_values(|x: (String, bool)| (x.0@, x.1))
}

/// What the userinfo walk finds at an offset: the players of a string-table
/// block, and where the next command starts. A block that claims to reach past
/// the data is cut at its end.
pub open spec fn userinfo_step(d: Seq<u8>, proto: i32, info: int, off: int) -> Option<
    (Seq<Entry>, int),
> {
    if off + 5 > d.len() {
        None
    } else {
        let cmd = d[off];
        let o = off + head_len(proto);
        if cmd == 3 {
            Some((Seq::empty(), o))
        } else if cmd == 1 || cmd == 2 {
            if o + info + 12 > d.len() || i32_at(d, o + info + 8) < 0 {
                None
            } else {
                Some((Seq::empty(), o + info + 12 + i32_at(d, o + info + 8)))
            }
        } else if cmd == 4 {
            if o + 4 > d.len() || i32_at(d, o) < 0 {
                None
            } else {
                Some((Seq::empty(), o + 4 + i32_at(d, o)))
            }
        } else if cmd == 5 || (cmd == 8 && proto > 3) {
            if o + 8 > d.len() || i32_at(d, o + 4) < 0 {
                None
            } else {
                Some((Seq::empty(), o + 8 + i32_at(d, o + 4)))
            }
        } else if cmd == 6 || cmd == 8 || cmd == 9 {
            if o + 4 > d.len() || i32_at(d, o) < 0 {
                None
            } else {
                let e = if o + 4 + i32_at(d, o) <= d.len() {
                    o + 4 + i32_at(d, o)
                } else {
                    d.len() as int
                };
                Some((if cmd == 6 { Seq::empty() } else { userinfo_in(d.subrange(o + 4, e)) }, e))
            }
        } else {
            None
        }
    }
}

pub open spec fn userinfo_from(d: Seq<u8>, proto: i32, info: int, off: int) -> Seq<Entry>
    decreases d.len() + 0x1_0000_0000 - off,
{
    if off < 0 || info < 0 {
        Seq::empty()
    } else {
        match userinfo_step(d, proto, info, off) {
            None => Seq::empty(),
            Some((e, next)) => e + userinfo_from(d, proto, info, next),
        }
    }
}

/// The players that a demo's string tables name, in order.
pub open spec fn userinfo_of(d: Seq<u8>, proto: i32, p2_engine: bool) -> Seq<Entry> {
    userinfo_from(d, proto, SPLIT_SIZE * splitscreen(d, proto, p2_engine), HEADER_SIZE as int)
}

fn add_entries(
    names: &mut HashMap<i32, (String, bool)>,
    slots: &mut HashMap<usize, i32>,
    es: Vec<UserinfoEntry>,
    Ghost(before): Ghost<Seq<Entry>>,
)
    requires
        names_view(old(names)@) == fold_names(before),
        old(slots)@ == fold_slots(before),
    ensures
        names_view(final(names)@) == fold_names(before + views(es@)),
        final(slots)@ == fold_slots(before + views(es@)),
{
    broadcast use vstd::std_specs::hash::group_hash_axioms;

    let mut es = es;
    let ghost all = es@;
    let mut i: usize = 0;
    assert(before + views(all.take(0)) =~= before);
    while i < es.len()
        invariant
            i <= es@.len(),
            es@ == all,
            names_view(names@) == fold_names(before + views(all.take(i as int))),
            slots@ == fold_slots(before + views(all.take(i as int))),
        decreases es@.len() - i,
    {
        broadcast use vstd::std_specs::hash::group_hash_axioms;

        let e = &es[i];
        proof {
            let a = before + views(all.take(i as int));
            let b = before + views(all.take(i + 1));
            assert(b.drop_last() =~= a);
            assert(b.last() == e@);
        }
        let ghost m = names@;
        let val = (e.name.clone(), e.is_fake);
        assert(names_view(m.insert(e.id, val)) =~= names_view(m).insert(e.id, (val.0@, val.1)));
        names.insert(e.id, val);
        slots.insert(e.slot, e.id);
        i += 1;
    }
    assert(all.take(i as int) =~= all);
}

/// The players of the string tables of a demo: their names by their numbers, and their
/// numbers by their slots.
#[verifier::rlimit(40)]
pub fn parse_userinfo_from_demo(data: &[u8], proto: i32, p2_engine: bool) -> (r: (
    HashMap<i32, (String, bool)>,
    HashMap<usize, i32>,
))
    ensures
        names_view(r.0@) == fold_names(userinfo_of(data@, proto, p2_engine)),
        r.1@ == fold_slots(userinfo_of(data@, proto, p2_engine)),
{
    broadcast use vstd::std_specs::hash::group_hash_axioms;

    let hdr: usize = if proto > 3 {
        6
    } else {
        5
    };
    let info: usize = SPLIT_SIZE * detect_splitscreen(data, proto, p2_engine);
    let ghost d = data@;
    let ghost all = userinfo_of(d, proto, p2_engine);
    let ghost mut done: Seq<Entry> = Seq::empty();
    let mut names: HashMap<i32, (String, bool)> = HashMap::new();
    let mut slots: HashMap<usize, i32> = HashMap::new();
    let mut offset: usize = HEADER_SIZE;
    proof {
        assert(done + userinfo_from(d, proto, info as int, offset as int) =~= all);
        assert(names_view(names@) =~= fold_names(done));
    }
    while offset < data.len() && data.len() - offset >= 5
        invariant_except_break
            all == done + userinfo_from(d, proto, info as int, offset as int),
        invariant
            d == data@,
            hdr == head_len(proto),
            info <= 4 * SPLIT_SIZE,
            names_view(names@) == fold_names(done),
            slots@ == fold_slots(done),
        ensures
            done == all,
        decreases
                if offset < data.len() {
                    data.len() - offset
                } else {
                    0
                },
    {
        let cmd: u8 = data[offset];
        let o: usize = ahead(offset, hdr);
        let ghost step = userinfo_step(d, proto, info as int, offset as int);
        // Where the length stands, and where the data starts, behind the head.
        let (at, head): (usize, usize) = match cmd {
            3 => {
                let ghost offset0 = offset;
                offset = o;
                proof {
                    let rest = userinfo_from(d, proto, info as int, o as int);
                    assert(rest == userinfo_from(d, proto, info as int, offset0 + hdr));
                    assert(done + (Seq::<Entry>::empty() + rest) =~= done + rest);
                }
                continue;
            },
            1 | 2 => (info + 8, info + 12),
            4 | 6 | 9 => (0, 4),
            5 => (4, 8),
            8 => if proto > 3 {
                (4, 8)
            } else {
                (0, 4)
            },
            _ => {
                assert(done + Seq::<Entry>::empty() =~= done);
                break;
            },
        };
        if !fits(data, o, head) {
            assert(done + Seq::<Entry>::empty() =~= done);
            break;
        }
        let length: i32 = le_i32(data, o + at);
        if length < 0 {
            assert(done + Seq::<Entry>::empty() =~= done);
            break;
        }
        let mut next: usize = ahead(o + head, length as usize);
        let ghost mut found: Seq<Entry> = Seq::empty();
        if cmd == 6 || cmd == 9 || (cmd == 8 && proto <= 3) {
            if next > data.len() {
                next = data.len();
            }
            if cmd != 6 {
                let block = vstd::slice::slice_subrange(data, o + 4, next);
                match try_parse_userinfo_tables(block) {
                    Some(es) => {
                        proof {
                            found = views(es@);
                        }
                        add_entries(&mut names, &mut slots, es, Ghost(done));
                    },
                    None => {
                        assert(userinfo_in(block@) =~= Seq::empty());
                        assert(done + Seq::<Entry>::empty() =~= done);
                    },
                }
            } else {
                assert(done + Seq::<Entry>::empty() =~= done);
            }
        } else {
            assert(done + Seq::<Entry>::empty() =~= done);
        }
        proof {
            let rest = userinfo_from(d, proto, info as int, next as int);
            assert(step matches Some((f, m)) && f == found && next == ahead_of(m, 0)
                && userinfo_from(d, proto, info as int, m) == rest);
            assert(done + (found + rest) =~= (done + found) + rest);
            done = done + found;
        }
        offset = next;
    }
    (names, slots)
}

/// The view entity that a packet sets: among its first messages, behind any
/// no-ops and ticks, at most `k` of them.
pub open spec fn setview_from(d: Seq<u8>, pos: int, k: int) -> Option<u16>
    decreases k,
{
    if k <= 0 || pos + 6 > 8 * d.len() {
        None
    } else {
        let kind = bits_at(d, pos, 6);
        if kind == 0 {
            setview_from(d, pos + 6, k - 1)
        } else if kind == 3 {
            setview_from(d, pos + 70, k - 1)
        } else if kind == 17 && pos + 18 <= 8 * d.len() {
            Some(bits_at(d, pos + 6, 12) as u16)
        } else {
            None
        }
    }
}

/// The view changes of the packets in `ps`, with their ticks.
pub open spec fn setviews(d: Seq<u8>, ps: Seq<(i32, usize, usize)>) -> Seq<(i32, u16)>
    decreases ps.len(),
{
    if ps.len() == 0 {
        Seq::empty()
    } else {
        let (tick, start, end) = ps.last();
        let before = setviews(d, ps.drop_last());
        if start < end {
            match setview_from(d.subrange(start as int, end as int), 0, 15) {
                Some(e) => before.push((tick, e)),
                None => before,
            }
        } else {
            before
        }
    }
}

fn find_setview(d: &[u8]) -> (r: Option<u16>)
    ensures
        r == setview_from(d@, 0, 15),
{
    // No more than fifteen messages of 70 bits are passed over.
    let total: u64 = if d.len() <= 1000 {
        8 * d.len() as u64
    } else {
        8000
    };
    let mut pos: u64 = 0;
    let mut k: usize = 0;
    proof {
        lemma2_to64();
        vstd::arithmetic::power2::lemma_pow2_adds(8, 4);
    }
    while k < 15
        invariant
            total == if d@.len() <= 1000 {
                8 * d@.len() as int
            } else {
                8000
            },
            k <= 15,
            pos <= 70 * k,
            pow2(12) == 4096,
            setview_from(d@, 0, 15) == setview_from(d@, pos as int, 15 - k),
        decreases 15 - k,
    {
        if pos + 6 > total {
            return None;
        }
        let kind: u32 = get_bits(d, pos, 6);
        if kind == 0 {
            pos += 6;
        } else if kind == 3 {
            pos += 70;
        } else if kind == 17 && pos + 18 <= total {
            return Some(get_bits(d, pos + 6, 12) as u16);
        } else {
            return None;
        }
        k += 1;
    }
    None
}

/// The view changes in the packets of a demo.
pub fn extract_svc_setview(data: &[u8], game_packet_ticks: &[(i32, usize, usize)]) -> (r: Vec<
    (i32, u16),
>)
    requires
        forall|i: int|
            0 <= i < game_packet_ticks@.len() && (#[trigger] game_packet_ticks@[i]).1
                < game_packet_ticks@[i].2 ==> game_packet_ticks@[i].2 <= data@.len(),
    ensures
        r@ == setviews(data@, game_packet_ticks@),
{
    let mut out: Vec<(i32, u16)> = Vec::new();
    let mut i: usize = 0;
    let ghost ps = game_packet_ticks@;
    while i < game_packet_ticks.len()
        invariant
            i <= ps.len(),
            ps == game_packet_ticks@,
            forall|i: int|
                0 <= i < ps.len() && (#[trigger] ps[i]).1 < ps[i].2 ==> ps[i].2 <= data@.len(),
            out@ == setviews(data@, ps.take(i as int)),
        decreases ps.len() - i,
    {
        let (tick, start, end) = game_packet_ticks[i];
        assert(ps.take(i + 1).drop_last() =~= ps.take(i as int));
        assert(ps.take(i + 1).last() == ps[i as int]);
        if start < end {
            let payload = vstd::slice::slice_subrange(data, start, end);
            match find_setview(payload) {
                Some(e) => {
                    out.push((tick, e));
                },
                None => {},
            }
        }
        i += 1;
    }
    assert(ps.take(i as int) =~= ps);
    out
}

/// How many of the view changes are to `e`.
pub open spec fn views_of(evs: Seq<(i32, u16)>, e: u16) -> int
    decreases evs.len(),
{
    if evs.len() == 0 {
        0
    } else {
        views_of(evs.drop_last(), e) + if evs.last().1 == e {
            1int
        } else {
            0
        }
    }
}

/// An entity that no other is viewed more often than.
pub open spec fn most_viewed(evs: Seq<(i32, u16)>, e: u16) -> bool {
    forall|x: u16| #[trigger] views_of(evs, x) <= views_of(evs, e)
}

/// The closed intervals among the first view changes, and the open one: where it
/// started and whom it views.
pub struct Switches {
    pub closed: Seq<(i32, i32)>,
    pub open: Option<(i32, u16)>,
}

pub open spec fn switches(evs: Seq<(i32, u16)>, primary: u16) -> Switches
    decreases evs.len(),
{
    if evs.len() == 0 {
        Switches { closed: Seq::empty(), open: None }
    } else {
        let s = switches(evs.drop_last(), primary);
        let (tick, e) = evs.last();
        match s.open {
            Some((start, cur)) => if cur == e {
                s
            } else if cur != primary {
                Switches { closed: s.closed.push((start, tick)), open: Some((tick, e)) }
            } else {
                Switches { closed: s.closed, open: Some((tick, e)) }
            },
            None => Switches { closed: s.closed, open: Some((tick, e)) },
        }
    }
}

/// The tick intervals in which an entity other than `primary` is viewed; the
/// last one ends a tick after the last view change.
pub open spec fn away_intervals(evs: Seq<(i32, u16)>, primary: u16) -> Seq<(i32, i32)> {
    let s = switches(evs, primary);
    match s.open {
        Some((start, e)) => if e != primary {
            s.closed.push((start, (evs.last().0 + 1) as i32))
        } else {
            s.closed
        },
        None => s.closed,
    }
}

/// Whether the view changes come in the order of their ticks.
pub open spec fn ticks_rise(evs: Seq<(i32, u16)>) -> bool {
    forall|i: int, j: int| 0 <= i <= j < evs.len() ==> (#[trigger] evs[i]).0 <= (#[trigger] evs[j]).0
}

/// Intervals that follow each other: none ends before it starts, nor after the next
/// one starts.
pub open spec fn follow(v: Seq<(i32, i32)>) -> bool {
    &&& forall|i: int| 0 <= i < v.len() ==> (#[trigger] v[i]).0 <= v[i].1
    &&& forall|i: int, j: int| 0 <= i < j < v.len() ==> (#[trigger] v[i]).1 <= (#[trigger] v[j]).0
}

proof fn lemma_switches_follow(evs: Seq<(i32, u16)>, primary: u16)
    requires
        ticks_rise(evs),
    ensures
        ({
            let s = switches(evs, primary);
            &&& follow(s.closed)
            &&& s.open is None <==> evs.len() == 0
            &&& evs.len() > 0 ==> (s.open->0).0 <= evs.last().0
            &&& evs.len() > 0 ==> forall|i: int|
                0 <= i < s.closed.len() ==> (#[trigger] s.closed[i]).1 <= (s.open->0).0
        }),
    decreases evs.len(),
{
    if evs.len() > 0 {
        let before = evs.drop_last();
        assert forall|i: int, j: int| 0 <= i <= j < before.len() implies (#[trigger] before[i]).0 <= (
        #[trigger] before[j]).0 by {
            assert(evs[i].0 <= evs[j].0);
        }
        lemma_switches_follow(before, primary);
        if before.len() > 0 {
            assert(evs[evs.len() - 2].0 <= evs[evs.len() - 1].0);
        }
    }
}

/// Where the view changes come in the order of their ticks, so do the intervals, and
/// no two of them overlap.
pub proof fn law_intervals_follow(evs: Seq<(i32, u16)>, primary: u16)
    requires
        ticks_rise(evs),
        evs.len() > 0 ==> evs.last().0 < i32::MAX,
    ensures
        follow(away_intervals(evs, primary)),
{
    lemma_switches_follow(evs, primary);
}

proof fn lemma_views_of_bound(evs: Seq<(i32, u16)>, e: u16)
    ensures
        0 <= views_of(evs, e) <= evs.len(),
    decreases evs.len(),
{
    if evs.len() > 0 {
        lemma_views_of_bound(evs.drop_last(), e);
    }
}

/// An entity viewed most often; which one, where several are, is left open.
fn pick_most_viewed(evs: &[(i32, u16)]) -> (r: u16)
    requires
        evs@.len() > 0,
    ensures
        most_viewed(evs@, r),
{
    broadcast use vstd::std_specs::hash::group_hash_axioms;

    let mut counts: HashMap<u16, usize> = HashMap::new();
    let mut best: u16 = evs[0].1;
    let mut best_n: usize = 0;
    let mut i: usize = 0;
    let ghost s = evs@;
    while i < evs.len()
        invariant
            s == evs@,
            s.len() > 0,
            i <= s.len(),
            forall|x: u16|
                #![trigger views_of(s.take(i as int), x)]
                if counts@.contains_key(x) {
                    counts@[x] == views_of(s.take(i as int), x)
                } else {
                    views_of(s.take(i as int), x) == 0
                },
            best_n == views_of(s.take(i as int), best),
            most_viewed(s.take(i as int), best),
        decreases s.len() - i,
    {
        broadcast use vstd::std_specs::hash::group_hash_axioms;

        let e: u16 = evs[i].1;
        let ghost a = s.take(i as int);
        let ghost b = s.take(i + 1);
        assert(b.drop_last() =~= a);
        proof {
            lemma_views_of_bound(a, e);
            assert(views_of(a, e) >= 0);
            assert forall|x: u16| #[trigger] views_of(b, x) == views_of(a, x) + if x == e {
                1int
            } else {
                0
            } by {}
        }
        let n: usize = match counts.get(&e) {
            Some(c) => *c + 1,
            None => 1,
        };
        counts.insert(e, n);
        if n > best_n {
            best = e;
            best_n = n;
        }
        i += 1;
    }
    assert(s.take(i as int) =~= s);
    best
}

/// The tick intervals away from `primary`.
pub fn intervals_away_from(evs: &[(i32, u16)], primary: u16) -> (r: Vec<(i32, i32)>)
    requires
        evs@.len() > 0 ==> evs@.last().0 < i32::MAX,
    ensures
        r@ == away_intervals(evs@, primary),
{
    let mut out: Vec<(i32, i32)> = Vec::new();
    let mut open: Option<(i32, u16)> = None;
    let mut i: usize = 0;
    let ghost s = evs@;
    while i < evs.len()
        invariant
            s == evs@,
            i <= s.len(),
            out@ == switches(s.take(i as int), primary).closed,
            open == switches(s.take(i as int), primary).open,
        decreases s.len() - i,
    {
        let (tick, e) = evs[i];
        assert(s.take(i + 1).drop_last() =~= s.take(i as int));
        match open {
            Some((start, cur)) => {
                if cur != e {
                    if cur != primary {
                        out.push((start, tick));
                    }
                    open = Some((tick, e));
                }
            },
            None => {
                open = Some((tick, e));
            },
        }
        i += 1;
    }
    assert(s.take(i as int) =~= s);
    match open {
        Some((start, e)) => {
            if e != primary && evs.len() > 0 {
                out.push((start, evs[evs.len() - 1].0 + 1));
            }
        },
        None => {},
    }
    assert(s.len() == 0 ==> open is None);
    out
}

/// The tick intervals in which the recorder viewed somebody else: away from an
/// entity viewed most often. With fewer than five view changes there are none.
pub fn spectator_switch_intervals(setview_events: &[(i32, u16)]) -> (r: Vec<(i32, i32)>)
    requires
        setview_events@.len() > 0 ==> setview_events@.last().0 < i32::MAX,
    ensures
        setview_events@.len() < 5 ==> r@ == Seq::<(i32, i32)>::empty(),
        setview_events@.len() >= 5 ==> exists|primary: u16|
            most_viewed(setview_events@, primary) && r@ == #[trigger] away_intervals(
                setview_events@,
                primary,
            ),
{
    if setview_events.len() < 5 {
        return Vec::new();
    }
    let primary: u16 = pick_most_viewed(setview_events);
    intervals_away_from(setview_events, primary)
}

} // verus!
