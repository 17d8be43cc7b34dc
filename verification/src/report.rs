//! The events of a demo of Source 1, the samples of its inputs, and what is made of
//! both for a viewer.
use crate::constants::{HEADER_SIZE, SPLIT_SIZE};
use crate::header::DemoHeader;
use crate::packets::{iterate_demo_packets, law_payloads_in_order, packets_of, splitscreen,
    DemoPacketInfo};
use crate::session::{lines_of};
use crate::source::csgo::events::{after_packets, after_signon, decode_events, payloads};
use crate::source::events::{display_events_for_game, display_names, events_in, events_of,
    extract_events_from_payload, fields_of, insert_index, list_in, rising, scan_for_game_event_list, schemas_of,
    EventField, EventOf, EventSchema, EventValue, FieldOf, GameEvent, Reading, SampledCmd, SchemaOf,
    ValueOf};
use crate::text::{chars_of, letters_eq, same_letters, str_eq, texts};
use std::collections::HashMap;
use vstd::prelude::*;

verus! {

broadcast use vstd::std_specs::hash::group_hash_axioms;

/// The packets of a kind among the first `n` commands that are not empty: their ticks
/// and where they are.
pub open spec fn ranges(ps: Seq<DemoPacketInfo>, cmd: u8, n: int) -> Seq<(i32, usize, usize)>
    decreases n,
{
    if n <= 0 {
        Seq::empty()
    } else {
        let p = ps[n - 1];
        if p.cmd == cmd && p.payload_end > p.payload_start {
            ranges(ps, cmd, n - 1).push((p.tick, p.payload_start, p.payload_end))
        } else {
            ranges(ps, cmd, n - 1)
        }
    }
}

pub open spec fn all_ranges(ps: Seq<DemoPacketInfo>, cmd: u8) -> Seq<(i32, usize, usize)> {
    ranges(ps, cmd, ps.len() as int)
}

/// Whether ranges lie within a file, each no longer than a signed number of 32 bits can
/// say.
pub open spec fn within(rs: Seq<(i32, usize, usize)>, len: nat) -> bool {
    forall|i: int|
        0 <= i < rs.len() ==> (#[trigger] rs[i]).1 <= rs[i].2 <= len && rs[i].2 - rs[i].1 <= i32::MAX
}

fn pick_ranges(ps: &Vec<DemoPacketInfo>, cmd: u8, len: usize) -> (r: Vec<(i32, usize, usize)>)
    requires
        forall|i: int|
            0 <= i < ps@.len() ==> ((#[trigger] ps@[i]).payload_start < ps@[i].payload_end
                ==> ps@[i].payload_end <= len && ps@[i].payload_end - ps@[i].payload_start
                <= i32::MAX),
    ensures
        r@ == all_ranges(ps@, cmd),
        within(r@, len as nat),
{
    let mut out: Vec<(i32, usize, usize)> = Vec::new();
    let mut i: usize = 0;
    while i < ps.len()
        invariant
            i <= ps@.len(),
            forall|i: int|
                0 <= i < ps@.len() ==> ((#[trigger] ps@[i]).payload_start < ps@[i].payload_end
                    ==> ps@[i].payload_end <= len && ps@[i].payload_end - ps@[i].payload_start
                    <= i32::MAX),
            out@ == ranges(ps@, cmd, i as int),
            within(out@, len as nat),
        decreases ps@.len() - i,
    {
        let p = ps[i];
        if p.cmd == cmd && p.payload_end > p.payload_start {
            out.push((p.tick, p.payload_start, p.payload_end));
        }
        i += 1;
    }
    out
}

/// The packets of a demo: those that set it up, and those of the game.
pub fn packet_ranges(data: &[u8], demo_protocol: i32, p2_engine: bool) -> (r: (
    Vec<(i32, usize, usize)>,
    Vec<(i32, usize, usize)>,
))
    ensures
        r.0@ == all_ranges(packets_of(data@, demo_protocol, p2_engine), 1),
        r.1@ == all_ranges(packets_of(data@, demo_protocol, p2_engine), 2),
        within(r.0@, data@.len()),
        within(r.1@, data@.len()),
{
    let ps = iterate_demo_packets(data, demo_protocol, p2_engine);
    let len: usize = data.len();
    proof {
        law_payloads_in_order(
            data@,
            demo_protocol,
            SPLIT_SIZE * splitscreen(data@, demo_protocol, p2_engine),
            HEADER_SIZE as int,
        );
    }
    (pick_ranges(&ps, 1, len), pick_ranges(&ps, 2, len))
}

pub open spec fn slice_of(d: Seq<u8>, r: (i32, usize, usize)) -> Seq<u8> {
    d.subrange(r.1 as int, r.2 as int)
}

/// The first list of events in a packet from the `i`-th on, up to the `n`-th.
pub open spec fn first_list(d: Seq<u8>, rs: Seq<(i32, usize, usize)>, i: int, n: int) -> Option<
    Map<u16, SchemaOf>,
>
    decreases n - i,
{
    if i < 0 || i >= n || i >= rs.len() {
        None
    } else if list_in(slice_of(d, rs[i])) is Some {
        list_in(slice_of(d, rs[i]))
    } else {
        first_list(d, rs, i + 1, n)
    }
}

/// The list of events of a demo: in what sets it up, or among its first 20 packets.
pub open spec fn list_of_demo(
    d: Seq<u8>,
    signon: Seq<(i32, usize, usize)>,
    game: Seq<(i32, usize, usize)>,
) -> Option<Map<u16, SchemaOf>> {
    let first = first_list(d, signon, 0, signon.len() as int);
    if first is Some {
        first
    } else {
        first_list(d, game, 0, 20)
    }
}

fn find_list(data: &[u8], rs: &Vec<(i32, usize, usize)>, n: usize) -> (r: Option<
    HashMap<u16, EventSchema>,
>)
    requires
        within(rs@, data@.len()),
    ensures
        match (r, first_list(data@, rs@, 0, n as int)) {
            (Some(m), Some(s)) => schemas_of(m@) == s,
            (None, None) => true,
            _ => false,
        },
{
    let mut i: usize = 0;
    while i < rs.len() && i < n
        invariant
            within(rs@, data@.len()),
            i <= rs@.len(),
            first_list(data@, rs@, 0, n as int) == first_list(data@, rs@, i as int, n as int),
        decreases rs@.len() - i,
    {
        assert(rs@[i as int].1 <= rs@[i as int].2 <= data@.len());
        let payload = vstd::slice::slice_subrange(data, rs[i].1, rs[i].2);
        match scan_for_game_event_list(payload) {
            Some(m) => {
                return Some(m);
            },
            None => {},
        }
        i += 1;
    }
    None
}

/// The events of the first `n` packets.
pub open spec fn packet_events(
    d: Seq<u8>,
    rs: Seq<(i32, usize, usize)>,
    r: Reading,
    n: int,
) -> Seq<EventOf>
    decreases n,
{
    if n <= 0 {
        Seq::empty()
    } else {
        packet_events(d, rs, r, n - 1) + events_in(
            slice_of(d, rs[n - 1]),
            Reading { tick: rs[n - 1].0, ..r },
        )
    }
}

/// What was typed, as events.
pub open spec fn console_events(lines: Seq<(i32, Seq<char>)>) -> Seq<EventOf> {
    lines.map_values(
        |l: (i32, Seq<char>)|
            EventOf {
                event: "console_cmd"@,
                tick: l.0,
                fields: seq![FieldOf { name: "cmd"@, value: ValueOf::Str(l.1) }],
            },
    )
}

/// An event behind those that are not later.
pub open spec fn inserted(es: Seq<EventOf>, e: EventOf) -> Seq<EventOf>
    decreases es.len(),
{
    if es.len() == 0 || es.last().tick <= e.tick {
        es.push(e)
    } else {
        inserted(es.drop_last(), e).push(es.last())
    }
}

/// The first `n` events in the order of their ticks; those of one tick stay in order.
pub open spec fn by_tick(es: Seq<EventOf>, n: int) -> Seq<EventOf>
    decreases n,
{
    if n <= 0 {
        Seq::empty()
    } else {
        inserted(by_tick(es, n - 1), es[n - 1])
    }
}

pub open spec fn rising_ticks(es: Seq<EventOf>) -> bool {
    forall|i: int, j: int| 0 <= i <= j < es.len() ==> (#[trigger] es[i]).tick <= (
    #[trigger] es[j]).tick
}

proof fn lemma_inserted(es: Seq<EventOf>, e: EventOf)
    requires
        rising_ticks(es),
    ensures
        rising_ticks(inserted(es, e)),
        inserted(es, e).to_multiset() == es.to_multiset().insert(e),
        inserted(es, e).len() == es.len() + 1,
        es.len() > 0 ==> inserted(es, e).last().tick == if es.last().tick <= e.tick {
            e.tick
        } else {
            es.last().tick
        },
    decreases es.len(),
{
    broadcast use vstd::seq_lib::group_to_multiset_ensures;

    if es.len() == 0 || es.last().tick <= e.tick {
        assert(es.push(e).to_multiset() =~= es.to_multiset().insert(e));
    } else {
        let a = es.drop_last();
        let z = es.last();
        lemma_inserted(a, e);
        assert(es =~= a.push(z));
        let b = inserted(a, e);
        assert(b.push(z).to_multiset() =~= b.to_multiset().insert(z));
        assert(a.push(z).to_multiset() =~= a.to_multiset().insert(z));
        assert(inserted(es, e).to_multiset() =~= es.to_multiset().insert(e));
        assert forall|i: int, j: int| 0 <= i <= j < b.push(z).len() implies (
        #[trigger] b.push(z)[i]).tick <= (#[trigger] b.push(z)[j]).tick by {
            if j == b.len() && i < j {
                assert(b[i].tick <= b.last().tick);
                if a.len() > 0 {
                    assert(a.last().tick <= z.tick);
                } else {
                    assert(b =~= seq![e]);
                }
            }
        }
    }
}

/// The events of a demo come in the order of their ticks, and none is lost or added.
pub proof fn law_by_tick(es: Seq<EventOf>, n: int)
    requires
        0 <= n <= es.len(),
    ensures
        rising_ticks(by_tick(es, n)),
        by_tick(es, n).to_multiset() == es.take(n).to_multiset(),
    decreases n,
{
    broadcast use vstd::seq_lib::group_to_multiset_ensures;

    if n > 0 {
        law_by_tick(es, n - 1);
        lemma_inserted(by_tick(es, n - 1), es[n - 1]);
        assert(es.take(n) =~= es.take(n - 1).push(es[n - 1]));
        assert(es.take(n - 1).push(es[n - 1]).to_multiset() =~= es.take(
            n - 1,
        ).to_multiset().insert(es[n - 1]));
    } else {
        assert(es.take(0) =~= Seq::empty());
    }
}

/// Where an event goes: behind those before it that are not later.
spec fn place_in(es: Seq<EventOf>, tick: i32) -> int
    decreases es.len(),
{
    if es.len() == 0 || es.last().tick <= tick {
        es.len() as int
    } else {
        place_in(es.drop_last(), tick)
    }
}

proof fn lemma_place(es: Seq<EventOf>, e: EventOf)
    ensures
        0 <= place_in(es, e.tick) <= es.len(),
        inserted(es, e) == es.insert(place_in(es, e.tick), e),
    decreases es.len(),
{
    if es.len() == 0 || es.last().tick <= e.tick {
        assert(es.insert(es.len() as int, e) =~= es.push(e));
    } else {
        lemma_place(es.drop_last(), e);
        let i = place_in(es.drop_last(), e.tick);
        assert(es.drop_last().insert(i, e).push(es.last()) =~= es.insert(i, e));
    }
}

proof fn lemma_place_back(es: Seq<EventOf>, tick: i32, i: int)
    requires
        0 <= i <= es.len(),
        forall|k: int| i <= k < es.len() ==> (#[trigger] es[k]).tick > tick,
    ensures
        place_in(es, tick) == place_in(es.take(i), tick),
    decreases es.len() - i,
{
    if i < es.len() {
        let a = es.drop_last();
        assert(es.last().tick > tick);
        lemma_place_back(a, tick, i);
        assert(a.take(i) =~= es.take(i));
    } else {
        assert(es.take(i) =~= es);
    }
}

fn insert_event(v: &mut Vec<GameEvent>, e: GameEvent)
    ensures
        events_of(final(v)@) == inserted(events_of(old(v)@), e@),
{
    let ghost es = events_of(v@);
    let ghost x = e@;
    let mut i: usize = v.len();
    while i > 0 && v[i - 1].tick > e.tick
        invariant
            i <= v@.len(),
            es == events_of(v@),
            x == e@,
            forall|k: int| i <= k < es.len() ==> (#[trigger] es[k]).tick > x.tick,
        decreases i,
    {
        i -= 1;
        assert(es[i as int] == v@[i as int]@);
    }
    proof {
        lemma_place_back(es, x.tick, i as int);
        lemma_place(es, x);
        let t = es.take(i as int);
        if i > 0 {
            assert(t.last() == es[i - 1]);
            assert(es[i - 1] == v@[i - 1]@);
        }
        assert(place_in(t, x.tick) == i);
    }
    v.insert(i, e);
    assert(events_of(v@) =~= es.insert(i as int, x));
}

fn empty_event() -> (e: GameEvent) {
    GameEvent { event: String::new(), tick: 0, fields: Vec::new() }
}

/// Events in the order of their ticks.
pub fn sort_events(events: Vec<GameEvent>) -> (r: Vec<GameEvent>)
    ensures
        events_of(r@) == by_tick(events_of(events@), events@.len() as int),
{
    let mut events = events;
    let ghost all = events_of(events@);
    let mut out: Vec<GameEvent> = Vec::new();
    assert(events_of(out@) =~= Seq::empty());
    let mut i: usize = 0;
    while i < events.len()
        invariant
            i <= events@.len(),
            events@.len() == all.len(),
            forall|k: int| i <= k < all.len() ==> (#[trigger] events@[k])@ == all[k],
            events_of(out@) == by_tick(all, i as int),
        decreases events@.len() - i,
    {
        let mut e = empty_event();
        std::mem::swap(&mut e, &mut events[i]);
        insert_event(&mut out, e);
        i += 1;
    }
    out
}

/// How the events of a demo are read.
pub open spec fn event_reading(proto: i32, game: Seq<char>, p2_engine: bool, m: Map<u16, SchemaOf>) -> Reading {
    Reading {
        tick: 0,
        schemas: m,
        shown: display_names(game),
        remap: p2_engine || game == "left4dead"@ || game == "left4dead2"@,
        wide: p2_engine,
        newer: proto >= 4,
    }
}

pub open spec fn slices(d: Seq<u8>, rs: Seq<(i32, usize, usize)>) -> Seq<Seq<u8>> {
    rs.map_values(|r: (i32, usize, usize)| slice_of(d, r))
}

/// The events of a demo in its packets: those that its list of events tells how to
/// read and, for CS:GO, those that are told within the packets.
pub open spec fn told_events(d: Seq<u8>, proto: i32, game: Seq<char>, p2_engine: bool) -> Seq<EventOf> {
    let ps = packets_of(d, proto, p2_engine);
    let signon = all_ranges(ps, 1);
    let play = all_ranges(ps, 2);
    let listed = match list_of_demo(d, signon, play) {
        Some(m) => packet_events(
            d,
            play,
            event_reading(proto, game, p2_engine, m),
            play.len() as int,
        ),
        None => Seq::empty(),
    };
    if same_letters(game, "csgo"@) {
        listed + after_packets(
            after_signon(slices(d, signon), signon.len() as int),
            play,
            d,
            play.len() as int,
        ).events
    } else {
        listed
    }
}

/// The events of a demo: those of its packets and what was typed, in the order of
/// their ticks.
pub open spec fn demo_events(
    d: Seq<u8>,
    proto: i32,
    game: Seq<char>,
    p2_engine: bool,
    lines: Seq<(i32, Seq<char>)>,
) -> Seq<EventOf> {
    let all = told_events(d, proto, game, p2_engine) + console_events(lines);
    by_tick(all, all.len() as int)
}

fn append_events(out: &mut Vec<GameEvent>, more: Vec<GameEvent>)
    ensures
        events_of(final(out)@) == events_of(old(out)@) + events_of(more@),
{
    let mut more = more;
    let ghost all = events_of(more@);
    let ghost o = events_of(out@);
    let mut i: usize = 0;
    assert(o + all.take(0) =~= o);
    while i < more.len()
        invariant
            i <= more@.len(),
            more@.len() == all.len(),
            forall|k: int| i <= k < all.len() ==> (#[trigger] more@[k])@ == all[k],
            events_of(out@) == o + all.take(i as int),
        decreases more@.len() - i,
    {
        let mut e = empty_event();
        std::mem::swap(&mut e, &mut more[i]);
        let ghost before = events_of(out@);
        let ghost x = e@;
        out.push(e);
        assert(events_of(out@) =~= before.push(x));
        assert(all.take(i + 1) =~= all.take(i as int).push(all[i as int]));
        assert(events_of(out@) =~= o + all.take(i + 1));
        i += 1;
    }
    assert(all.take(i as int) =~= all);
}

fn copy_payloads(data: &[u8], rs: &Vec<(i32, usize, usize)>) -> (r: Vec<Vec<u8>>)
    requires
        within(rs@, data@.len()),
    ensures
        payloads(r@) == slices(data@, rs@),
{
    let mut out: Vec<Vec<u8>> = Vec::new();
    let mut i: usize = 0;
    while i < rs.len()
        invariant
            within(rs@, data@.len()),
            i <= rs@.len(),
            out@.len() == i,
            forall|k: int| 0 <= k < i ==> (#[trigger] out@[k])@ == slice_of(data@, rs@[k]),
        decreases rs@.len() - i,
    {
        let (tick, start, end) = rs[i];
        assert(rs@[i as int].1 <= rs@[i as int].2 <= data@.len());
        let mut v: Vec<u8> = Vec::new();
        let mut j: usize = start;
        while j < end
            invariant
                start <= j <= end <= data@.len(),
                v@ == data@.subrange(start as int, j as int),
            decreases end - j,
        {
            v.push(data[j]);
            assert(data@.subrange(start as int, j + 1) =~= data@.subrange(
                start as int,
                j as int,
            ).push(data@[j as int]));
            j += 1;
        }
        out.push(v);
        i += 1;
    }
    assert(payloads(out@) =~= slices(data@, rs@));
    out
}

fn read_packet_events(
    data: &[u8],
    rs: &Vec<(i32, usize, usize)>,
    schemas: &HashMap<u16, EventSchema>,
    shown: &Vec<String>,
    remap: bool,
    wide: bool,
    demo_protocol: i32,
    Ghost(r): Ghost<Reading>,
) -> (out: Vec<GameEvent>)
    requires
        within(rs@, data@.len()),
        r.schemas == schemas_of(schemas@),
        r.shown == texts(shown@),
        r.remap == remap,
        r.wide == wide,
        r.newer == (demo_protocol >= 4),
    ensures
        events_of(out@) == packet_events(data@, rs@, r, rs@.len() as int),
{
    let mut out: Vec<GameEvent> = Vec::new();
    assert(events_of(out@) =~= Seq::empty());
    let mut i: usize = 0;
    while i < rs.len()
        invariant
            within(rs@, data@.len()),
            r.schemas == schemas_of(schemas@),
            r.shown == texts(shown@),
            r.remap == remap,
            r.wide == wide,
            r.newer == (demo_protocol >= 4),
            i <= rs@.len(),
            events_of(out@) == packet_events(data@, rs@, r, i as int),
        decreases rs@.len() - i,
    {
        let (tick, start, end) = rs[i];
        assert(rs@[i as int].1 <= rs@[i as int].2 <= data@.len());
        let payload = vstd::slice::slice_subrange(data, start, end);
        let found = extract_events_from_payload(
            payload,
            tick,
            schemas,
            shown,
            remap,
            wide,
            demo_protocol,
        );
        append_events(&mut out, found);
        i += 1;
    }
    out
}

fn push_console(out: &mut Vec<GameEvent>, lines: &Vec<(i32, String)>)
    ensures
        events_of(final(out)@) == events_of(old(out)@) + console_events(lines_of(lines@)),
{
    let ghost all = console_events(lines_of(lines@));
    let ghost o = events_of(out@);
    let mut i: usize = 0;
    assert(o + all.take(0) =~= o);
    while i < lines.len()
        invariant
            i <= lines@.len(),
            all == console_events(lines_of(lines@)),
            events_of(out@) == o + all.take(i as int),
        decreases lines@.len() - i,
    {
        let mut fields: Vec<EventField> = Vec::new();
        let ghost text = lines@[i as int].1@;
        let value = EventValue::Str(lines[i].1.clone());
        fields.push(EventField { name: "cmd".to_string(), value });
        assert(fields_of(fields@) =~= seq![FieldOf { name: "cmd"@, value: ValueOf::Str(text) }]);
        let e = GameEvent { event: "console_cmd".to_string(), tick: lines[i].0, fields };
        assert(e@ == all[i as int]);
        let ghost before = events_of(out@);
        out.push(e);
        assert(events_of(out@) =~= before.push(e@));
        assert(all.take(i + 1) =~= all.take(i as int).push(all[i as int]));
        assert(events_of(out@) =~= o + all.take(i + 1));
        i += 1;
    }
    assert(all.take(i as int) =~= all);
}

/// Reads the events of a demo; `lines` are what was typed.
pub fn source_events(
    data: &[u8],
    header: &DemoHeader,
    p2_engine: bool,
    lines: &Vec<(i32, String)>,
) -> (r: Vec<GameEvent>)
    ensures
        events_of(r@) == demo_events(
            data@,
            header.demo_protocol,
            header.game_dir@,
            p2_engine,
            lines_of(lines@),
        ),
{
    let proto: i32 = header.demo_protocol;
    let game = header.game_dir.as_str();
    let (signon, play) = packet_ranges(data, proto, p2_engine);
    let shown = display_events_for_game(game);
    let remap = p2_engine || str_eq(game, "left4dead") || str_eq(game, "left4dead2");
    let list = match find_list(data, &signon, signon.len()) {
        Some(m) => Some(m),
        None => find_list(data, &play, 20),
    };
    let mut all: Vec<GameEvent> = match &list {
        Some(m) => read_packet_events(
            data,
            &play,
            m,
            &shown,
            remap,
            p2_engine,
            proto,
            Ghost(event_reading(proto, game@, p2_engine, schemas_of(m@))),
        ),
        None => Vec::new(),
    };
    assert(list is None ==> events_of(all@) =~= Seq::empty());
    let g = chars_of(game);
    let c = chars_of("csgo");
    if letters_eq(g.as_slice(), c.as_slice()) {
        let before = copy_payloads(data, &signon);
        assert(payloads(before@).len() == before@.len());
        let more = decode_events(&before, &play, data);
        append_events(&mut all, more);
    }
    assert(events_of(all@) == told_events(data@, proto, game@, p2_engine));
    push_console(&mut all, lines);
    sort_events(all)
}

/// How far apart the inputs are that are shown when at most about 20000 are.
pub open spec fn input_stride(n: int) -> int {
    if n <= 0 {
        1
    } else {
        (n - 1) / 20000 + 1
    }
}

pub open spec fn places_from(n: int, stride: int, i: int) -> Seq<usize>
    decreases
            if i < n {
                n - i
            } else {
                0
            },
{
    if stride <= 0 || i < 0 || i >= n {
        Seq::empty()
    } else {
        seq![i as usize] + places_from(n, stride, i + stride)
    }
}

/// The inputs that are shown: every so many-th, and the last.
pub open spec fn shown_places(n: int) -> Seq<usize> {
    let v = places_from(n, input_stride(n), 0);
    if n > 0 && v.last() != n - 1 {
        v.push((n - 1) as usize)
    } else {
        v
    }
}

proof fn lemma_places(n: int, stride: int, i: int)
    requires
        stride > 0,
        0 <= i,
        n <= usize::MAX,
    ensures
        rising(places_from(n, stride, i)),
        forall|k: int|
            0 <= k < places_from(n, stride, i).len() ==> i <= #[trigger] places_from(n, stride, i)[k]
                < n,
        i < n ==> places_from(n, stride, i).len() > 0,
    decreases
            if i < n {
                n - i
            } else {
                0
            },
{
    if i < n {
        lemma_places(n, stride, i + stride);
        let rest = places_from(n, stride, i + stride);
        let all = places_from(n, stride, i);
        assert forall|a: int, b: int| 0 <= a < b < all.len() implies all[a] < all[b] by {
            if a > 0 {
                assert(all[a] == rest[a - 1]);
            }
            assert(all[b] == rest[b - 1]);
        }
        assert forall|k: int| 0 <= k < all.len() implies i <= #[trigger] all[k] < n by {
            if k > 0 {
                assert(all[k] == rest[k - 1]);
            }
        }
    }
}

/// The inputs that are shown come in order, begin with the first and end with the
/// last.
pub proof fn law_shown_places(n: int)
    requires
        0 < n <= usize::MAX,
    ensures
        rising(shown_places(n)),
        shown_places(n)[0] == 0,
        shown_places(n).last() == n - 1,
        forall|k: int| 0 <= k < shown_places(n).len() ==> #[trigger] shown_places(n)[k] < n,
{
    let v = places_from(n, input_stride(n), 0);
    lemma_places(n, input_stride(n), 0);
    assert(v[0] == 0);
    if v.last() != n - 1 {
        assert(v[v.len() - 1] < n);
    }
}

/// Picks the inputs that are shown, of `n`.
pub fn sample_places(n: usize) -> (r: Vec<usize>)
    ensures
        r@ == shown_places(n as int),
        rising(r@),
        forall|k: int| 0 <= k < r@.len() ==> #[trigger] r@[k] < n,
{
    let mut out: Vec<usize> = Vec::new();
    if n == 0 {
        assert(out@ =~= shown_places(0));
        return out;
    }
    let stride: usize = (n - 1) / 20000 + 1;
    let ghost all = places_from(n as int, stride as int, 0);
    assert(out@ + all =~= all);
    let mut i: usize = 0;
    while i < n
        invariant
            n > 0,
            stride >= 1,
            all == out@ + places_from(n as int, stride as int, i as int),
        decreases n - i,
    {
        proof {
            let rest = places_from(n as int, stride as int, i + stride);
            assert(out@ + (seq![i] + rest) =~= out@.push(i) + rest);
        }
        out.push(i);
        if stride >= n - i {
            proof {
                let rest = places_from(n as int, stride as int, i + stride);
                assert(rest =~= Seq::empty());
                assert(places_from(n as int, stride as int, n as int) =~= Seq::empty());
                assert(out@ + rest =~= out@);
            }
            i = n;
        } else {
            i = i + stride;
        }
    }
    proof {
        assert(all =~= out@);
        law_shown_places(n as int);
        lemma_places(n as int, stride as int, 0);
    }
    if out[out.len() - 1] != n - 1 {
        out.push(n - 1);
    }
    out
}

pub open spec fn sampled(cmds: Seq<SampledCmd>, places: Seq<usize>) -> Seq<SampledCmd> {
    places.map_values(|i: usize| cmds[i as int])
}

/// The inputs at some places.
pub fn sample_cmds(cmds: &Vec<SampledCmd>, places: &Vec<usize>) -> (r: Vec<SampledCmd>)
    requires
        forall|k: int| 0 <= k < places@.len() ==> #[trigger] places@[k] < cmds@.len(),
    ensures
        r@ == sampled(cmds@, places@),
{
    let mut out: Vec<SampledCmd> = Vec::new();
    let mut i: usize = 0;
    while i < places.len()
        invariant
            i <= places@.len(),
            forall|k: int| 0 <= k < places@.len() ==> #[trigger] places@[k] < cmds@.len(),
            out@.len() == i,
            forall|k: int| 0 <= k < i ==> #[trigger] out@[k] == cmds@[places@[k] as int],
        decreases places@.len() - i,
    {
        assert(places@[i as int] < cmds@.len());
        out.push(cmds[places[i]]);
        i += 1;
    }
    assert(out@ =~= sampled(cmds@, places@));
    out
}

/// The first of the places from the `i`-th on that is not before `x`.
pub open spec fn not_before(places: Seq<usize>, x: usize, i: int) -> int
    decreases places.len() - i,
{
    if i < 0 || i >= places.len() || places[i] >= x {
        i
    } else {
        not_before(places, x, i + 1)
    }
}

/// The sample that an input is shown by: the first one that is not before it, or the
/// last one.
pub open spec fn shown_at(places: Seq<usize>, x: usize) -> int {
    let k = not_before(places, x, 0);
    if k < places.len() {
        k
    } else if places.len() > 0 {
        places.len() - 1
    } else {
        0
    }
}

proof fn lemma_not_before(places: Seq<usize>, x: usize, i: int, k: int)
    requires
        0 <= i <= k <= places.len(),
        forall|j: int| i <= j < k ==> (#[trigger] places[j]) < x,
        k < places.len() ==> places[k] >= x,
    ensures
        not_before(places, x, i) == k,
    decreases k - i,
{
    if i < k {
        lemma_not_before(places, x, i + 1, k);
    }
}

fn find_shown(places: &Vec<usize>, x: usize) -> (r: usize)
    requires
        rising(places@),
    ensures
        r == shown_at(places@, x),
{
    let mut lo: usize = 0;
    let mut hi: usize = places.len();
    while lo < hi
        invariant
            rising(places@),
            lo <= hi <= places@.len(),
            forall|k: int| 0 <= k < lo ==> (#[trigger] places@[k]) < x,
            forall|k: int| hi <= k < places@.len() ==> (#[trigger] places@[k]) >= x,
        decreases hi - lo,
    {
        let mid: usize = lo + (hi - lo) / 2;
        if places[mid] < x {
            assert forall|k: int| 0 <= k < mid + 1 implies (#[trigger] places@[k]) < x by {
                if k < mid {
                    assert(places@[k] < places@[mid as int]);
                }
            }
            lo = mid + 1;
        } else {
            assert forall|k: int| mid <= k < places@.len() implies (#[trigger] places@[k]) >= x by {
                if k > mid {
                    assert(places@[mid as int] < places@[k]);
                }
            }
            hi = mid;
        }
    }
    proof {
        lemma_not_before(places@, x, 0, lo as int);
    }
    if lo < places.len() {
        lo
    } else if places.len() > 0 {
        places.len() - 1
    } else {
        0
    }
}

/// Whether `r` are the samples, each once and in order, that some inputs are shown by.
pub open spec fn are_shown(r: Seq<usize>, full: Seq<usize>, places: Seq<usize>) -> bool {
    &&& rising(r)
    &&& forall|x: usize|
        #[trigger] r.contains(x) <==> exists|i: int|
            0 <= i < full.len() && shown_at(places, #[trigger] full[i]) == x
}

/// The samples by which inputs are shown.
pub fn map_to_sampled(full: &Vec<usize>, places: &Vec<usize>) -> (r: Vec<usize>)
    requires
        rising(places@),
    ensures
        are_shown(r@, full@, places@),
{
    let mut out: Vec<usize> = Vec::new();
    let mut i: usize = 0;
    while i < full.len()
        invariant
            rising(places@),
            i <= full@.len(),
            rising(out@),
            forall|x: usize|
                #[trigger] out@.contains(x) <==> exists|k: int|
                    0 <= k < i && shown_at(places@, #[trigger] full@[k]) == x,
        decreases full@.len() - i,
    {
        let x: usize = find_shown(places, full[i]);
        let ghost before = out@;
        insert_index(&mut out, x);
        assert forall|y: usize| #[trigger] out@.contains(y) <==> exists|k: int|
            0 <= k < i + 1 && shown_at(places@, #[trigger] full@[k]) == y by {
            if before.contains(y) {
                let k = choose|k: int|
                    0 <= k < i && shown_at(places@, #[trigger] full@[k]) == y;
                assert(shown_at(places@, full@[k]) == y);
            }
            if y == x {
                assert(shown_at(places@, full@[i as int]) == y);
            }
        }
        i += 1;
    }
    out
}

} // verus!
