//! Game events that CS:GO wraps in protobuf messages.
use crate::protobuf::reader::{fields_from, field_views, Field, FieldView, ValueView};
use crate::protobuf::Reader;
use crate::source::csgo::message::{frames_from, scan_payload, Frame, MsgKind, NetMessage};
use crate::source::csgo::sendtable::{as_float, as_int, as_text};
use crate::source::events::{events_of, fields_of, EventField, EventOf, EventValue, FieldOf,
    GameEvent, ValueOf};
use crate::text::{contains_text, texts};
use std::collections::HashMap;
use vstd::prelude::*;

verus! {

broadcast use vstd::std_specs::hash::group_hash_axioms;

/// The events of the game that are kept: what comes too often is not.
pub open spec fn kept_names() -> Seq<Seq<char>> {
    seq![
        "player_death"@,
        "player_hurt"@,
        "player_blind"@,
        "player_spawn"@,
        "player_team"@,
        "player_connect"@,
        "player_connect_full"@,
        "player_disconnect"@,
        "bomb_planted"@,
        "bomb_defused"@,
        "bomb_exploded"@,
        "bomb_beginplant"@,
        "bomb_begindefuse"@,
        "bomb_dropped"@,
        "bomb_pickup"@,
        "bomb_abortplant"@,
        "bomb_abortdefuse"@,
        "round_start"@,
        "round_end"@,
        "round_mvp"@,
        "round_freeze_end"@,
        "round_officially_ended"@,
        "round_prestart"@,
        "round_poststart"@,
        "round_announce_match_start"@,
        "cs_win_panel_round"@,
        "hostage_rescued"@,
        "hostage_killed"@,
        "hostage_hurt"@,
        "hostage_follows"@,
        "smokegrenade_detonate"@,
        "flashbang_detonate"@,
        "hegrenade_detonate"@,
        "molotov_detonate"@,
        "inferno_startburn"@,
        "decoy_started"@,
        "item_pickup"@,
        "weapon_zoom"@,
    ]
}

fn keep_events() -> (r: Vec<String>)
    ensures
        texts(r@) == kept_names(),
{
    let mut out: Vec<String> = Vec::new();
    out.push("player_death".to_string());
    out.push("player_hurt".to_string());
    out.push("player_blind".to_string());
    out.push("player_spawn".to_string());
    out.push("player_team".to_string());
    out.push("player_connect".to_string());
    out.push("player_connect_full".to_string());
    out.push("player_disconnect".to_string());
    out.push("bomb_planted".to_string());
    out.push("bomb_defused".to_string());
    out.push("bomb_exploded".to_string());
    out.push("bomb_beginplant".to_string());
    out.push("bomb_begindefuse".to_string());
    out.push("bomb_dropped".to_string());
    out.push("bomb_pickup".to_string());
    out.push("bomb_abortplant".to_string());
    out.push("bomb_abortdefuse".to_string());
    out.push("round_start".to_string());
    out.push("round_end".to_string());
    out.push("round_mvp".to_string());
    out.push("round_freeze_end".to_string());
    out.push("round_officially_ended".to_string());
    out.push("round_prestart".to_string());
    out.push("round_poststart".to_string());
    out.push("round_announce_match_start".to_string());
    out.push("cs_win_panel_round".to_string());
    out.push("hostage_rescued".to_string());
    out.push("hostage_killed".to_string());
    out.push("hostage_hurt".to_string());
    out.push("hostage_follows".to_string());
    out.push("smokegrenade_detonate".to_string());
    out.push("flashbang_detonate".to_string());
    out.push("hegrenade_detonate".to_string());
    out.push("molotov_detonate".to_string());
    out.push("inferno_startburn".to_string());
    out.push("decoy_started".to_string());
    out.push("item_pickup".to_string());
    out.push("weapon_zoom".to_string());
    assert(texts(out@) =~= kept_names());
    out
}

fn body_fields<'a>(body: &'a [u8]) -> (r: Vec<Field<'a>>)
    ensures
        field_views(r@) == fields_from(body@, 0),
{
    let r = Reader::new(body).fields();
    assert(field_views(r@) =~= r@.map_values(|f: Field<'a>| f@));
    r
}

pub open spec fn text_or_none(v: ValueView) -> Seq<char> {
    match as_text(v) {
        Some(t) => t,
        None => Seq::empty(),
    }
}

pub open spec fn int_or_zero(v: ValueView) -> i32 {
    match as_int(v) {
        Some(n) => n as i32,
        None => 0,
    }
}

/// The value that the first `n` fields of a message give: the last of them that says.
pub open spec fn value_of(fs: Seq<FieldView>, n: int) -> ValueOf
    decreases n,
{
    if n <= 0 {
        ValueOf::Null
    } else {
        let f = fs[n - 1];
        if f.number == 2 {
            ValueOf::Str(text_or_none(f.value))
        } else if f.number == 3 {
            ValueOf::Float(
                match as_float(f.value) {
                    Some(b) => b,
                    None => 0,
                },
            )
        } else if f.number == 7 {
            ValueOf::Bool(
                match f.value.number() {
                    Some(b) => b != 0,
                    None => false,
                },
            )
        } else if f.number == 4 || f.number == 5 || f.number == 6 || f.number == 8 {
            ValueOf::Int(int_or_zero(f.value))
        } else {
            value_of(fs, n - 1)
        }
    }
}

/// The value that a message holds.
pub open spec fn value_in(body: Seq<u8>) -> ValueOf {
    value_of(fields_from(body, 0), fields_from(body, 0).len() as int)
}

fn decode_value(body: &[u8]) -> (v: EventValue)
    ensures
        v@ == value_in(body@),
{
    let fs = body_fields(body);
    let ghost all = field_views(fs@);
    let mut v = EventValue::Null;
    let mut i: usize = 0;
    while i < fs.len()
        invariant
            i <= fs@.len(),
            all == field_views(fs@),
            v@ == value_of(all, i as int),
        decreases fs@.len() - i,
    {
        let f = &fs[i];
        assert(all[i as int] == f@);
        match f.number {
            2 => {
                v = EventValue::Str(str_or_empty(f));
            },
            3 => {
                v = EventValue::Float(
                    match f.value.as_f32() {
                        Some(b) => b,
                        None => 0,
                    },
                );
            },
            4 | 5 | 6 | 8 => {
                v = EventValue::Int(int_or(f));
            },
            7 => {
                v = EventValue::Bool(
                    match f.value.as_bool() {
                        Some(b) => b,
                        None => false,
                    },
                );
            },
            _ => {},
        }
        i += 1;
    }
    v
}

fn str_or_empty(f: &Field) -> (s: String)
    ensures
        s@ == text_or_none(f@.value),
{
    match f.value.as_str() {
        Some(s) => s,
        None => String::new(),
    }
}

fn int_or(f: &Field) -> (v: i32)
    ensures
        v == int_or_zero(f@.value),
{
    match f.value.as_i32() {
        Some(v) => v,
        None => 0,
    }
}

/// The name of a field in the list: the last one that its message gives.
pub open spec fn key_of(fs: Seq<FieldView>, n: int) -> Seq<char>
    decreases n,
{
    if n <= 0 {
        Seq::empty()
    } else if fs[n - 1].number == 2 {
        text_or_none(fs[n - 1].value)
    } else {
        key_of(fs, n - 1)
    }
}

/// An entry of the list: its number, its name and those of its fields.
pub struct Described {
    pub id: i32,
    pub name: Seq<char>,
    pub keys: Seq<Seq<char>>,
}

pub open spec fn described(fs: Seq<FieldView>, n: int) -> Described
    decreases n,
{
    if n <= 0 {
        Described { id: 0, name: Seq::empty(), keys: Seq::empty() }
    } else {
        let f = fs[n - 1];
        let d = described(fs, n - 1);
        if f.number == 1 {
            Described { id: int_or_zero(f.value), ..d }
        } else if f.number == 2 {
            Described { name: text_or_none(f.value), ..d }
        } else if f.number == 3 {
            match f.value {
                ValueView::Len(b) => Described {
                    keys: d.keys.push(
                        key_of(fields_from(b, 0), fields_from(b, 0).len() as int),
                    ),
                    ..d
                },
                _ => d,
            }
        } else {
            d
        }
    }
}

pub open spec fn description(body: Seq<u8>) -> Described {
    described(fields_from(body, 0), fields_from(body, 0).len() as int)
}

/// What is known of an event by its number: its name and those of its fields.
pub type Known = Map<i32, (Seq<char>, Seq<Seq<char>>)>;

pub open spec fn known(m: Map<i32, (String, Vec<String>)>) -> Known {
    m.map_values(|d: (String, Vec<String>)| (d.0@, texts(d.1@)))
}

/// What is known after the first `n` fields of a list.
pub open spec fn listed(k: Known, fs: Seq<FieldView>, n: int) -> Known
    decreases n,
{
    if n <= 0 {
        k
    } else {
        let before = listed(k, fs, n - 1);
        match fs[n - 1].value {
            ValueView::Len(b) => if fs[n - 1].number == 1 {
                before.insert(description(b).id, (description(b).name, description(b).keys))
            } else {
                before
            },
            _ => before,
        }
    }
}

pub open spec fn after_list(k: Known, body: Seq<u8>) -> Known {
    listed(k, fields_from(body, 0), fields_from(body, 0).len() as int)
}

fn key_name(body: &[u8]) -> (s: String)
    ensures
        s@ == key_of(fields_from(body@, 0), fields_from(body@, 0).len() as int),
{
    let fs = body_fields(body);
    let ghost all = field_views(fs@);
    let mut s = String::new();
    let mut i: usize = 0;
    while i < fs.len()
        invariant
            i <= fs@.len(),
            all == field_views(fs@),
            s@ == key_of(all, i as int),
        decreases fs@.len() - i,
    {
        let f = &fs[i];
        assert(all[i as int] == f@);
        if f.number == 2 {
            s = str_or_empty(f);
        }
        i += 1;
    }
    s
}

fn read_description(body: &[u8]) -> (r: (i32, String, Vec<String>))
    ensures
        description(body@) == (Described { id: r.0, name: r.1@, keys: texts(r.2@) }),
{
    let fs = body_fields(body);
    let ghost all = field_views(fs@);
    let mut id: i32 = 0;
    let mut name = String::new();
    let mut keys: Vec<String> = Vec::new();
    assert(texts(keys@) =~= Seq::empty());
    let mut i: usize = 0;
    while i < fs.len()
        invariant
            i <= fs@.len(),
            all == field_views(fs@),
            described(all, i as int) == (Described { id, name: name@, keys: texts(keys@) }),
        decreases fs@.len() - i,
    {
        let f = &fs[i];
        assert(all[i as int] == f@);
        match f.number {
            1 => {
                id = int_or(f);
            },
            2 => {
                name = str_or_empty(f);
            },
            3 => match f.value.as_bytes() {
                Some(b) => {
                    let ghost before = texts(keys@);
                    let s = key_name(b);
                    let ghost t = s@;
                    keys.push(s);
                    assert(texts(keys@) =~= before.push(t));
                },
                None => {},
            },
            _ => {},
        }
        i += 1;
    }
    (id, name, keys)
}

fn parse_list(body: &[u8], descriptors: &mut HashMap<i32, (String, Vec<String>)>)
    ensures
        known(final(descriptors)@) == after_list(known(old(descriptors)@), body@),
{
    let fs = body_fields(body);
    let ghost all = field_views(fs@);
    let ghost k = known(descriptors@);
    let mut i: usize = 0;
    while i < fs.len()
        invariant
            i <= fs@.len(),
            all == field_views(fs@),
            known(descriptors@) == listed(k, all, i as int),
        decreases fs@.len() - i,
    {
        let f = &fs[i];
        assert(all[i as int] == f@);
        if f.number == 1 {
            match f.value.as_bytes() {
                Some(b) => {
                    let ghost before = descriptors@;
                    let (id, name, keys) = read_description(b);
                    let ghost d = (name@, texts(keys@));
                    descriptors.insert(id, (name, keys));
                    assert(known(descriptors@) =~= known(before).insert(id, d));
                },
                None => {},
            }
        }
        i += 1;
    }
}

/// An event as it is sent: its name, its number and its values.
pub struct Sent {
    pub name: Seq<char>,
    pub id: i32,
    pub values: Seq<ValueOf>,
}

pub open spec fn sent(fs: Seq<FieldView>, n: int) -> Sent
    decreases n,
{
    if n <= 0 {
        Sent { name: Seq::empty(), id: 0, values: Seq::empty() }
    } else {
        let f = fs[n - 1];
        let s = sent(fs, n - 1);
        if f.number == 1 {
            Sent { name: text_or_none(f.value), ..s }
        } else if f.number == 2 {
            Sent { id: int_or_zero(f.value), ..s }
        } else if f.number == 3 {
            match f.value {
                ValueView::Len(b) => Sent { values: s.values.push(value_in(b)), ..s },
                _ => s,
            }
        } else {
            s
        }
    }
}

/// The name of an event and those of its fields: by its number where that is known.
pub open spec fn called(s: Sent, k: Known) -> (Seq<char>, Seq<Seq<char>>) {
    if k.dom().contains(s.id) {
        k[s.id]
    } else {
        (s.name, Seq::empty())
    }
}

/// The values, each under the name of its place, as far as there are both.
pub open spec fn paired(keys: Seq<Seq<char>>, values: Seq<ValueOf>) -> Seq<FieldOf> {
    Seq::new(
        if keys.len() < values.len() {
            keys.len()
        } else {
            values.len()
        },
        |i: int| FieldOf { name: keys[i], value: values[i] },
    )
}

/// The event of a message, if it is one that is kept.
pub open spec fn event_in(body: Seq<u8>, tick: i32, k: Known) -> Option<EventOf> {
    let s = sent(fields_from(body, 0), fields_from(body, 0).len() as int);
    let (name, keys) = called(s, k);
    if kept_names().contains(name) {
        Some(EventOf { event: name, tick, fields: paired(keys, s.values) })
    } else {
        None
    }
}

pub open spec fn values_of(v: Seq<EventValue>) -> Seq<ValueOf> {
    v.map_values(|x: EventValue| x@)
}

fn read_sent(body: &[u8]) -> (r: (String, i32, Vec<EventValue>))
    ensures
        sent(fields_from(body@, 0), fields_from(body@, 0).len() as int) == (Sent {
            name: r.0@,
            id: r.1,
            values: values_of(r.2@),
        }),
{
    let fs = body_fields(body);
    let ghost all = field_views(fs@);
    let mut id: i32 = 0;
    let mut name = String::new();
    let mut values: Vec<EventValue> = Vec::new();
    assert(values_of(values@) =~= Seq::empty());
    let mut i: usize = 0;
    while i < fs.len()
        invariant
            i <= fs@.len(),
            all == field_views(fs@),
            sent(all, i as int) == (Sent { name: name@, id, values: values_of(values@) }),
        decreases fs@.len() - i,
    {
        let f = &fs[i];
        assert(all[i as int] == f@);
        match f.number {
            1 => {
                name = str_or_empty(f);
            },
            2 => {
                id = int_or(f);
            },
            3 => match f.value.as_bytes() {
                Some(b) => {
                    let ghost before = values_of(values@);
                    let v = decode_value(b);
                    let ghost w = v@;
                    values.push(v);
                    assert(values_of(values@) =~= before.push(w));
                },
                None => {},
            },
            _ => {},
        }
        i += 1;
    }
    (name, id, values)
}

fn pair(keys: &Vec<String>, values: Vec<EventValue>) -> (r: Vec<EventField>)
    ensures
        fields_of(r@) == paired(texts(keys@), values_of(values@)),
{
    let mut values = values;
    let ghost all = values_of(values@);
    let n: usize = if keys.len() < values.len() {
        keys.len()
    } else {
        values.len()
    };
    let mut out: Vec<EventField> = Vec::new();
    let mut i: usize = 0;
    while i < n
        invariant
            i <= n <= keys@.len(),
            n <= all.len(),
            values@.len() == all.len(),
            forall|k: int| i <= k < all.len() ==> (#[trigger] values@[k])@ == all[k],
            out@.len() == i,
            forall|k: int|
                0 <= k < i ==> (#[trigger] out@[k])@ == (FieldOf {
                    name: keys@[k]@,
                    value: all[k],
                }),
        decreases n - i,
    {
        let mut value = EventValue::Null;
        std::mem::swap(&mut value, &mut values[i]);
        out.push(EventField { name: keys[i].clone(), value });
        i += 1;
    }
    assert(fields_of(out@) =~= paired(texts(keys@), all));
    out
}

fn parse_event(
    body: &[u8],
    tick: i32,
    descriptors: &HashMap<i32, (String, Vec<String>)>,
    kept: &Vec<String>,
) -> (r: Option<GameEvent>)
    requires
        texts(kept@) == kept_names(),
    ensures
        match (r, event_in(body@, tick, known(descriptors@))) {
            (Some(e), Some(s)) => e@ == s,
            (None, None) => true,
            _ => false,
        },
{
    let (name, id, values) = read_sent(body);
    let ghost k = known(descriptors@);
    match descriptors.get(&id) {
        Some(d) => {
            assert(k[id] == (d.0@, texts(d.1@)));
            if !contains_text(kept, d.0.as_str()) {
                return None;
            }
            let fields = pair(&d.1, values);
            Some(GameEvent { event: d.0.clone(), tick, fields })
        },
        None => {
            if !contains_text(kept, name.as_str()) {
                return None;
            }
            let fields: Vec<EventField> = Vec::new();
            assert(fields_of(fields@) =~= paired(Seq::empty(), values_of(values@)));
            Some(GameEvent { event: name, tick, fields })
        },
    }
}

/// What has been read: the lists of events, and the events.
pub struct Progress {
    pub known: Known,
    pub events: Seq<EventOf>,
}

pub open spec fn with_event(p: Progress, o: Option<EventOf>) -> Progress {
    match o {
        Some(e) => Progress { events: p.events.push(e), ..p },
        None => p,
    }
}

/// After the first `n` messages of a packet.
pub open spec fn after_frames(p: Progress, fs: Seq<Frame>, tick: i32, n: int) -> Progress
    decreases n,
{
    if n <= 0 {
        p
    } else {
        let before = after_frames(p, fs, tick, n - 1);
        let f = fs[n - 1];
        if f.id == 30 {
            Progress { known: after_list(before.known, f.body), ..before }
        } else if f.id == 25 {
            with_event(before, event_in(f.body, tick, before.known))
        } else {
            before
        }
    }
}

pub open spec fn after_payload(p: Progress, payload: Seq<u8>, tick: i32) -> Progress {
    after_frames(p, frames_from(payload, 0), tick, frames_from(payload, 0).len() as int)
}

fn process(
    payload: &[u8],
    tick: i32,
    descriptors: &mut HashMap<i32, (String, Vec<String>)>,
    out: &mut Vec<GameEvent>,
    kept: &Vec<String>,
)
    requires
        texts(kept@) == kept_names(),
    ensures
        (Progress { known: known(final(descriptors)@), events: events_of(final(out)@) })
            == after_payload(
            Progress { known: known(old(descriptors)@), events: events_of(old(out)@) },
            payload@,
            tick,
        ),
{
    let ms = scan_payload(payload);
    let ghost fs = frames_from(payload@, 0);
    let ghost p = Progress { known: known(descriptors@), events: events_of(out@) };
    assert(fs.len() == ms@.len());
    let mut i: usize = 0;
    while i < ms.len()
        invariant
            i <= ms@.len(),
            texts(kept@) == kept_names(),
            fs == ms@.map_values(|m: NetMessage| m@),
            forall|k: int| 0 <= k < ms@.len() ==> (#[trigger] ms@[k]).wf(),
            (Progress { known: known(descriptors@), events: events_of(out@) }) == after_frames(
                p,
                fs,
                tick,
                i as int,
            ),
        decreases ms@.len() - i,
    {
        let m = &ms[i];
        assert(fs[i as int] == m@);
        assert(ms@[i as int].wf());
        match m.kind {
            MsgKind::SvcGameEventList => {
                parse_list(m.body, descriptors);
            },
            MsgKind::SvcGameEvent => match parse_event(m.body, tick, descriptors, kept) {
                Some(e) => {
                    let ghost before = events_of(out@);
                    let ghost one = e@;
                    out.push(e);
                    assert(events_of(out@) =~= before.push(one));
                },
                None => {},
            },
            _ => {
                assert(MsgKind::named(30) && MsgKind::named(25));
            },
        }
        i += 1;
    }
}

pub open spec fn payloads(v: Seq<Vec<u8>>) -> Seq<Seq<u8>> {
    v.map_values(|p: Vec<u8>| p@)
}

pub open spec fn after_signon(signon: Seq<Seq<u8>>, n: int) -> Progress
    decreases n,
{
    if n <= 0 {
        Progress { known: Map::empty(), events: Seq::empty() }
    } else {
        after_payload(after_signon(signon, n - 1), signon[n - 1], 0)
    }
}

/// After the first `n` packets, each a tick and a range of the data; a range that is
/// none is passed over.
pub open spec fn after_packets(
    p: Progress,
    packets: Seq<(i32, usize, usize)>,
    data: Seq<u8>,
    n: int,
) -> Progress
    decreases n,
{
    if n <= 0 {
        p
    } else {
        let before = after_packets(p, packets, data, n - 1);
        let (tick, start, end) = packets[n - 1];
        if start <= end <= data.len() {
            after_payload(before, data.subrange(start as int, end as int), tick)
        } else {
            before
        }
    }
}

/// Reads the events of a demo: first its signon packets, whose events have no tick,
/// then the others.
pub fn decode_events(signon: &Vec<Vec<u8>>, packets: &Vec<(i32, usize, usize)>, data: &[u8]) -> (out:
    Vec<GameEvent>)
    ensures
        events_of(out@) == after_packets(
            after_signon(payloads(signon@), signon@.len() as int),
            packets@,
            data@,
            packets@.len() as int,
        ).events,
{
    let kept = keep_events();
    let mut descriptors: HashMap<i32, (String, Vec<String>)> = HashMap::new();
    let mut out: Vec<GameEvent> = Vec::new();
    assert(known(descriptors@) =~= Map::empty());
    assert(events_of(out@) =~= Seq::empty());
    let mut i: usize = 0;
    while i < signon.len()
        invariant
            i <= signon@.len(),
            texts(kept@) == kept_names(),
            (Progress { known: known(descriptors@), events: events_of(out@) }) == after_signon(
                payloads(signon@),
                i as int,
            ),
        decreases signon@.len() - i,
    {
        assert(payloads(signon@)[i as int] == signon@[i as int]@);
        process(signon[i].as_slice(), 0, &mut descriptors, &mut out, &kept);
        i += 1;
    }
    let ghost p = after_signon(payloads(signon@), signon@.len() as int);
    let mut j: usize = 0;
    while j < packets.len()
        invariant
            j <= packets@.len(),
            texts(kept@) == kept_names(),
            (Progress { known: known(descriptors@), events: events_of(out@) }) == after_packets(
                p,
                packets@,
                data@,
                j as int,
            ),
        decreases packets@.len() - j,
    {
        let (tick, start, end) = packets[j];
        if start <= end && end <= data.len() {
            process(
                vstd::slice::slice_subrange(data, start, end),
                tick,
                &mut descriptors,
                &mut out,
                &kept,
            );
        }
        j += 1;
    }
    out
}

/// Whether all events are ones that are kept.
pub open spec fn all_kept(p: Progress) -> bool {
    forall|i: int| 0 <= i < p.events.len() ==> kept_names().contains((#[trigger] p.events[i]).event)
}

proof fn lemma_frames_kept(p: Progress, fs: Seq<Frame>, tick: i32, n: int)
    requires
        all_kept(p),
    ensures
        all_kept(after_frames(p, fs, tick, n)),
    decreases n,
{
    if n > 0 {
        lemma_frames_kept(p, fs, tick, n - 1);
    }
}

proof fn lemma_signon_kept(signon: Seq<Seq<u8>>, n: int)
    ensures
        all_kept(after_signon(signon, n)),
    decreases n,
{
    if n > 0 {
        lemma_signon_kept(signon, n - 1);
        let fs = frames_from(signon[n - 1], 0);
        lemma_frames_kept(after_signon(signon, n - 1), fs, 0, fs.len() as int);
    }
}

/// Whatever a demo tells, only events that are kept are read from it.
pub proof fn law_only_kept(
    signon: Seq<Seq<u8>>,
    m: int,
    packets: Seq<(i32, usize, usize)>,
    data: Seq<u8>,
    n: int,
)
    ensures
        all_kept(after_packets(after_signon(signon, m), packets, data, n)),
    decreases n,
{
    if n <= 0 {
        lemma_signon_kept(signon, m);
    } else {
        law_only_kept(signon, m, packets, data, n - 1);
        let (tick, start, end) = packets[n - 1];
        let fs = frames_from(data.subrange(start as int, end as int), 0);
        lemma_frames_kept(
            after_packets(after_signon(signon, m), packets, data, n - 1),
            fs,
            tick,
            fs.len() as int,
        );
    }
}

} // verus!
