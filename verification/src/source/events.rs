//! Game events: the list that says how each is written, the events themselves among
//! the messages of a packet, and the breaks that they put into a player's path.
use crate::bits::{bits_at, countable, lemma_cstring_onward, BitReader, Cursor};
use crate::bytes::{signed16, signed32, to_i16, to_i32};
use crate::source::messages::{canonical, canonical_id, is_plain, past_bits, past_sized, plain,
    plain_end, reached, skip_plain, skip_sized};
use crate::text::{contains_text, lossy_chars, str_eq, text_holds, texts};
use std::collections::HashMap;
use vstd::arithmetic::power2::{lemma2_to64, pow2};
use vstd::prelude::*;

verus! {

broadcast use vstd::std_specs::hash::group_hash_axioms;

/// What a player pressed and where they looked at a tick; the angles and speeds are
/// the bits of IEEE-754 numbers.
#[derive(Debug, Clone, Copy, PartialEq, Eq)]
pub struct SampledCmd {
    pub tick: i32,
    pub pitch: u32,
    pub yaw: u32,
    pub fwd: u32,
    pub side: u32,
    pub btns: u32,
    pub weapon: u32,
}

/// The value of a field; a float is the bits of an IEEE-754 number.
#[derive(Debug, PartialEq, Eq)]
pub enum EventValue {
    Str(String),
    Float(u32),
    Int(i32),
    Bool(bool),
    Null,
}

pub enum ValueOf {
    Str(Seq<char>),
    Float(u32),
    Int(i32),
    Bool(bool),
    Null,
}

impl EventValue {
    pub open spec fn view(&self) -> ValueOf {
        match self {
            EventValue::Str(s) => ValueOf::Str(s@),
            EventValue::Float(f) => ValueOf::Float(*f),
            EventValue::Int(i) => ValueOf::Int(*i),
            EventValue::Bool(b) => ValueOf::Bool(*b),
            EventValue::Null => ValueOf::Null,
        }
    }
}

#[derive(Debug, PartialEq, Eq)]
pub struct EventField {
    pub name: String,
    pub value: EventValue,
}

#[derive(Debug, PartialEq, Eq)]
pub struct GameEvent {
    pub event: String,
    pub tick: i32,
    pub fields: Vec<EventField>,
}

pub struct FieldOf {
    pub name: Seq<char>,
    pub value: ValueOf,
}

pub struct EventOf {
    pub event: Seq<char>,
    pub tick: i32,
    pub fields: Seq<FieldOf>,
}

impl EventField {
    pub open spec fn view(&self) -> FieldOf {
        FieldOf { name: self.name@, value: self.value@ }
    }
}

impl GameEvent {
    pub open spec fn view(&self) -> EventOf {
        EventOf { event: self.event@, tick: self.tick, fields: fields_of(self.fields@) }
    }
}

pub open spec fn fields_of(v: Seq<EventField>) -> Seq<FieldOf> {
    v.map_values(|f: EventField| f@)
}

pub open spec fn events_of(v: Seq<GameEvent>) -> Seq<EventOf> {
    v.map_values(|e: GameEvent| e@)
}

/// How an event is written: its name, and the name and type of each field. The types
/// are 1 text, 2 float, 3 long, 4 short, 5 byte, 6 bool and 7 not sent.
#[derive(Debug, PartialEq, Eq)]
pub struct EventSchema {
    pub name: String,
    pub fields: Vec<(String, u8)>,
}

pub struct SchemaOf {
    pub name: Seq<char>,
    pub fields: Seq<(Seq<char>, u8)>,
}

pub open spec fn kinds_of(v: Seq<(String, u8)>) -> Seq<(Seq<char>, u8)> {
    v.map_values(|f: (String, u8)| (f.0@, f.1))
}

impl EventSchema {
    pub open spec fn view(&self) -> SchemaOf {
        SchemaOf { name: self.name@, fields: kinds_of(self.fields@) }
    }
}

pub open spec fn schemas_of(m: Map<u16, EventSchema>) -> Map<u16, SchemaOf> {
    m.map_values(|s: EventSchema| s@)
}

/// The fields of an event up to the type that ends them, none of which may start more
/// than 64 bits behind the end of the list.
pub open spec fn kinds_from(c: Cursor, end: int) -> Option<(Seq<(Seq<char>, u8)>, Cursor)>
    decreases
            if c.pos < end + 64 {
                end + 64 - c.pos
            } else {
                0
            },
    via kinds_from_decreases
{
    if c.pos >= end + 64 || c.left() < 3 {
        None
    } else {
        match c.take(3) {
            None => None,
            Some((t, e)) => if t == 0 {
                Some((Seq::empty(), e))
            } else {
                match e.cstring(64) {
                    None => None,
                    Some((b, f)) => match kinds_from(f, end) {
                        None => None,
                        Some((rest, g)) => Some((seq![(lossy_chars(b), t as u8)] + rest, g)),
                    },
                }
            },
        }
    }
}

#[via_fn]
proof fn kinds_from_decreases(c: Cursor, end: int) {
    lemma_cstring_onward(c.adv(3), 64);
}

pub open spec fn opened(o: Option<(Seq<(Seq<char>, u8)>, Cursor)>, head: Seq<(Seq<char>, u8)>) -> Option<
    (Seq<(Seq<char>, u8)>, Cursor),
> {
    match o {
        Some((rest, g)) => Some((head + rest, g)),
        None => None,
    }
}

fn read_kinds(br: &mut BitReader, end: u64) -> (r: Option<Vec<(String, u8)>>)
    requires
        old(br).wf(),
        end <= u64::MAX - 64,
    ensures
        final(br).wf(),
        final(br)@.d == old(br)@.d,
        match (r, kinds_from(old(br)@, end as int)) {
            (Some(v), Some((k, e))) => kinds_of(v@) == k && final(br)@ == e,
            (None, None) => true,
            _ => false,
        },
{
    let mut out: Vec<(String, u8)> = Vec::new();
    proof {
        lemma2_to64();
        match kinds_from(br@, end as int) {
            Some((k, _)) => {
                assert(kinds_of(out@) + k =~= k);
            },
            None => {},
        }
    }
    loop
        invariant
            br.wf(),
            br@.d == old(br)@.d,
            end <= u64::MAX - 64,
            pow2(3) == 8,
            kinds_from(old(br)@, end as int) == opened(
                kinds_from(br@, end as int),
                kinds_of(out@),
            ),
        decreases
                if br@.pos < end + 64 {
                    end + 64 - br@.pos
                } else {
                    0
                },
    {
        if br.bit_pos() >= end + 64 || br.bits_remaining() < 3 {
            return None;
        }
        let ghost c = br@;
        let t: u32 = match br.read_bits(3) {
            Some(t) => t,
            None => {
                return None;
            },
        };
        if t == 0 {
            assert(kinds_of(out@) + Seq::<(Seq<char>, u8)>::empty() =~= kinds_of(out@));
            return Some(out);
        }
        let ghost e = br@;
        proof {
            lemma_cstring_onward(e, 64);
        }
        match br.read_cstring_any(64) {
            None => {
                return None;
            },
            Some(s) => {
                let ghost head = kinds_of(out@);
                let ghost one = (s@, t as u8);
                out.push((s, t as u8));
                proof {
                    assert(kinds_of(out@) =~= head.push(one));
                    match kinds_from(br@, end as int) {
                        Some((k, _)) => {
                            assert(head + (seq![one] + k) =~= head.push(one) + k);
                        },
                        None => {},
                    }
                }
            },
        }
    }
}

/// One entry of the list: its number, name and fields.
pub open spec fn schema_at(c: Cursor, end: int) -> Option<((u16, SchemaOf), Cursor)> {
    if c.pos >= end {
        None
    } else {
        match c.take(9) {
            None => None,
            Some((id, c1)) => match c1.name(64) {
                None => None,
                Some((name, c2)) => if name.len() == 0 {
                    None
                } else {
                    match kinds_from(c2, end) {
                        None => None,
                        Some((fields, c3)) => Some(((id as u16, SchemaOf { name, fields }), c3)),
                    }
                },
            },
        }
    }
}

/// The next `n` entries; a number that comes twice has the later one.
pub open spec fn schemas_from(c: Cursor, end: int, n: int, m: Map<u16, SchemaOf>, death: bool) -> Option<
    (Map<u16, SchemaOf>, bool),
>
    decreases n,
{
    if n <= 0 {
        Some((m, death))
    } else {
        match schema_at(c, end) {
            None => None,
            Some(((id, s), e)) => schemas_from(
                e,
                end,
                n - 1,
                m.insert(id, s),
                death || s.name == "player_death"@,
            ),
        }
    }
}

/// The list of events at a bit: 10 to 512 of them, in as many bits as it says, one of
/// which is the death of a player.
pub open spec fn list_at(d: Seq<u8>, start: int) -> Option<Map<u16, SchemaOf>> {
    let c = Cursor { d, pos: start, end: 8 * d.len() as int };
    match c.take(9) {
        None => None,
        Some((n, c1)) => match c1.take(20) {
            None => None,
            Some((size, c2)) => if n < 10 || n > 512 || size < 20 * n || size > 200_000 {
                None
            } else {
                match schemas_from(c2, c2.pos + size, n, Map::empty(), false) {
                    Some((m, true)) => Some(m),
                    _ => None,
                }
            },
        },
    }
}

fn read_schema(br: &mut BitReader, end: u64) -> (r: Option<(u16, EventSchema)>)
    requires
        old(br).wf(),
        end <= u64::MAX - 64,
    ensures
        final(br).wf(),
        final(br)@.d == old(br)@.d,
        match (r, schema_at(old(br)@, end as int)) {
            (Some(v), Some((s, e))) => (v.0, v.1@) == s && final(br)@ == e,
            (None, None) => true,
            _ => false,
        },
{
    if br.bit_pos() >= end {
        return None;
    }
    proof {
        lemma2_to64();
    }
    let id: u32 = match br.read_bits(9) {
        Some(v) => v,
        None => {
            return None;
        },
    };
    let name = match br.try_read_cstring(64) {
        Some(s) => s,
        None => {
            return None;
        },
    };
    if crate::text::is_empty_text(name.as_str()) {
        return None;
    }
    match read_kinds(br, end) {
        Some(fields) => Some((id as u16, EventSchema { name, fields })),
        None => None,
    }
}

fn try_parse_event_list(payload: &[u8], start: u64) -> (r: Option<HashMap<u16, EventSchema>>)
    requires
        countable(payload@),
    ensures
        match (r, list_at(payload@, start as int)) {
            (Some(m), Some(s)) => schemas_of(m@) == s,
            (None, None) => true,
            _ => false,
        },
{
    let mut br = BitReader::new_at(payload, start);
    proof {
        lemma2_to64();
    }
    let n: u32 = match br.read_bits(9) {
        Some(v) => v,
        None => {
            return None;
        },
    };
    let size: u32 = match br.read_bits(20) {
        Some(v) => v,
        None => {
            return None;
        },
    };
    if n < 10 || n > 512 || size < n * 20 || size > 200_000 {
        return None;
    }
    proof {
        br.lemma_wf();
    }
    let end: u64 = br.bit_pos() + size as u64;
    let ghost c = br@;
    let mut m: HashMap<u16, EventSchema> = HashMap::new();
    assert(schemas_of(m@) =~= Map::empty());
    let mut death = false;
    let mut i: u32 = 0;
    while i < n
        invariant
            br.wf(),
            i <= n,
            end <= u64::MAX - 64,
            schemas_from(c, end as int, n as int, Map::empty(), false) == schemas_from(
                br@,
                end as int,
                n - i,
                schemas_of(m@),
                death,
            ),
            10 <= n <= 512,
            20 * n <= size <= 200_000,
            (Cursor { d: payload@, pos: start as int, end: 8 * payload@.len() as int }).take(9) matches Some((x, c1))
                && x == n && c1.take(20) == Some((size as int, c)),
            end == c.pos + size,
        decreases n - i,
    {
        match read_schema(&mut br, end) {
            None => {
                return None;
            },
            Some((id, s)) => {
                if str_eq(s.name.as_str(), "player_death") {
                    death = true;
                }
                let ghost m0 = m@;
                let ghost s0 = s@;
                m.insert(id, s);
                assert(schemas_of(m@) =~= schemas_of(m0).insert(id, s0));
            },
        }
        i += 1;
    }
    if death {
        Some(m)
    } else {
        None
    }
}

/// The first place among the first 50000 bits of a packet, up to 40 bits from its
/// end, that has the number of the list and then a list.
pub open spec fn list_from(d: Seq<u8>, start: int, last: int) -> Option<Map<u16, SchemaOf>>
    decreases last - start,
{
    if start >= last {
        None
    } else if bits_at(d, start, 6) == 30 && list_at(d, start + 6) is Some {
        list_at(d, start + 6)
    } else {
        list_from(d, start + 1, last)
    }
}

pub open spec fn list_in(d: Seq<u8>) -> Option<Map<u16, SchemaOf>> {
    if d.len() < 20 {
        None
    } else {
        list_from(
            d,
            0,
            if 8 * d.len() < 50_000 {
                8 * d.len() - 40
            } else {
                49_960
            },
        )
    }
}

/// Looks for the list of events in a packet.
pub fn scan_for_game_event_list(payload: &[u8]) -> (r: Option<HashMap<u16, EventSchema>>)
    requires
        countable(payload@),
    ensures
        match (r, list_in(payload@)) {
            (Some(m), Some(s)) => schemas_of(m@) == s,
            (None, None) => true,
            _ => false,
        },
{
    if payload.len() < 20 {
        return None;
    }
    let total: u64 = payload.len() as u64 * 8;
    let last: u64 = if total < 50_000 {
        total - 40
    } else {
        49_960
    };
    let mut start: u64 = 0;
    while start < last
        invariant
            countable(payload@),
            start <= last <= 8 * payload@.len() - 40,
            list_in(payload@) == list_from(payload@, start as int, last as int),
        decreases last - start,
    {
        if crate::bits::get_bits(payload, start, 6) == 30 {
            match try_parse_event_list(payload, start + 6) {
                Some(m) => {
                    return Some(m);
                },
                None => {},
            }
        }
        start += 1;
    }
    None
}

/// The value of a field of a type.
pub open spec fn value_at(c: Cursor, t: u8) -> Option<(ValueOf, Cursor)> {
    if t == 1 {
        match c.cstring(256) {
            Some((b, e)) => Some((ValueOf::Str(lossy_chars(b)), e)),
            None => None,
        }
    } else if t == 2 {
        match c.take(32) {
            Some((v, e)) => Some((ValueOf::Float(v as u32), e)),
            None => None,
        }
    } else if t == 3 {
        match c.take(32) {
            Some((v, e)) => Some((ValueOf::Int(signed32(v) as i32), e)),
            None => None,
        }
    } else if t == 4 {
        match c.take(16) {
            Some((v, e)) => Some((ValueOf::Int(signed16(v) as i32), e)),
            None => None,
        }
    } else if t == 5 {
        match c.take(8) {
            Some((v, e)) => Some((ValueOf::Int(v as i32), e)),
            None => None,
        }
    } else if t == 6 {
        match c.take(1) {
            Some((v, e)) => Some((ValueOf::Bool(v == 1), e)),
            None => None,
        }
    } else {
        Some((ValueOf::Null, c))
    }
}

/// The fields of an event from the `i`-th on, in the order of the list.
pub open spec fn values_from(c: Cursor, ks: Seq<(Seq<char>, u8)>, i: int) -> Option<Seq<FieldOf>>
    decreases ks.len() - i,
{
    if i < 0 || i >= ks.len() {
        Some(Seq::empty())
    } else {
        match value_at(c, ks[i].1) {
            None => None,
            Some((value, e)) => match values_from(e, ks, i + 1) {
                None => None,
                Some(rest) => Some(seq![FieldOf { name: ks[i].0, value }] + rest),
            },
        }
    }
}

fn read_value(br: &mut BitReader, t: u8) -> (r: Option<EventValue>)
    requires
        old(br).wf(),
    ensures
        final(br).wf(),
        final(br)@.d == old(br)@.d,
        final(br)@.end == old(br)@.end,
        match (r, value_at(old(br)@, t)) {
            (Some(v), Some((w, e))) => v@ == w && final(br)@ == e,
            (None, None) => true,
            _ => false,
        },
{
    proof {
        lemma2_to64();
    }
    match t {
        1 => match br.read_cstring_any(256) {
            Some(s) => Some(EventValue::Str(s)),
            None => None,
        },
        2 => match br.read_bit_float() {
            Some(f) => Some(EventValue::Float(f)),
            None => None,
        },
        3 => match br.read_bits(32) {
            Some(v) => Some(EventValue::Int(to_i32(v))),
            None => None,
        },
        4 => match br.read_bits(16) {
            Some(v) => Some(EventValue::Int(to_i16(v as u16) as i32)),
            None => None,
        },
        5 => match br.read_bits(8) {
            Some(v) => Some(EventValue::Int(v as i32)),
            None => None,
        },
        6 => match br.read_bits(1) {
            Some(v) => Some(EventValue::Bool(v != 0)),
            None => None,
        },
        _ => Some(EventValue::Null),
    }
}

pub open spec fn after(o: Option<Seq<FieldOf>>, head: Seq<FieldOf>) -> Option<Seq<FieldOf>> {
    match o {
        Some(rest) => Some(head + rest),
        None => None,
    }
}

fn parse_event_fields_bits(br: &mut BitReader, fields: &Vec<(String, u8)>) -> (r: Option<
    Vec<EventField>,
>)
    requires
        old(br).wf(),
    ensures
        final(br).wf(),
        final(br)@.d == old(br)@.d,
        final(br)@.end == old(br)@.end,
        match (r, values_from(old(br)@, kinds_of(fields@), 0)) {
            (Some(v), Some(s)) => fields_of(v@) == s,
            (None, None) => true,
            _ => false,
        },
{
    let mut out: Vec<EventField> = Vec::new();
    let ghost ks = kinds_of(fields@);
    proof {
        match values_from(br@, ks, 0) {
            Some(s) => {
                assert(fields_of(out@) + s =~= s);
            },
            None => {},
        }
    }
    let mut i: usize = 0;
    while i < fields.len()
        invariant
            br.wf(),
            br@.d == old(br)@.d,
            br@.end == old(br)@.end,
            i <= fields@.len(),
            ks == kinds_of(fields@),
            values_from(old(br)@, ks, 0) == after(
                values_from(br@, ks, i as int),
                fields_of(out@),
            ),
        decreases fields@.len() - i,
    {
        let ghost c = br@;
        let t: u8 = fields[i].1;
        assert(ks[i as int] == (fields@[i as int].0@, t));
        match read_value(br, t) {
            None => {
                return None;
            },
            Some(value) => {
                let ghost head = fields_of(out@);
                let name = fields[i].0.clone();
                let f = EventField { name, value };
                let ghost one = f@;
                out.push(f);
                proof {
                    assert(fields_of(out@) =~= head.push(one));
                    match values_from(br@, ks, i + 1) {
                        Some(s) => {
                            assert(head + (seq![one] + s) =~= head.push(one) + s);
                        },
                        None => {},
                    }
                }
            },
        }
        i += 1;
    }
    assert(fields_of(out@) + Seq::<FieldOf>::empty() =~= fields_of(out@));
    Some(out)
}

/// What the name of a chat line is made of.
pub open spec fn chat_char(c: char) -> bool {
    ('0' <= c && c <= '9') || ('A' <= c && c <= 'Z') || ('a' <= c && c <= 'z') || c == '_' || c
        == ':'
}

/// A chat line: two bytes, its kind, who says it and what.
pub open spec fn chat_at(c: Cursor, tick: i32) -> Option<EventOf> {
    match past_bits(past_bits(Some(c), 8), 8) {
        None => None,
        Some(c1) => match c1.cstring(64) {
            None => None,
            Some((kind, c2)) => match c2.cstring(64) {
                None => None,
                Some((player, c3)) => match c3.cstring(256) {
                    None => None,
                    Some((message, _)) => chat(
                        lossy_chars(kind),
                        lossy_chars(player),
                        lossy_chars(message),
                        tick,
                    ),
                },
            },
        },
    }
}

/// The event of a chat line. Its kind says whether it went to the team alone.
pub open spec fn chat(
    kind: Seq<char>,
    player: Seq<char>,
    message: Seq<char>,
    tick: i32,
) -> Option<EventOf> {
    if kind.len() == 0 || !(forall|i: int| 0 <= i < kind.len() ==> chat_char(#[trigger] kind[i]))
        || (player.len() == 0 && message.len() == 0) {
        None
    } else {
        Some(
            EventOf {
                event: if crate::text::holds(kind, "Team"@) || crate::text::holds(kind, "team"@) {
                    "say_team"@
                } else {
                    "say"@
                },
                tick,
                fields: seq![
                    FieldOf { name: "player"@, value: ValueOf::Str(player) },
                    FieldOf { name: "text"@, value: ValueOf::Str(message) },
                ],
            },
        )
    }
}

/// The event of a chat line, given what it says.
pub fn chat_event(kind: &str, player: String, message: String, tick: i32) -> (r: Option<GameEvent>)
    ensures
        match (r, chat(kind@, player@, message@, tick)) {
            (Some(e), Some(s)) => e@ == s,
            (None, None) => true,
            _ => false,
        },
{
    if crate::text::is_empty_text(kind) {
        return None;
    }
    let cs = crate::text::chars_of(kind);
    let mut i: usize = 0;
    while i < cs.len()
        invariant
            i <= cs@.len(),
            cs@ == kind@,
            forall|k: int| 0 <= k < i ==> chat_char(#[trigger] kind@[k]),
        decreases cs@.len() - i,
    {
        let c: char = cs[i];
        let ok = ('0' <= c && c <= '9') || ('A' <= c && c <= 'Z') || ('a' <= c && c <= 'z') || c
            == '_' || c == ':';
        if !ok {
            assert(!chat_char(kind@[i as int]));
            return None;
        }
        i += 1;
    }
    if crate::text::is_empty_text(player.as_str()) && crate::text::is_empty_text(message.as_str()) {
        return None;
    }
    let name = if text_holds(kind, "Team") || text_holds(kind, "team") {
        "say_team".to_string()
    } else {
        "say".to_string()
    };
    let mut fields: Vec<EventField> = Vec::new();
    fields.push(EventField { name: "player".to_string(), value: EventValue::Str(player) });
    fields.push(EventField { name: "text".to_string(), value: EventValue::Str(message) });
    let e = GameEvent { event: name, tick, fields };
    assert(e@.fields =~= seq![
        FieldOf { name: "player"@, value: ValueOf::Str(player@) },
        FieldOf { name: "text"@, value: ValueOf::Str(message@) },
    ]);
    Some(e)
}

fn try_parse_say_text2(br: &mut BitReader, tick: i32) -> (r: Option<GameEvent>)
    requires
        old(br).wf(),
    ensures
        final(br).wf(),
        final(br)@.d == old(br)@.d,
        final(br)@.end == old(br)@.end,
        match (r, chat_at(old(br)@, tick)) {
            (Some(e), Some(s)) => e@ == s,
            (None, None) => true,
            _ => false,
        },
{
    if !br.skip(8) || !br.skip(8) {
        return None;
    }
    let kind = match br.read_cstring_any(64) {
        Some(s) => s,
        None => {
            return None;
        },
    };
    let player = match br.read_cstring_any(64) {
        Some(s) => s,
        None => {
            return None;
        },
    };
    let message = match br.read_cstring_any(256) {
        Some(s) => s,
        None => {
            return None;
        },
    };
    chat_event(kind.as_str(), player, message, tick)
}

/// What the events of a packet are read by.
pub struct Reading {
    pub tick: i32,
    pub schemas: Map<u16, SchemaOf>,
    pub shown: Seq<Seq<char>>,
    pub remap: bool,
    pub wide: bool,
    pub newer: bool,
}

pub open spec fn shown_only(o: Option<EventOf>, shown: Seq<Seq<char>>) -> Option<EventOf> {
    match o {
        Some(e) => if shown.contains(e.event) {
            Some(e)
        } else {
            None
        },
        None => None,
    }
}

/// A message to the user: its kind, its length and then that many bits, in which two
/// kinds hold a chat line.
pub open spec fn user_message(c: Cursor, r: Reading) -> Option<(Cursor, Option<EventOf>)> {
    match c.take(8) {
        None => None,
        Some((kind, c1)) => match c1.take(
            if r.wide {
                12
            } else {
                11
            },
        ) {
            None => None,
            Some((length, c2)) => Some(
                (
                    c2.adv(length),
                    if (kind == 3 || kind == 4) && length >= 16 {
                        shown_only(chat_at(c2, r.tick), r.shown)
                    } else {
                        None
                    },
                ),
            ),
        },
    }
}

/// A game event: its length, and within it its number in the list and its fields.
pub open spec fn game_event(c: Cursor, r: Reading) -> Option<(Cursor, Option<EventOf>)> {
    match c.take(11) {
        None => None,
        Some((length, c1)) => match c1.take(9) {
            None => None,
            Some((id, c2)) => Some(
                (
                    c1.adv(length),
                    if r.schemas.dom().contains(id as u16) && r.shown.contains(
                        r.schemas[id as u16].name,
                    ) {
                        match values_from(c2, r.schemas[id as u16].fields, 0) {
                            Some(fields) => Some(
                                EventOf {
                                    event: r.schemas[id as u16].name,
                                    tick: r.tick,
                                    fields,
                                },
                            ),
                            None => None,
                        }
                    } else {
                        None
                    },
                ),
            ),
        },
    }
}

/// An update of a string table.
pub open spec fn past_table(c: Cursor) -> Option<Cursor> {
    match past_bits(Some(c), 5) {
        None => None,
        Some(c1) => match c1.take(1) {
            None => None,
            Some((several, c2)) => past_sized(
                if several == 1 {
                    past_bits(Some(c2), 16)
                } else {
                    Some(c2)
                },
                20,
                1,
            ),
        },
    }
}

/// The entities of a packet.
pub open spec fn past_entities(c: Cursor) -> Option<Cursor> {
    match past_bits(Some(c), 11) {
        None => None,
        Some(c1) => match c1.take(1) {
            None => None,
            Some((delta, c2)) => match past_bits(
                past_bits(
                    if delta == 1 {
                        past_bits(Some(c2), 32)
                    } else {
                        Some(c2)
                    },
                    1,
                ),
                11,
            ) {
                None => None,
                Some(c3) => match c3.take(20) {
                    None => None,
                    Some((length, c4)) => past_bits(past_bits(Some(c4), 1), length),
                },
            },
        },
    }
}

/// A message that holds no event.
pub open spec fn silent(o: Option<Cursor>) -> Option<(Cursor, Option<EventOf>)> {
    match o {
        Some(c) => Some((c, None)),
        None => None,
    }
}

/// A message: what follows it, and the event in it. None where the walk ends.
pub open spec fn message_at(c: Cursor, r: Reading) -> Option<(Cursor, Option<EventOf>)> {
    match c.take(6) {
        None => None,
        Some((raw, c1)) => {
            let t = canonical(raw as u32, r.remap);
            if is_plain(t) {
                silent(plain_end(c1, t, r.newer))
            } else if t == 13 {
                silent(past_table(c1))
            } else if t == 23 {
                user_message(c1, r)
            } else if t == 25 {
                game_event(c1, r)
            } else if t == 26 {
                silent(past_entities(c1))
            } else {
                None
            }
        },
    }
}

pub open spec fn maybe<T>(o: Option<T>) -> Seq<T> {
    match o {
        Some(x) => seq![x],
        None => Seq::empty(),
    }
}

/// The events from a bit on.
pub open spec fn events_from(c: Cursor, r: Reading) -> Seq<EventOf>
    decreases
            if c.pos < c.end {
                c.end - c.pos
            } else {
                0
            },
    via events_from_decreases
{
    match message_at(c, r) {
        None => Seq::empty(),
        Some((e, ev)) => maybe(ev) + events_from(e, r),
    }
}

#[via_fn]
proof fn events_from_decreases(c: Cursor, r: Reading) {
    lemma_message_onward(c, r);
}

proof fn lemma_message_onward(c: Cursor, r: Reading)
    ensures
        message_at(c, r) matches Some((e, _)) ==> c.pos < c.end && e.d == c.d && e.end == c.end
            && e.pos > c.pos,
{
    lemma2_to64();
    match c.take(6) {
        None => {},
        Some((raw, c1)) => {
            let t = canonical(raw as u32, r.remap);
            crate::bits::lemma_bits_bound(c.d, c.pos, 6);
            crate::source::messages::lemma_plain_onward(c1, t, r.newer);
            crate::bits::lemma_bits_bound(c1.d, c1.pos, 11);
            match c1.take(8) {
                Some((_, c2)) => {
                    crate::bits::lemma_bits_bound(c2.d, c2.pos, 11);
                    crate::bits::lemma_bits_bound(c2.d, c2.pos, 12);
                },
                None => {},
            }
            crate::bits::lemma_bits_bound(c1.d, c1.pos + 6, 20);
            crate::bits::lemma_bits_bound(c1.d, c1.pos + 22, 20);
            crate::bits::lemma_bits_bound(c1.d, c1.pos + 24, 20);
            crate::bits::lemma_bits_bound(c1.d, c1.pos + 56, 20);
        },
    }
}

/// The events of a packet.
pub open spec fn events_in(d: Seq<u8>, r: Reading) -> Seq<EventOf> {
    events_from(Cursor { d, pos: 0, end: 8 * d.len() as int }, r)
}

fn skip_table(br: &mut BitReader) -> (ok: bool)
    requires
        old(br).wf(),
    ensures
        final(br).wf(),
        reached(ok, final(br)@, past_table(old(br)@)),
{
    if !br.skip(5) {
        return false;
    }
    match br.read_bits(1) {
        None => false,
        Some(several) => {
            if several == 1 && !br.skip(16) {
                return false;
            }
            skip_sized(br, 20, 1)
        },
    }
}

fn skip_entities(br: &mut BitReader) -> (ok: bool)
    requires
        old(br).wf(),
    ensures
        final(br).wf(),
        reached(ok, final(br)@, past_entities(old(br)@)),
{
    if !br.skip(11) {
        return false;
    }
    match br.read_bits(1) {
        None => false,
        Some(delta) => {
            if delta == 1 && !br.skip(32) {
                return false;
            }
            if !br.skip(1) || !br.skip(11) {
                return false;
            }
            match br.read_bits(20) {
                None => false,
                Some(length) => br.skip(1) && br.skip(length),
            }
        },
    }
}

/// Whether a read gave what `o` says and left the reader there.
spec fn read_as(r: Option<Option<GameEvent>>, c: Cursor, o: Option<(Cursor, Option<EventOf>)>) -> bool {
    match (r, o) {
        (Some(ev), Some((e, s))) => c == e && match (ev, s) {
            (Some(x), Some(y)) => x@ == y,
            (None, None) => true,
            _ => false,
        },
        (None, None) => true,
        _ => false,
    }
}

fn read_user_message(
    br: &mut BitReader,
    tick: i32,
    shown: &Vec<String>,
    wide: bool,
    Ghost(r): Ghost<Reading>,
) -> (ev: Option<Option<GameEvent>>)
    requires
        old(br).wf(),
        r.tick == tick,
        r.shown == texts(shown@),
        r.wide == wide,
    ensures
        final(br).wf(),
        read_as(ev, final(br)@, user_message(old(br)@, r)),
{
    proof {
        lemma2_to64();
        br.lemma_wf();
    }
    let kind: u32 = match br.read_bits(8) {
        Some(v) => v,
        None => {
            return None;
        },
    };
    let n: u32 = if wide {
        12
    } else {
        11
    };
    let length: u32 = match br.read_bits(n) {
        Some(v) => v,
        None => {
            return None;
        },
    };
    let save: u64 = br.bit_pos();
    let ghost c2 = br@;
    let mut found: Option<GameEvent> = None;
    if (kind == 3 || kind == 4) && length >= 16 {
        match try_parse_say_text2(br, tick) {
            Some(e) => {
                if contains_text(shown, e.event.as_str()) {
                    found = Some(e);
                }
            },
            None => {},
        }
    }
    br.set_bit_pos(save + length as u64);
    Some(found)
}

fn read_game_event(
    br: &mut BitReader,
    tick: i32,
    schemas: &HashMap<u16, EventSchema>,
    shown: &Vec<String>,
    Ghost(r): Ghost<Reading>,
) -> (ev: Option<Option<GameEvent>>)
    requires
        old(br).wf(),
        r.tick == tick,
        r.shown == texts(shown@),
        r.schemas == schemas_of(schemas@),
    ensures
        final(br).wf(),
        read_as(ev, final(br)@, game_event(old(br)@, r)),
{
    proof {
        lemma2_to64();
        br.lemma_wf();
    }
    let length: u32 = match br.read_bits(11) {
        Some(v) => v,
        None => {
            return None;
        },
    };
    let save: u64 = br.bit_pos();
    let id: u32 = match br.read_bits(9) {
        Some(v) => v,
        None => {
            return None;
        },
    };
    let mut found: Option<GameEvent> = None;
    match schemas.get(&(id as u16)) {
        Some(s) => {
            assert(r.schemas[id as u16] == s@);
            if contains_text(shown, s.name.as_str()) {
                match parse_event_fields_bits(br, &s.fields) {
                    Some(fields) => {
                        found = Some(GameEvent { event: s.name.clone(), tick, fields });
                    },
                    None => {},
                }
            }
        },
        None => {},
    }
    br.set_bit_pos(save + length as u64);
    Some(found)
}

fn read_message(
    br: &mut BitReader,
    tick: i32,
    schemas: &HashMap<u16, EventSchema>,
    shown: &Vec<String>,
    remap: bool,
    wide: bool,
    newer: bool,
    Ghost(r): Ghost<Reading>,
) -> (ev: Option<Option<GameEvent>>)
    requires
        old(br).wf(),
        r == (Reading {
            tick,
            schemas: schemas_of(schemas@),
            shown: texts(shown@),
            remap,
            wide,
            newer,
        }),
    ensures
        final(br).wf(),
        read_as(ev, final(br)@, message_at(old(br)@, r)),
{
    let raw: u32 = match br.read_bits(6) {
        Some(v) => v,
        None => {
            return None;
        },
    };
    let t: u32 = canonical_id(raw, remap);
    let ok = if plain(t) {
        skip_plain(br, t, newer)
    } else if t == 13 {
        skip_table(br)
    } else if t == 23 {
        return read_user_message(br, tick, shown, wide, Ghost(r));
    } else if t == 25 {
        return read_game_event(br, tick, schemas, shown, Ghost(r));
    } else if t == 26 {
        skip_entities(br)
    } else {
        false
    };
    if ok {
        Some(None)
    } else {
        None
    }
}

/// Reads the events of a packet that are in `display_events`.
pub fn extract_events_from_payload(
    payload: &[u8],
    tick: i32,
    schemas: &HashMap<u16, EventSchema>,
    display_events: &Vec<String>,
    remap_msgs: bool,
    user_msg_12bit: bool,
    demo_protocol: i32,
) -> (out: Vec<GameEvent>)
    requires
        countable(payload@),
    ensures
        events_of(out@) == events_in(
            payload@,
            (Reading {
                tick,
                schemas: schemas_of(schemas@),
                shown: texts(display_events@),
                remap: remap_msgs,
                wide: user_msg_12bit,
                newer: demo_protocol >= 4,
            }),
        ),
{
    let newer = demo_protocol >= 4;
    let ghost r = Reading {
        tick,
        schemas: schemas_of(schemas@),
        shown: texts(display_events@),
        remap: remap_msgs,
        wide: user_msg_12bit,
        newer,
    };
    let mut br = BitReader::new(payload);
    let mut out: Vec<GameEvent> = Vec::new();
    assert(events_of(out@) + events_from(br@, r) =~= events_from(br@, r));
    loop
        invariant
            br.wf(),
            r == (Reading {
                tick,
                schemas: schemas_of(schemas@),
                shown: texts(display_events@),
                remap: remap_msgs,
                wide: user_msg_12bit,
                newer,
            }),
            newer == (demo_protocol >= 4),
            events_in(payload@, r) == events_of(out@) + events_from(br@, r),
        decreases
                if br@.pos < br@.end {
                    br@.end - br@.pos
                } else {
                    0
                },
    {
        proof {
            lemma_message_onward(br@, r);
        }
        match read_message(
            &mut br,
            tick,
            schemas,
            display_events,
            remap_msgs,
            user_msg_12bit,
            newer,
            Ghost(r),
        ) {
            None => {
                assert(events_of(out@) + Seq::<EventOf>::empty() =~= events_of(out@));
                return out;
            },
            Some(found) => {
                let ghost head = events_of(out@);
                let ghost rest = events_from(br@, r);
                match found {
                    Some(e) => {
                        let ghost one = e@;
                        out.push(e);
                        assert(events_of(out@) =~= head.push(one));
                        assert(head + (seq![one] + rest) =~= head.push(one) + rest);
                    },
                    None => {
                        assert(head + (Seq::<EventOf>::empty() + rest) =~= head + rest);
                    },
                }
            },
        }
    }
}

/// The first field of a name, if it is a whole number.
pub open spec fn int_from(fs: Seq<FieldOf>, name: Seq<char>, i: int) -> Option<i32>
    decreases fs.len() - i,
{
    if i < 0 || i >= fs.len() {
        None
    } else if fs[i].name == name {
        match fs[i].value {
            ValueOf::Int(v) => Some(v),
            _ => None,
        }
    } else {
        int_from(fs, name, i + 1)
    }
}

pub open spec fn int_field(e: EventOf, name: Seq<char>) -> Option<i32> {
    int_from(e.fields, name, 0)
}

fn get_int_field(event: &GameEvent, name: &str) -> (r: Option<i32>)
    ensures
        r == int_field(event@, name@),
{
    let mut i: usize = 0;
    while i < event.fields.len()
        invariant
            i <= event.fields@.len(),
            int_field(event@, name@) == int_from(event@.fields, name@, i as int),
        decreases event.fields@.len() - i,
    {
        let f = &event.fields[i];
        assert(event@.fields[i as int] == f@);
        if str_eq(f.name.as_str(), name) {
            return match &f.value {
                EventValue::Int(v) => Some(*v),
                _ => None,
            };
        }
        i += 1;
    }
    None
}

/// Who spawns in the first `n` events, by number, as often as they do.
pub open spec fn spawners(es: Seq<EventOf>, n: int) -> Seq<i32>
    decreases n,
{
    if n <= 0 {
        Seq::empty()
    } else {
        let e = es[n - 1];
        match int_field(e, "userid"@) {
            Some(u) => if e.event == "player_spawn"@ {
                spawners(es, n - 1).push(u)
            } else {
                spawners(es, n - 1)
            },
            None => spawners(es, n - 1),
        }
    }
}

/// How often a number is among the first `n`.
pub open spec fn times(ids: Seq<i32>, u: i32, n: int) -> int
    decreases n,
{
    if n <= 0 {
        0
    } else {
        times(ids, u, n - 1) + if ids[n - 1] == u {
            1int
        } else {
            0
        }
    }
}

/// Whether a number is one of those that spawn most often; none where nobody does.
pub open spec fn spawns_most(es: Seq<EventOf>, local: Option<i32>) -> bool {
    let ids = spawners(es, es.len() as int);
    match local {
        Some(u) => ids.contains(u) && forall|v: i32|
            #[trigger] times(ids, v, ids.len() as int) <= times(ids, u, ids.len() as int),
        None => ids.len() == 0,
    }
}

fn count_times(ids: &Vec<i32>, u: i32) -> (c: usize)
    ensures
        c == times(ids@, u, ids@.len() as int),
{
    let mut c: usize = 0;
    let mut i: usize = 0;
    while i < ids.len()
        invariant
            c <= i <= ids@.len(),
            c == times(ids@, u, i as int),
        decreases ids@.len() - i,
    {
        if ids[i] == u {
            c += 1;
        }
        i += 1;
    }
    c
}

proof fn lemma_times_absent(ids: Seq<i32>, u: i32, n: int)
    requires
        0 <= n <= ids.len(),
        forall|i: int| 0 <= i < n ==> ids[i] != u,
    ensures
        times(ids, u, n) == 0,
    decreases n,
{
    if n > 0 {
        lemma_times_absent(ids, u, n - 1);
    }
}

/// The player whose demo it is: the one who spawns most often. Which of several that
/// spawn equally often is open.
pub fn local_player(events: &Vec<GameEvent>) -> (local: Option<i32>)
    ensures
        spawns_most(events_of(events@), local),
{
    let ghost es = events_of(events@);
    let mut ids: Vec<i32> = Vec::new();
    let mut i: usize = 0;
    while i < events.len()
        invariant
            i <= events@.len(),
            es == events_of(events@),
            ids@ == spawners(es, i as int),
        decreases events@.len() - i,
    {
        let e = &events[i];
        assert(es[i as int] == e@);
        if str_eq(e.event.as_str(), "player_spawn") {
            match get_int_field(e, "userid") {
                Some(u) => {
                    ids.push(u);
                },
                None => {},
            }
        }
        i += 1;
    }
    if ids.len() == 0 {
        return None;
    }
    let mut best: i32 = ids[0];
    let mut most: usize = count_times(&ids, best);
    let mut k: usize = 1;
    while k < ids.len()
        invariant
            1 <= k <= ids@.len(),
            ids@.contains(best),
            most == times(ids@, best, ids@.len() as int),
            forall|j: int| 0 <= j < k ==> times(ids@, #[trigger] ids@[j], ids@.len() as int) <= most,
        decreases ids@.len() - k,
    {
        let c: usize = count_times(&ids, ids[k]);
        if c > most {
            most = c;
            best = ids[k];
        }
        k += 1;
    }
    proof {
        let all = ids@;
        assert forall|v: i32| #[trigger] times(all, v, all.len() as int) <= most by {
            if all.contains(v) {
                let j = choose|j: int| 0 <= j < all.len() && all[j] == v;
                assert(times(all, all[j], all.len() as int) <= most);
            } else {
                lemma_times_absent(all, v, all.len() as int);
            }
        }
    }
    Some(best)
}

/// Whether an event is of the local player, or that player is not known.
pub open spec fn is_of(e: EventOf, local: Option<i32>) -> bool {
    match local {
        Some(u) => int_field(e, "userid"@) == Some(u),
        None => true,
    }
}

/// The ticks of the events of a name among the first `n`, of the local player alone
/// where `mine`.
pub open spec fn ticks_of(
    es: Seq<EventOf>,
    name: Seq<char>,
    mine: bool,
    local: Option<i32>,
    n: int,
) -> Seq<i32>
    decreases n,
{
    if n <= 0 {
        Seq::empty()
    } else {
        let e = es[n - 1];
        let before = ticks_of(es, name, mine, local, n - 1);
        if e.event == name && (mine ==> is_of(e, local)) {
            before.push(e.tick)
        } else {
            before
        }
    }
}

pub open spec fn tick_order() -> spec_fn(i32, i32) -> bool {
    |a: i32, b: i32| a <= b
}

/// Ticks in order.
pub open spec fn ordered(ts: Seq<i32>) -> Seq<i32> {
    ts.sort_by(tick_order())
}

fn insert_tick(v: &mut Vec<i32>, x: i32)
    requires
        vstd::relations::sorted_by(old(v)@, tick_order()),
    ensures
        vstd::relations::sorted_by(final(v)@, tick_order()),
        final(v)@.to_multiset() == old(v)@.to_multiset().insert(x),
{
    let ghost s = v@;
    let mut i: usize = v.len();
    while i > 0 && v[i - 1] > x
        invariant
            i <= v@.len(),
            v@ == s,
            forall|k: int| i <= k < s.len() ==> s[k] > x,
        decreases i,
    {
        i -= 1;
    }
    proof {
        broadcast use vstd::seq_lib::group_to_multiset_ensures;

        assert forall|a: int, b: int| 0 <= a < b < s.len() implies s[a] <= s[b] by {
            assert(tick_order()(s[a], s[b]));
        }
    }
    v.insert(i, x);
    proof {
        broadcast use vstd::seq_lib::group_to_multiset_ensures;

        assert(v@ == s.insert(i as int, x));
        assert(s.insert(i as int, x).to_multiset() =~= s.to_multiset().insert(x));
        assert forall|a: int, b: int| 0 <= a < b < v@.len() implies #[trigger] tick_order()(
            v@[a],
            v@[b],
        ) by {
            if i > 0 {
                assert(s[i - 1] <= x);
            }
        }
    }
}

proof fn lemma_tick_order()
    ensures
        vstd::relations::total_ordering(tick_order()),
{
}

/// The ticks of the events of a name, in order.
fn ticks_in_order(events: &Vec<GameEvent>, name: &str, mine: bool, local: Option<i32>) -> (v: Vec<
    i32,
>)
    ensures
        v@ == ordered(
            ticks_of(events_of(events@), name@, mine, local, events@.len() as int),
        ),
{
    let ghost es = events_of(events@);
    let mut v: Vec<i32> = Vec::new();
    let mut i: usize = 0;
    proof {
        broadcast use vstd::seq_lib::group_to_multiset_ensures;

        assert(v@ =~= Seq::<i32>::empty());
    }
    while i < events.len()
        invariant
            i <= events@.len(),
            es == events_of(events@),
            vstd::relations::sorted_by(v@, tick_order()),
            v@.to_multiset() == ticks_of(es, name@, mine, local, i as int).to_multiset(),
        decreases events@.len() - i,
    {
        let e = &events[i];
        assert(es[i as int] == e@);
        let ghost before = ticks_of(es, name@, mine, local, i as int);
        let of = match local {
            Some(u) => match get_int_field(e, "userid") {
                Some(x) => x == u,
                None => false,
            },
            None => true,
        };
        if str_eq(e.event.as_str(), name) && (!mine || of) {
            insert_tick(&mut v, e.tick);
            proof {
                broadcast use vstd::seq_lib::group_to_multiset_ensures;

                assert(before.push(e.tick).to_multiset() =~= before.to_multiset().insert(e.tick));
            }
        }
        i += 1;
    }
    proof {
        let ts = ticks_of(es, name@, mine, local, es.len() as int);
        lemma_tick_order();
        ts.lemma_sort_by_ensures(tick_order());
        vstd::seq_lib::lemma_sorted_unique(v@, ordered(ts), tick_order());
    }
    v
}

/// Where a search by halves for a tick ends.
pub open spec fn halving(ts: Seq<i32>, lo: int, hi: int, t: i32) -> int
    decreases hi - lo,
{
    if lo >= hi {
        lo
    } else if ts[(lo + hi) / 2] < t {
        halving(ts, (lo + hi) / 2 + 1, hi, t)
    } else {
        halving(ts, lo, (lo + hi) / 2, t)
    }
}

pub open spec fn cmd_ticks(cmds: Seq<SampledCmd>) -> Seq<i32> {
    cmds.map_values(|c: SampledCmd| c.tick)
}

/// The sample that a tick falls on.
pub open spec fn sample_of(ts: Seq<i32>, t: i32) -> int {
    halving(ts, 0, ts.len() - 1, t)
}

fn find_idx(cmds: &Vec<SampledCmd>, tick: i32) -> (r: usize)
    requires
        cmds@.len() > 0,
    ensures
        r == sample_of(cmd_ticks(cmds@), tick),
        r < cmds@.len(),
{
    let ghost ts = cmd_ticks(cmds@);
    let mut lo: usize = 0;
    let mut hi: usize = cmds.len() - 1;
    while lo < hi
        invariant
            ts == cmd_ticks(cmds@),
            lo <= hi < cmds@.len(),
            halving(ts, lo as int, hi as int, tick) == sample_of(ts, tick),
        decreases hi - lo,
    {
        let mid: usize = lo + (hi - lo) / 2;
        assert(mid == (lo + hi) / 2);
        assert(ts[mid as int] == cmds@[mid as int].tick);
        if cmds[mid].tick < tick {
            lo = mid + 1;
        } else {
            hi = mid;
        }
    }
    lo
}

proof fn lemma_halving(ts: Seq<i32>, lo: int, hi: int, t: i32)
    requires
        0 <= lo <= hi < ts.len(),
        forall|i: int, j: int| 0 <= i <= j < ts.len() ==> ts[i] <= ts[j],
        forall|i: int| 0 <= i < lo ==> ts[i] < t,
        hi == ts.len() - 1 || ts[hi] >= t,
    ensures
        0 <= halving(ts, lo, hi, t) < ts.len(),
        forall|i: int| 0 <= i < halving(ts, lo, hi, t) ==> ts[i] < t,
        halving(ts, lo, hi, t) == ts.len() - 1 || ts[halving(ts, lo, hi, t)] >= t,
    decreases hi - lo,
{
    if lo < hi {
        let mid = (lo + hi) / 2;
        if ts[mid] < t {
            lemma_halving(ts, mid + 1, hi, t);
        } else {
            lemma_halving(ts, lo, mid, t);
        }
    }
}

/// Where the samples are in order, a tick falls on the first one that is not before
/// it, or on the last one where all are.
pub proof fn law_sample_is_first(ts: Seq<i32>, t: i32)
    requires
        ts.len() > 0,
        forall|i: int, j: int| 0 <= i <= j < ts.len() ==> ts[i] <= ts[j],
    ensures
        0 <= sample_of(ts, t) < ts.len(),
        forall|i: int| 0 <= i < sample_of(ts, t) ==> ts[i] < t,
        sample_of(ts, t) == ts.len() - 1 || ts[sample_of(ts, t)] >= t,
{
    lemma_halving(ts, 0, ts.len() - 1, t);
}

/// Whether a death comes less than 1980 ticks before a tick.
pub open spec fn after_death(t: i32, deaths: Seq<i32>) -> bool {
    exists|i: int| 0 <= i < deaths.len() && 0 < t - #[trigger] deaths[i] < 1980
}

/// The spawns after the first that come soon after a death, among the first `n`.
pub open spec fn respawns(spawns: Seq<i32>, deaths: Seq<i32>, n: int) -> Seq<i32>
    decreases n,
{
    if n <= 1 {
        Seq::empty()
    } else if after_death(spawns[n - 1], deaths) {
        respawns(spawns, deaths, n - 1).push(spawns[n - 1])
    } else {
        respawns(spawns, deaths, n - 1)
    }
}

/// The ticks at which a life ends: the respawns, or the deaths where there are none.
pub open spec fn life_ticks(es: Seq<EventOf>, local: Option<i32>) -> Seq<i32> {
    let n = es.len() as int;
    let spawns = ordered(ticks_of(es, "player_spawn"@, true, local, n));
    let deaths = ordered(ticks_of(es, "player_death"@, true, local, n));
    let reborn = respawns(spawns, deaths, spawns.len() as int);
    if reborn.len() > 0 {
        reborn
    } else {
        deaths
    }
}

pub open spec fn teleport_ticks(es: Seq<EventOf>) -> Seq<i32> {
    ordered(ticks_of(es, "player_teleported"@, false, None, es.len() as int))
}

pub open spec fn samples_of(ts: Seq<i32>, at: Seq<i32>) -> Seq<int> {
    at.map_values(|t: i32| sample_of(ts, t))
}

pub open spec fn rising(v: Seq<usize>) -> bool {
    forall|i: int, j: int| 0 <= i < j < v.len() ==> v[i] < v[j]
}

/// Whether `all` are the samples, each once and in order, at which a life ends or the
/// player is teleported, and `teleports` those of the teleports.
pub open spec fn breaks_at(
    all: Seq<usize>,
    teleports: Seq<usize>,
    ts: Seq<i32>,
    es: Seq<EventOf>,
    local: Option<i32>,
) -> bool {
    if ts.len() == 0 {
        all.len() == 0 && teleports.len() == 0
    } else {
        &&& rising(all)
        &&& forall|x: usize|
            #[trigger] all.contains(x) <==> samples_of(ts, life_ticks(es, local)).contains(x as int)
                || samples_of(ts, teleport_ticks(es)).contains(x as int)
        &&& teleports.map_values(|x: usize| x as int) == samples_of(ts, teleport_ticks(es))
    }
}

pub(crate) fn insert_index(v: &mut Vec<usize>, x: usize)
    requires
        rising(old(v)@),
    ensures
        rising(final(v)@),
        forall|y: usize| #[trigger] final(v)@.contains(y) <==> old(v)@.contains(y) || y == x,
{
    let ghost s = v@;
    let mut i: usize = v.len();
    while i > 0 && v[i - 1] > x
        invariant
            i <= v@.len(),
            v@ == s,
            rising(s),
            forall|k: int| i <= k < s.len() ==> s[k] > x,
        decreases i,
    {
        i -= 1;
    }
    if i > 0 && v[i - 1] == x {
        assert(s[i - 1] == x);
        return;
    }
    v.insert(i, x);
    assert forall|y: usize| #[trigger] v@.contains(y) <==> s.contains(y) || y == x by {
        if s.contains(y) {
            let k = choose|k: int| 0 <= k < s.len() && s[k] == y;
            if k < i {
                assert(v@[k] == y);
            } else {
                assert(v@[k + 1] == y);
            }
        }
        if y == x {
            assert(v@[i as int] == y);
        }
        if v@.contains(y) && y != x {
            let k = choose|k: int| 0 <= k < v@.len() && v@[k] == y;
            if k < i {
                assert(s[k] == y);
            } else {
                assert(s[k - 1] == y);
            }
        }
    }
}

fn has_death(t: i32, deaths: &Vec<i32>) -> (r: bool)
    ensures
        r == after_death(t, deaths@),
{
    let mut i: usize = 0;
    while i < deaths.len()
        invariant
            i <= deaths@.len(),
            forall|k: int| 0 <= k < i ==> !(0 < t - #[trigger] deaths@[k] < 1980),
        decreases deaths@.len() - i,
    {
        let gap: i64 = t as i64 - deaths[i] as i64;
        if 0 < gap && gap < 1980 {
            assert(0 < t - deaths@[i as int] < 1980);
            return true;
        }
        i += 1;
    }
    false
}

fn end_of_lives(events: &Vec<GameEvent>, local: Option<i32>) -> (v: Vec<i32>)
    ensures
        v@ == life_ticks(events_of(events@), local),
{
    let spawns = ticks_in_order(events, "player_spawn", true, local);
    let deaths = ticks_in_order(events, "player_death", true, local);
    let mut reborn: Vec<i32> = Vec::new();
    let mut i: usize = 1;
    if spawns.len() == 0 {
        return deaths;
    }
    while i < spawns.len()
        invariant
            1 <= i <= spawns@.len(),
            reborn@ == respawns(spawns@, deaths@, i as int),
        decreases spawns@.len() - i,
    {
        if has_death(spawns[i], &deaths) {
            reborn.push(spawns[i]);
        }
        i += 1;
    }
    if reborn.len() > 0 {
        reborn
    } else {
        deaths
    }
}

/// The samples at which the path of a player breaks, where `local` is known or not.
pub fn breaks_of(cmds: &Vec<SampledCmd>, events: &Vec<GameEvent>, local: Option<i32>) -> (r: (
    Vec<usize>,
    Vec<usize>,
))
    ensures
        breaks_at(r.0@, r.1@, cmd_ticks(cmds@), events_of(events@), local),
{
    let mut all: Vec<usize> = Vec::new();
    let mut teleports: Vec<usize> = Vec::new();
    if cmds.len() == 0 {
        return (all, teleports);
    }
    let ghost ts = cmd_ticks(cmds@);
    let lives = end_of_lives(events, local);
    let jumps = ticks_in_order(events, "player_teleported", false, None);
    let ghost lx = samples_of(ts, lives@);
    let ghost jx = samples_of(ts, jumps@);
    let mut i: usize = 0;
    while i < lives.len()
        invariant
            i <= lives@.len(),
            cmds@.len() > 0,
            ts == cmd_ticks(cmds@),
            lx == samples_of(ts, lives@),
            rising(all@),
            forall|x: usize|
                #[trigger] all@.contains(x) <==> exists|k: int| 0 <= k < i && #[trigger] lx[k] == x,
        decreases lives@.len() - i,
    {
        let x: usize = find_idx(cmds, lives[i]);
        assert(lx[i as int] == x);
        let ghost before = all@;
        insert_index(&mut all, x);
        assert forall|y: usize| #[trigger] all@.contains(y) <==> exists|k: int|
            0 <= k < i + 1 && #[trigger] lx[k] == y by {
            if before.contains(y) {
                let k = choose|k: int| 0 <= k < i && #[trigger] lx[k] == y;
                assert(lx[k] == y);
            }
        }
        i += 1;
    }
    let mut j: usize = 0;
    while j < jumps.len()
        invariant
            j <= jumps@.len(),
            cmds@.len() > 0,
            ts == cmd_ticks(cmds@),
            lx.len() == lives@.len(),
            jx == samples_of(ts, jumps@),
            rising(all@),
            teleports@.len() == j,
            forall|k: int| 0 <= k < j ==> #[trigger] teleports@[k] == jx[k],
            forall|x: usize|
                #[trigger] all@.contains(x) <==> (exists|k: int|
                    0 <= k < lx.len() && #[trigger] lx[k] == x) || (exists|k: int|
                    0 <= k < j && #[trigger] jx[k] == x),
        decreases jumps@.len() - j,
    {
        let x: usize = find_idx(cmds, jumps[j]);
        assert(jx[j as int] == x);
        teleports.push(x);
        let ghost before = all@;
        insert_index(&mut all, x);
        assert forall|y: usize| #[trigger] all@.contains(y) <==> (exists|k: int|
            0 <= k < lx.len() && #[trigger] lx[k] == y) || (exists|k: int|
            0 <= k < j + 1 && #[trigger] jx[k] == y) by {
            if before.contains(y) {
                if exists|k: int| 0 <= k < lx.len() && #[trigger] lx[k] == y {
                } else {
                    let k = choose|k: int| 0 <= k < j && #[trigger] jx[k] == y;
                    assert(jx[k] == y);
                }
            }
        }
        j += 1;
    }
    proof {
        assert(teleports@.map_values(|x: usize| x as int) =~= jx);
        assert forall|x: usize| #[trigger] all@.contains(x) <==> lx.contains(x as int)
            || jx.contains(x as int) by {
            if lx.contains(x as int) {
                let k = choose|k: int| 0 <= k < lx.len() && lx[k] == x as int;
                assert(lx[k] == x);
            }
            if jx.contains(x as int) {
                let k = choose|k: int| 0 <= k < jx.len() && jx[k] == x as int;
                assert(jx[k] == x);
            }
        }
    }
    (all, teleports)
}

/// The samples at which the path of the player whose demo it is breaks, and those of
/// them that are teleports.
pub fn compute_life_breaks(cmds: &Vec<SampledCmd>, events: &Vec<GameEvent>) -> (r: (
    Vec<usize>,
    Vec<usize>,
))
    ensures
        exists|local: Option<i32>|
            #[trigger] spawns_most(events_of(events@), local) && breaks_at(
                r.0@,
                r.1@,
                cmd_ticks(cmds@),
                events_of(events@),
                local,
            ),
{
    let local = local_player(events);
    breaks_of(cmds, events, local)
}

/// Events that every game shows.
pub open spec fn common_names() -> Seq<Seq<char>> {
    seq![
        "player_death"@,
        "player_spawn"@,
        "player_hurt"@,
        "console_cmd"@,
        "say"@,
        "say_team"@,
    ]
}

fn push_common(out: &mut Vec<String>)
    ensures
        texts(final(out)@) == texts(old(out)@) + common_names(),
{
    out.push("player_death".to_string());
    out.push("player_spawn".to_string());
    out.push("player_hurt".to_string());
    out.push("console_cmd".to_string());
    out.push("say".to_string());
    out.push("say_team".to_string());
    assert(texts(out@) =~= texts(old(out)@) + common_names());
}

/// Events of Team Fortress 2.
pub open spec fn fortress_names() -> Seq<Seq<char>> {
    seq![
        "player_teleported"@,
        "teamplay_round_start"@,
        "teamplay_round_active"@,
        "teamplay_round_win"@,
        "teamplay_game_over"@,
        "player_chargedeployed"@,
        "player_jarated"@,
        "player_stunned"@,
        "player_healonhit"@,
        "player_calledformedic"@,
        "player_stealsandvich"@,
        "mvm_begin_wave"@,
        "mvm_wave_complete"@,
        "mvm_wave_failed"@,
        "rocket_jump"@,
        "rocket_jump_landed"@,
        "sticky_jump"@,
        "sticky_jump_landed"@,
        "teamplay_flag_event"@,
        "teamplay_point_captured"@,
        "teamplay_capture_blocked"@,
        "teamplay_overtime_begin"@,
        "teamplay_suddendeath_begin"@,
    ]
}

fn push_fortress(out: &mut Vec<String>)
    ensures
        texts(final(out)@) == texts(old(out)@) + fortress_names(),
{
    out.push("player_teleported".to_string());
    out.push("teamplay_round_start".to_string());
    out.push("teamplay_round_active".to_string());
    out.push("teamplay_round_win".to_string());
    out.push("teamplay_game_over".to_string());
    out.push("player_chargedeployed".to_string());
    out.push("player_jarated".to_string());
    out.push("player_stunned".to_string());
    out.push("player_healonhit".to_string());
    out.push("player_calledformedic".to_string());
    out.push("player_stealsandvich".to_string());
    out.push("mvm_begin_wave".to_string());
    out.push("mvm_wave_complete".to_string());
    out.push("mvm_wave_failed".to_string());
    out.push("rocket_jump".to_string());
    out.push("rocket_jump_landed".to_string());
    out.push("sticky_jump".to_string());
    out.push("sticky_jump_landed".to_string());
    out.push("teamplay_flag_event".to_string());
    out.push("teamplay_point_captured".to_string());
    out.push("teamplay_capture_blocked".to_string());
    out.push("teamplay_overtime_begin".to_string());
    out.push("teamplay_suddendeath_begin".to_string());
    assert(texts(out@) =~= texts(old(out)@) + fortress_names());
}

/// Events of the Counter-Strike games.
pub open spec fn strike_names() -> Seq<Seq<char>> {
    seq![
        "bomb_planted"@,
        "bomb_defused"@,
        "bomb_exploded"@,
        "bomb_beginplant"@,
        "bomb_abortplant"@,
        "bomb_begindefuse"@,
        "round_start"@,
        "round_end"@,
        "round_mvp"@,
        "round_freeze_end"@,
        "weapon_fire"@,
        "weapon_reload"@,
        "player_blind"@,
        "player_falldamage"@,
        "hostage_rescued"@,
        "cs_win_panel_match"@,
        "hegrenade_detonate"@,
        "flashbang_detonate"@,
        "smokegrenade_detonate"@,
        "molotov_detonate"@,
        "inferno_startburn"@,
        "decoy_started"@,
    ]
}

fn push_strike(out: &mut Vec<String>)
    ensures
        texts(final(out)@) == texts(old(out)@) + strike_names(),
{
    out.push("bomb_planted".to_string());
    out.push("bomb_defused".to_string());
    out.push("bomb_exploded".to_string());
    out.push("bomb_beginplant".to_string());
    out.push("bomb_abortplant".to_string());
    out.push("bomb_begindefuse".to_string());
    out.push("round_start".to_string());
    out.push("round_end".to_string());
    out.push("round_mvp".to_string());
    out.push("round_freeze_end".to_string());
    out.push("weapon_fire".to_string());
    out.push("weapon_reload".to_string());
    out.push("player_blind".to_string());
    out.push("player_falldamage".to_string());
    out.push("hostage_rescued".to_string());
    out.push("cs_win_panel_match".to_string());
    out.push("hegrenade_detonate".to_string());
    out.push("flashbang_detonate".to_string());
    out.push("smokegrenade_detonate".to_string());
    out.push("molotov_detonate".to_string());
    out.push("inferno_startburn".to_string());
    out.push("decoy_started".to_string());
    assert(texts(out@) =~= texts(old(out)@) + strike_names());
}

/// Events of the Left 4 Dead games.
pub open spec fn survivors_names() -> Seq<Seq<char>> {
    seq![
        "round_start"@,
        "round_end"@,
        "player_incapacitated"@,
        "player_ledge_grab"@,
        "survivor_rescued"@,
        "tank_spawn"@,
        "witch_spawn"@,
        "player_now_it"@,
        "player_entered_safe_area"@,
    ]
}

fn push_survivors(out: &mut Vec<String>)
    ensures
        texts(final(out)@) == texts(old(out)@) + survivors_names(),
{
    out.push("round_start".to_string());
    out.push("round_end".to_string());
    out.push("player_incapacitated".to_string());
    out.push("player_ledge_grab".to_string());
    out.push("survivor_rescued".to_string());
    out.push("tank_spawn".to_string());
    out.push("witch_spawn".to_string());
    out.push("player_now_it".to_string());
    out.push("player_entered_safe_area".to_string());
    assert(texts(out@) =~= texts(old(out)@) + survivors_names());
}

/// Events of the Portal games.
pub open spec fn portals_names() -> Seq<Seq<char>> {
    seq![
        "portal_fired"@,
        "portal_player_touchingportal"@,
        "challenge_mode_start_timer"@,
        "challenge_mode_close_all_gates"@,
    ]
}

fn push_portals(out: &mut Vec<String>)
    ensures
        texts(final(out)@) == texts(old(out)@) + portals_names(),
{
    out.push("portal_fired".to_string());
    out.push("portal_player_touchingportal".to_string());
    out.push("challenge_mode_start_timer".to_string());
    out.push("challenge_mode_close_all_gates".to_string());
    assert(texts(out@) =~= texts(old(out)@) + portals_names());
}

/// Events of Half-Life 2: Deathmatch.
pub open spec fn deathmatch_names() -> Seq<Seq<char>> {
    seq![
        "round_start"@,
        "round_end"@,
        "hl2mp_awards"@,
    ]
}

fn push_deathmatch(out: &mut Vec<String>)
    ensures
        texts(final(out)@) == texts(old(out)@) + deathmatch_names(),
{
    out.push("round_start".to_string());
    out.push("round_end".to_string());
    out.push("hl2mp_awards".to_string());
    assert(texts(out@) =~= texts(old(out)@) + deathmatch_names());
}

/// Events of games that are not known.
pub open spec fn rounds_names() -> Seq<Seq<char>> {
    seq![
        "round_start"@,
        "round_end"@,
    ]
}

fn push_rounds(out: &mut Vec<String>)
    ensures
        texts(final(out)@) == texts(old(out)@) + rounds_names(),
{
    out.push("round_start".to_string());
    out.push("round_end".to_string());
    assert(texts(out@) =~= texts(old(out)@) + rounds_names());
}

/// The events that a game shows.
pub open spec fn display_names(game_dir: Seq<char>) -> Seq<Seq<char>> {
    common_names() + if game_dir == "tf"@ {
        fortress_names()
    } else if game_dir == "cstrike"@ || game_dir == "csgo"@ {
        strike_names()
    } else if game_dir == "left4dead"@ || game_dir == "left4dead2"@ {
        survivors_names()
    } else if game_dir == "portal"@ || game_dir == "portal2"@ {
        portals_names()
    } else if game_dir == "hl2mp"@ {
        deathmatch_names()
    } else {
        rounds_names()
    }
}

/// The events that a game shows.
pub fn display_events_for_game(game_dir: &str) -> (r: Vec<String>)
    ensures
        texts(r@) == display_names(game_dir@),
{
    let mut out: Vec<String> = Vec::new();
    push_common(&mut out);
    assert(texts(out@) =~= common_names());
    if str_eq(game_dir, "tf") {
        push_fortress(&mut out);
    } else if str_eq(game_dir, "cstrike") || str_eq(game_dir, "csgo") {
        push_strike(&mut out);
    } else if str_eq(game_dir, "left4dead") || str_eq(game_dir, "left4dead2") {
        push_survivors(&mut out);
    } else if str_eq(game_dir, "portal") || str_eq(game_dir, "portal2") {
        push_portals(&mut out);
    } else if str_eq(game_dir, "hl2mp") {
        push_deathmatch(&mut out);
    } else {
        push_rounds(&mut out);
    }
    out
}

/// Whatever the game, the deaths and spawns of players and what they say are shown.
pub proof fn law_common_shown(game_dir: Seq<char>, name: Seq<char>)
    requires
        common_names().contains(name),
    ensures
        display_names(game_dir).contains(name),
{
    let i = choose|i: int| 0 <= i < common_names().len() && common_names()[i] == name;
    assert(display_names(game_dir)[i] == name);
}

} // verus!
