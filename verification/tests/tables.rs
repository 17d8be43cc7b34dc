//! The tables and events that CS:GO sends as protobuf messages, and the players of a
//! demo's string tables.
use demoscope::packets::parse_userinfo_from_demo;
use demoscope::protobuf::Value;
use demoscope::source::csgo::events::decode_events;
use demoscope::source::csgo::message::scan_payload;
use demoscope::source::csgo::sendtable::{bind_array_elements, parse, resolve, RawProp};
use demoscope::source::events::EventValue;
use demoscope::source::sendprop::SendPropType;

fn varint(mut n: u64) -> Vec<u8> {
    let mut out = Vec::new();
    while n >= 0x80 {
        out.push((n % 0x80) as u8 | 0x80);
        n /= 0x80;
    }
    out.push(n as u8);
    out
}

/// A message, field by field.
#[derive(Default, Clone)]
struct Message {
    bytes: Vec<u8>,
}

impl Message {
    fn number(mut self, field: u64, v: u64) -> Self {
        self.bytes.extend(varint(field << 3));
        self.bytes.extend(varint(v));
        self
    }

    fn bytes(mut self, field: u64, v: &[u8]) -> Self {
        self.bytes.extend(varint(field << 3 | 2));
        self.bytes.extend(varint(v.len() as u64));
        self.bytes.extend_from_slice(v);
        self
    }

    fn text(self, field: u64, v: &str) -> Self {
        self.bytes(field, v.as_bytes())
    }

    fn float(mut self, field: u64, v: f32) -> Self {
        self.bytes.extend(varint(field << 3 | 5));
        self.bytes.extend(v.to_le_bytes());
        self
    }

    fn message(self, field: u64, m: Message) -> Self {
        self.bytes(field, &m.bytes)
    }

    /// The message behind its number and its length.
    fn framed(&self, id: u64) -> Vec<u8> {
        let mut out = varint(id);
        out.extend(varint(self.bytes.len() as u64));
        out.extend_from_slice(&self.bytes);
        out
    }
}

fn new() -> Message {
    Message::default()
}

#[test]
fn written_numbers_are_read_back() {
    for n in [0u64, 1, 127, 128, 300, u32::MAX as u64, u64::MAX / 3, u64::MAX] {
        let mut bytes = varint(n);
        bytes.extend([7, 7]);
        let mut r = demoscope::protobuf::Reader::new(&bytes);
        assert_eq!(r.read_varint(), Ok(n));
        assert_eq!(r.remaining(), &[7, 7]);
    }
    assert_eq!(Value::Varint(u64::MAX).as_sint64(), Some(i64::MIN));
    assert_eq!(Value::Varint(u64::MAX - 1).as_sint64(), Some(i64::MAX));
    assert_eq!(Value::Varint(3).as_sint64(), Some(-2));
    assert_eq!(Value::Fixed32(3).as_sint64(), Some(-2));
    assert_eq!(Value::Len(&[3]).as_sint64(), None);
}

#[test]
fn messages_can_be_joined() {
    let a = new().number(1, 5).text(2, "x");
    let b = new().float(3, 1.0);
    let mut both = a.bytes.clone();
    both.extend_from_slice(&b.bytes);
    let joined = demoscope::protobuf::Reader::new(&both).fields();
    assert_eq!(joined.len(), 3);
    assert_eq!(joined[0].number, 1);
    assert_eq!(joined[2].number, 3);
    assert_eq!(joined[2].value.as_f32(), Some(1.0f32.to_bits()));
}

#[test]
fn messages_of_any_number_are_read_back() {
    let body = new().text(2, "some text").number(1, 5);
    for id in [0u64, 4, 26, 99, 300, u32::MAX as u64] {
        let mut sent = body.framed(id);
        sent.extend(new().framed(7));
        let read = scan_payload(&sent);
        assert_eq!(read.len(), 2);
        assert_eq!((read[0].id as u64, read[0].body), (id, body.bytes.as_slice()));
        assert_eq!((read[1].id, read[1].body.len()), (7, 0));
    }
}

fn tables() -> Vec<u8> {
    let prop = new()
        .number(1, 1)
        .text(2, "m_flSpeed")
        .number(3, 0x8_0001)
        .number(4, 128)
        .text(5, "DT_Base")
        .number(6, 3)
        .float(7, -1.5)
        .float(8, 2.5)
        .number(9, 12);
    let odd = new().number(1, 99).text(2, "odd");
    let table = new().text(2, "DT_Player").number(3, 1).message(4, prop).message(4, odd);
    let mut out = table.framed(9);
    out.extend(new().number(1, 1).framed(9));
    out.extend([2, 0, 7, 0]);
    out.extend(b"CPlayer\0DT_Player\0");
    out.extend([8, 0]);
    out.extend(b"CWorld\0DT_World\0");
    out
}

#[test]
fn tables_of_properties_are_read() {
    let t = parse(&tables()).unwrap();
    assert_eq!(t.tables.len(), 1);
    assert_eq!(t.tables[0].name, "DT_Player");
    assert!(t.tables[0].needs_decoder);
    assert_eq!(t.tables[0].props.len(), 1);
    let p = &t.tables[0].props[0];
    assert_eq!(p.prop_type, SendPropType::Float);
    assert_eq!((p.name.as_str(), p.dt_name.as_str()), ("m_flSpeed", "DT_Base"));
    assert_eq!((p.flags, p.priority, p.num_elements, p.num_bits), (0x8_0001, 128, 3, 12));
    assert_eq!((p.low_value, p.high_value), ((-1.5f32).to_bits(), 2.5f32.to_bits()));
    assert_eq!(t.server_classes.len(), 2);
    assert_eq!(t.server_classes[0].name, "CPlayer");
    assert_eq!((t.server_classes[1].id, t.server_classes[1].data_table.as_str()), (8, "DT_World"));

    let whole = tables();
    assert!(parse(&whole[..whole.len() - 1]).is_none());
    assert!(parse(&[]).is_none());
}

fn raw(prop_type: SendPropType, name: &str, flags: u32) -> RawProp {
    RawProp {
        prop_type,
        name: name.to_string(),
        flags,
        priority: 257,
        dt_name: "DT_X".to_string(),
        num_elements: 65_538,
        low_value: 1,
        high_value: 2,
        num_bits: -1,
    }
}

#[test]
fn properties_get_the_form_of_the_other_games() {
    let p = resolve(raw(SendPropType::Int, "a", 0x8_0000), 1);
    assert_eq!(p.flags, 33);
    assert_eq!((p.priority, p.bit_count, p.element_count), (1, u32::MAX, 2));
    assert_eq!((p.exclude_dt_name, p.data_table_name), (None, None));
    assert_eq!(resolve(raw(SendPropType::Int, "a", 0x8_0000), 33).flags, 33);
    let p = resolve(raw(SendPropType::DataTable, "a", 0), 0);
    assert_eq!(p.data_table_name.as_deref(), Some("DT_X"));
    let p = resolve(raw(SendPropType::DataTable, "a", 0), 64);
    assert_eq!((p.exclude_dt_name.as_deref(), p.data_table_name), (Some("DT_X"), None));
}

/// An array takes the element before it; an array without one is dropped.
#[test]
fn arrays_get_their_elements() {
    let props = vec![
        resolve(raw(SendPropType::Int, "a", 0), 0),
        resolve(raw(SendPropType::Int, "element", 0), 256),
        resolve(raw(SendPropType::Array, "list", 0), 0),
        resolve(raw(SendPropType::Array, "bare", 0), 0),
        resolve(raw(SendPropType::Float, "b", 0), 0),
    ];
    let bound = bind_array_elements(props);
    let names: Vec<&str> = bound.iter().map(|p| p.name.as_str()).collect();
    assert_eq!(names, ["a", "list", "b"]);
    assert_eq!(bound[1].array_element.as_ref().unwrap().name, "element");
    assert!(bound[0].array_element.is_none());
}

fn described(id: u64, name: &str, keys: &[&str]) -> Message {
    let mut m = new().number(1, id).text(2, name);
    for k in keys {
        m = m.message(3, new().number(1, 1).text(2, k));
    }
    m
}

#[test]
fn events_are_named_by_their_list() {
    let list = new()
        .message(1, described(7, "player_death", &["userid", "weapon", "headshot", "x"]))
        .message(1, described(8, "player_footstep", &["userid"]));
    let death = new()
        .number(2, 7)
        .message(3, new().number(4, 12))
        .message(3, new().text(2, "ak47"))
        .message(3, new().number(7, 1))
        .message(3, new().float(3, 2.5))
        .message(3, new().number(5, 99));
    let step = new().number(2, 8).message(3, new().number(4, 12));
    let unlisted = new().text(1, "round_end").number(2, 55).message(3, new().number(4, 1));
    let mut data = death.framed(25);
    let first = data.len();
    data.extend(step.framed(25));
    data.extend(unlisted.framed(25));
    let packets = vec![(100, 0, first), (200, first, data.len()), (300, 5, data.len() + 1)];
    let es = decode_events(&vec![list.framed(30)], &packets, &data);
    assert_eq!(es.len(), 2);
    assert_eq!((es[0].event.as_str(), es[0].tick), ("player_death", 100));
    let names: Vec<&str> = es[0].fields.iter().map(|f| f.name.as_str()).collect();
    assert_eq!(names, ["userid", "weapon", "headshot", "x"]);
    assert!(matches!(es[0].fields[0].value, EventValue::Int(12)));
    assert!(matches!(&es[0].fields[1].value, EventValue::Str(s) if s == "ak47"));
    assert!(matches!(es[0].fields[2].value, EventValue::Bool(true)));
    assert!(matches!(es[0].fields[3].value, EventValue::Float(b) if b == 2.5f32.to_bits()));
    assert_eq!((es[1].event.as_str(), es[1].tick, es[1].fields.len()), ("round_end", 200, 0));
    assert!(decode_events(&Vec::new(), &packets, &data).iter().all(|e| e.event == "round_end"));
}

/// Bits, the lowest first.
#[derive(Default)]
struct Bits {
    bits: Vec<bool>,
}

impl Bits {
    fn put(&mut self, v: u32, n: u32) -> &mut Self {
        for i in 0..n {
            self.bits.push(v >> i & 1 == 1);
        }
        self
    }

    fn text(&mut self, s: &str) -> &mut Self {
        for b in s.bytes() {
            self.put(b as u32, 8);
        }
        self.put(0, 8)
    }

    fn bytes(&self) -> Vec<u8> {
        let mut out = vec![0u8; (self.bits.len() + 7) / 8];
        for (i, b) in self.bits.iter().enumerate() {
            out[i / 8] |= (*b as u8) << (i % 8);
        }
        out
    }
}

#[test]
fn players_are_found_in_the_tables_of_a_demo() {
    let mut blob = vec![0u8; 132];
    blob[16..20].copy_from_slice(b"zoe\0");
    blob[48] = 41;
    blob[124] = 1;
    let mut b = Bits::default();
    b.put(2, 8);
    b.text("downloadables").put(1, 16).text("maps/x.bsp").put(0, 1).put(0, 1);
    b.text("userinfo").put(3, 16);
    b.text("1").put(1, 1).put(132, 16);
    for x in &blob {
        b.put(*x as u32, 8);
    }
    b.text("ann").put(0, 1);
    b.text("").put(0, 1);
    b.put(0, 1);
    let table = b.bytes();
    let mut d = vec![0u8; 1072];
    d[..8].copy_from_slice(b"HL2DEMO\0");
    d.push(3);
    d.extend([0; 4]);
    d.push(8);
    d.extend([0; 4]);
    d.extend((table.len() as i32).to_le_bytes());
    d.extend_from_slice(&table);
    d.extend([7, 0, 0, 0, 0]);
    let (names, slots) = parse_userinfo_from_demo(&d, 3, false);
    assert_eq!(names.len(), 2);
    assert_eq!(names.get(&41), Some(&("zoe".to_string(), true)));
    assert_eq!(names.get(&2), Some(&("ann".to_string(), false)));
    assert_eq!((slots.get(&0), slots.get(&1)), (Some(&41), Some(&2)));
}
