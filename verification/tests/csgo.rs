//! The messages and string tables of CS:GO demos.
use demoscope::source::csgo::message::{scan_payload, MsgKind};
use demoscope::source::csgo::stringtables::{decode_userinfo_entries, StringTables,
    MAX_USERDATA_BITS};
use std::collections::HashMap;

fn frame(id: u8, body: &[u8]) -> Vec<u8> {
    let mut v = vec![id, body.len() as u8];
    v.extend_from_slice(body);
    v
}

#[test]
fn frames_sequential_messages() {
    let mut buf = frame(4, &[0x08, 0x2a]);
    buf.extend(frame(26, &[0x10, 0x01, 0x02]));
    let msgs = scan_payload(&buf);
    assert_eq!(msgs.len(), 2);
    assert_eq!(msgs[0].kind, MsgKind::NetTick);
    assert_eq!(msgs[0].body, &[0x08, 0x2a]);
    assert_eq!(msgs[1].kind, MsgKind::SvcPacketEntities);
    assert_eq!(msgs[1].body.len(), 3);
}

#[test]
fn unknown_id_preserved_as_other() {
    let buf = frame(99, &[0xff]);
    let msgs = scan_payload(&buf);
    assert_eq!(msgs.len(), 1);
    assert_eq!(msgs[0].kind, MsgKind::Other(99));
    assert_eq!(msgs[0].id, 99);
}

#[test]
fn truncated_tail_stops_cleanly() {
    let mut buf = frame(4, &[0x01]);
    buf.extend_from_slice(&[9, 200]);
    let msgs = scan_payload(&buf);
    assert_eq!(msgs.len(), 1);
    assert_eq!(msgs[0].kind, MsgKind::NetTick);
}

/// Writes bits, the lowest first.
struct BitWriter {
    bits: Vec<bool>,
}

impl BitWriter {
    fn new() -> Self {
        BitWriter { bits: Vec::new() }
    }

    fn put(&mut self, value: u32, n: u32) {
        for i in 0..n {
            self.bits.push((value >> i) & 1 == 1);
        }
    }

    fn put_bytes(&mut self, bytes: &[u8]) {
        for &b in bytes {
            self.put(b as u32, 8);
        }
    }

    fn into_bytes(self) -> Vec<u8> {
        let mut out = vec![0u8; self.bits.len().div_ceil(8)];
        for (i, &bit) in self.bits.iter().enumerate() {
            if bit {
                out[i / 8] |= 1 << (i % 8);
            }
        }
        out
    }
}

fn csgo_player_blob(name: &str, uid: u32, steam: &str) -> Vec<u8> {
    let mut b = vec![0u8; 344];
    b[16..16 + name.len()].copy_from_slice(name.as_bytes());
    b[144..148].copy_from_slice(&uid.to_be_bytes());
    b[148..148 + steam.len()].copy_from_slice(steam.as_bytes());
    b
}

fn push_varint(buf: &mut Vec<u8>, mut value: u64) {
    loop {
        let mut byte = (value & 0x7f) as u8;
        value >>= 7;
        if value != 0 {
            byte |= 0x80;
        }
        buf.push(byte);
        if value == 0 {
            break;
        }
    }
}

fn push_len_field(buf: &mut Vec<u8>, field: u32, data: &[u8]) {
    buf.push(((field << 3) | 2) as u8);
    push_varint(buf, data.len() as u64);
    buf.extend_from_slice(data);
}

fn push_varint_field(buf: &mut Vec<u8>, field: u32, value: u64) {
    buf.push((field << 3) as u8);
    push_varint(buf, value);
}

fn one_entry_string_data(blob: &[u8]) -> Vec<u8> {
    let mut w = BitWriter::new();
    w.put(0, 1);
    w.put(1, 1);
    w.put(0, 1);
    w.put(1, 1);
    w.put(blob.len() as u32, MAX_USERDATA_BITS);
    w.put_bytes(blob);
    w.into_bytes()
}

#[test]
fn create_userinfo_decodes_player() {
    let blob = csgo_player_blob("Sierra", 7, "STEAM_1:0:42");
    let string_data = one_entry_string_data(&blob);

    let mut body = Vec::new();
    push_len_field(&mut body, 1, b"userinfo");
    push_varint_field(&mut body, 2, 256);
    push_varint_field(&mut body, 3, 1);
    push_len_field(&mut body, 8, &string_data);

    let mut tables = StringTables::new();
    let mut names = HashMap::new();
    tables.handle_create(&body, &mut names);

    let pi = names.get(&1).expect("entry decoded");
    assert_eq!(pi.name, "Sierra");
    assert_eq!(pi.user_id, 7);
    assert_eq!(pi.steam_id, "STEAM_1:0:42");
}

#[test]
fn update_targets_table_by_creation_order() {
    let mut tables = StringTables::new();
    let mut names = HashMap::new();

    let mut other = Vec::new();
    push_len_field(&mut other, 1, b"downloadables");
    push_varint_field(&mut other, 2, 8192);
    push_varint_field(&mut other, 3, 0);
    push_len_field(&mut other, 8, &[0x00]);
    tables.handle_create(&other, &mut names);

    let mut create_ui = Vec::new();
    push_len_field(&mut create_ui, 1, b"userinfo");
    push_varint_field(&mut create_ui, 2, 256);
    push_varint_field(&mut create_ui, 3, 0);
    push_len_field(&mut create_ui, 8, &[0x00]);
    tables.handle_create(&create_ui, &mut names);

    let blob = csgo_player_blob("Latecomer", 99, "STEAM_1:1:1");
    let string_data = one_entry_string_data(&blob);
    let mut update = Vec::new();
    push_varint_field(&mut update, 1, 1);
    push_varint_field(&mut update, 2, 1);
    push_len_field(&mut update, 3, &string_data);
    tables.handle_update(&update, &mut names);

    let pi = names.get(&1).expect("update decoded");
    assert_eq!(pi.name, "Latecomer");
    assert_eq!(pi.user_id, 99);

    let mut wrong = Vec::new();
    push_varint_field(&mut wrong, 1, 0);
    push_varint_field(&mut wrong, 2, 1);
    push_len_field(&mut wrong, 3, &one_entry_string_data(&csgo_player_blob("Ghost", 1, "x")));
    tables.handle_update(&wrong, &mut names);
    assert_eq!(names.get(&1).unwrap().name, "Latecomer");
}

#[test]
fn dictionary_encoded_stream_bails_safely() {
    let mut names = HashMap::new();
    decode_userinfo_entries(&[0x01], 5, 8, false, 0, &mut names);
    assert!(names.is_empty());
}

#[test]
fn a_rename_keeps_the_old_names() {
    let mut names = HashMap::new();
    for name in ["First", "Second", "First"] {
        let data = one_entry_string_data(&csgo_player_blob(name, 7, "STEAM_1:0:42"));
        decode_userinfo_entries(&data, 1, 8, false, 0, &mut names);
    }
    let pi = &names[&1];
    assert_eq!(pi.name, "First");
    assert_eq!(pi.aliases, ["First", "Second"]);
}

fn create(name: &[u8], room: u64) -> Vec<u8> {
    let mut body = Vec::new();
    push_len_field(&mut body, 1, name);
    push_varint_field(&mut body, 2, room);
    push_len_field(&mut body, 8, &[0]);
    body
}

/// A creation that is refused takes no number, an update registers no table, and one
/// without a number or a count is about the first table and one entry.
#[test]
fn tables_are_numbered_as_they_are_created() {
    let mut tables = StringTables::new();
    let mut names = HashMap::new();
    tables.handle_create(&create(b"downloadables", 0), &mut names);
    let mut bad = Vec::new();
    push_varint_field(&mut bad, 1, 7);
    push_varint_field(&mut bad, 2, 256);
    tables.handle_create(&bad, &mut names);

    let mut update = Vec::new();
    push_len_field(&mut update, 3, &one_entry_string_data(&csgo_player_blob("First", 1, "x")));
    tables.handle_update(&update, &mut names);
    assert!(names.is_empty());

    tables.handle_create(&create(b"userinfo", 256), &mut names);
    tables.handle_create(&create(b"modelprecache", 256), &mut names);
    tables.handle_update(&update, &mut names);
    assert_eq!(names.get(&1).unwrap().name, "First");

    for id in [1u64, 2, 3, 0xffff_ffff] {
        let mut other = Vec::new();
        push_varint_field(&mut other, 1, id);
        push_len_field(&mut other, 3, &one_entry_string_data(&csgo_player_blob("Other", 1, "x")));
        tables.handle_update(&other, &mut names);
    }
    assert_eq!(names.len(), 1);
    assert_eq!(names.get(&1).unwrap().aliases, ["First"]);
}

/// A name that comes again is no second alias, a slot without a record stays as it was,
/// and what was read before the bits run out is kept.
#[test]
fn aliases_are_kept_once() {
    let mut names = HashMap::new();
    for name in ["Ada", "Bob", "Ada", "Bob", "Cy"] {
        let data = one_entry_string_data(&csgo_player_blob(name, 1, "x"));
        decode_userinfo_entries(&data, 2, 8, false, 0, &mut names);
    }
    let p = names.get(&1).unwrap();
    assert_eq!(p.name, "Cy");
    assert_eq!(p.aliases, ["Ada", "Bob", "Cy"]);

    let mut w = BitWriter::new();
    w.put(0, 1);
    w.put(0, 1);
    w.put(4, 8);
    w.put(0, 1);
    w.put(1, 1);
    let blob = csgo_player_blob("Dee", 2, "y");
    w.put(blob.len() as u32, MAX_USERDATA_BITS);
    w.put_bytes(&blob);
    let data = w.into_bytes();
    decode_userinfo_entries(&data, 9, 8, false, 0, &mut names);
    assert_eq!(names.len(), 2);
    assert_eq!(names.get(&1).unwrap().aliases, ["Ada", "Bob", "Cy"]);
    assert_eq!(names.get(&5).unwrap().aliases, ["Dee"]);
}
