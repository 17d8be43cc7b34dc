//! Events, string tables, properties, entities and players of Source 1.
use demoscope::bits::BitReader;
use demoscope::header::parse_header;
use demoscope::multi_player::wrap_raw;
use demoscope::report::source_events;
use demoscope::source::datatable::{DataTables, ServerClass};
use demoscope::source::events::{breaks_of, chat_event, compute_life_breaks, display_events_for_game,
    extract_events_from_payload, local_player, scan_for_game_event_list, EventField, EventSchema,
    EventValue, GameEvent, SampledCmd};
use demoscope::source::player_tracks::paths::Paths;
use demoscope::source::player_tracks::{Step, Walk};
use demoscope::source::sendprop::{decode_prop, PropValue, Real, SendPropDef, SendPropType,
    SPROP_CELL_COORD, SPROP_COORD, SPROP_COORD_MP, SPROP_NOSCALE, SPROP_NORMAL, SPROP_UNSIGNED,
    SPROP_VARINT};
use demoscope::source::stringtable::{parse_player_info_blob, parse_userinfo};
use std::collections::HashMap;

/// Writes bits, the lowest first.
#[derive(Default, Clone)]
struct Bits(Vec<bool>);

impl Bits {
    fn put(&mut self, v: u32, n: u32) -> &mut Self {
        for i in 0..n {
            self.0.push((v >> i) & 1 == 1);
        }
        self
    }

    fn text(&mut self, s: &str) -> &mut Self {
        for b in s.bytes().chain([0]) {
            self.put(b as u32, 8);
        }
        self
    }

    fn add(&mut self, other: &Bits) -> &mut Self {
        self.0.extend(&other.0);
        self
    }

    fn len(&self) -> u32 {
        self.0.len() as u32
    }

    fn bytes(&self) -> Vec<u8> {
        let mut out = vec![0u8; self.0.len().div_ceil(8)];
        for (i, b) in self.0.iter().enumerate() {
            if *b {
                out[i / 8] |= 1 << (i % 8);
            }
        }
        out
    }
}

fn float(v: f32) -> u32 {
    v.to_bits()
}

fn event_list() -> Bits {
    let mut body = Bits::default();
    body.put(23, 9).text("player_death").put(4, 3).text("userid").put(1, 3).text("weapon");
    body.put(2, 3).text("x").put(6, 3).text("crit").put(7, 3).text("local").put(0, 3);
    for i in 0..9 {
        body.put(100 + i, 9).text(&format!("event_{i}")).put(3, 3).text("n").put(0, 3);
    }
    let mut b = Bits::default();
    b.put(30, 6).put(10, 9).put(body.len(), 20).add(&body);
    b
}

#[test]
fn lists_of_events_are_found_at_any_bit() {
    for shift in 0..9 {
        let mut b = Bits::default();
        b.put(0, shift).add(&event_list());
        let m = scan_for_game_event_list(&b.bytes()).unwrap();
        assert_eq!(m.len(), 10);
        assert_eq!(m[&23].name, "player_death");
        let kinds: Vec<u8> = m[&23].fields.iter().map(|f| f.1).collect();
        assert_eq!(kinds, [4, 1, 2, 6, 7]);
        assert_eq!(m[&108].name, "event_8");
    }
    assert!(scan_for_game_event_list(&[0; 200]).is_none());
}

fn death(user: i16, weapon: &str, x: f32, crit: u32) -> Bits {
    let mut body = Bits::default();
    body.put(23, 9).put(user as u16 as u32, 16).text(weapon).put(float(x), 32).put(crit, 1);
    let mut b = Bits::default();
    b.put(25, 6).put(body.len(), 11).add(&body);
    b
}

#[test]
fn events_are_read_behind_other_messages() {
    let schemas = scan_for_game_event_list(&event_list().bytes()).unwrap();
    let mut p = Bits::default();
    p.put(0, 6);
    p.put(3, 6).put(1, 32).put(2, 16).put(3, 16);
    p.put(4, 6).text("retry");
    p.put(5, 6).put(1, 8).text("sv_x").text("1");
    p.put(17, 6).put(0, 1).put(2, 8).put(9, 16).put(0x1ff, 9);
    p.put(26, 6).put(5, 11).put(1, 1).put(9, 32).put(0, 1).put(0, 11).put(3, 20).put(0, 1).put(7, 3);
    p.add(&death(-3, "rocket", 2.5, 1));
    p.put(18, 6).put(3, 11);
    p.add(&death(4, "", 0.0, 0));
    let shown = vec!["player_death".to_string()];
    let evs = extract_events_from_payload(&p.bytes(), 77, &schemas, &shown, false, false, 3);
    assert_eq!(evs.len(), 2);
    let field = |n: &str, value| EventField { name: n.to_string(), value };
    assert_eq!(
        evs[0],
        GameEvent {
            event: "player_death".to_string(),
            tick: 77,
            fields: vec![
                field("userid", EventValue::Int(-3)),
                field("weapon", EventValue::Str("rocket".to_string())),
                field("x", EventValue::Float(float(2.5))),
                field("crit", EventValue::Bool(true)),
                field("local", EventValue::Null),
            ],
        }
    );
    let none = extract_events_from_payload(&p.bytes(), 77, &schemas, &Vec::new(), false, false, 3);
    assert!(none.is_empty());
}

#[test]
fn newer_engines_number_their_messages_anew() {
    let schemas = scan_for_game_event_list(&event_list().bytes()).unwrap();
    let shown = vec!["player_death".to_string()];
    let mut p = Bits::default();
    p.put(3, 6).put(0, 1);
    p.put(4, 6).put(1, 32).put(2, 16).put(3, 16);
    p.put(16, 6).text("printed");
    p.add(&death(1, "w", 0.0, 0));
    assert_eq!(extract_events_from_payload(&p.bytes(), 1, &schemas, &shown, true, true, 4).len(), 1);
    assert!(extract_events_from_payload(&p.bytes(), 1, &schemas, &shown, false, false, 3).is_empty());
}

#[test]
fn chat_is_an_event() {
    let schemas: HashMap<u16, EventSchema> = HashMap::new();
    let mut body = Bits::default();
    body.put(1, 8).put(1, 8).text("TF_Chat_Team").text("ann").text("hello");
    let mut p = Bits::default();
    p.put(23, 6).put(4, 8).put(body.len(), 11).add(&body);
    let shown = vec!["say".to_string(), "say_team".to_string()];
    let evs = extract_events_from_payload(&p.bytes(), 5, &schemas, &shown, false, false, 3);
    assert_eq!(evs.len(), 1);
    assert_eq!(evs[0].event, "say_team");
    assert_eq!(evs[0].fields[0].value, EventValue::Str("ann".to_string()));
    assert!(chat_event("TF_Chat_All", "a".to_string(), String::new(), 1).is_some_and(|e| e.event == "say"));
    assert!(chat_event("not a name!", "a".to_string(), "b".to_string(), 1).is_none());
    assert!(chat_event("", "a".to_string(), "b".to_string(), 1).is_none());
    assert!(chat_event("TF_Chat_All", String::new(), String::new(), 1).is_none());
}

#[test]
fn every_game_shows_the_common_events() {
    for game in ["tf", "cstrike", "csgo", "left4dead", "left4dead2", "portal", "portal2", "hl2mp", "x"] {
        let v = display_events_for_game(game);
        for e in ["player_death", "player_spawn", "player_hurt", "console_cmd", "say", "say_team"] {
            assert!(v.iter().any(|s| s == e), "{game} {e}");
        }
    }
    assert!(display_events_for_game("tf").iter().any(|s| s == "player_teleported"));
}

fn about(event: &str, tick: i32, user: i32) -> GameEvent {
    GameEvent {
        event: event.to_string(),
        tick,
        fields: vec![EventField { name: "userid".to_string(), value: EventValue::Int(user) }],
    }
}

fn cmd(tick: i32) -> SampledCmd {
    SampledCmd { tick, pitch: 0, yaw: 0, fwd: 0, side: 0, btns: 0, weapon: 0 }
}

#[test]
fn lives_end_where_players_respawn() {
    let cmds: Vec<SampledCmd> = (0..10).map(|i| cmd(i * 10)).collect();
    let events = vec![
        about("player_spawn", 5, 2),
        about("player_death", 30, 2),
        about("player_death", 35, 9),
        about("player_spawn", 41, 2),
        about("player_spawn", 70, 9),
        about("player_teleported", 80, 2),
    ];
    assert_eq!(local_player(&events), Some(2));
    let (all, jumps) = breaks_of(&cmds, &events, Some(2));
    assert_eq!(jumps, [8]);
    assert_eq!(all.len(), 2);
    assert_eq!(all[1], 8);
    assert_eq!(compute_life_breaks(&cmds, &events), (all, jumps));
    assert_eq!(compute_life_breaks(&Vec::new(), &events), (Vec::new(), Vec::new()));
}

fn blob(name: &str, id: u32) -> Vec<u8> {
    let mut v = vec![0u8; 140];
    v[..name.len()].copy_from_slice(name.as_bytes());
    v[32..36].copy_from_slice(&id.to_le_bytes());
    v[36..47].copy_from_slice(b"[U:1:12345]");
    v[108] = 1;
    v
}

#[test]
fn players_are_read_from_their_records() {
    let p = parse_player_info_blob(&blob("ann", 7)).unwrap();
    assert_eq!((p.name.as_str(), p.user_id, p.steam_id.as_str()), ("ann", 7, "[U:1:12345]"));
    assert!(p.is_fake && !p.is_hltv);
    assert_eq!(p.aliases, ["ann"]);
    let mut shifted = vec![0u8; 8];
    shifted.extend(blob("bob", 9));
    let p = parse_player_info_blob(&shifted).unwrap();
    assert_eq!((p.name.as_str(), p.user_id), ("bob", 9));
    let mut wide = vec![0u8; 344];
    wide[16..19].copy_from_slice(b"cat");
    wide[144..148].copy_from_slice(&5u32.to_be_bytes());
    let p = parse_player_info_blob(&wide).unwrap();
    assert_eq!((p.name.as_str(), p.user_id, p.is_fake), ("cat", 5, false));
    assert!(parse_player_info_blob(&[0; 140]).is_none());
    assert!(parse_player_info_blob(&[65; 35]).is_none());
}

fn strings() -> Bits {
    let mut b = Bits::default();
    b.put(2, 8);
    b.text("other").put(1, 16).text("x").put(1, 1).put(2, 16).put(0, 16).put(0, 1);
    b.text("userinfo").put(2, 16);
    b.text("0").put(0, 1);
    b.text("1").put(1, 1).put(140, 16);
    for v in blob("dot", 3) {
        b.put(v as u32, 8);
    }
    b.put(1, 1).put(1, 16).text("c").put(0, 1);
    b
}

#[test]
fn string_tables_name_the_players() {
    let r = parse_userinfo(&strings().bytes()).unwrap();
    assert_eq!(r.table_names, ["other", "userinfo"]);
    assert_eq!(r.players.len(), 1);
    assert_eq!(r.players[&2].name, "dot");
    assert!(parse_userinfo(&[0]).is_none());
    assert!(parse_userinfo(&[65]).is_none());
}

fn prop(name: &str, prop_type: SendPropType, flags: u32, bit_count: u32) -> SendPropDef {
    SendPropDef {
        name: name.to_string(),
        table_name: "DT".to_string(),
        prop_type,
        flags,
        bit_count,
        low_value: float(-1.0),
        high_value: float(1.0),
        element_count: 3,
        element_def: None,
        priority: 0,
        array_parent: None,
    }
}

fn decode(p: &SendPropDef, b: &Bits) -> Option<PropValue> {
    let bytes = b.bytes();
    let mut br = BitReader::new(&bytes);
    decode_prop(p, &mut br)
}

fn number(p: &SendPropDef, b: &Bits) -> Real {
    decode(p, b).unwrap().as_f32().unwrap()
}

#[test]
fn whole_properties_are_read() {
    let mut b = Bits::default();
    b.put(0xff, 8).put(0, 24);
    let unsigned = prop("a", SendPropType::Int, SPROP_UNSIGNED, 8);
    assert_eq!(decode(&unsigned, &b).unwrap().as_i64(), Some(255));
    let signed = prop("a", SendPropType::Int, 0, 8);
    assert_eq!(decode(&signed, &b).unwrap().as_i64(), Some(-1));
    let mut v = Bits::default();
    v.put(0xad, 8).put(0x02, 8);
    let zigzag = prop("a", SendPropType::Int, SPROP_VARINT, 0);
    assert_eq!(decode(&zigzag, &v).unwrap().as_i64(), Some(-151));
    let plain = prop("a", SendPropType::Int, SPROP_VARINT | SPROP_UNSIGNED, 0);
    assert_eq!(decode(&plain, &v).unwrap().as_i64(), Some(301));
    assert!(decode(&unsigned, &Bits::default()).is_none());
}

#[test]
fn numbers_are_read_as_they_are_written() {
    let mut b = Bits::default();
    b.put(float(3.25), 32);
    assert_eq!(number(&prop("f", SendPropType::Float, SPROP_NOSCALE, 32), &b), Real::Bits(float(3.25)));
    let mut b = Bits::default();
    b.put(1, 1).put(1, 1).put(1, 1).put(99, 14).put(16, 5);
    assert_eq!(number(&prop("f", SendPropType::Float, SPROP_COORD, 0), &b), Real::Bits(float(-100.5)));
    let mut b = Bits::default();
    b.put(0, 2);
    assert_eq!(number(&prop("f", SendPropType::Float, SPROP_COORD, 0), &b), Real::Bits(0));
    let mut b = Bits::default();
    b.put(1, 1).put(1, 1).put(0, 1).put(9, 11).put(8, 5);
    assert_eq!(number(&prop("f", SendPropType::Float, SPROP_COORD_MP, 0), &b), Real::Bits(float(10.25)));
    let mut b = Bits::default();
    b.put(77, 9).put(3, 5);
    assert_eq!(number(&prop("f", SendPropType::Float, SPROP_CELL_COORD, 9), &b), Real::Cell(77, 3, 5));
    let mut b = Bits::default();
    b.put(1, 1).put(2047, 11);
    assert_eq!(number(&prop("f", SendPropType::Float, SPROP_NORMAL, 0), &b), Real::Unit(true, 2047));
    let mut b = Bits::default();
    b.put(5, 4);
    let scaled = Real::Scaled(5, 4, float(-1.0), float(1.0));
    assert_eq!(number(&prop("f", SendPropType::Float, 0, 4), &b), scaled);
}

#[test]
fn coordinates_are_exact() {
    for whole in [0u32, 1, 511, 16383] {
        for part in 0..32u32 {
            for sign in 0..2u32 {
                let mut b = Bits::default();
                b.put(1, 1).put(1, 1).put(sign, 1).put(whole, 14).put(part, 5);
                let v = (whole + 1) as f32 + part as f32 / 32.0;
                let want = if sign == 1 { -v } else { v };
                let p = prop("f", SendPropType::Float, SPROP_COORD, 0);
                assert_eq!(number(&p, &b), Real::Bits(float(want)));
            }
        }
    }
}

#[test]
fn texts_and_arrays_are_read() {
    let mut b = Bits::default();
    b.put(3, 9).put(b'a' as u32, 8).put(0xff, 8).put(b'c' as u32, 8);
    match decode(&prop("s", SendPropType::String, 0, 0), &b) {
        Some(PropValue::String(s)) => assert_eq!(s, "a\u{fffd}c"),
        other => panic!("{other:?}"),
    }
    let mut p = prop("a", SendPropType::Array, 0, 0);
    p.element_def = Some(Box::new(prop("e", SendPropType::Int, SPROP_UNSIGNED, 4)));
    let mut b = Bits::default();
    b.put(2, 2).put(7, 4).put(9, 4);
    match decode(&p, &b) {
        Some(PropValue::Array(v)) => {
            let got: Vec<Option<i64>> = v.iter().map(|x| x.as_i64()).collect();
            assert_eq!(got, [Some(7), Some(9)]);
        }
        other => panic!("{other:?}"),
    }
    p.element_def = None;
    assert!(decode(&p, &b).is_none());
}

fn tables() -> DataTables {
    let class = |id, name: &str| ServerClass {
        id,
        name: name.to_string(),
        data_table: "DT".to_string(),
    };
    let mut flat_props = HashMap::new();
    flat_props.insert(
        1,
        vec![
            prop("m_vecOrigin", SendPropType::VectorXY, SPROP_NOSCALE, 32),
            prop("m_vecOrigin[2]", SendPropType::Float, SPROP_NOSCALE, 32),
            prop("m_lifeState", SendPropType::Int, SPROP_UNSIGNED, 8),
            prop("m_angEyeAngles[1]", SendPropType::Float, SPROP_NOSCALE, 32),
        ],
    );
    DataTables {
        server_classes: vec![class(0, "CWorld"), class(1, "CTFPlayer")],
        flat_props,
    }
}

/// An update of entity 3; a new one where `enter` is set.
fn update(enter: bool, place: (f32, f32, f32), life: u32, yaw: f32) -> Bits {
    let mut e = Bits::default();
    e.put(0, 2).put(3, 4);
    if enter {
        e.put(2, 2).put(1, 2).put(55, 10);
    } else {
        e.put(0, 2);
    }
    e.put(1, 1).put(0, 2).put(0, 4).put(float(place.0), 32).put(float(place.1), 32);
    e.put(1, 1).put(0, 2).put(0, 4).put(float(place.2), 32);
    e.put(1, 1).put(0, 2).put(0, 4).put(life, 8);
    e.put(1, 1).put(0, 2).put(0, 4).put(float(yaw), 32);
    e.put(0, 1);
    let mut b = Bits::default();
    b.put(26, 6).put(64, 11).put(0, 1).put(0, 1).put(1, 11).put(e.len(), 20).put(0, 1).add(&e);
    b
}

fn packet(d: &mut Vec<u8>, tick: i32, body: &[u8]) {
    d.push(2);
    d.extend(tick.to_le_bytes());
    let mut info = vec![0u8; 76];
    info[16..20].copy_from_slice(&4.0f32.to_le_bytes());
    info[20..24].copy_from_slice(&8.0f32.to_le_bytes());
    d.extend(info);
    d.extend([0u8; 8]);
    d.extend((body.len() as i32).to_le_bytes());
    d.extend(body);
}

fn demo() -> Vec<u8> {
    let mut d = vec![0u8; 1072];
    d[..7].copy_from_slice(b"HL2DEMO");
    d[8..12].copy_from_slice(&3i32.to_le_bytes());
    d[12..16].copy_from_slice(&24i32.to_le_bytes());
    d[276..279].copy_from_slice(b"dot");
    d[796..798].copy_from_slice(b"tf");
    d.push(6);
    d.extend(0i32.to_le_bytes());
    d.extend(2i32.to_le_bytes());
    d.extend([1, 2]);
    d.push(8);
    d.extend(0i32.to_le_bytes());
    let s = strings().bytes();
    d.extend((s.len() as i32).to_le_bytes());
    d.extend(s);
    packet(&mut d, 10, &update(true, (100.0, 200.0, 30.0), 0, 45.0).bytes());
    packet(&mut d, 11, &update(false, (101.0, 200.0, 30.0), 2, 45.5).bytes());
    d.push(7);
    d.extend(12i32.to_le_bytes());
    d
}

#[test]
fn walks_see_the_players() {
    let d = demo();
    let h = parse_header(&d).unwrap();
    let mut w = Walk::new(&d, &h, false);
    let mut paths = Paths::new();
    let mut seen = Vec::new();
    let mut steps = 0;
    loop {
        steps += 1;
        match w.step(&d) {
            Step::Done => break,
            Step::More => {}
            Step::Tables(a, b) => {
                assert_eq!(&d[a..b], &[1, 2]);
                w.give_tables(tables());
            }
        }
        seen.extend(w.take_sightings());
    }
    assert_eq!(steps, 5);
    assert_eq!(seen.len(), 2);
    let s = &seen[0];
    assert_eq!((s.tick, s.player, s.gated), (10, 3, false));
    let at = |v: f32| Some(Real::Bits(float(v)));
    assert_eq!(s.origins, [(at(100.0), at(200.0), at(30.0))]);
    assert_eq!((s.yaw, s.pitch), (at(45.0), None));
    for s in &seen {
        let bits = |r: Option<Real>| match r {
            Some(Real::Bits(b)) => Some(b),
            _ => None,
        };
        let spots: Vec<_> =
            s.origins.iter().map(|o| (bits(o.0), bits(o.1), bits(o.2))).collect();
        let moved = vec![s.tick > 10; spots.len()];
        if let Some(at) = paths.place(s.player, &spots, &moved, s.gated) {
            paths.record(s.tick, s.player, at, false, false);
        }
        paths.turn(s.player, (s.tick, bits(s.yaw).unwrap(), 0), s.tick == 10);
    }
    let raw = w.finish(h, paths);
    assert_eq!(raw.life_states[&3], [(10, 0), (11, 2)]);
    assert_eq!(raw.tracks[&3][1], (11, float(101.0), float(200.0), float(30.0)));
    assert_eq!(raw.yaws[&3], [(10, float(45.0), 0)]);
    assert_eq!(raw.view_angles, [(10, float(4.0), float(8.0)), (11, float(4.0), float(8.0))]);
    assert_eq!(raw.names[&2].name, "dot");
    let all = wrap_raw(raw);
    assert_eq!(all.primary_entity, Some(2));
}

#[test]
fn without_tables_nobody_is_seen() {
    let d = demo();
    let h = parse_header(&d).unwrap();
    let mut w = Walk::new(&d, &h, false);
    while w.step(&d) != Step::Done {}
    assert!(w.take_sightings().is_empty());
    let all = wrap_raw(w.finish(h, Paths::new()));
    assert!(all.tracks.is_empty());
    assert_eq!(all.view_angles.len(), 2);
}

#[test]
fn the_place_that_moves_is_where_the_player_is() {
    let mut p = Paths::new();
    let spot = |x: f32| (Some(float(x)), Some(0), Some(0));
    assert_eq!(p.place(1, &vec![spot(50.0), spot(60.0)], &vec![false, false], false), Some((float(50.0), 0, 0)));
    for i in 0..3 {
        let at = p.place(1, &vec![spot(50.0), spot(61.0 + i as f32)], &vec![false, true], false);
        assert_eq!(at, Some((float(61.0 + i as f32), 0, 0)));
    }
    assert_eq!(p.place(1, &vec![spot(50.0), spot(63.0)], &vec![false, false], false), None);
    assert_eq!(p.last_spots(1), [Some((float(50.0), 0, 0)), Some((float(63.0), 0, 0))]);
}

#[test]
fn gated_heights_wait_for_a_step() {
    let mut p = Paths::new();
    let spot = |x: f32, z: f32| vec![(Some(float(x)), Some(0), Some(float(z)))];
    assert!(p.place(1, &spot(5.0, 1.0), &vec![false], true).is_some());
    assert_eq!(p.place(1, &spot(5.0, 2.0), &vec![false], true), None);
    assert_eq!(p.place(1, &spot(6.0, 3.0), &vec![true], true), Some((float(6.0), 0, float(3.0))));
    assert_eq!(p.place(1, &spot(6.0, 4.0), &vec![false], false), Some((float(6.0), 0, float(4.0))));
}

#[test]
fn tracks_do_not_start_near_the_origin() {
    let mut p = Paths::new();
    p.record(1, 1, (float(1.0), 0, 0), true, false);
    assert_eq!(p.last_point(1), None);
    p.record(2, 1, (float(9.0), 0, 0), false, false);
    p.record(3, 1, (float(9.5), 0, 0), false, true);
    p.record(4, 1, (float(1.0), 0, 0), true, false);
    assert_eq!(p.last_point(1), Some((4, float(1.0), 0, 0)));
    p.turn(1, (1, 0, 0), false);
    p.turn(1, (2, 9, 9), false);
    p.turn(1, (3, 9, 9), true);
    let (tracks, yaws) = p.into_lists();
    assert_eq!(tracks[&1].len(), 2);
    assert_eq!(yaws[&1], [(1, 0, 0), (3, 9, 9)]);
}

#[test]
fn events_of_a_demo_come_in_the_order_of_their_ticks() {
    let mut d = demo();
    d.truncate(1072);
    let mut first = event_list();
    first.put(0, 6);
    packet(&mut d, 1, &first.bytes());
    packet(&mut d, 30, &death(2, "a", 0.0, 0).bytes());
    packet(&mut d, 20, &death(3, "b", 0.0, 0).bytes());
    let h = parse_header(&d).unwrap();
    let lines = vec![(25, "kill".to_string())];
    let evs = source_events(&d, &h, false, &lines);
    let got: Vec<(i32, &str)> = evs.iter().map(|e| (e.tick, e.event.as_str())).collect();
    assert_eq!(got, [(20, "player_death"), (25, "console_cmd"), (30, "player_death")]);
}
