//! What a viewer is given, and the pages.
use demoscope::goldsrc::{GoldSrcMeta, Playback};
use demoscope::html::engines::{generate_goldsrc_html, Walkers};
use demoscope::html::source::{generate_dual_html_string, generate_html_string, Demo, MapTexts, Second};
use demoscope::html::source2::{generate_source2_html, Pawn, Score, Source2Demo};
use demoscope::json::{breaks_to_json, cmds_to_json, escape_html, escape_json_str, events_to_json,
    intervals_to_json, merge_json_obj, multi_names_to_json, multi_tracks_to_json,
    multi_weapon_classes_to_json, multi_yaws_to_json, object_json, view_angles_to_json};
use demoscope::multi_player::{subsample, subsample_turns, MultiPlayerData, PlayerMeta};
use demoscope::overlay::{backfill_names_from_connects, extract_ghosts, ghost_shift};
use demoscope::page::{fill, Slot};
use demoscope::report::{map_to_sampled, sample_cmds, sample_places, sort_events};
use demoscope::source::events::{EventField, EventValue, GameEvent, SampledCmd};
use std::collections::HashMap;

fn bits(v: f32) -> u32 {
    v.to_bits()
}

fn no_map() -> MapTexts {
    MapTexts { verts: String::new(), indices: String::new(), spawn: (0, 0, 0) }
}

fn people() -> MultiPlayerData {
    MultiPlayerData {
        map: "m".to_string(),
        server: "s".to_string(),
        ticks: 9,
        tracks: HashMap::new(),
        names: HashMap::new(),
        life_states: HashMap::new(),
        observer_modes: HashMap::new(),
        yaws: HashMap::new(),
        weapons: HashMap::new(),
        weapon_classes: HashMap::new(),
        primary_entity: None,
        view_angles: Vec::new(),
    }
}

fn player(name: &str) -> PlayerMeta {
    PlayerMeta {
        name: name.to_string(),
        steam_id: String::new(),
        user_id: 3,
        is_fake: false,
        is_hltv: true,
        aliases: vec![name.to_string()],
    }
}

fn connect(tick: i32, name: &str, index: i32, user: i32) -> GameEvent {
    let field = |n: &str, value| EventField { name: n.to_string(), value };
    GameEvent {
        event: "player_connect".to_string(),
        tick,
        fields: vec![
            field("name", EventValue::Str(name.to_string())),
            field("index", EventValue::Int(index)),
            field("userid", EventValue::Int(user)),
        ],
    }
}

#[test]
fn texts_are_escaped() {
    assert_eq!(escape_json_str("a\"b\\c\n\r\t\u{1}\u{1f}\u{e9}"), "a\\\"b\\\\c\\n\\r\\t\\u0001\\u001f\u{e9}");
    assert_eq!(escape_html("<a href=\"x\">&amp;"), "&lt;a href=&quot;x&quot;&gt;&amp;amp;");
}

#[test]
fn escaped_texts_can_stand_in_quotes() {
    for code in 0..0x300u32 {
        let c = char::from_u32(code).unwrap();
        let e = escape_json_str(&c.to_string());
        assert!(e.chars().all(|c| c >= ' '));
        let plain = e.replace("\\\\", "").replace("\\\"", "");
        assert!(!plain.contains('"'));
    }
}

#[test]
fn events_are_objects() {
    let e = GameEvent {
        event: "hurt".to_string(),
        tick: -5,
        fields: vec![
            EventField { name: "who".to_string(), value: EventValue::Str("a\"b".to_string()) },
            EventField { name: "x".to_string(), value: EventValue::Float(bits(1.25)) },
            EventField { name: "n".to_string(), value: EventValue::Int(-7) },
            EventField { name: "t".to_string(), value: EventValue::Bool(true) },
            EventField { name: "z".to_string(), value: EventValue::Null },
        ],
    };
    assert_eq!(
        events_to_json(&vec![e]),
        "[{\"event\":\"hurt\",\"tick\":-5,\"who\":\"a\\\"b\",\"x\":1.25,\"n\":-7,\"t\":true,\"z\":null}]"
    );
    assert_eq!(events_to_json(&Vec::new()), "[]");
}

#[test]
fn small_lists_are_arrays() {
    assert_eq!(breaks_to_json(&vec![0, 12, 7]), "[0,12,7]");
    assert_eq!(intervals_to_json(&vec![(-1, 2), (3, 4)]), "[[-1,2],[3,4]]");
    let c = SampledCmd {
        tick: 3,
        pitch: bits(0.5),
        yaw: bits(-1.0),
        fwd: bits(450.0),
        side: 0,
        btns: 9,
        weapon: 2,
    };
    assert_eq!(cmds_to_json(&vec![c, c]), "[[3,0.5,-1,450,0,9,2],[3,0.5,-1,450,0,9,2]]");
}

#[test]
fn players_are_written_in_the_order_of_their_labels() {
    let mut p = people();
    for k in [1, 2, 10, 100, 20] {
        p.tracks.insert(k, vec![(k as i32, 0, bits(1.0), 0)]);
    }
    p.names.insert(3, player("x\ty"));
    p.life_states.insert(30, vec![(1, 0)]);
    assert_eq!(
        multi_tracks_to_json(&p),
        "{\"1\":[[1,0,1,0]],\"10\":[[10,0,1,0]],\"100\":[[100,0,1,0]],\"2\":[[2,0,1,0]],\
         \"20\":[[20,0,1,0]],\"3\":[],\"30\":[]}"
    );
    assert_eq!(
        multi_names_to_json(&p),
        "{\"3\":{\"name\":\"x\\ty\",\"steam_id\":\"\",\"user_id\":3,\"is_fake\":false,\
         \"is_hltv\":true,\"aliases\":[\"x\\ty\"]}}"
    );
}

#[test]
fn weapons_lose_their_prefix_and_case() {
    let mut p = people();
    p.weapon_classes.insert(47, "CTFRocketLauncher".to_string());
    p.weapon_classes.insert(5, "CTFWeaponKnife".to_string());
    p.weapon_classes.insert(-1, "C\u{c4}K47".to_string());
    assert_eq!(
        multi_weapon_classes_to_json(&p),
        "{\"-1\":\"c\u{e4}k47\",\"47\":\"rocketlauncher\",\"5\":\"knife\"}"
    );
}

#[test]
fn long_tracks_are_thinned() {
    let track: Vec<(i32, u32, u32, u32)> = (0..10_001).map(|i| (i, 0, 0, 0)).collect();
    let few = subsample(&track, 4000);
    assert_eq!(few.len(), 3335);
    assert_eq!((few[0].0, few[1].0, few.last().unwrap().0), (0, 3, 10_000));
    assert_eq!(subsample(&track[..4000], 4000).len(), 4000);
    let turns: Vec<(i32, u32, u32)> = (0..3001).map(|i| (i, bits(1.25), 0)).collect();
    let few = subsample_turns(&turns, 1500);
    assert_eq!(few.len(), 1002);
    assert_eq!((few[1000].0, few[1001].0), (3000, 3000));
    let mut p = people();
    p.yaws.insert(1, turns[..2].to_vec());
    p.view_angles = turns[..1].to_vec();
    assert_eq!(multi_yaws_to_json(&p), "{\"1\":[[0,1.2,0.0],[1,1.2,0.0]]}");
    assert_eq!(view_angles_to_json(&p), "[[0,1.25,0.00]]");
}

#[test]
fn entries_are_put_first() {
    assert_eq!(merge_json_obj("{}", 7, "[1]"), "{\"7\":[1]}");
    assert_eq!(merge_json_obj("{\"1\":[]}", 7, "[1]"), "{\"7\":[1],\"1\":[]}");
    let rows = vec!["\"1\":[]".to_string(), "\"2\":[]".to_string()];
    assert_eq!(merge_json_obj(&object_json(&rows), 9, "0"), "{\"9\":0,\"1\":[],\"2\":[]}");
}

#[test]
fn marks_are_filled_one_after_the_other() {
    let slots = vec![
        Slot { mark: "__A__", text: "x__B__x".to_string() },
        Slot { mark: "__B__", text: "y".to_string() },
    ];
    assert_eq!(fill("__A__ __B__ __A____A_", &slots), "xyx y xyx__A_");
    assert_eq!(fill("nothing to do", &slots), "nothing to do");
    let run = vec![Slot { mark: "aa", text: "b".to_string() }];
    assert_eq!(fill("aaaaa", &run), "bba");
}

#[test]
fn shown_inputs_end_with_the_last() {
    assert_eq!(sample_places(0), Vec::<usize>::new());
    assert_eq!(sample_places(3), [0, 1, 2]);
    let v = sample_places(40_002);
    assert_eq!((v[0], v[1], v.len()), (0, 3, 13_335));
    assert_eq!(*v.last().unwrap(), 40_001);
    let cmds: Vec<SampledCmd> = (0..5)
        .map(|i| SampledCmd { tick: i, pitch: 0, yaw: 0, fwd: 0, side: 0, btns: 0, weapon: 0 })
        .collect();
    let places = vec![0, 3, 4];
    let few: Vec<i32> = sample_cmds(&cmds, &places).iter().map(|c| c.tick).collect();
    assert_eq!(few, [0, 3, 4]);
    assert_eq!(map_to_sampled(&vec![4, 1, 2, 9], &places), [1, 2]);
    assert_eq!(map_to_sampled(&Vec::new(), &places), Vec::<usize>::new());
}

#[test]
fn events_are_sorted_by_tick_and_stay_in_order() {
    let ev = |tick, name: &str| GameEvent { event: name.to_string(), tick, fields: Vec::new() };
    let v = sort_events(vec![ev(5, "a"), ev(1, "b"), ev(5, "c"), ev(-2, "d"), ev(1, "e")]);
    let names: Vec<&str> = v.iter().map(|e| e.event.as_str()).collect();
    assert_eq!(names, ["d", "b", "e", "a", "c"]);
}

#[test]
fn names_that_are_known_stay() {
    let mut p = people();
    for k in [1, 2, 3] {
        p.tracks.insert(k, vec![(0, 0, 0, 0)]);
    }
    p.names.insert(1, player("known"));
    let events = vec![
        connect(1, "new", 0, 5),
        connect(2, "two", 1, -4),
        connect(3, "", 2, 6),
        connect(4, "far", 64, 6),
        connect(5, "untracked", 9, 6),
    ];
    backfill_names_from_connects(&mut p.names, &p.tracks, &events);
    assert_eq!(p.names.len(), 2);
    assert_eq!(p.names[&1].name, "known");
    assert_eq!((p.names[&2].name.as_str(), p.names[&2].user_id), ("two", 0));
}

#[test]
fn ghosts_start_with_the_demo() {
    let mut p = people();
    p.tracks.insert(4, vec![(100, 0, 0, 0), (110, 0, 0, 0)]);
    p.tracks.insert(2, vec![(90, 0, 0, 0), (95, 0, 0, 0)]);
    p.names.insert(4, player("four"));
    let gs = extract_ghosts(Some(&p), &[], "b.dem", false);
    let ids: Vec<u32> = gs.iter().map(|g| g.eid).collect();
    assert_eq!(ids, [900_002, 900_004]);
    assert_eq!(gs[1].name, "\u{25c6} four");
    assert_eq!(gs[0].name, "\u{25c6} e2");
    let shift = ghost_shift(&Vec::new(), &vec![(7, 0, 0, 0)], &gs);
    assert_eq!(shift, 7 - 90);
    for g in &gs {
        assert!(g.samples[0].0 as i64 + shift >= 7);
    }
}

fn demo_bytes() -> Vec<u8> {
    let mut d = vec![0u8; 1072];
    d[..7].copy_from_slice(b"HL2DEMO");
    d[8..12].copy_from_slice(&3i32.to_le_bytes());
    d[12..16].copy_from_slice(&24i32.to_le_bytes());
    d[536..539].copy_from_slice(b"map");
    d[796..798].copy_from_slice(b"tf");
    d[1056..1060].copy_from_slice(&2.0f32.to_le_bytes());
    for (tick, x) in [(10i32, 1.0f32), (11, 2.0)] {
        d.push(2);
        d.extend(tick.to_le_bytes());
        let mut info = vec![0u8; 76];
        info[4..8].copy_from_slice(&x.to_le_bytes());
        d.extend(info);
        d.extend([0u8; 12]);
    }
    d.push(4);
    d.extend(12i32.to_le_bytes());
    d.extend(4i32.to_le_bytes());
    d.extend(b"kill");
    d
}

fn demo<'a>(data: &'a [u8], name: &'a str, players: Option<MultiPlayerData>) -> Demo<'a> {
    Demo { data, p2_engine: false, rate: bits(66.0), map: no_map(), name, players }
}

const TEMPLATE: &str = "__DEMO_NAME__;__META__;__CMDS__;__LIFE_BREAKS__;__EVENTS__;__WORLD_POSITIONS__;\
    __GHOST_EIDS__;__ENTITY_TRACKS__;__ENTITY_NAMES__;__PRIMARY_ENTITY__;__VIEW_ANGLES__;__VIEW_SWITCHES__";

#[test]
fn pages_show_what_a_demo_holds() {
    let d = demo_bytes();
    let mut p = people();
    p.tracks.insert(1, vec![(3, 0, 0, bits(2.0))]);
    p.primary_entity = Some(1);
    let page = generate_html_string(TEMPLATE, demo(&d, "x.dem", Some(p)), 0, None).unwrap();
    assert_eq!(
        page,
        "x.dem;{\"map\":\"map\",\"client\":\"\",\"server\":\"\",\"game\":\"tf\",\"demo_protocol\":3,\
         \"duration\":2.00,\"ncmds\":0,\"tick_rate\":66.00,\"jump_threshold\":0.0};[];[];\
         [{\"event\":\"console_cmd\",\"tick\":12,\"cmd\":\"kill\"}];[[10,1,0,0],[11,2,0,0]];[];\
         {\"1\":[[3,0,0,2]]};{};1;[];[]"
    );
    assert!(generate_html_string(TEMPLATE, demo(&d[..1000], "x", None), 0, None).is_none());
}

#[test]
fn second_demos_are_overlaid() {
    let d = demo_bytes();
    let second = Second { players: None, data: &d, name: "b.dem", p2_engine: false };
    let page = generate_html_string(TEMPLATE, demo(&d, "x", None), 0, Some(second)).unwrap();
    assert!(page.contains(";[900001];{\"900001\":[[10,1,0,0],[11,2,0,0]]};{\"900001\":{\"name\":\"\u{25c6} b.dem\""));
    assert!(page.contains(";null;[];[]"));
}

#[test]
fn two_viewers_are_encoded() {
    let d = demo_bytes();
    let page = generate_dual_html_string(
        "__DEMO_NAME__",
        "__VIEWER_A__,__VIEWER_B__,__NAME_A__,__NAME_B__",
        demo(&d, "Man", None),
        demo(&d, "a\"b\\c\nd", None),
        0,
    );
    assert_eq!(page.unwrap(), "TWFu,YSZxdW90O2JcYwpk,Man,a\\\"b\\\\c d");
    assert!(generate_dual_html_string("", "", demo(&d, "", None), demo(&[], "", None), 0).is_none());
}

fn goldsrc_meta(game: &str) -> GoldSrcMeta {
    GoldSrcMeta {
        map_name: "crossfire".to_string(),
        game_dir: game.to_string(),
        demo_protocol: 5,
        net_protocol: 48,
        play: Playback { frame_count: 10, duration: bits(2.5), play_offset: 0, play_length: 0 },
    }
}

fn walkers() -> Walkers {
    Walkers { tracks: HashMap::new(), yaws: HashMap::new(), names: HashMap::new() }
}

const ENTITIES: &str = "__ENTITY_TRACKS__;__ENTITY_NAMES__;__ENTITY_YAWS__;__PRIMARY_ENTITY__;__VIEW_ANGLES__";

#[test]
fn a_recorder_alone_is_shown() {
    let cam = vec![
        (5, bits(1.0), 0, 0, bits(10.0), bits(20.0)),
        (5, bits(9.0), 0, 0, 0, 0),
        (4, bits(9.0), 0, 0, 0, 0),
        (7, bits(2.0), 0, 0, bits(11.0), bits(21.0)),
    ];
    let page = generate_goldsrc_html(ENTITIES, &goldsrc_meta("cstrike"), bits(4.0), &cam, walkers(), no_map(), "x");
    assert_eq!(
        page,
        "{\"1\":[[5,1,0,0],[7,2,0,0]]};{\"1\":{\"name\":\"cstrike recorder\",\"steam_id\":\"\",\"user_id\":1,\
         \"is_fake\":false,\"is_hltv\":false,\"aliases\":[\"cstrike recorder\"]}};\
         {\"1\":[[5,20.0,10.0],[7,21.0,11.0]]};1;[[5,10.00,20.00],[7,11.00,21.00]]"
    );
    let page = generate_goldsrc_html(ENTITIES, &goldsrc_meta(""), 0, &Vec::new(), walkers(), no_map(), "x");
    assert_eq!(page, "{};{};{};null;[]");
}

#[test]
fn recorders_join_the_players() {
    let mut w = walkers();
    w.tracks.insert(12, vec![(1, 0, 0, 0), (1, bits(5.0), 0, 0), (2, bits(1.0), 0, 0)]);
    w.tracks.insert(3, vec![(9, 0, 0, 0)]);
    w.yaws.insert(3, vec![(9, bits(45.0), 0)]);
    w.names.insert(3, "gordon".to_string());
    let cam = vec![(5, bits(1.0), 0, 0, 0, 0)];
    let page = generate_goldsrc_html(ENTITIES, &goldsrc_meta(""), 0, &cam, w, no_map(), "x");
    assert!(page.starts_with("{\"1\":[[5,1,0,0]],\"3\":[[9,0,0,0]],\"12\":[[1,0,0,0],[2,1,0,0]]};{\"1\":{\"name\":\"recorder\""));
    assert!(page.contains("\"3\":{\"name\":\"gordon\""));
    assert!(page.contains("\"12\":{\"name\":\"player 12\",\"steam_id\":\"\",\"user_id\":12,"));
    assert!(page.ends_with(";{\"1\":[[5,0.0,0.0]],\"3\":[[9,45.0,0.0]]};1;[[5,0.00,0.00]]"));
}

fn source2() -> Source2Demo {
    Source2Demo {
        header_map: "header".to_string(),
        server_map: String::new(),
        client_name: " bob ".to_string(),
        server_name: String::new(),
        game_directory: "csgo".to_string(),
        network_protocol: 13_999,
        playback_time: bits(1.0),
        playback_frames: -3,
        pawns: Vec::new(),
        events: Vec::new(),
        rounds: vec![(1, 0), (50, 1), (90, 2)],
        weapons: vec![(3, Vec::new()), (5, vec![(1, 7)])],
        weapon_names: vec![(7, "ak47".to_string()), (8, String::new())],
        buttons: vec![(5, vec![(1, u64::MAX)])],
    }
}

fn pawn(eid: i32, name: Option<&str>) -> Pawn {
    Pawn {
        eid,
        track: vec![(2, 0, 0, 0), (1, 0, 0, 0)],
        yaws: None,
        name: name.map(|s| s.to_string()),
        score: None,
        life: None,
    }
}

#[test]
fn pages_show_demos_of_source_2() {
    let template = "__EVENTS__;__ENTITY_TRACKS__;__ENTITY_NAMES__;__ENTITY_WEAPONS__;__WEAPON_CLASSES__;\
        __ENTITY_BUTTONS__;__PRIMARY_ENTITY__;__ENTITY_LIFE_STATES__;__META__";
    let mut demo = source2();
    let page = generate_source2_html(template, &demo, bits(64.0), no_map(), "x");
    assert!(page.starts_with(
        "[{\"event\":\"round_end\",\"tick\":50,\"round\":1},{\"event\":\"round_end\",\"tick\":90,\"round\":2}];{};{};{};{};{};null;{};"
    ));
    assert!(page.contains("{\"map\":\"header\",") && page.contains("\"ncmds\":0,"));
    demo.server_map = "de_nuke".to_string();
    demo.pawns = vec![pawn(5, Some("bob")), pawn(3, None)];
    demo.pawns[0].score =
        Some(Score { kills: 1, deaths: 2, assists: 3, money: 4, score: 5, team: 6 });
    demo.pawns[0].life = Some(vec![(1, 0), (9, 2)]);
    let page = generate_source2_html(template, &demo, bits(64.0), no_map(), "x");
    assert!(page.contains(";{\"3\":[[2,0,0,0]],\"5\":[[2,0,0,0]]};{\"3\":{\"name\":\"player 3\",\"steam_id\":\"\",\"user_id\":3,"));
    assert!(page.contains("\"aliases\":[\"bob\"],\"kills\":1,\"deaths\":2,\"assists\":3,\"money\":4,\"score\":5,\"team\":6}}"));
    assert!(page.contains(";{\"5\":[[1,7]]};{\"7\":\"ak47\"};{\"5\":[[1,18446744073709551615]]};5;{\"5\":[[1,0],[9,2]]};"));
    assert!(page.contains("{\"map\":\"de_nuke\","));
    demo.client_name = "nobody".to_string();
    let page = generate_source2_html("__PRIMARY_ENTITY__", &demo, 0, no_map(), "x");
    assert_eq!(page, "3");
}

/// Reads what stands between the quotes of a string literal.
fn unescape(s: &str) -> Option<String> {
    let mut out = String::new();
    let mut cs = s.chars();
    while let Some(c) = cs.next() {
        if c == '"' || (c as u32) < 0x20 {
            return None;
        }
        if c != '\\' {
            out.push(c);
            continue;
        }
        match cs.next()? {
            'n' => out.push('\n'),
            'r' => out.push('\r'),
            't' => out.push('\t'),
            'b' => out.push('\u{8}'),
            'f' => out.push('\u{c}'),
            'u' => {
                let digits: String = cs.by_ref().take(4).collect();
                out.push(char::from_u32(u32::from_str_radix(&digits, 16).ok()?)?);
            }
            c if c == '"' || c == '\\' || c == '/' => out.push(c),
            _ => return None,
        }
    }
    Some(out)
}

#[test]
fn escaped_texts_read_back() {
    let all: String = (0..0x180u32).filter_map(char::from_u32).collect();
    for s in [all.as_str(), "", "\\\"", "\\\\", "\\u0041", "\u{1f600}\u{2028}", "ends with \\"] {
        assert_eq!(unescape(&escape_json_str(s)).as_deref(), Some(s));
    }
}
