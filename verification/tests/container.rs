//! Headers, commands and inputs of demos of Source 1.
use demoscope::check::{route, Route};
use demoscope::constants::{is_source_demo_magic, IN_ATTACK, IN_JUMP};
use demoscope::dump::{list_visits, read_visits, Entry};
use demoscope::export::{count_passed, write_csv, write_head, write_json, write_summary};
use demoscope::header::{fmt_buttons, parse_header, parse_usercmd};
use demoscope::packets::{detect_splitscreen, extract_svc_setview, iterate_demo_packets,
    spectator_switch_intervals};
use demoscope::quake::QuakeKind;
use demoscope::report::packet_ranges;
use demoscope::session::read_recording;

/// Writes bits, the lowest first.
#[derive(Default)]
struct Bits(Vec<bool>);

impl Bits {
    fn put(&mut self, v: u32, n: u32) -> &mut Self {
        for i in 0..n {
            self.0.push((v >> i) & 1 == 1);
        }
        self
    }

    fn bytes(&self) -> Vec<u8> {
        let mut out = vec![0u8; self.0.len().div_ceil(8)];
        for (i, b) in self.0.iter().enumerate() {
            if *b {
                out[i / 8] |= 1 << (i % 8);
            }
        }
        out
    }
}

fn put_text(d: &mut [u8], at: usize, s: &str) {
    d[at..at + s.len()].copy_from_slice(s.as_bytes());
}

fn header(proto: i32, net: i32, game: &str) -> Vec<u8> {
    let mut d = vec![0u8; 1072];
    put_text(&mut d, 0, "HL2DEMO");
    d[8..12].copy_from_slice(&proto.to_le_bytes());
    d[12..16].copy_from_slice(&net.to_le_bytes());
    put_text(&mut d, 16, "server");
    put_text(&mut d, 276, "client");
    put_text(&mut d, 536, "de_map");
    put_text(&mut d, 796, game);
    d[1056..1060].copy_from_slice(&12.5f32.to_le_bytes());
    d[1060..1064].copy_from_slice(&825i32.to_le_bytes());
    d[1064..1068].copy_from_slice(&800i32.to_le_bytes());
    d[1068..1072].copy_from_slice(&77i32.to_le_bytes());
    d
}

fn command(d: &mut Vec<u8>, proto: i32, cmd: u8, tick: i32) {
    d.push(cmd);
    d.extend(tick.to_le_bytes());
    if proto > 3 {
        d.push(0);
    }
}

fn packet(d: &mut Vec<u8>, proto: i32, cmd: u8, tick: i32, at: (f32, f32, f32), body: &[u8]) {
    command(d, proto, cmd, tick);
    let mut info = vec![0u8; 76];
    info[4..8].copy_from_slice(&at.0.to_le_bytes());
    info[8..12].copy_from_slice(&at.1.to_le_bytes());
    info[12..16].copy_from_slice(&at.2.to_le_bytes());
    d.extend(info);
    d.extend(5i32.to_le_bytes());
    d.extend(6i32.to_le_bytes());
    d.extend((body.len() as i32).to_le_bytes());
    d.extend(body);
}

fn console(d: &mut Vec<u8>, tick: i32, text: &[u8]) {
    command(d, 3, 4, tick);
    d.extend((text.len() as i32).to_le_bytes());
    d.extend(text);
}

fn input(d: &mut Vec<u8>, tick: i32, seq: i32, body: &[u8]) {
    command(d, 3, 5, tick);
    d.extend(seq.to_le_bytes());
    d.extend((body.len() as i32).to_le_bytes());
    d.extend(body);
}

fn usercmd() -> Vec<u8> {
    let mut b = Bits::default();
    b.put(1, 1).put(41, 32);
    b.put(0, 1);
    b.put(1, 1).put(1.5f32.to_bits(), 32);
    b.put(1, 1).put((-90.25f32).to_bits(), 32);
    b.put(0, 1);
    b.put(1, 1).put(450.0f32.to_bits(), 32);
    b.put(0, 1);
    b.put(0, 1);
    b.put(1, 1).put(IN_ATTACK | IN_JUMP, 32);
    b.put(1, 1).put(100, 8);
    b.put(1, 1).put(7, 11).put(1, 1).put(3, 6);
    b.put(1, 1).put(0xfffe, 16);
    b.put(0, 1);
    b.bytes()
}

#[test]
fn headers_are_read() {
    let d = header(3, 24, "tf");
    let h = parse_header(&d).unwrap();
    assert_eq!((h.demo_protocol, h.net_protocol), (3, 24));
    assert_eq!(h.server_name, "server");
    assert_eq!(h.client_name, "client");
    assert_eq!(h.map_name, "de_map");
    assert_eq!(h.game_dir, "tf");
    assert_eq!(f32::from_bits(h.playback_time), 12.5);
    assert_eq!((h.ticks, h.frames, h.sign_on_length), (825, 800, 77));
    assert!(parse_header(&d[..1071]).is_none());
    let mut g = d.clone();
    put_text(&mut g, 0, "GMODEMO");
    assert!(is_source_demo_magic(&g));
    put_text(&mut g, 0, "XL2DEMO");
    assert!(parse_header(&g).is_none());
}

#[test]
fn names_that_are_not_text_are_replaced() {
    let mut d = header(3, 24, "tf");
    d[276] = 0xff;
    let h = parse_header(&d).unwrap();
    assert_eq!(h.client_name, "\u{fffd}lient");
}

#[test]
fn inputs_are_read_field_by_field() {
    let c = parse_usercmd(&usercmd()).unwrap();
    assert_eq!(c.command_number, Some(41));
    assert_eq!(c.tick_count, None);
    assert_eq!(c.pitch.map(f32::from_bits), Some(1.5));
    assert_eq!(c.yaw.map(f32::from_bits), Some(-90.25));
    assert_eq!(c.roll, None);
    assert_eq!(c.forwardmove.map(f32::from_bits), Some(450.0));
    assert_eq!((c.sidemove, c.upmove), (None, None));
    assert_eq!(c.buttons, Some(3));
    assert_eq!(c.impulse, Some(100));
    assert_eq!((c.weaponselect, c.weaponsubtype), (Some(7), Some(3)));
    assert_eq!((c.mousedx, c.mousedy), (Some(-2), None));
    let empty = parse_usercmd(&[]).unwrap();
    assert_eq!(empty.command_number, None);
    assert_eq!(empty.mousedy, None);
}

#[test]
fn buttons_have_names() {
    assert_eq!(fmt_buttons(0), "none");
    assert_eq!(fmt_buttons(IN_ATTACK | IN_JUMP), "ATTACK|JUMP");
    assert_eq!(fmt_buttons(0x40), "none");
    assert_eq!(fmt_buttons(0x100), "TURNRIGHT");
}

fn small_demo() -> Vec<u8> {
    let mut d = header(3, 24, "tf");
    packet(&mut d, 3, 1, 0, (0.0, 0.0, 0.0), &[9, 9, 9]);
    command(&mut d, 3, 3, 0);
    packet(&mut d, 3, 2, 10, (1.0, 2.0, 3.0), &[1, 2]);
    console(&mut d, 11, b" say hi \0");
    input(&mut d, 12, 40, &usercmd());
    packet(&mut d, 3, 2, 13, (4.0, 5.0, 6.0), &[]);
    command(&mut d, 3, 7, 14);
    d
}

#[test]
fn commands_are_walked_in_order() {
    let d = small_demo();
    let ps = iterate_demo_packets(&d, 3, false);
    let kinds: Vec<(u8, i32)> = ps.iter().map(|p| (p.cmd, p.tick)).collect();
    assert_eq!(kinds, [(1, 0), (3, 0), (2, 10), (4, 11), (5, 12), (2, 13), (7, 14)]);
    assert_eq!(&d[ps[0].payload_start..ps[0].payload_end], &[9, 9, 9]);
    assert_eq!(&d[ps[2].payload_start..ps[2].payload_end], &[1, 2]);
    for w in ps.windows(2) {
        assert!(w[0].payload_end < w[1].payload_start);
    }
    let (signon, play) = packet_ranges(&d, 3, false);
    assert_eq!(signon.len(), 1);
    assert_eq!(play.len(), 1);
    assert_eq!(play[0].0, 10);
}

#[test]
fn a_command_that_runs_over_the_end_stops_the_walk() {
    let mut d = header(3, 24, "tf");
    command(&mut d, 3, 3, 1);
    command(&mut d, 3, 4, 2);
    d.extend(100i32.to_le_bytes());
    assert_eq!(iterate_demo_packets(&d, 3, false).len(), 1);
    let h = parse_header(&d).unwrap();
    let v = read_visits(&d, &h, false);
    assert_eq!(v.len(), 2);
    assert!(matches!(v[1].entry, Entry::Cut));
    assert_eq!(count_passed(&v), 1);
}

#[test]
fn splitscreen_slots_are_told_from_the_first_packet() {
    for (slots, want) in [(1usize, 1usize), (2, 2), (4, 4)] {
        let mut d = header(4, 2042, "left4dead");
        command(&mut d, 4, 1, 0);
        d.extend(vec![0u8; 76 * slots + 8]);
        d.extend(60i32.to_le_bytes());
        d.extend(vec![0u8; 400]);
        assert_eq!(detect_splitscreen(&d, 4, false), want);
        assert_eq!(detect_splitscreen(&d, 4, true), 2);
        assert_eq!(detect_splitscreen(&d, 3, true), 1);
    }
}

#[test]
fn recordings_hold_inputs_console_and_camera() {
    let d = small_demo();
    let h = parse_header(&d).unwrap();
    let r = read_recording(&d, &h, false, true);
    assert_eq!(r.cmds.len(), 1);
    let c = r.cmds[0];
    assert_eq!((c.tick, c.btns, c.weapon), (12, 3, 7));
    assert_eq!(f32::from_bits(c.pitch), 1.5);
    assert_eq!(f32::from_bits(c.fwd), 450.0);
    assert_eq!(c.side, 0);
    assert_eq!(r.console, [(11, "say hi".to_string())]);
    let places: Vec<(i32, f32)> = r.positions.iter().map(|p| (p.0, f32::from_bits(p.1))).collect();
    assert_eq!(places, [(10, 1.0), (13, 4.0)]);
    let old = {
        let mut d = small_demo();
        d[12..16].copy_from_slice(&7i32.to_le_bytes());
        d
    };
    let h = parse_header(&old).unwrap();
    let r = read_recording(&old, &h, false, true);
    assert!(r.cmds.is_empty() && r.positions.is_empty() && r.console.is_empty());
}

#[test]
fn console_lines_that_are_not_text_are_left_out() {
    let mut d = header(3, 24, "tf");
    console(&mut d, 1, &[0xff, 0xfe]);
    console(&mut d, 2, "\u{e4} \0\0".as_bytes());
    let h = parse_header(&d).unwrap();
    let r = read_recording(&d, &h, false, true);
    assert_eq!(r.console, [(2, "\u{e4}".to_string())]);
}

#[test]
fn listings_say_what_the_commands_hold() {
    let d = small_demo();
    let h = parse_header(&d).unwrap();
    let v = read_visits(&d, &h, false);
    let want = [
        "[     3] CONSOLE  tick=     11  \" say hi \"",
        "[     4] USERCMD  tick=     12  cmd=41  seq=40",
        "               view  pitch=    1.500\u{b0}  yaw=  -90.250\u{b0}  roll=0.000\u{b0}",
        "               move  fwd=   450.0  side=     0.0  up=     0.0",
        "               keys  ATTACK|JUMP  (0x00000003)",
        "               mouse dx=-2  dy=0",
        "               weapon slot=7  sub=3",
        "[     6] STOP   tick=14",
        "",
    ];
    assert_eq!(list_visits(&v, false), want.join("\n"));
    let all = list_visits(&v, true);
    assert!(all.starts_with("[     0] SIGNON  tick=      0  in=5  out=6  len=3\n[     1] SYNCTICK tick=0\n"));
    assert!(all.contains("[     2] PACKET  tick=     10  in=5  out=6  len=2\n"));
}

#[test]
fn rows_and_arrays_hold_the_inputs() {
    let d = small_demo();
    let h = parse_header(&d).unwrap();
    let v = read_visits(&d, &h, false);
    assert_eq!(
        write_csv(&v),
        "tick,cmd_num,pitch,yaw,roll,fwd,side,up,buttons,impulse,weapon,mousedx,mousedy\n\
         12,41,1.5000,-90.2500,,450.00,,,3,100,7,-2,\n"
    );
    assert_eq!(
        write_json(&v),
        "[\n  {\"tick\":12,\"cmd\":41,\"pitch\":1.5000,\"yaw\":-90.2500,\"fwd\":450.00,\
         \"buttons\":3,\"buttons_str\":\"ATTACK|JUMP\",\"impulse\":100,\"weapon\":7,\
         \"weapon_sub\":3,\"mousedx\":-2}\n]\n"
    );
    assert_eq!(write_json(&vec![]), "[\n]\n");
}

#[test]
fn an_input_without_a_number_has_that_of_its_sequence() {
    let mut d = header(3, 24, "tf");
    input(&mut d, 1, -1, &[0, 0]);
    input(&mut d, 2, 9, &[0, 0]);
    let h = parse_header(&d).unwrap();
    let v = read_visits(&d, &h, false);
    assert!(matches!(v[0].entry, Entry::Input(-1, 0xffff_ffff, Some(_))));
    assert!(matches!(v[1].entry, Entry::Input(9, 9, Some(_))));
    assert!(write_json(&v).contains("},\n  {"));
}

#[test]
fn summaries_count_the_commands() {
    let d = small_demo();
    let h = parse_header(&d).unwrap();
    let v = read_visits(&d, &h, false);
    let s = write_summary(&v);
    assert!(s.contains("Packets parsed   : 6\n"));
    assert!(s.contains("Last tick seen   : 14\n"));
    assert!(s.contains("Signon           : 1\n"));
    assert!(s.contains("Packet (game)    : 2\n"));
    assert!(s.contains("ConsoleCmd       : 1\n"));
    assert!(s.contains("UserCmd (inputs) : 1\n"));
    assert!(s.contains("DataTables       : 0\n"));
    let head = write_head(&h, "x.dem", d.len());
    assert!(head.contains("Map      : de_map\n"));
    assert!(head.contains("Protocols: demo=3 net=24\n"));
    assert!(head.contains("Length   : 12.50s  ticks=825  frames=800  signon_len=77\n"));
}

#[test]
fn tables_and_custom_data_are_told_apart() {
    let mut d = header(4, 2042, "portal2");
    command(&mut d, 4, 8, 5);
    d.extend(1i32.to_le_bytes());
    d.extend(2i32.to_le_bytes());
    d.extend([0xaa, 0xbb]);
    command(&mut d, 4, 9, 6);
    d.extend(1000i32.to_le_bytes());
    let h = parse_header(&d).unwrap();
    let v = read_visits(&d, &h, true);
    assert!(matches!(v[0].entry, Entry::Custom(2)));
    assert!(matches!(v[1].entry, Entry::Strings(1000)));
    assert_eq!(v.len(), 2);
    let mut e = d.clone();
    e.truncate(1072);
    command(&mut e, 4, 77, 1);
    let v = read_visits(&e, &h, true);
    assert!(matches!(v[0].entry, Entry::Unknown));
    assert_eq!(v[0].at, 1072);
}

#[test]
fn view_changes_are_found_and_make_intervals() {
    let mut d = header(3, 24, "tf");
    let mut ticks = Vec::new();
    for (t, e) in [(1, 5u32), (2, 5), (3, 6), (4, 5), (5, 5), (6, 7)] {
        let mut b = Bits::default();
        b.put(0, 6).put(3, 6).put(0, 32).put(0, 32).put(17, 6).put(e, 12);
        ticks.push((t, d.len(), d.len() + b.bytes().len()));
        d.extend(b.bytes());
    }
    let views = extract_svc_setview(&d, &ticks);
    assert_eq!(views, [(1, 5), (2, 5), (3, 6), (4, 5), (5, 5), (6, 7)]);
    assert_eq!(spectator_switch_intervals(&views), [(3, 4), (6, 7)]);
    assert!(spectator_switch_intervals(&views[..4]).is_empty());
}

#[test]
fn files_are_taken_for_what_they_say() {
    for name in ["a.dem", "a.DM_68", "a.dm2", "a.mvd", "a"] {
        assert_eq!(route(b"HL2DEMO\0...", name), Route::Source1);
        assert_eq!(route(b"GMODEMO\0...", name), Route::Source1);
        assert_eq!(route(b"HLDEMO\0\0...", name), Route::GoldSrc);
        assert_eq!(route(b"PBDEMS2\0...", name), Route::Source2);
    }
    assert_eq!(route(b"-1\n", "a.dem"), Route::Quake(QuakeKind::Q1Net));
    assert_eq!(route(b"", "a.DM_68"), Route::Quake(QuakeKind::Q3));
    assert_eq!(route(b"HL2DEMO", "a.txt"), Route::Source1);
}
