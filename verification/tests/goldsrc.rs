use demoscope::goldsrc::delta::{bootstrap_decoder, parse_delta, parse_field, Bits, DVal, FieldDesc, Num};
use demoscope::goldsrc::entities::{extract_entities, Facing, Sample};
use demoscope::goldsrc::{extract_camera, is_goldsrc, is_netmsg_anchor, parse, Playback};

/// Bits, the lowest first.
#[derive(Default)]
struct Stream {
    bits: Vec<bool>,
}

impl Stream {
    fn put(&mut self, v: u32, n: u32) -> &mut Self {
        for i in 0..n {
            self.bits.push(v >> i & 1 == 1);
        }
        self
    }

    fn text(&mut self, s: &str) -> &mut Self {
        for b in s.bytes() {
            self.put(b as u32, 8);
        }
        self.put(0, 8)
    }

    fn bytes(&self) -> Vec<u8> {
        let mut out = vec![0u8; (self.bits.len() + 7) / 8];
        for (i, b) in self.bits.iter().enumerate() {
            if *b {
                out[i / 8] |= 1 << (i % 8);
            }
        }
        out
    }
}

const INTEGER: u32 = 8;
const FLOAT: u32 = 4;
const ANGLE: u32 = 16;
const SIGNED: u32 = 0x8000_0000;

fn field(bits: u32, divisor: u32, flags: u32) -> FieldDesc {
    FieldDesc { name: "f".to_string(), bits, divisor, flags }
}

fn read(f: &FieldDesc, s: &Stream) -> Num {
    let bytes = s.bytes();
    match parse_field(f, &mut Bits::new(&bytes)) {
        DVal::Num(n) => n,
        DVal::Str(_) => panic!("a text"),
    }
}

#[test]
fn fields_are_read_as_their_tables_say() {
    let mut s = Stream::default();
    s.put(1, 1).put(100, 11);
    assert_eq!(read(&field(12, 32_000, FLOAT | SIGNED), &s), Num::Ratio(-100, 32_000));
    assert_eq!(read(&field(12, 12_000, INTEGER | SIGNED), &s), Num::Whole(-33));
    assert_eq!(read(&field(12, 100, INTEGER | SIGNED), &s), Num::Whole(-100));
    assert_eq!(read(&field(12, 4000, INTEGER), &s), Num::Whole(201));
    assert_eq!(read(&field(8, 4000, ANGLE), &s), Num::Turn(201, 8));
    assert_eq!(read(&field(8, 4000, 0), &s), Num::Whole(0));
    assert!(Num::Ratio(1, 4000).is_finite());
    assert!(!Num::Ratio(1, 0).is_finite());

    let mut s = Stream::default();
    s.put(1, 1).text("ab").put(3, 2);
    let bytes = s.bytes();
    let mut br = Bits::new(&bytes);
    assert!(br.bit());
    assert_eq!(br.peek16(), 0x6261);
    assert_eq!(br.read_str(), "ab");
    assert_eq!(br.bits(2), 3);
    assert_eq!(br.consumed_bytes(), 4);
    assert!(!br.over());
    br.skip(6);
    assert!(br.over());
}

/// A divisor is a number of single precision before it is cut to a whole one.
#[test]
fn divisors_are_rounded_before_they_are_cut() {
    let mut s = Stream::default();
    s.put(0x7fff_ffff, 32);
    for r in [4000u32, 7999, 32_767_999, 65_535_999, 131_071_999, 1_000_003_999, 4_294_967_295] {
        let d = ((r as f64 / 4000.0) as f32) as i64;
        assert_eq!(read(&field(32, r, INTEGER), &s), Num::Whole(0x7fff_ffff / d), "{}", r);
    }
}

#[test]
fn tables_are_read_by_a_table() {
    let table = bootstrap_decoder();
    let names: Vec<&str> = table.iter().map(|f| f.name.as_str()).collect();
    assert_eq!(names, ["flags", "name", "offset", "size", "bits", "divisor", "preMultiplier"]);
    let mut s = Stream::default();
    s.put(1, 3).put(0x33, 8).put(FLOAT, 32).text("x").put(12, 8).put(32_000, 32);
    let bytes = s.bytes();
    let changes = parse_delta(&table, &mut Bits::new(&bytes));
    assert_eq!(changes.len(), 4);
    assert_eq!(changes[1].name, "name");
    assert!(matches!(&changes[1].val, DVal::Str(x) if x == "x"));
    assert!(matches!(changes[3].val, DVal::Num(Num::Ratio(32_000, 16_000_000))));
}

fn put_text(d: &mut [u8], at: usize, s: &str) {
    d[at..at + s.len()].copy_from_slice(s.as_bytes());
}

fn net_message(d: &mut Vec<u8>, kind: u8, time: f32, eye: [f32; 3], look: [f32; 2], blob: &[u8]) {
    d.push(kind);
    d.extend_from_slice(&time.to_le_bytes());
    d.extend_from_slice(&0i32.to_le_bytes());
    let mut body = vec![0u8; 468];
    for i in 0..3 {
        body[4 + 4 * i..8 + 4 * i].copy_from_slice(&eye[i].to_le_bytes());
    }
    for i in 0..2 {
        body[16 + 4 * i..20 + 4 * i].copy_from_slice(&look[i].to_le_bytes());
    }
    body[176] = 2;
    body[464..468].copy_from_slice(&(blob.len() as i32).to_le_bytes());
    d.extend_from_slice(&body);
    d.extend_from_slice(blob);
}

fn frame(d: &mut Vec<u8>, kind: u8, time: f32, body: &[u8]) {
    d.push(kind);
    d.extend_from_slice(&time.to_le_bytes());
    d.extend_from_slice(&0i32.to_le_bytes());
    d.extend_from_slice(body);
}

/// A table of a place and a direction.
fn table(name: &str) -> Vec<u8> {
    let mut b = vec![14u8];
    b.extend_from_slice(name.as_bytes());
    b.push(0);
    b.extend_from_slice(&4u16.to_le_bytes());
    let mut s = Stream::default();
    s.put(1, 3).put(0x33, 8).put(FLOAT | SIGNED, 32).text("origin[0]").put(12, 8).put(32_000, 32);
    s.put(1, 3).put(0x33, 8).put(FLOAT | SIGNED, 32).text("origin[1]").put(12, 8).put(32_000, 32);
    s.put(1, 3).put(0x33, 8).put(INTEGER | SIGNED, 32).text("origin[2]").put(8, 8).put(12_000, 32);
    s.put(1, 3).put(0x13, 8).put(ANGLE, 32).text("angles[1]").put(16, 8);
    b.extend_from_slice(&s.bytes());
    b
}

fn signon() -> Vec<u8> {
    let mut b = vec![11u8];
    b.extend_from_slice(&[0; 28]);
    b.extend_from_slice(&[2, 0, 0]);
    b.extend_from_slice(b"cstrike\0host\0maps/a.bsp\0cycle\0\0");
    b.push(13);
    b.push(0);
    b.extend_from_slice(&[9, 0, 0, 0]);
    b.extend_from_slice(b"\\model\\gign\\name\\Gordon\0");
    b.extend_from_slice(&[0; 16]);
    b.extend_from_slice(&table("entity_state_player_t"));
    b.push(39);
    b.extend_from_slice(&[100, 3]);
    b.extend_from_slice(&[0; 16]);
    b.extend_from_slice(&[100, 1, 2, 3, 1]);
    b
}

/// Entity 1 with all that its table holds.
fn entities() -> Vec<u8> {
    let mut s = Stream::default();
    s.put(1, 16).put(1, 1).put(0, 2);
    s.put(1, 3).put(0x0f, 8);
    s.put(1, 1).put(100, 11).put(0, 1).put(16, 11).put(0, 1).put(100, 7).put(16_384, 16);
    s.put(0, 16);
    let mut b = vec![40u8];
    b.extend_from_slice(&s.bytes());
    b
}

/// The same of the entity with this number, which is given.
fn entity(number: u32) -> Vec<u8> {
    let mut s = Stream::default();
    s.put(1, 16).put(0, 1).put(1, 1).put(number, 11).put(0, 2);
    s.put(1, 3).put(0x0f, 8);
    s.put(1, 1).put(100, 11).put(0, 1).put(16, 11).put(0, 1).put(100, 7).put(16_384, 16);
    s.put(0, 16);
    let mut b = vec![40u8];
    b.extend_from_slice(&s.bytes());
    b
}

/// Entity 1 at another `origin[0]`, entity 2 gone.
fn moved() -> Vec<u8> {
    let mut s = Stream::default();
    s.put(2, 16).put(0, 8);
    s.put(0, 1).put(1, 1).put(1, 11).put(0, 1);
    s.put(1, 3).put(0x01, 8).put(0, 1).put(8, 11);
    s.put(1, 1).put(1, 1).put(2, 11);
    s.put(0, 16);
    let mut b = vec![41u8];
    b.extend_from_slice(&s.bytes());
    b
}

fn demo() -> Vec<u8> {
    let mut d = vec![0u8; 544];
    put_text(&mut d, 0, "HLDEMO");
    d[8] = 5;
    d[12] = 48;
    put_text(&mut d, 16, "maps/a.bsp");
    put_text(&mut d, 276, "cstrike");
    net_message(&mut d, 0, 0.0, [0.0; 3], [0.0; 2], &signon());
    frame(&mut d, 5, 0.0, &[]);
    let play = d.len();
    frame(&mut d, 2, 0.0, &[]);
    frame(&mut d, 3, 0.5, &[b'x'; 64]);
    net_message(&mut d, 1, 1.0, [1.0, 2.0, 3.0], [4.0, 5.0], &entities());
    frame(&mut d, 4, 1.0, &[0; 32]);
    frame(&mut d, 6, 1.0, &[0; 76]);
    frame(&mut d, 7, 1.0, &[0; 8]);
    let mut sound = vec![0u8; 27];
    sound[4] = 3;
    frame(&mut d, 8, 1.0, &sound);
    frame(&mut d, 9, 1.0, &[2, 0, 0, 0, 7, 7]);
    // A message that no table describes hides those behind it.
    let mut unknown = vec![40u8, 1, 0, 0x12, 0, 0, 0];
    unknown.extend_from_slice(&moved());
    net_message(&mut d, 1, 2.0, [200_000.0, 0.0, 0.0], [0.0; 2], &unknown);
    d.extend_from_slice(&[200; 300]);
    net_message(&mut d, 1, 3.0, [7.0, 8.0, 9.0], [0.0; 2], &moved());
    frame(&mut d, 5, 3.0, &[]);
    let length = d.len() - play;
    let directory = d.len() as i32;
    d[540..544].copy_from_slice(&directory.to_le_bytes());
    d.extend_from_slice(&2i32.to_le_bytes());
    for (frames, offset, length) in [(0i32, 544i32, 1i32), (3, play as i32, length as i32)] {
        let mut e = vec![0u8; 76];
        e.extend_from_slice(&3.5f32.to_le_bytes());
        e.extend_from_slice(&frames.to_le_bytes());
        e.extend_from_slice(&offset.to_le_bytes());
        e.extend_from_slice(&length.to_le_bytes());
        d.extend_from_slice(&e);
    }
    d
}

#[test]
fn the_segment_with_the_most_frames_is_played() {
    let d = demo();
    assert!(is_goldsrc(&d));
    let m = parse(&d).unwrap();
    assert_eq!(m.map_name, "maps/a.bsp");
    assert_eq!(m.game_dir, "cstrike");
    assert_eq!((m.demo_protocol, m.net_protocol), (5, 48));
    assert_eq!(m.play.frame_count, 3);
    assert_eq!(m.play.duration, 3.5f32.to_bits());
    assert_eq!(m.play.play_offset + m.play.play_length + 4 + 2 * 92, d.len());

    assert!(parse(&d[..543]).is_none());
    let m = parse(&d[..600]).unwrap();
    assert_eq!((m.play.frame_count, m.play.play_offset), (0, 0));
    let mut other = demo();
    other[0] = b'X';
    assert!(parse(&other).is_none());
}

#[test]
fn cameras_follow_the_recorder() {
    let d = demo();
    let m = parse(&d).unwrap();
    let cam = extract_camera(&d, &m.play);
    let at: Vec<[f32; 6]> = cam
        .iter()
        .map(|c| [c.0, c.1, c.2, c.3, c.4, c.5].map(f32::from_bits))
        .collect();
    assert_eq!(at, [[1.0, 1.0, 2.0, 3.0, 4.0, 5.0], [3.0, 7.0, 8.0, 9.0, 0.0, 0.0]]);
    let first = m.play.play_offset + 9 + 9 + 64;
    assert!(is_netmsg_anchor(&d, first));
    assert!(!is_netmsg_anchor(&d, first + 1));
}

#[test]
fn players_are_followed_through_changes() {
    let d = demo();
    let m = parse(&d).unwrap();
    let e = extract_entities(&d, &m.play);
    assert_eq!(e.names.get(&1).map(|s| s.as_str()), Some("Gordon"));
    assert_eq!(e.names.len(), 1);
    assert_eq!(e.primary, Some(1));
    let (one, three) = (1.0f32.to_bits(), 3.0f32.to_bits());
    let (y, z) = (Num::Ratio(16, 32_000), Num::Whole(33));
    assert_eq!(
        e.tracks.get(&1).unwrap(),
        &vec![
            Sample { time: one, x: Num::Ratio(-100, 32_000), y, z },
            Sample { time: three, x: Num::Ratio(8, 32_000), y, z },
        ]
    );
    let (yaw, pitch) = (Num::Turn(16_384, 16), Num::Whole(0));
    assert_eq!(
        e.yaws.get(&1).unwrap(),
        &vec![Facing { time: one, yaw, pitch }, Facing { time: three, yaw, pitch }]
    );
    assert_eq!(e.tracks.len(), 1);
}

/// The players are the entities from 1 to the number of players, whatever the low byte
/// of another one's number says.
#[test]
fn only_the_first_entities_are_players() {
    for (number, found) in [(1u32, true), (2, true), (3, false), (256, false), (257, false), (258, false)] {
        let mut blob = signon();
        blob.extend_from_slice(&table("entity_state_t"));
        blob.extend_from_slice(&entity(number));
        let mut d = vec![0u8; 544];
        put_text(&mut d, 0, "HLDEMO");
        net_message(&mut d, 0, 1.0, [0.0; 3], [0.0; 2], &blob);
        let play = Playback { frame_count: 1, duration: 0, play_offset: 544, play_length: d.len() - 544 };
        let e = extract_entities(&d, &play);
        assert_eq!(e.tracks.len(), found as usize, "{}", number);
        assert_eq!(e.tracks.contains_key(&number), found, "{}", number);
        assert_eq!(e.primary, if found { Some(number) } else { None }, "{}", number);
    }
}

/// A playback that reaches beyond what can be counted ends with the file.
#[test]
fn playbacks_end_with_the_file() {
    let d = demo();
    let m = parse(&d).unwrap();
    let play = Playback { play_length: usize::MAX, ..m.play };
    assert_eq!(extract_camera(&d, &play), extract_camera(&d, &m.play));
    assert_eq!(extract_entities(&d, &play).tracks.len(), 1);
    assert!(!is_netmsg_anchor(&d, usize::MAX));
}

/// Of several players that have a track, the lowest one is taken for the recorder.
#[test]
fn the_lowest_track_is_the_recorders() {
    let mut d = vec![0u8; 544];
    put_text(&mut d, 0, "HLDEMO");
    let mut blob = signon();
    blob.extend_from_slice(&entity(2));
    blob.extend_from_slice(&entity(1));
    net_message(&mut d, 0, 1.0, [0.0; 3], [0.0; 2], &blob);
    let mut play = Playback { frame_count: 1, duration: 0, play_offset: 544, play_length: d.len() - 544 };
    let e = extract_entities(&d, &play);
    assert_eq!((e.tracks.len(), e.primary), (2, Some(1)));

    // The walk is lost behind the first frame, for good.
    d.extend_from_slice(&[200; 300]);
    play.play_length = d.len() - 544;
    assert_eq!(extract_entities(&d, &play).primary, Some(1));
    play.play_offset = 0;
    assert_eq!(extract_entities(&d, &play).primary, None);
}
