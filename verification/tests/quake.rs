//! Demos of Quake 1 to 3.
use demoscope::html::engines::generate_quake_html;
use demoscope::html::source::MapTexts;
use demoscope::quake::huffman::Huff;
use demoscope::quake::{self, dm_protocol, ByteReader, QuakeError, QuakeKind, TrackBuilder};

fn bits(v: f32) -> u32 {
    v.to_bits()
}

fn block(out: &mut Vec<u8>, angles: Option<[f32; 3]>, body: &[u8]) {
    out.extend((body.len() as i32).to_le_bytes());
    for a in angles.into_iter().flatten() {
        out.extend(a.to_le_bytes());
    }
    out.extend(body);
}

#[test]
fn bytes_are_read_and_what_is_missing_is_zero() {
    let mut r = ByteReader::new(&[1, 0xff, 0xfe, 0xff, 0, 0, 128, 63, 8, 0]);
    assert_eq!(r.read_u8(), 1);
    assert_eq!(r.read_i8(), -1);
    assert_eq!(r.read_i16(), -2);
    assert_eq!(r.remaining(), 6);
    assert_eq!(r.read_f32(), bits(1.0));
    assert_eq!(r.read_coord_q2(), bits(1.0));
    assert!(r.eof() && !r.overflow);
    assert_eq!(r.read_i32(), 0);
    assert!(r.overflow);
}

#[test]
fn angles_are_shares_of_a_turn() {
    for b in 0..=255u8 {
        let mut r = ByteReader::new(std::slice::from_ref(&b));
        assert_eq!(f32::from_bits(r.read_angle8()), b as f32 * (360.0 / 256.0));
    }
    for v in (0..=65535u16).step_by(97) {
        let bytes = v.to_le_bytes();
        let mut r = ByteReader::new(&bytes);
        assert_eq!(f32::from_bits(r.read_angle16()), v as f32 * (360.0 / 65536.0));
        let mut r = ByteReader::new(&bytes);
        assert_eq!(f32::from_bits(r.read_coord_q2()), v as i16 as f32 * 0.125);
    }
}

#[test]
fn coloured_text_is_made_plain() {
    let mut r = ByteReader::new(&[0x13, 0x13, 0x15, 0x16, 0xa0, b'T' | 0x80, b'u', 0x10, 0x11, 7, 0, b'x']);
    assert_eq!(r.read_string(), "1134 Tu[]");
    assert_eq!(r.read_string(), "x");
}

#[test]
fn protocols_are_in_names() {
    assert_eq!(dm_protocol("a.dm_68"), Some(68));
    assert_eq!(dm_protocol("A.DM_66 "), Some(66));
    assert_eq!(dm_protocol("a.dm_x"), None);
    assert_eq!(dm_protocol("a.dem"), None);
    assert_eq!(dm_protocol("a.dm_1.dm_73"), Some(73));
}

#[test]
fn states_are_noted_when_they_change() {
    let mut t = TrackBuilder::new();
    for (tick, dead) in [(1, false), (2, false), (3, true), (4, true), (5, false)] {
        t.life(7, tick, dead);
        t.observe(7, tick, !dead);
    }
    t.pos(9, 1, 0, 0, 0);
    t.name(7, "seven".to_string());
    t.name(8, String::new());
    let m = t.build("map".to_string(), "server".to_string(), 5);
    assert_eq!(m.life_states[&7], [(1, 0), (3, 1), (5, 0)]);
    assert_eq!(m.observer_modes[&7], [(1, 1), (3, 0), (5, 1)]);
    assert_eq!(m.primary_entity, Some(9));
    assert_eq!(m.names.len(), 1);
    assert_eq!(m.names[&7].user_id, 7);
    assert_eq!(m.names[&7].aliases, ["seven"]);
}

fn quake1() -> Vec<u8> {
    let mut d = b"2\n".to_vec();
    let mut m = vec![11];
    m.extend(15i32.to_le_bytes());
    m.extend([8, 0]);
    m.extend(b"The Map\0one\0\0two\0\0");
    m.extend([5, 1, 0]);
    m.extend([13, 0]);
    m.extend(b"ranger\0");
    block(&mut d, Some([0.0, 0.0, 0.0]), &m);
    let mut m = vec![7];
    m.extend(1.25f32.to_le_bytes());
    m.extend([0x80 | 2 | 4 | 8 | 16, 1, 8, 0, 0xf8, 0xff, 64, 16, 0]);
    block(&mut d, Some([5.0, 90.0, 0.0]), &m);
    let mut m = vec![7];
    m.extend(1.5f32.to_le_bytes());
    m.extend([0x80 | 16, 1, 32]);
    m.extend([0x80 | 2, 1, 24, 0]);
    m.push(99);
    m.extend([0x80 | 2, 1, 99, 99]);
    block(&mut d, Some([6.0, 91.0, 0.0]), &m);
    d
}

#[test]
fn quake_1_demos_are_followed() {
    let q = quake::parse(QuakeKind::Q1Net, &quake1(), "x.dem").unwrap();
    assert_eq!(q.meta.map, "The Map");
    assert_eq!(q.meta.client, "ranger");
    assert_eq!(q.meta.game, "quake1");
    assert_eq!((q.meta.protocol, q.meta.ticks, q.meta.tick_rate, q.meta.ncmds), (15, 1500, 1000, 3));
    assert_eq!(q.mpd.primary_entity, Some(1));
    assert_eq!(
        q.mpd.tracks[&1],
        [
            (1250, bits(1.0), bits(-1.0), bits(2.0)),
            (1500, bits(3.0), bits(-1.0), bits(2.0)),
        ]
    );
    assert_eq!(q.mpd.yaws[&1], [(1250, bits(90.0), 0), (1500, bits(45.0), 0)]);
    assert_eq!(q.mpd.view_angles, [(1250, bits(5.0), bits(90.0)), (1500, bits(6.0), bits(91.0))]);
}

fn quake2() -> Vec<u8> {
    let mut d = Vec::new();
    let mut m = vec![12];
    m.extend(34i32.to_le_bytes());
    m.extend(1i32.to_le_bytes());
    m.push(1);
    m.extend(b"baseq2\0");
    m.extend(0i16.to_le_bytes());
    m.extend(b"The Edge\0");
    m.push(13);
    m.extend(0u16.to_le_bytes());
    m.extend(b"host\0");
    m.push(13);
    m.extend((32u16 + 1280).to_le_bytes());
    m.extend(b"grunt\\male/grunt\0");
    m.push(13);
    m.extend((32u16 + 1281).to_le_bytes());
    m.extend(b"other\\x\0");
    block(&mut d, None, &m);
    let mut m = vec![20];
    m.extend(10i32.to_le_bytes());
    m.extend(9i32.to_le_bytes());
    m.extend([0, 1, 0]);
    m.push(17);
    m.extend((1u16 | 2 | 256).to_le_bytes());
    m.push(2);
    for v in [8i16, 16, -24] {
        m.extend(v.to_le_bytes());
    }
    for v in [0u16, 16384, 0] {
        m.extend(v.to_le_bytes());
    }
    m.extend(0i32.to_le_bytes());
    m.push(18);
    m.extend([1 | 2 | 4, 2, 80, 0, 0, 0, 64]);
    m.extend([0, 0]);
    block(&mut d, None, &m);
    d.extend((-1i32).to_le_bytes());
    d
}

#[test]
fn quake_2_demos_are_followed() {
    let q = quake::parse(QuakeKind::Q2, &quake2(), "x.dm2").unwrap();
    assert_eq!(q.meta.map, "The Edge");
    assert_eq!(q.meta.server, "host");
    assert_eq!(q.meta.client, "grunt");
    assert_eq!((q.meta.protocol, q.meta.ticks, q.meta.tick_rate, q.meta.ncmds), (34, 10, 10, 1));
    assert_eq!(q.mpd.tracks[&1], [(10, bits(1.0), bits(2.0), bits(-3.0))]);
    assert_eq!(q.mpd.yaws[&1], [(10, bits(90.0), 0)]);
    assert_eq!(q.mpd.life_states[&1], [(10, 1)]);
    assert_eq!(q.mpd.tracks[&2], [(10, bits(10.0), 0, 0)]);
    assert_eq!(q.mpd.yaws[&2], [(10, bits(90.0), 0)]);
    assert_eq!(q.mpd.names[&2].name, "other");
}

#[test]
fn quakeworld_demos_are_refused() {
    match quake::parse(QuakeKind::QwMvd, &[], "x.mvd") {
        Err(e) => {
            assert_eq!(e, QuakeError::QuakeWorld);
            assert!(e.message().starts_with("QuakeWorld .qwd/.mvd demos use"));
        }
        Ok(_) => panic!("read"),
    }
}

#[test]
fn broken_demos_end_early() {
    for kind in [QuakeKind::Q1Net, QuakeKind::Q2] {
        for full in [quake1(), quake2()] {
            for n in 0..full.len() {
                assert!(quake::parse(kind, &full[..n], "x.dem").is_ok());
            }
        }
    }
    let q = quake::parse(QuakeKind::Q3, &quake2(), "x.dm_68").unwrap();
    assert_eq!(q.meta.game, "quake3");
    assert!(q.mpd.tracks.is_empty());
}

/// Walks the tree of codes; `code` is what was read so far, the first bit lowest.
fn codes(h: &Huff, code: u32, len: u32, out: &mut Vec<(u16, u32)>) {
    let bytes = code.to_le_bytes();
    let (symbol, end) = h.offset_receive(&bytes, 0, 32);
    if end <= len as u64 {
        assert_eq!(end, len as u64);
        out.push((symbol, len));
        return;
    }
    assert!(len < 24);
    codes(h, code, len + 1, out);
    codes(h, code | 1 << len, len + 1, out);
}

#[test]
fn every_byte_has_one_code() {
    let h = Huff::build();
    let mut all = Vec::new();
    codes(&h, 0, 0, &mut all);
    assert_eq!(all.len(), 257);
    let total: u32 = all.iter().map(|(_, n)| 1u32 << (24 - n)).sum();
    assert_eq!(total, 1 << 24);
    all.sort();
    for (i, (symbol, _)) in all.iter().enumerate() {
        assert_eq!(*symbol as usize, i);
    }
    let shortest = all.iter().min_by_key(|(_, n)| *n).unwrap();
    assert_eq!(shortest.0, 0);
    let weighed: u32 = all.iter().map(|(symbol, n)| (*symbol as u32 + 1) * n).sum();
    assert_eq!(weighed, 308_810);
    for (symbol, code) in [
        (0, "01"),
        (1, "11011"),
        (2, "0001001"),
        (32, "111011"),
        (65, "0000101"),
        (128, "111110"),
        (255, "001001"),
        (256, "00000000100"),
    ] {
        let mut bits = 0u32;
        for (i, c) in code.chars().enumerate() {
            bits |= ((c == '1') as u32) << i;
        }
        assert_eq!(h.offset_receive(&bits.to_le_bytes(), 0, 32), (symbol, code.len() as u64));
    }
    assert_eq!(h.offset_receive(&[0], 0, 8), (0, 9));
}

#[test]
fn pages_show_quake_demos() {
    let q = quake::parse(QuakeKind::Q1Net, &quake1(), "x.dem").unwrap();
    let map = MapTexts { verts: "VV".to_string(), indices: "II".to_string(), spawn: (bits(1.5), 0, 0) };
    let page = generate_quake_html(
        "__DEMO_NAME__|__META__|__WORLD_POSITIONS__|__BSP_VERTS__|__BSP_SPAWN__|__PRIMARY_ENTITY__|__ENTITY_TRACKS__|__GHOST_EIDS__",
        &q,
        bits(1.5),
        bits(1000.0),
        map,
        "a<b>.dem",
    );
    assert_eq!(
        page,
        "a&lt;b&gt;.dem|{\"map\":\"The Map\",\"client\":\"ranger\",\"server\":\"\",\"game\":\"quake1\",\
         \"demo_protocol\":15,\"duration\":1.50,\"ncmds\":3,\"tick_rate\":1000.00,\"jump_threshold\":0.0}|\
         [[1250,1,-1,2],[1500,3,-1,2]]|\"VV\"|[1.5,0,0]|1|{\"1\":[[1250,1,-1,2],[1500,3,-1,2]]}|[]"
    );
}

/// Taking what is not there moves to the end and is remembered; nothing clears it.
#[test]
fn taking_too_much_is_remembered() {
    let data = [1u8, 2, 3, 4, 5];
    let mut r = ByteReader::new(&data);
    assert_eq!(r.take(2), Some(&data[..2]));
    assert_eq!((r.pos, r.overflow), (2, false));
    assert_eq!(r.take(0), Some(&data[2..2]));
    assert_eq!(r.take(3), Some(&data[2..]));
    assert_eq!((r.pos, r.overflow), (5, false));
    assert_eq!(r.take(0), Some(&data[5..]));
    let mut r = ByteReader::new(&data);
    assert_eq!(r.take(1), Some(&data[..1]));
    assert_eq!(r.take(usize::MAX), None);
    assert_eq!((r.pos, r.overflow, r.remaining()), (5, true, 0));
    assert_eq!(r.take(0), Some(&data[5..]));
    assert!(r.overflow);
}
