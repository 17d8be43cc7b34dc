//! A demo of Quake 3, written with the codes that it is read with.
use demoscope::quake::huffman::Huff;
use demoscope::quake::{self, QuakeKind};

/// The code of every symbol: its bits, the first lowest, and its length.
fn codebook(h: &Huff, code: u32, len: u32, out: &mut Vec<(u32, u32)>) {
    let (symbol, end) = h.offset_receive(&code.to_le_bytes(), 0, 32);
    if end <= len as u64 {
        out[symbol as usize] = (code, len);
        return;
    }
    codebook(h, code, len + 1, out);
    codebook(h, code | 1 << len, len + 1, out);
}

struct Writer<'a> {
    codes: &'a [(u32, u32)],
    bits: Vec<bool>,
}

impl<'a> Writer<'a> {
    fn raw(&mut self, v: u32, n: u32) {
        for i in 0..n {
            self.bits.push(v >> i & 1 == 1);
        }
    }

    /// The odd bits as they are, and then whole bytes by their codes.
    fn put(&mut self, v: u32, n: u32) -> &mut Self {
        self.raw(v, n % 8);
        let rest = v.checked_shr(n % 8).unwrap_or(0);
        for i in 0..n / 8 {
            let (code, len) = self.codes[(rest >> (8 * i) & 0xff) as usize];
            self.raw(code, len);
        }
        self
    }

    fn text(&mut self, s: &str) -> &mut Self {
        for b in s.bytes() {
            self.put(b as u32, 8);
        }
        self.put(0, 8)
    }

    /// Fields that did not change.
    fn same(&mut self, n: usize) -> &mut Self {
        for _ in 0..n {
            self.put(0, 1);
        }
        self
    }

    /// A small whole number among the fields of an entity.
    fn small(&mut self, v: i32) -> &mut Self {
        self.put(1, 1).put(1, 1).put(0, 1).put((v + 4096) as u32, 13)
    }

    fn bytes(&self) -> Vec<u8> {
        let mut out = vec![0u8; (self.bits.len() + 7) / 8];
        for (i, b) in self.bits.iter().enumerate() {
            out[i / 8] |= (*b as u8) << (i % 8);
        }
        out
    }
}

fn message(d: &mut Vec<u8>, number: i32, w: &Writer) {
    let body = w.bytes();
    d.extend(number.to_le_bytes());
    d.extend((body.len() as i32).to_le_bytes());
    d.extend(body);
}

fn demo() -> Vec<u8> {
    let mut codes = vec![(0, 0); 257];
    codebook(&Huff::build(), 0, 0, &mut codes);
    let start = || {
        let mut w = Writer { codes: &codes, bits: Vec::new() };
        w.put(0, 32);
        w
    };
    let mut d = Vec::new();

    let mut w = start();
    w.put(2, 8).put(1, 32);
    w.put(3, 8).put(0, 16).text("\\mapname\\q3dm6\\sv_hostname\\Arena");
    w.put(3, 8).put(544 + 3, 16).text("\\n\\Ann%\\t\\0");
    w.put(3, 8).put(544 + 5, 16).text("\\n\\Bob\\t\\3");
    w.put(4, 8).put(5, 10);
    w.put(0, 1).put(1, 1).put(12, 8).same(1).small(100).same(9).put(1, 1).put(1, 1).put(1, 8);
    w.put(8, 8).put(3, 32).put(77, 32);
    w.put(8, 8);
    message(&mut d, 1, &w);

    let mut w = start();
    w.put(7, 8).put(5000, 32).put(0, 8).put(0, 8).put(2, 8).put(9, 8).put(9, 8);
    w.put(10, 8).same(1);
    w.put(1, 1).put(0, 1).put(8 + 4096, 13);
    w.put(1, 1).put(1, 1).put(0.5f32.to_bits(), 32);
    w.same(3);
    w.put(1, 1).put(0, 1).put(90 + 4096, 13);
    w.same(2);
    w.put(1, 1).put(0, 1).put(4096 - 16, 13);
    w.put(0, 1);
    w.put(5, 10).put(0, 1).put(1, 1).put(18, 8).same(2).small(7).same(14);
    w.put(1, 1).put(1, 1).put(1, 19);
    w.put(1023, 10);
    w.put(5, 8).put(2, 32).text("cs 547 \"\\n\\Zed\\t\\1\"");
    w.put(5, 8).put(3, 32).text("print \"hello\"");
    w.put(8, 8);
    message(&mut d, 2, &w);

    let mut w = start();
    w.put(7, 8).put(5040, 32).put(0, 8).put(0, 8).put(0, 8);
    w.put(35, 8).same(34).put(1, 1).put(3, 8);
    w.put(1, 1).put(1, 1).put(0x8001, 16).put(11, 16).put(12, 16).put(0, 3);
    w.put(5, 10).put(1, 1);
    w.put(9, 10).put(0, 1).put(1, 1).put(12, 8).same(11).put(1, 1).put(1, 1).put(1, 8);
    w.put(1023, 10);
    w.put(8, 8);
    message(&mut d, 3, &w);
    d.extend((-1i32).to_le_bytes());
    d.extend((-1i32).to_le_bytes());
    d
}

#[test]
fn quake_3_demos_are_followed() {
    let q = quake::parse(QuakeKind::Q3, &demo(), "x.dm_68").unwrap();
    assert_eq!((q.meta.map.as_str(), q.meta.server.as_str()), ("q3dm6", "Arena"));
    assert_eq!((q.meta.client.as_str(), q.meta.game.as_str()), ("Zed", "quake3"));
    assert_eq!((q.meta.protocol, q.meta.ticks, q.meta.ncmds), (68, 40, 2));
    let b = |v: f32| v.to_bits();
    let m = &q.mpd;
    assert_eq!(m.tracks[&3], [(0, b(8.0), b(0.5), b(-16.0)), (40, b(8.0), b(0.5), b(-16.0))]);
    assert_eq!(m.yaws[&3], [(0, b(90.0), 0), (40, b(90.0), 0)]);
    assert_eq!(m.view_angles, [(0, 0, b(90.0)), (40, 0, b(90.0))]);
    assert_eq!(m.life_states[&3], [(0, 0), (40, 1)]);
    assert_eq!(m.tracks[&5], [(0, b(100.0), b(7.0), 0)]);
    assert_eq!(m.life_states[&5], [(0, 1)]);
    assert_eq!(m.observer_modes[&5], [(0, 1)]);
    assert_eq!(m.tracks[&9], [(40, 0, 0, 0)]);
    assert_eq!(m.tracks.len(), 3);
    assert_eq!((m.names[&3].name.as_str(), m.names[&5].name.as_str()), ("Zed", "Bob"));
    assert_eq!(m.primary_entity, Some(3));
}

/// A message that is cut off is read as far as it goes, and ends the demo if its length
/// says more than there is.
#[test]
fn cut_messages_end_early() {
    let d = demo();
    let first = 8 + i32::from_le_bytes([d[4], d[5], d[6], d[7]]) as usize;
    let q = quake::parse(QuakeKind::Q3, &d[..first], "x.dm_68").unwrap();
    assert_eq!(q.meta.map, "q3dm6");
    assert_eq!(q.meta.client, "Ann.");
    assert_eq!(q.mpd.primary_entity, Some(3));
    assert_eq!(q.meta.ncmds, 0);
    for n in [0usize, 7, 8, first - 1] {
        let q = quake::parse(QuakeKind::Q3, &d[..n], "x.dm_68").unwrap();
        assert_eq!((q.meta.map.as_str(), q.meta.client.as_str()), ("", ""));
    }
}
