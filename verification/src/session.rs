//! What a demo of Source 1 shows beside the tracks of its players: what the one who
//! recorded it pressed, typed and saw.
use crate::bytes::{ahead, ahead_of, fits, i32_at, le_i32, le_u32, u32_at};
use crate::constants::{HEADER_SIZE, SPLIT_SIZE};
use crate::header::{parse_usercmd, usercmd_of, DemoHeader, UserCmd};
use crate::multi_player::Point;
use crate::packets::{detect_splitscreen, head_len, splitscreen};
use crate::source::events::SampledCmd;
use crate::text::{chars_of, count_start, drop_end, is_empty_text, text_of, trim, trimmed, utf8,
    without_end, without_start};
use vstd::prelude::*;
use vstd::utf8::{decode_utf8, valid_utf8};

verus! {

/// What was recorded up to a command: what was pressed at each tick, what was typed,
/// where the camera was, and the angles and weapon of the last input. Angles and
/// coordinates are the bits of IEEE-754 numbers.
pub struct Recorded {
    pub cmds: Seq<SampledCmd>,
    pub console: Seq<(i32, Seq<char>)>,
    pub positions: Seq<Point>,
    pub pitch: u32,
    pub yaw: u32,
    pub weapon: u32,
}

pub open spec fn nothing_recorded() -> Recorded {
    Recorded {
        cmds: Seq::empty(),
        console: Seq::empty(),
        positions: Seq::empty(),
        pitch: 0,
        yaw: 0,
        weapon: 0,
    }
}

/// How the commands of a demo are laid out.
#[derive(Debug, Clone, Copy, PartialEq, Eq, Structural)]
pub struct Container {
    /// Bytes of a command's head.
    pub head: usize,
    /// Bytes of camera data before a packet.
    pub info: usize,
    /// Whether command 8 has a number before its length.
    pub custom: bool,
}

impl Container {
    pub open spec fn wf(self) -> bool {
        5 <= self.head <= 6 && 4 <= self.info <= 304
    }
}

pub open spec fn container_of(d: Seq<u8>, proto: i32, p2_engine: bool, custom: bool) -> Container {
    Container {
        head: head_len(proto) as usize,
        info: (SPLIT_SIZE * splitscreen(d, proto, p2_engine)) as usize,
        custom: custom && proto > 3,
    }
}

/// A number without its sign is zero.
pub open spec fn is_zero(b: u32) -> bool {
    b % 0x8000_0000 == 0
}

/// Where the camera is, unless it is at the origin.
pub open spec fn with_position(r: Recorded, d: Seq<u8>, tick: i32, p: int) -> Recorded {
    let x = u32_at(d, p + 4) as u32;
    let y = u32_at(d, p + 8) as u32;
    let z = u32_at(d, p + 12) as u32;
    if is_zero(x) && is_zero(y) && is_zero(z) {
        r
    } else {
        Recorded { positions: r.positions.push((tick, x, y, z)), ..r }
    }
}

/// What was typed: the bytes as text, without zeros and blanks around it; none where
/// they are no text.
pub open spec fn typed(b: Seq<u8>) -> Seq<char> {
    if valid_utf8(b) {
        trimmed(without_end(without_start(decode_utf8(b), '\0'), '\0'))
    } else {
        Seq::empty()
    }
}

pub open spec fn with_typed(r: Recorded, tick: i32, s: Seq<char>) -> Recorded {
    if s.len() == 0 {
        r
    } else {
        Recorded { console: r.console.push((tick, s)), ..r }
    }
}

pub open spec fn some_or(o: Option<u32>, v: u32) -> u32 {
    match o {
        Some(x) => x,
        None => v,
    }
}

/// An input: what is not in it is as it was, or zero for speeds and buttons.
pub open spec fn with_input(r: Recorded, tick: i32, c: UserCmd) -> Recorded {
    let pitch = some_or(c.pitch, r.pitch);
    let yaw = some_or(c.yaw, r.yaw);
    let weapon = some_or(c.weaponselect, r.weapon);
    Recorded {
        cmds: r.cmds.push(
            SampledCmd {
                tick,
                pitch,
                yaw,
                fwd: some_or(c.forwardmove, 0),
                side: some_or(c.sidemove, 0),
                btns: some_or(c.buttons, 0),
                weapon,
            },
        ),
        pitch,
        yaw,
        weapon,
        ..r
    }
}

pub open spec fn block_length(d: Seq<u8>, p: int, at: int, head: int) -> Option<int> {
    if p + head > d.len() || i32_at(d, p + at) < 0 {
        None
    } else {
        Some(i32_at(d, p + at))
    }
}

pub open spec fn capped(n: int, most: int) -> int {
    if n <= most {
        n
    } else {
        most
    }
}

/// A command: what is recorded after it, and where the next one is.
pub open spec fn recorded_at(d: Seq<u8>, c: Container, off: int, r: Recorded) -> (
    Recorded,
    Option<int>,
) {
    if off < 0 || off + 5 > d.len() {
        (r, None)
    } else {
        let cmd = d[off];
        let tick = i32_at(d, off + 1) as i32;
        let p = off + c.head;
        if cmd == 1 || cmd == 2 {
            if p + c.info + 12 > d.len() {
                (r, None)
            } else {
                let seen = if cmd == 2 {
                    with_position(r, d, tick, p)
                } else {
                    r
                };
                match block_length(d, p, c.info + 8, c.info + 12) {
                    Some(n) => (seen, Some(p + c.info + 12 + n)),
                    None => (seen, None),
                }
            }
        } else if cmd == 3 {
            (r, Some(p))
        } else if cmd == 4 {
            match block_length(d, p, 0, 4) {
                Some(n) => (
                    if p + 4 + n <= d.len() {
                        with_typed(r, tick, typed(d.subrange(p + 4, p + 4 + n)))
                    } else {
                        r
                    },
                    Some(p + 4 + n),
                ),
                None => (r, None),
            }
        } else if cmd == 5 {
            match block_length(d, p, 4, 8) {
                Some(n) => if p + 8 + n <= d.len() {
                    (
                        with_input(r, tick, usercmd_of(d.subrange(p + 8, p + 8 + n))),
                        Some(p + 8 + n),
                    )
                } else {
                    (r, None)
                },
                None => (r, None),
            }
        } else if cmd == 8 && c.custom {
            match block_length(d, p, 4, 8) {
                Some(n) => (r, Some(capped(p + 8 + n, d.len() as int))),
                None => (r, None),
            }
        } else if cmd == 6 || cmd == 8 || cmd == 9 {
            match block_length(d, p, 0, 4) {
                Some(n) => (r, Some(capped(p + 4 + n, d.len() as int))),
                None => (r, None),
            }
        } else {
            (r, None)
        }
    }
}

/// What is recorded from a command on.
pub open spec fn recorded_from(d: Seq<u8>, c: Container, off: int, r: Recorded) -> Recorded
    decreases
            if off < d.len() {
                d.len() - off
            } else {
                0
            },
{
    match recorded_at(d, c, off, r) {
        (after, None) => after,
        (after, Some(next)) => if next > off {
            recorded_from(d, c, next, after)
        } else {
            after
        },
    }
}

/// What a demo records. One of the oldest engine, whose inputs are written in another
/// way, counts as empty.
pub open spec fn recorded_in(d: Seq<u8>, proto: i32, net: i32, p2_engine: bool, custom: bool) -> Recorded {
    if net <= 7 {
        nothing_recorded()
    } else {
        recorded_from(
            d,
            container_of(d, proto, p2_engine, custom),
            HEADER_SIZE as int,
            nothing_recorded(),
        )
    }
}

/// What a demo records.
pub struct Recording {
    pub cmds: Vec<SampledCmd>,
    pub console: Vec<(i32, String)>,
    pub positions: Vec<Point>,
    pub pitch: u32,
    pub yaw: u32,
    pub weapon: u32,
}

pub open spec fn lines_of(v: Seq<(i32, String)>) -> Seq<(i32, Seq<char>)> {
    v.map_values(|l: (i32, String)| (l.0, l.1@))
}

impl Recording {
    pub open spec fn view(&self) -> Recorded {
        Recorded {
            cmds: self.cmds@,
            console: lines_of(self.console@),
            positions: self.positions@,
            pitch: self.pitch,
            yaw: self.yaw,
            weapon: self.weapon,
        }
    }

    fn add_position(&mut self, data: &[u8], tick: i32, p: usize)
        requires
            p + 16 <= data.len(),
        ensures
            final(self)@ == with_position(old(self)@, data@, tick, p as int),
    {
        let x: u32 = le_u32(data, p + 4);
        let y: u32 = le_u32(data, p + 8);
        let z: u32 = le_u32(data, p + 12);
        if !(x % 0x8000_0000 == 0 && y % 0x8000_0000 == 0 && z % 0x8000_0000 == 0) {
            self.positions.push((tick, x, y, z));
        }
    }

    fn add_typed(&mut self, tick: i32, b: &[u8])
        ensures
            final(self)@ == with_typed(old(self)@, tick, typed(b@)),
    {
        let s = match utf8(b) {
            Some(s) => s,
            None => {
                return;
            },
        };
        let cs = chars_of(s.as_str());
        let n: usize = count_start(&cs, '\0');
        let mut rest: Vec<char> = Vec::new();
        let mut i: usize = n;
        while i < cs.len()
            invariant
                n <= i <= cs@.len(),
                rest@ == cs@.subrange(n as int, i as int),
            decreases cs@.len() - i,
        {
            rest.push(cs[i]);
            assert(cs@.subrange(n as int, i + 1) =~= cs@.subrange(n as int, i as int).push(
                cs@[i as int],
            ));
            i += 1;
        }
        assert(rest@ =~= cs@.skip(n as int));
        drop_end(&mut rest, '\0');
        let bare = text_of(rest.as_slice());
        let t = trim(bare.as_str());
        if !is_empty_text(t.as_str()) {
            let ghost before = lines_of(self.console@);
            let ghost line = t@;
            self.console.push((tick, t));
            assert(lines_of(self.console@) =~= before.push((tick, line)));
        }
    }

    fn add_input(&mut self, tick: i32, c: UserCmd)
        ensures
            final(self)@ == with_input(old(self)@, tick, c),
    {
        match c.pitch {
            Some(v) => {
                self.pitch = v;
            },
            None => {},
        }
        match c.yaw {
            Some(v) => {
                self.yaw = v;
            },
            None => {},
        }
        match c.weaponselect {
            Some(v) => {
                self.weapon = v;
            },
            None => {},
        }
        let fwd: u32 = match c.forwardmove {
            Some(v) => v,
            None => 0,
        };
        let side: u32 = match c.sidemove {
            Some(v) => v,
            None => 0,
        };
        let btns: u32 = match c.buttons {
            Some(v) => v,
            None => 0,
        };
        self.cmds.push(
            SampledCmd {
                tick,
                pitch: self.pitch,
                yaw: self.yaw,
                fwd,
                side,
                btns,
                weapon: self.weapon,
            },
        );
    }

    fn read_command(&mut self, data: &[u8], c: Container, off: usize) -> (next: Option<usize>)
        requires
            c.wf(),
        ensures
            match (next, recorded_at(data@, c, off as int, old(self)@)) {
                (Some(n), (r, Some(m))) => n == ahead_of(m, 0) && n > off && final(self)@ == r,
                (None, (r, None)) => final(self)@ == r,
                _ => false,
            },
    {
        if off >= data.len() || data.len() - off < 5 {
            return None;
        }
        let cmd: u8 = data[off];
        let tick: i32 = le_i32(data, off + 1);
        let p: usize = ahead(off, c.head);
        match cmd {
            1 | 2 => {
                if !fits(data, p, c.info + 12) {
                    return None;
                }
                if cmd == 2 {
                    self.add_position(data, tick, p);
                }
                match read_length(data, p, c.info + 8, c.info + 12) {
                    Some(n) => Some(ahead(p + c.info + 12, n)),
                    None => None,
                }
            },
            3 => Some(p),
            4 => match read_length(data, p, 0, 4) {
                Some(n) => {
                    if n <= data.len() - (p + 4) {
                        let text = vstd::slice::slice_subrange(data, p + 4, p + 4 + n);
                        self.add_typed(tick, text);
                    }
                    Some(ahead(p + 4, n))
                },
                None => None,
            },
            5 => match read_length(data, p, 4, 8) {
                Some(n) => {
                    if n > data.len() - (p + 8) {
                        return None;
                    }
                    match parse_usercmd(vstd::slice::slice_subrange(data, p + 8, p + 8 + n)) {
                        Some(u) => {
                            self.add_input(tick, u);
                        },
                        None => {},
                    }
                    Some(p + 8 + n)
                },
                None => None,
            },
            6 | 8 | 9 => {
                let skip: usize = if cmd == 8 && c.custom {
                    4
                } else {
                    0
                };
                match read_length(data, p, skip, skip + 4) {
                    Some(n) => {
                        if n <= data.len() - (p + skip + 4) {
                            Some(p + skip + 4 + n)
                        } else {
                            Some(data.len())
                        }
                    },
                    None => None,
                }
            },
            _ => None,
        }
    }
}

fn read_length(d: &[u8], p: usize, at: usize, head: usize) -> (r: Option<usize>)
    requires
        at + 4 <= head,
    ensures
        match (r, block_length(d@, p as int, at as int, head as int)) {
            (Some(n), Some(m)) => n == m && n <= 0x7fff_ffff && p + head <= d@.len(),
            (None, None) => true,
            _ => false,
        },
{
    if !fits(d, p, head) {
        return None;
    }
    let n: i32 = le_i32(d, p + at);
    if n < 0 {
        None
    } else {
        Some(n as usize)
    }
}

/// Reads what a demo records. `custom` says whether command 8 of the newer protocols
/// is known to have a number before its length.
pub fn read_recording(data: &[u8], header: &DemoHeader, p2_engine: bool, custom: bool) -> (r:
    Recording)
    ensures
        r@ == recorded_in(
            data@,
            header.demo_protocol,
            header.net_protocol,
            p2_engine,
            custom,
        ),
{
    let mut r = Recording {
        cmds: Vec::new(),
        console: Vec::new(),
        positions: Vec::new(),
        pitch: 0,
        yaw: 0,
        weapon: 0,
    };
    assert(r@.console =~= Seq::empty());
    if header.net_protocol <= 7 {
        return r;
    }
    let proto: i32 = header.demo_protocol;
    let head: usize = if proto > 3 {
        6
    } else {
        5
    };
    let c = Container {
        head,
        info: SPLIT_SIZE * detect_splitscreen(data, proto, p2_engine),
        custom: custom && proto > 3,
    };
    let ghost goal = recorded_in(data@, proto, header.net_protocol, p2_engine, custom);
    let mut off: usize = HEADER_SIZE;
    loop
        invariant
            c.wf(),
            goal == recorded_from(data@, c, off as int, r@),
            goal == recorded_in(
                data@,
                header.demo_protocol,
                header.net_protocol,
                p2_engine,
                custom,
            ),
        decreases
                if off < data@.len() {
                    data@.len() - off
                } else {
                    0
                },
    {
        let ghost before = r@;
        match r.read_command(data, c, off) {
            None => {
                return r;
            },
            Some(next) => {
                if next >= data.len() {
                    assert(recorded_at(data@, c, off as int, before).1 matches Some(m)
                        && recorded_from(data@, c, m, r@) == r@);
                    assert(recorded_from(data@, c, next as int, r@) == r@);
                    return r;
                }
                off = next;
            },
        }
    }
}

/// An input is kept as it was: each of its speeds and its buttons, or none, under its own
/// name, and the view and the weapon of the last input that told them.
pub proof fn law_input_is_kept(r: Recorded, tick: i32, c: UserCmd)
    ensures
        ({
            let a = with_input(r, tick, c);
            let s = a.cmds.last();
            &&& a.cmds.drop_last() =~= r.cmds
            &&& s.tick == tick
            &&& c.forwardmove matches Some(v) ==> s.fwd == v
            &&& c.sidemove matches Some(v) ==> s.side == v
            &&& c.buttons matches Some(v) ==> s.btns == v
            &&& c.forwardmove is None ==> s.fwd == 0
            &&& c.sidemove is None ==> s.side == 0
            &&& c.buttons is None ==> s.btns == 0
            &&& c.pitch matches Some(v) ==> s.pitch == v
            &&& c.yaw matches Some(v) ==> s.yaw == v
            &&& c.weaponselect matches Some(v) ==> s.weapon == v
            &&& c.pitch is None ==> s.pitch == r.pitch
            &&& c.yaw is None ==> s.yaw == r.yaw
            &&& c.weaponselect is None ==> s.weapon == r.weapon
            &&& a.pitch == s.pitch && a.yaw == s.yaw && a.weapon == s.weapon
            &&& a.console == r.console
            &&& a.positions == r.positions
        }),
{
}

} // verus!
