//! The commands of a demo in the order of the file, and how they are printed.
use crate::bytes::{ahead, ahead_of, cstr_at, fits, i32_at, le_i32, le_u32, read_cstring, u32_at};
use crate::constants::{HEADER_SIZE, SPLIT_SIZE};
use crate::header::{barred, fmt_buttons, parse_usercmd, pressed, usercmd_of, DemoHeader, UserCmd};
use crate::number::{fixed, fixed_text};
use crate::packets::{block_end, detect_splitscreen, find_block, head_len, splitscreen};
use crate::text::{chars_of, decimal, lossy_chars, push_decimal, push_signed, signed_decimal};
use vstd::prelude::*;

verus! {

/// What a command holds.
#[derive(Debug)]
pub enum Entry {
    Stop,
    /// Two sequence numbers and the length of a packet.
    Packet(i32, i32, i32),
    Sync,
    Console(String),
    /// A sequence number, the number of the input and the input, which is not read from
    /// the oldest demos.
    Input(i32, u32, Option<UserCmd>),
    Tables(i32),
    Custom(i32),
    Strings(i32),
    /// The command does not lie within the file.
    Cut,
    Unknown,
}

/// What an `Entry` says.
pub enum Held {
    Stop,
    Packet(i32, i32, i32),
    Sync,
    Console(Seq<char>),
    Input(i32, u32, Option<UserCmd>),
    Tables(i32),
    Custom(i32),
    Strings(i32),
    Cut,
    Unknown,
}

impl Entry {
    pub open spec fn view(&self) -> Held {
        match self {
            Entry::Stop => Held::Stop,
            Entry::Packet(a, b, n) => Held::Packet(*a, *b, *n),
            Entry::Sync => Held::Sync,
            Entry::Console(s) => Held::Console(s@),
            Entry::Input(s, n, c) => Held::Input(*s, *n, *c),
            Entry::Tables(n) => Held::Tables(*n),
            Entry::Custom(n) => Held::Custom(*n),
            Entry::Strings(n) => Held::Strings(*n),
            Entry::Cut => Held::Cut,
            Entry::Unknown => Held::Unknown,
        }
    }
}

/// A command: its kind, its tick, its place in the file and what it holds.
#[derive(Debug)]
pub struct Visit {
    pub cmd: u8,
    pub tick: i32,
    pub at: usize,
    pub entry: Entry,
}

/// What a `Visit` says.
pub struct Seen {
    pub cmd: u8,
    pub tick: i32,
    pub at: int,
    pub entry: Held,
}

impl Visit {
    pub open spec fn view(&self) -> Seen {
        Seen { cmd: self.cmd, tick: self.tick, at: self.at as int, entry: self.entry@ }
    }
}

pub open spec fn seen_in(v: Seq<Visit>) -> Seq<Seen> {
    v.map_values(|x: Visit| x@)
}

/// How a file is laid out: the protocol of the demo and of the net, and the bytes of a
/// packet's camera blocks.
pub struct Layout {
    pub proto: i32,
    pub net: i32,
    pub info: int,
}

/// The number of an input: its own, or the sequence number at `o`.
pub open spec fn input_number(d: Seq<u8>, o: int, c: UserCmd) -> u32 {
    match c.command_number {
        Some(n) => n,
        None => u32_at(d, o) as u32,
    }
}

/// What a command that starts at `off` holds, and where the next one starts.
pub open spec fn visit_at(d: Seq<u8>, l: Layout, off: int) -> (Held, Option<int>) {
    let cmd = d[off];
    let o = off + head_len(l.proto);
    if cmd == 7 {
        (Held::Stop, None)
    } else if cmd == 1 || cmd == 2 {
        let q = o + l.info;
        match block_end(d, o, l.info + 8, l.info + 12) {
            Some(e) => (
                Held::Packet(i32_at(d, q) as i32, i32_at(d, q + 4) as i32, i32_at(d, q + 8) as i32),
                Some(e),
            ),
            None => (Held::Cut, None),
        }
    } else if cmd == 3 {
        (Held::Sync, Some(o))
    } else if cmd == 4 {
        match block_end(d, o, 0, 4) {
            Some(e) => (Held::Console(lossy_chars(cstr_at(d, o + 4, e - o - 4))), Some(e)),
            None => (Held::Cut, None),
        }
    } else if cmd == 5 {
        match block_end(d, o, 4, 8) {
            Some(e) => {
                let c = usercmd_of(d.subrange(o + 8, e));
                (
                    Held::Input(
                        i32_at(d, o) as i32,
                        input_number(d, o, c),
                        if l.net <= 7 {
                            None
                        } else {
                            Some(c)
                        },
                    ),
                    Some(e),
                )
            },
            None => (Held::Cut, None),
        }
    } else if cmd == 6 {
        match block_end(d, o, 0, 4) {
            Some(e) => (Held::Tables(i32_at(d, o) as i32), Some(e)),
            None => (Held::Cut, None),
        }
    } else if cmd == 8 && l.proto > 3 {
        match block_end(d, o, 4, 8) {
            Some(e) => (Held::Custom(i32_at(d, o + 4) as i32), Some(e)),
            None => (Held::Cut, None),
        }
    } else if cmd == 8 || cmd == 9 {
        if o + 4 > d.len() || i32_at(d, o) < 0 {
            (Held::Cut, None)
        } else {
            let e = o + 4 + i32_at(d, o);
            (
                Held::Strings(i32_at(d, o) as i32),
                Some(
                    if e <= d.len() {
                        e
                    } else {
                        d.len() as int
                    },
                ),
            )
        }
    } else {
        (Held::Unknown, None)
    }
}

/// The commands from `off` on, up to one that ends the listing.
pub open spec fn visits_from(d: Seq<u8>, l: Layout, off: int) -> Seq<Seen>
    decreases d.len() + 1 - off,
{
    if off < 0 || off + 5 > d.len() || l.info < 0 {
        Seq::empty()
    } else {
        let (entry, next) = visit_at(d, l, off);
        let here = Seen { cmd: d[off], tick: i32_at(d, off + 1) as i32, at: off, entry };
        match next {
            Some(e) => seq![here] + visits_from(d, l, e),
            None => seq![here],
        }
    }
}

pub open spec fn layout_of(d: Seq<u8>, proto: i32, net: i32, p2_engine: bool) -> Layout {
    Layout { proto, net, info: SPLIT_SIZE * splitscreen(d, proto, p2_engine) }
}

fn read_input(data: &[u8], o: usize, e: usize, net: i32) -> (r: Entry)
    requires
        o + 8 <= e <= data.len(),
        e - o <= i32::MAX + 8,
    ensures
        r@ == ({
            let c = usercmd_of(data@.subrange(o + 8, e as int));
            Held::Input(
                i32_at(data@, o as int) as i32,
                input_number(data@, o as int, c),
                if net <= 7 {
                    None
                } else {
                    Some(c)
                },
            )
        }),
{
    let seq: i32 = le_i32(data, o);
    let body = vstd::slice::slice_subrange(data, o + 8, e);
    match parse_usercmd(body) {
        Some(c) => {
            let number: u32 = match c.command_number {
                Some(n) => n,
                None => le_u32(data, o),
            };
            Entry::Input(
                seq,
                number,
                if net <= 7 {
                    None
                } else {
                    Some(c)
                },
            )
        },
        None => Entry::Cut,
    }
}

#[verifier::rlimit(60)]
fn read_visit(data: &[u8], proto: i32, net: i32, info: usize, off: usize) -> (r: (
    Entry,
    Option<usize>,
))
    requires
        off + 5 <= data.len(),
        info <= 4 * SPLIT_SIZE,
    ensures
        ({
            let (entry, next) = visit_at(data@, Layout { proto, net, info: info as int }, off as int);
            &&& r.0@ == entry
            &&& match (r.1, next) {
                (Some(a), Some(b)) => a == ahead_of(b, 0) && off < a,
                (None, None) => true,
                _ => false,
            }
        }),
{
    let cmd: u8 = data[off];
    let o: usize = if proto > 3 {
        ahead(off, 6)
    } else {
        off + 5
    };
    match cmd {
        7 => (Entry::Stop, None),
        1 | 2 => match find_block(data, o, info + 8, info + 12) {
            Some(e) => {
                let q: usize = o + info;
                (
                    Entry::Packet(le_i32(data, q), le_i32(data, q + 4), le_i32(data, q + 8)),
                    Some(e),
                )
            },
            None => (Entry::Cut, None),
        },
        3 => (Entry::Sync, Some(o)),
        4 => match find_block(data, o, 0, 4) {
            Some(e) => (Entry::Console(read_cstring(data, o + 4, e - o - 4)), Some(e)),
            None => (Entry::Cut, None),
        },
        5 => match find_block(data, o, 4, 8) {
            Some(e) => (read_input(data, o, e, net), Some(e)),
            None => (Entry::Cut, None),
        },
        6 => match find_block(data, o, 0, 4) {
            Some(e) => (Entry::Tables(le_i32(data, o)), Some(e)),
            None => (Entry::Cut, None),
        },
        8 | 9 => {
            if cmd == 8 && proto > 3 {
                return match find_block(data, o, 4, 8) {
                    Some(e) => (Entry::Custom(le_i32(data, o + 4)), Some(e)),
                    None => (Entry::Cut, None),
                };
            }
            if !fits(data, o, 4) {
                return (Entry::Cut, None);
            }
            let n: i32 = le_i32(data, o);
            if n < 0 {
                return (Entry::Cut, None);
            }
            let e: usize = if (n as usize) <= data.len() - (o + 4) {
                o + 4 + n as usize
            } else {
                data.len()
            };
            (Entry::Strings(n), Some(e))
        },
        _ => (Entry::Unknown, None),
    }
}

/// Reads the commands of a demo.
pub fn read_visits(data: &[u8], header: &DemoHeader, p2_engine: bool) -> (r: Vec<Visit>)
    ensures
        seen_in(r@) == visits_from(
            data@,
            layout_of(data@, header.demo_protocol, header.net_protocol, p2_engine),
            HEADER_SIZE as int,
        ),
{
    let proto: i32 = header.demo_protocol;
    let net: i32 = header.net_protocol;
    let info: usize = SPLIT_SIZE * detect_splitscreen(data, proto, p2_engine);
    let ghost d = data@;
    let ghost l = layout_of(d, proto, net, p2_engine);
    let ghost all = visits_from(d, l, HEADER_SIZE as int);
    let mut out: Vec<Visit> = Vec::new();
    let mut off: usize = HEADER_SIZE;
    assert(seen_in(out@) + all =~= all);
    while off < data.len() && data.len() - off >= 5
        invariant
            d == data@,
            info <= 4 * SPLIT_SIZE,
            l == (Layout { proto, net, info: info as int }),
            all == visits_from(
                d,
                layout_of(d, header.demo_protocol, header.net_protocol, p2_engine),
                HEADER_SIZE as int,
            ),
            all == seen_in(out@) + visits_from(d, l, off as int),
        decreases
                if off < data.len() {
                    data.len() - off
                } else {
                    0
                },
    {
        let (entry, next) = read_visit(data, proto, net, info, off);
        let ghost before = seen_in(out@);
        let v = Visit { cmd: data[off], tick: le_i32(data, off + 1), at: off, entry };
        let ghost here = v@;
        out.push(v);
        assert(seen_in(out@) =~= before.push(here));
        match next {
            Some(e) => {
                proof {
                    let rest = visits_from(d, l, e as int);
                    assert(visit_at(d, l, off as int).1 matches Some(b) && visits_from(d, l, b)
                        == rest);
                    assert(visits_from(d, l, off as int) == seq![here] + rest);
                    assert(before + (seq![here] + rest) =~= before.push(here) + rest);
                }
                off = e;
            },
            None => {
                assert(visits_from(d, l, off as int) == seq![here]);
                assert(before + seq![here] =~= before.push(here));
                return out;
            },
        }
    }
    assert(seen_in(out@) + Seq::<Seen>::empty() =~= seen_in(out@));
    out
}

/// `n` spaces.
pub open spec fn spaces(n: int) -> Seq<char> {
    Seq::new(
        if n > 0 {
            n as nat
        } else {
            0
        },
        |i: int| ' ',
    )
}

/// A text with spaces before it, up to `w` characters.
pub open spec fn padded(s: Seq<char>, w: int) -> Seq<char> {
    spaces(w - s.len()) + s
}

fn push_padded(out: &mut String, s: &str, w: usize)
    ensures
        final(out)@ == old(out)@ + padded(s@, w as int),
{
    let n: usize = chars_of(s).len();
    let mut i: usize = n;
    let ghost o = out@;
    while i < w
        invariant
            n == s@.len(),
            n <= i,
            i <= w || i == n,
            out@ == o + spaces(i - n),
        decreases w - i,
    {
        out.push(' ');
        i += 1;
        assert(out@ =~= o + spaces(i - n));
    }
    out.push_str(s);
    assert(spaces(w - n) =~= spaces(i - n));
    assert(out@ =~= o + padded(s@, w as int));
}

fn push_tick(out: &mut String, tick: i32)
    ensures
        final(out)@ == old(out)@ + padded(signed_decimal(tick as int), 7),
{
    let mut s = String::new();
    push_signed(&mut s, tick as i64);
    assert(s@ =~= signed_decimal(tick as int));
    push_padded(out, s.as_str(), 7);
}

/// The number of a command, in brackets.
pub open spec fn place_text(n: nat) -> Seq<char> {
    seq!['['] + padded(decimal(n), 6) + "] "@
}

fn push_place(out: &mut String, n: usize)
    ensures
        final(out)@ == old(out)@ + place_text(n as nat),
{
    let mut s = String::new();
    push_decimal(&mut s, n as u64);
    assert(s@ =~= decimal(n as nat));
    out.push('[');
    push_padded(out, s.as_str(), 6);
    out.push_str("] ");
    assert(out@ =~= old(out)@ + place_text(n as nat));
}

/// The last `n` digits of a number in base 16.
pub open spec fn hex_digits(v: int, n: nat) -> Seq<char>
    decreases n,
{
    if n == 0 {
        Seq::empty()
    } else {
        hex_digits(v / 16, (n - 1) as nat).push(crate::json::hex(v % 16))
    }
}

fn push_hex_digits(out: &mut String, v: u32, n: u32)
    ensures
        final(out)@ == old(out)@ + hex_digits(v as int, n as nat),
    decreases n,
{
    if n > 0 {
        push_hex_digits(out, v / 16, n - 1);
        crate::json::push_hex(out, v % 16);
    }
    assert(out@ =~= old(out)@ + hex_digits(v as int, n as nat));
}

/// The bits of a number, or those of zero.
pub open spec fn or_zero(v: Option<u32>) -> u32 {
    match v {
        Some(x) => x,
        None => 0,
    }
}

/// Whether bits are those of a zero of either sign.
pub open spec fn is_zero(b: u32) -> bool {
    b as int % 0x8000_0000 == 0
}

pub open spec fn view_line(c: UserCmd) -> Seq<char> {
    match (c.pitch, c.yaw) {
        (Some(p), Some(y)) => "               view  pitch="@ + padded(fixed_text(p, 3), 9)
            + "\u{b0}  yaw="@ + padded(fixed_text(y, 3), 9) + "\u{b0}  roll="@ + fixed_text(
            or_zero(c.roll),
            3,
        ) + "\u{b0}\n"@,
        _ => Seq::empty(),
    }
}

pub open spec fn move_line(c: UserCmd) -> Seq<char> {
    let f = or_zero(c.forwardmove);
    let s = or_zero(c.sidemove);
    let u = or_zero(c.upmove);
    if is_zero(f) && is_zero(s) && is_zero(u) {
        Seq::empty()
    } else {
        "               move  fwd="@ + padded(fixed_text(f, 1), 8) + "  side="@ + padded(
            fixed_text(s, 1),
            8,
        ) + "  up="@ + padded(fixed_text(u, 1), 8) + "\n"@
    }
}

pub open spec fn button_text(b: u32) -> Seq<char> {
    if pressed(b, 16).len() == 0 {
        "none"@
    } else {
        barred(pressed(b, 16))
    }
}

pub open spec fn keys_line(c: UserCmd) -> Seq<char> {
    match c.buttons {
        Some(b) => if b != 0 {
            "               keys  "@ + button_text(b) + "  (0x"@ + hex_digits(b as int, 8) + ")\n"@
        } else {
            Seq::empty()
        },
        None => Seq::empty(),
    }
}

pub open spec fn mouse_line(c: UserCmd) -> Seq<char> {
    match c.mousedx {
        Some(x) => "               mouse dx="@ + signed_decimal(x as int) + "  dy="@ + signed_decimal(
            match c.mousedy {
                Some(y) => y as int,
                None => 0,
            },
        ) + "\n"@,
        None => Seq::empty(),
    }
}

pub open spec fn weapon_line(c: UserCmd) -> Seq<char> {
    match c.weaponselect {
        Some(w) => "               weapon slot="@ + decimal(w as nat) + "  sub="@ + decimal(
            or_zero(c.weaponsubtype) as nat,
        ) + "\n"@,
        None => Seq::empty(),
    }
}

/// What an input says, line by line.
pub open spec fn input_lines(c: UserCmd) -> Seq<char> {
    view_line(c) + move_line(c) + keys_line(c) + mouse_line(c) + weapon_line(c)
}

fn zero_or(v: Option<u32>) -> (r: u32)
    ensures
        r == or_zero(v),
{
    match v {
        Some(x) => x,
        None => 0,
    }
}

fn push_view_line(out: &mut String, c: &UserCmd)
    ensures
        final(out)@ == old(out)@ + view_line(*c),
{
    match (c.pitch, c.yaw) {
        (Some(p), Some(y)) => {
            out.push_str("               view  pitch=");
            push_padded(out, fixed(p, 3).as_str(), 9);
            out.push_str("\u{b0}  yaw=");
            push_padded(out, fixed(y, 3).as_str(), 9);
            out.push_str("\u{b0}  roll=");
            out.push_str(fixed(zero_or(c.roll), 3).as_str());
            out.push_str("\u{b0}\n");
        },
        _ => {},
    }
    assert(out@ =~= old(out)@ + view_line(*c));
}

fn push_move_line(out: &mut String, c: &UserCmd)
    ensures
        final(out)@ == old(out)@ + move_line(*c),
{
    let f: u32 = zero_or(c.forwardmove);
    let s: u32 = zero_or(c.sidemove);
    let u: u32 = zero_or(c.upmove);
    if f % 0x8000_0000 != 0 || s % 0x8000_0000 != 0 || u % 0x8000_0000 != 0 {
        out.push_str("               move  fwd=");
        push_padded(out, fixed(f, 1).as_str(), 8);
        out.push_str("  side=");
        push_padded(out, fixed(s, 1).as_str(), 8);
        out.push_str("  up=");
        push_padded(out, fixed(u, 1).as_str(), 8);
        out.push_str("\n");
    }
    assert(out@ =~= old(out)@ + move_line(*c));
}

fn push_keys_line(out: &mut String, c: &UserCmd)
    ensures
        final(out)@ == old(out)@ + keys_line(*c),
{
    match c.buttons {
        Some(b) => {
            if b != 0 {
                out.push_str("               keys  ");
                out.push_str(fmt_buttons(b).as_str());
                out.push_str("  (0x");
                push_hex_digits(out, b, 8);
                out.push_str(")\n");
            }
        },
        None => {},
    }
    assert(out@ =~= old(out)@ + keys_line(*c));
}

fn push_mouse_line(out: &mut String, c: &UserCmd)
    ensures
        final(out)@ == old(out)@ + mouse_line(*c),
{
    match c.mousedx {
        Some(x) => {
            out.push_str("               mouse dx=");
            push_signed(out, x as i64);
            out.push_str("  dy=");
            push_signed(
                out,
                match c.mousedy {
                    Some(y) => y as i64,
                    None => 0,
                },
            );
            out.push_str("\n");
        },
        None => {},
    }
    assert(out@ =~= old(out)@ + mouse_line(*c));
}

fn push_weapon_line(out: &mut String, c: &UserCmd)
    ensures
        final(out)@ == old(out)@ + weapon_line(*c),
{
    match c.weaponselect {
        Some(w) => {
            out.push_str("               weapon slot=");
            push_decimal(out, w as u64);
            out.push_str("  sub=");
            push_decimal(out, zero_or(c.weaponsubtype) as u64);
            out.push_str("\n");
        },
        None => {},
    }
    assert(out@ =~= old(out)@ + weapon_line(*c));
}

/// How a command is listed; `all` says whether those that are not inputs are too.
pub open spec fn listed(v: Seen, n: nat, all: bool) -> Seq<char> {
    let place = place_text(n);
    let tick = padded(signed_decimal(v.tick as int), 7);
    match v.entry {
        Held::Stop => place + "STOP   tick="@ + signed_decimal(v.tick as int) + "\n"@,
        Held::Packet(a, b, len) => if all {
            place + (if v.cmd == 1 {
                "SIGNON  tick="@
            } else {
                "PACKET  tick="@
            }) + tick + "  in="@ + signed_decimal(a as int) + "  out="@ + signed_decimal(b as int)
                + "  len="@ + signed_decimal(len as int) + "\n"@
        } else {
            Seq::empty()
        },
        Held::Sync => if all {
            place + "SYNCTICK tick="@ + signed_decimal(v.tick as int) + "\n"@
        } else {
            Seq::empty()
        },
        Held::Console(s) => place + "CONSOLE  tick="@ + tick + "  \""@ + s + "\"\n"@,
        Held::Input(seq, number, c) => match c {
            Some(c) => place + "USERCMD  tick="@ + tick + "  cmd="@ + decimal(number as nat)
                + "  seq="@ + signed_decimal(seq as int) + "\n"@ + input_lines(c),
            None => Seq::empty(),
        },
        Held::Tables(len) => if all {
            place + "DATATABLES tick="@ + tick + "  len="@ + signed_decimal(len as int) + "\n"@
        } else {
            Seq::empty()
        },
        Held::Custom(len) => if all {
            place + "CUSTOMDATA tick="@ + tick + "  len="@ + signed_decimal(len as int) + "\n"@
        } else {
            Seq::empty()
        },
        Held::Strings(len) => if all {
            place + "STRTABLES  tick="@ + tick + "  len="@ + signed_decimal(len as int) + "\n"@
        } else {
            Seq::empty()
        },
        Held::Cut => Seq::empty(),
        Held::Unknown => Seq::empty(),
    }
}

/// The first `n` commands.
pub open spec fn listing(vs: Seq<Seen>, n: int, all: bool) -> Seq<char>
    decreases n,
{
    if n <= 0 {
        Seq::empty()
    } else {
        listing(vs, n - 1, all) + listed(vs[n - 1], (n - 1) as nat, all)
    }
}

fn push_sized(out: &mut String, n: usize, word: &str, tick: i32, len: i32)
    ensures
        final(out)@ == old(out)@ + (place_text(n as nat) + word@ + padded(
            signed_decimal(tick as int),
            7,
        ) + "  len="@ + signed_decimal(len as int) + "\n"@),
{
    push_place(out, n);
    out.push_str(word);
    push_tick(out, tick);
    out.push_str("  len=");
    push_signed(out, len as i64);
    out.push_str("\n");
    assert(out@ =~= old(out)@ + (place_text(n as nat) + word@ + padded(
        signed_decimal(tick as int),
        7,
    ) + "  len="@ + signed_decimal(len as int) + "\n"@));
}

fn push_input(out: &mut String, n: usize, tick: i32, seq: i32, number: u32, c: &UserCmd)
    ensures
        final(out)@ == old(out)@ + (place_text(n as nat) + "USERCMD  tick="@ + padded(
            signed_decimal(tick as int),
            7,
        ) + "  cmd="@ + decimal(number as nat) + "  seq="@ + signed_decimal(seq as int) + "\n"@
            + input_lines(*c)),
{
    push_place(out, n);
    out.push_str("USERCMD  tick=");
    push_tick(out, tick);
    out.push_str("  cmd=");
    push_decimal(out, number as u64);
    out.push_str("  seq=");
    push_signed(out, seq as i64);
    out.push_str("\n");
    push_view_line(out, c);
    push_move_line(out, c);
    push_keys_line(out, c);
    push_mouse_line(out, c);
    push_weapon_line(out, c);
    assert(out@ =~= old(out)@ + (place_text(n as nat) + "USERCMD  tick="@ + padded(
        signed_decimal(tick as int),
        7,
    ) + "  cmd="@ + decimal(number as nat) + "  seq="@ + signed_decimal(seq as int) + "\n"@
        + input_lines(*c)));
}

fn push_packet(out: &mut String, n: usize, word: &str, tick: i32, a: i32, b: i32, len: i32)
    ensures
        final(out)@ == old(out)@ + (place_text(n as nat) + word@ + padded(
            signed_decimal(tick as int),
            7,
        ) + "  in="@ + signed_decimal(a as int) + "  out="@ + signed_decimal(b as int) + "  len="@
            + signed_decimal(len as int) + "\n"@),
{
    push_place(out, n);
    out.push_str(word);
    push_tick(out, tick);
    out.push_str("  in=");
    push_signed(out, a as i64);
    out.push_str("  out=");
    push_signed(out, b as i64);
    out.push_str("  len=");
    push_signed(out, len as i64);
    out.push_str("\n");
    assert(out@ =~= old(out)@ + (place_text(n as nat) + word@ + padded(
        signed_decimal(tick as int),
        7,
    ) + "  in="@ + signed_decimal(a as int) + "  out="@ + signed_decimal(b as int) + "  len="@
        + signed_decimal(len as int) + "\n"@));
}

fn push_listed(out: &mut String, v: &Visit, n: usize, all: bool)
    ensures
        final(out)@ == old(out)@ + listed(v@, n as nat, all),
{
    match &v.entry {
        Entry::Stop => {
            push_place(out, n);
            out.push_str("STOP   tick=");
            push_signed(out, v.tick as i64);
            out.push_str("\n");
        },
        Entry::Packet(a, b, len) => {
            if all {
                let word = if v.cmd == 1 {
                    "SIGNON  tick="
                } else {
                    "PACKET  tick="
                };
                push_packet(out, n, word, v.tick, *a, *b, *len);
            }
        },
        Entry::Sync => {
            if all {
                push_place(out, n);
                out.push_str("SYNCTICK tick=");
                push_signed(out, v.tick as i64);
                out.push_str("\n");
            }
        },
        Entry::Console(s) => {
            push_place(out, n);
            out.push_str("CONSOLE  tick=");
            push_tick(out, v.tick);
            out.push_str("  \"");
            out.push_str(s.as_str());
            out.push_str("\"\n");
        },
        Entry::Input(seq, number, c) => match c {
            Some(c) => {
                push_input(out, n, v.tick, *seq, *number, c);
            },
            None => {},
        },
        Entry::Tables(len) => {
            if all {
                push_sized(out, n, "DATATABLES tick=", v.tick, *len);
            }
        },
        Entry::Custom(len) => {
            if all {
                push_sized(out, n, "CUSTOMDATA tick=", v.tick, *len);
            }
        },
        Entry::Strings(len) => {
            if all {
                push_sized(out, n, "STRTABLES  tick=", v.tick, *len);
            }
        },
        Entry::Cut => {},
        Entry::Unknown => {},
    }
    assert(out@ =~= old(out)@ + listed(v@, n as nat, all));
}

/// Lists the commands; `all` says whether those that are not inputs are listed too.
pub fn list_visits(vs: &Vec<Visit>, all: bool) -> (r: String)
    ensures
        r@ == listing(seen_in(vs@), vs@.len() as int, all),
{
    let ghost s = seen_in(vs@);
    let mut out = String::new();
    let mut i: usize = 0;
    while i < vs.len()
        invariant
            i <= vs@.len(),
            s == seen_in(vs@),
            out@ == listing(s, i as int, all),
        decreases vs@.len() - i,
    {
        assert(s[i as int] == vs@[i as int]@);
        push_listed(&mut out, &vs[i], i, all);
        i += 1;
    }
    out
}

} // verus!
