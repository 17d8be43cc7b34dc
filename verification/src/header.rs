//! The fixed-size demo header and the bit-packed user command.
use crate::bits::{countable, BitReader, Cursor};
use crate::bytes::{cstr_at, i32_at, le_i32, le_u32, read_cstring, signed16, to_i16, u32_at};
use crate::constants::{is_source_demo_magic, source_magic, HEADER_SIZE, IN_ATTACK, IN_ATTACK2,
    IN_BACK, IN_DUCK, IN_FORWARD, IN_JUMP, IN_LEFT, IN_MOVELEFT, IN_MOVERIGHT, IN_RELOAD, IN_RIGHT,
    IN_SCORE, IN_SPEED, IN_USE, IN_WALK, IN_ZOOM, MAX_EDICT_BITS, WEAPON_SUBTYPE_BITS};
use crate::text::lossy_chars;
use crate::written;
use vstd::arithmetic::power2::{lemma2_to64, pow2};
use vstd::prelude::*;

verus! {

#[derive(Debug)]
pub struct DemoHeader {
    pub demo_protocol: i32,
    pub net_protocol: i32,
    pub server_name: String,
    pub client_name: String,
    pub map_name: String,
    pub game_dir: String,
    /// IEEE-754 bits of the playback time in seconds.
    pub playback_time: u32,
    pub ticks: i32,
    pub frames: i32,
    pub sign_on_length: i32,
}

impl DemoHeader {
    /// The header that the bytes of a demo hold.
    pub open spec fn is_of(&self, d: Seq<u8>) -> bool {
        &&& self.demo_protocol == i32_at(d, 8)
        &&& self.net_protocol == i32_at(d, 12)
        &&& self.server_name@ == lossy_chars(cstr_at(d, 16, 260))
        &&& self.client_name@ == lossy_chars(cstr_at(d, 276, 260))
        &&& self.map_name@ == lossy_chars(cstr_at(d, 536, 260))
        &&& self.game_dir@ == lossy_chars(cstr_at(d, 796, 260))
        &&& self.playback_time == u32_at(d, 1056)
        &&& self.ticks == i32_at(d, 1060)
        &&& self.frames == i32_at(d, 1064)
        &&& self.sign_on_length == i32_at(d, 1068)
    }
}

/// Reads the header of a demo of Source; none where it is not one.
pub fn parse_header(data: &[u8]) -> (r: Option<DemoHeader>)
    ensures
        r is Some <==> data@.len() >= HEADER_SIZE && source_magic(data@),
        r is Some ==> r->0.is_of(data@),
{
    if data.len() < HEADER_SIZE {
        return None;
    }
    if !is_source_demo_magic(data) {
        return None;
    }
    Some(
        DemoHeader {
            demo_protocol: le_i32(data, 8),
            net_protocol: le_i32(data, 12),
            server_name: read_cstring(data, 16, 260),
            client_name: read_cstring(data, 276, 260),
            map_name: read_cstring(data, 536, 260),
            game_dir: read_cstring(data, 796, 260),
            playback_time: le_u32(data, 1056),
            ticks: le_i32(data, 1060),
            frames: le_i32(data, 1064),
            sign_on_length: le_i32(data, 1068),
        },
    )
}

/// One player input; angles and speeds are IEEE-754 bits.
#[derive(Debug, Clone, Copy, PartialEq, Eq, Structural)]
pub struct UserCmd {
    pub command_number: Option<u32>,
    pub tick_count: Option<u32>,
    pub pitch: Option<u32>,
    pub yaw: Option<u32>,
    pub roll: Option<u32>,
    pub forwardmove: Option<u32>,
    pub sidemove: Option<u32>,
    pub upmove: Option<u32>,
    pub buttons: Option<u32>,
    pub impulse: Option<u8>,
    pub weaponselect: Option<u32>,
    pub weaponsubtype: Option<u32>,
    pub mousedx: Option<i16>,
    pub mousedy: Option<i16>,
}

/// A command's bits, as far as they have not run out at a presence flag.
pub struct CmdBits {
    pub c: Cursor,
    pub live: bool,
}

impl CmdBits {
    /// The next presence flag; where there is none left, the command ends.
    #[verifier::opaque]
    pub open spec fn flag(self) -> (bool, CmdBits) {
        if !self.live {
            (false, self)
        } else if self.c.has(1) {
            (self.c.val(1) == 1, CmdBits { c: self.c.adv(1), live: true })
        } else {
            (false, CmdBits { c: self.c, live: false })
        }
    }

    /// The next `w` bits, where that many are left.
    #[verifier::opaque]
    pub open spec fn bits(self, w: nat) -> (Option<u32>, CmdBits) {
        match self.c.take(w) {
            Some((v, c)) => (Some(v as u32), CmdBits { c, live: self.live }),
            None => (None, self),
        }
    }

    /// A flagged field of `w` bits.
    #[verifier::opaque]
    pub open spec fn field(self, w: nat) -> (Option<u32>, CmdBits) {
        let (present, s) = self.flag();
        if present {
            s.bits(w)
        } else {
            (None, s)
        }
    }
}

pub open spec fn as_i16(v: Option<u32>) -> Option<i16> {
    match v {
        Some(x) => Some(signed16(x as int) as i16),
        None => None,
    }
}

/// The command that a byte string holds: fourteen flagged fields in order, those
/// after the end of the bits absent. The weapon's subtype is read only where the
/// weapon is flagged.
pub open spec fn usercmd_of(d: Seq<u8>) -> UserCmd {
    let s = CmdBits { c: Cursor { d, pos: 0, end: 8 * d.len() as int }, live: true };
    let (command_number, s) = s.field(32);
    let (tick_count, s) = s.field(32);
    let (pitch, s) = s.field(32);
    let (yaw, s) = s.field(32);
    let (roll, s) = s.field(32);
    let (forwardmove, s) = s.field(32);
    let (sidemove, s) = s.field(32);
    let (upmove, s) = s.field(32);
    let (buttons, s) = s.field(32);
    let (impulse, s) = s.field(8);
    let (weapon, s) = s.flag();
    let (weaponselect, s) = if weapon {
        s.bits(11)
    } else {
        (None, s)
    };
    let (weaponsubtype, s) = if weapon {
        s.field(6)
    } else {
        (None, s)
    };
    let (mousedx, s) = s.field(16);
    let (mousedy, _) = s.field(16);
    UserCmd {
        command_number,
        tick_count,
        pitch,
        yaw,
        roll,
        forwardmove,
        sidemove,
        upmove,
        buttons,
        impulse: match impulse {
            Some(v) => Some(v as u8),
            None => None,
        },
        weaponselect,
        weaponsubtype,
        mousedx: as_i16(mousedx),
        mousedy: as_i16(mousedy),
    }
}

struct CmdReader<'a> {
    br: BitReader<'a>,
    live: bool,
}

impl<'a> CmdReader<'a> {
    spec fn view(&self) -> CmdBits {
        CmdBits { c: self.br@, live: self.live }
    }

    fn flag(&mut self) -> (r: bool)
        requires
            old(self).br.wf(),
        ensures
            final(self).br.wf(),
            (r, final(self)@) == old(self)@.flag(),
    {
        proof {
            reveal(CmdBits::flag);
        }
        if !self.live {
            return false;
        }
        match self.br.read_bool() {
            Some(b) => b,
            None => {
                self.live = false;
                false
            },
        }
    }

    fn bits(&mut self, w: u32) -> (r: Option<u32>)
        requires
            old(self).br.wf(),
            w <= 32,
        ensures
            final(self).br.wf(),
            (r, final(self)@) == old(self)@.bits(w as nat),
            r is Some ==> r->0 < pow2(w as nat),
    {
        proof {
            reveal(CmdBits::bits);
        }
        self.br.read_bits(w)
    }

    fn field(&mut self, w: u32) -> (r: Option<u32>)
        requires
            old(self).br.wf(),
            w <= 32,
        ensures
            final(self).br.wf(),
            (r, final(self)@) == old(self)@.field(w as nat),
            r is Some ==> r->0 < pow2(w as nat),
    {
        proof {
            reveal(CmdBits::field);
        }
        if self.flag() {
            self.bits(w)
        } else {
            None
        }
    }
}

fn opt_i16(v: Option<u32>) -> (r: Option<i16>)
    requires
        v is Some ==> v->0 < 0x1_0000,
    ensures
        r == as_i16(v),
{
    match v {
        Some(x) => Some(to_i16(x as u16)),
        None => None,
    }
}

/// The command in a payload. It never fails: a short payload gives a command
/// whose later fields are absent.
pub fn parse_usercmd(data: &[u8]) -> (r: Option<UserCmd>)
    requires
        countable(data@),
    ensures
        r == Some(usercmd_of(data@)),
{
    proof {
        lemma2_to64();
    }
    let mut s = CmdReader { br: BitReader::new(data), live: true };
    let command_number = s.field(32);
    let tick_count = s.field(32);
    let pitch = s.field(32);
    let yaw = s.field(32);
    let roll = s.field(32);
    let forwardmove = s.field(32);
    let sidemove = s.field(32);
    let upmove = s.field(32);
    let buttons = s.field(32);
    let impulse = s.field(8);
    let weapon = s.flag();
    let weaponselect = if weapon {
        s.bits(MAX_EDICT_BITS)
    } else {
        None
    };
    let weaponsubtype = if weapon {
        s.field(WEAPON_SUBTYPE_BITS)
    } else {
        None
    };
    let mousedx = s.field(16);
    let mousedy = s.field(16);
    Some(
        UserCmd {
            command_number,
            tick_count,
            pitch,
            yaw,
            roll,
            forwardmove,
            sidemove,
            upmove,
            buttons,
            impulse: match impulse {
                Some(v) => Some(v as u8),
                None => None,
            },
            weaponselect,
            weaponsubtype,
            mousedx: opt_i16(mousedx),
            mousedy: opt_i16(mousedy),
        },
    )
}

/// The buttons in display order: mask and name.
pub open spec fn button(k: int) -> (u32, Seq<char>) {
    if k == 0 {
        (IN_ATTACK, "ATTACK"@)
    } else if k == 1 {
        (IN_ATTACK2, "ATTACK2"@)
    } else if k == 2 {
        (IN_JUMP, "JUMP"@)
    } else if k == 3 {
        (IN_DUCK, "DUCK"@)
    } else if k == 4 {
        (IN_FORWARD, "FORWARD"@)
    } else if k == 5 {
        (IN_BACK, "BACK"@)
    } else if k == 6 {
        (IN_MOVELEFT, "MOVELEFT"@)
    } else if k == 7 {
        (IN_MOVERIGHT, "MOVERIGHT"@)
    } else if k == 8 {
        (IN_USE, "USE"@)
    } else if k == 9 {
        (IN_RELOAD, "RELOAD"@)
    } else if k == 10 {
        (IN_SCORE, "SCORE"@)
    } else if k == 11 {
        (IN_SPEED, "SPEED"@)
    } else if k == 12 {
        (IN_WALK, "WALK"@)
    } else if k == 13 {
        (IN_ZOOM, "ZOOM"@)
    } else if k == 14 {
        (IN_LEFT, "TURNLEFT"@)
    } else {
        (IN_RIGHT, "TURNRIGHT"@)
    }
}

/// The names of the pressed buttons among the first `n`.
pub open spec fn pressed(b: u32, n: int) -> Seq<Seq<char>>
    decreases n,
{
    if n <= 0 {
        Seq::empty()
    } else if b & button(n - 1).0 != 0 {
        pressed(b, n - 1).push(button(n - 1).1)
    } else {
        pressed(b, n - 1)
    }
}

/// Texts joined by bars.
pub open spec fn barred(names: Seq<Seq<char>>) -> Seq<char>
    decreases names.len(),
{
    if names.len() == 0 {
        Seq::empty()
    } else if names.len() == 1 {
        names[0]
    } else {
        barred(names.drop_last()) + seq!['|'] + names.last()
    }
}

fn button_at(k: usize) -> (r: (u32, &'static str))
    requires
        k < 16,
    ensures
        r.0 == button(k as int).0,
        r.1@ == button(k as int).1,
{
    match k {
        0 => (IN_ATTACK, "ATTACK"),
        1 => (IN_ATTACK2, "ATTACK2"),
        2 => (IN_JUMP, "JUMP"),
        3 => (IN_DUCK, "DUCK"),
        4 => (IN_FORWARD, "FORWARD"),
        5 => (IN_BACK, "BACK"),
        6 => (IN_MOVELEFT, "MOVELEFT"),
        7 => (IN_MOVERIGHT, "MOVERIGHT"),
        8 => (IN_USE, "USE"),
        9 => (IN_RELOAD, "RELOAD"),
        10 => (IN_SCORE, "SCORE"),
        11 => (IN_SPEED, "SPEED"),
        12 => (IN_WALK, "WALK"),
        13 => (IN_ZOOM, "ZOOM"),
        14 => (IN_LEFT, "TURNLEFT"),
        _ => (IN_RIGHT, "TURNRIGHT"),
    }
}

/// The pressed buttons' names joined by bars, or `none`.
pub fn fmt_buttons(b: u32) -> (s: String)
    ensures
        s@ == if pressed(b, 16).len() == 0 {
            "none"@
        } else {
            barred(pressed(b, 16))
        },
{
    let mut out = String::new();
    let mut any = false;
    let mut k: usize = 0;
    while k < 16
        invariant
            k <= 16,
            out@ == barred(pressed(b, k as int)),
            any == (pressed(b, k as int).len() > 0),
        decreases 16 - k,
    {
        let (mask, name) = button_at(k);
        if b & mask != 0 {
            proof {
                let p = pressed(b, k as int);
                assert(p.push(name@).drop_last() =~= p);
            }
            if any {
                out.push('|');
                out.push_str(name);
                assert(out@ =~= barred(pressed(b, k as int)) + seq!['|'] + name@);
            } else {
                out.push_str(name);
                assert(out@ =~= name@);
            }
            any = true;
        }
        k += 1;
    }
    if any {
        out
    } else {
        "none".to_owned()
    }
}

/// A field as it is written: whether it is there, and then in `w` bits.
#[verifier::opaque]
pub open spec fn field_bits(v: Option<int>, w: nat) -> Seq<bool> {
    match v {
        Some(n) => written::flag(true) + written::bits_of(n, w),
        None => written::flag(false),
    }
}

pub open spec fn opt_int(v: Option<u32>) -> Option<int> {
    match v {
        Some(n) => Some(n as int),
        None => None,
    }
}

/// A signed number of 16 bits as one without a sign.
pub open spec fn opt_short(v: Option<i16>) -> Option<int> {
    match v {
        Some(n) => Some(
            if n < 0 {
                0x1_0000 + n
            } else {
                n as int
            },
        ),
        None => None,
    }
}

/// A command as it is written: its number, its tick, where the player looks, how the
/// player moves (forward, to the side and up), the buttons, the impulse, the weapon and
/// its kind, and how the mouse moved.
pub open spec fn command_bits(u: UserCmd) -> Seq<bool> {
    field_bits(opt_int(u.command_number), 32) + (field_bits(opt_int(u.tick_count), 32) + (field_bits(
        opt_int(u.pitch),
        32,
    ) + (field_bits(opt_int(u.yaw), 32) + (field_bits(opt_int(u.roll), 32) + (field_bits(
        opt_int(u.forwardmove),
        32,
    ) + (field_bits(opt_int(u.sidemove), 32) + (field_bits(opt_int(u.upmove), 32) + (field_bits(
        opt_int(u.buttons),
        32,
    ) + (field_bits(
        match u.impulse {
            Some(n) => Some(n as int),
            None => None,
        },
        8,
    ) + (weapon_bits(u.weaponselect, u.weaponsubtype) + (field_bits(opt_short(u.mousedx), 16)
        + field_bits(opt_short(u.mousedy), 16))))))))))))
}

/// A weapon in eleven bits, and behind it its kind in six, if it has one.
pub open spec fn weapon_bits(weapon: Option<u32>, kind: Option<u32>) -> Seq<bool> {
    match weapon {
        Some(n) => written::flag(true) + (written::bits_of(n as int, 11) + field_bits(
            opt_int(kind),
            6,
        )),
        None => written::flag(false),
    }
}

/// A command that can be written.
pub open spec fn writable(u: UserCmd) -> bool {
    &&& u.weaponselect matches Some(n) ==> n < 2048
    &&& u.weaponsubtype matches Some(n) ==> n < 64 && u.weaponselect is Some
}

impl CmdBits {
    proof fn lemma_flag(self, b: bool, rest: Seq<bool>)
        requires
            self.live,
            self.c.holds(written::flag(b) + rest),
        ensures
            self.flag().0 == b,
            self.flag().1.live,
            self.flag().1.c.holds(rest),
    {
        reveal(CmdBits::flag);
        self.c.lemma_flag(b, rest);
    }

    proof fn lemma_bits(self, v: int, w: nat, rest: Seq<bool>)
        requires
            self.live,
            w <= 32,
            0 <= v < pow2(w),
            self.c.holds(written::bits_of(v, w) + rest),
        ensures
            self.bits(w).0 == Some(v as u32),
            self.bits(w).1.live,
            self.bits(w).1.c.holds(rest),
            v as u32 == v,
    {
        reveal(CmdBits::bits);
        self.c.lemma_number(v, w, rest);
        lemma2_to64();
        if w < 32 {
            vstd::arithmetic::power2::lemma_pow2_strictly_increases(w, 32);
        }
    }

    proof fn lemma_field(self, v: Option<int>, w: nat, rest: Seq<bool>)
        requires
            self.live,
            w <= 32,
            v matches Some(n) ==> 0 <= n < pow2(w),
            self.c.holds(field_bits(v, w) + rest),
        ensures
            self.field(w).0 is Some <==> v is Some,
            v matches Some(n) ==> self.field(w).0->0 == n,
            self.field(w).1.live,
            self.field(w).1.c.holds(rest),
    {
        reveal(field_bits);
        reveal(CmdBits::field);
        match v {
            Some(n) => {
                let b = written::bits_of(n, w);
                assert((written::flag(true) + b) + rest =~= written::flag(true) + (b + rest));
                self.lemma_flag(true, b + rest);
                self.flag().1.lemma_bits(n, w, rest);
            },
            None => {
                self.lemma_flag(false, rest);
            },
        }
    }
}

/// A command that was written is read back, each of its fields by itself, whatever
/// stands behind it.
#[verifier::rlimit(60)]
pub proof fn law_command_round_trip(u: UserCmd, d: Seq<u8>)
    requires
        writable(u),
        written::stands(d, 0, command_bits(u)),
    ensures
        usercmd_of(d) == u,
{
    lemma2_to64();
    vstd::arithmetic::power2::lemma_pow2_adds(8, 3);
    let e = Seq::<bool>::empty();
    let imp = match u.impulse {
        Some(n) => Some(n as int),
        None => None,
    };
    let r14 = field_bits(opt_short(u.mousedy), 16);
    let r13 = field_bits(opt_short(u.mousedx), 16) + r14;
    let r11 = weapon_bits(u.weaponselect, u.weaponsubtype) + r13;
    let r10 = field_bits(imp, 8) + r11;
    let r9 = field_bits(opt_int(u.buttons), 32) + r10;
    let r8 = field_bits(opt_int(u.upmove), 32) + r9;
    let r7 = field_bits(opt_int(u.sidemove), 32) + r8;
    let r6 = field_bits(opt_int(u.forwardmove), 32) + r7;
    let r5 = field_bits(opt_int(u.roll), 32) + r6;
    let r4 = field_bits(opt_int(u.yaw), 32) + r5;
    let r3 = field_bits(opt_int(u.pitch), 32) + r4;
    let r2 = field_bits(opt_int(u.tick_count), 32) + r3;
    written::lemma_start(d, command_bits(u));
    let s = CmdBits { c: Cursor { d, pos: 0, end: 8 * d.len() as int }, live: true };
    s.lemma_field(opt_int(u.command_number), 32, r2);
    let s = s.field(32).1;
    s.lemma_field(opt_int(u.tick_count), 32, r3);
    let s = s.field(32).1;
    s.lemma_field(opt_int(u.pitch), 32, r4);
    let s = s.field(32).1;
    s.lemma_field(opt_int(u.yaw), 32, r5);
    let s = s.field(32).1;
    s.lemma_field(opt_int(u.roll), 32, r6);
    let s = s.field(32).1;
    s.lemma_field(opt_int(u.forwardmove), 32, r7);
    let s = s.field(32).1;
    s.lemma_field(opt_int(u.sidemove), 32, r8);
    let s = s.field(32).1;
    s.lemma_field(opt_int(u.upmove), 32, r9);
    let s = s.field(32).1;
    s.lemma_field(opt_int(u.buttons), 32, r10);
    let s = s.field(32).1;
    s.lemma_field(imp, 8, r11);
    let s = s.field(8).1;
    let s = match u.weaponselect {
        Some(n) => {
            let k = field_bits(opt_int(u.weaponsubtype), 6);
            let b = written::bits_of(n as int, 11);
            assert(r11 =~= written::flag(true) + (b + (k + r13)));
            s.lemma_flag(true, b + (k + r13));
            let s = s.flag().1;
            s.lemma_bits(n as int, 11, k + r13);
            let s = s.bits(11).1;
            s.lemma_field(opt_int(u.weaponsubtype), 6, r13);
            s.field(6).1
        },
        None => {
            s.lemma_flag(false, r13);
            s.flag().1
        },
    };
    s.lemma_field(opt_short(u.mousedx), 16, r14);
    let s = s.field(16).1;
    assert(r14 + e =~= r14);
    s.lemma_field(opt_short(u.mousedy), 16, e);
}

/// Where the bits end at a flag, the fields behind it are absent: no bytes hold no
/// field.
pub proof fn law_no_bits_no_fields(d: Seq<u8>)
    requires
        d.len() == 0,
    ensures
        usercmd_of(d) == (UserCmd {
            command_number: None,
            tick_count: None,
            pitch: None,
            yaw: None,
            roll: None,
            forwardmove: None,
            sidemove: None,
            upmove: None,
            buttons: None,
            impulse: None,
            weaponselect: None,
            weaponsubtype: None,
            mousedx: None,
            mousedy: None,
        }),
{
    reveal(CmdBits::flag);
    reveal(CmdBits::field);
}

} // verus!
