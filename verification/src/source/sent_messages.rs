//! The messages of a packet as a server writes them.
use super::events::{chat, message_at, past_entities, past_table, shown_only, user_message, EventOf,
    Reading};
use super::messages::{canonical, is_plain, past_bits, past_sized, past_text, past_texts, plain_end};
use super::sent_events::{all_told, all_told_bits, event_bits, law_event_round_trip, told_for, Told};
use crate::bits::Cursor;
use crate::written::{bits_of, bits_of_bytes, bits_of_text, flag, lemma_bits_len, lemma_bytes_len,
    no_zero};
use vstd::arithmetic::power2::{lemma2_to64, lemma_pow2_adds, pow2};
use vstd::prelude::*;

verus! {

/// A message, with what it holds.
pub enum Net {
    Nop,
    /// The tick, and how long a frame took and how steady that is.
    Tick(int, int, int),
    Command(Seq<u8>),
    /// Names and values.
    Vars(Seq<(Seq<u8>, Seq<u8>)>),
    /// A state, and how often the server was started.
    Signon(int, int),
    Print(Seq<u8>),
    /// What stands before the texts, four texts, and a mark.
    Info(Seq<bool>, Seq<u8>, Seq<u8>, Seq<u8>, Seq<u8>, bool),
    Pause(bool),
    /// The number of a string table, how many entries change if that is said, and them.
    Table(int, Option<int>, Seq<bool>),
    VoiceInit(Seq<u8>, int),
    /// Whose voice, whether it is near, and the voice.
    Voice(int, int, Seq<bool>),
    /// Sounds that are sure to arrive.
    SureSounds(Seq<bool>),
    /// How many sounds, and them.
    Sounds(int, Seq<bool>),
    View(int),
    Angle(bool, int, int, int),
    Crosshair(int, int, int),
    Split(bool, Seq<bool>),
    /// The kind of a message to the user, and the message.
    User(int, Seq<bool>),
    /// An entity, its class, and what it is told.
    Entity(int, int, Seq<bool>),
    /// The number of an event in the list, and its values.
    Event(int, Seq<Told>),
    /// The most entities, the tick that the updates start from, a baseline's number, how
    /// many updates, whether a baseline is made, and the updates.
    Entities(int, Option<int>, bool, int, bool, Seq<bool>),
    /// Whether they are sure to arrive, how many, and them.
    Temporary(bool, int, Seq<bool>),
    Prefetch(bool, int),
    Menu(int, Seq<u8>),
    /// How many events, and their list.
    List(int, Seq<bool>),
    Cvar(int, Seq<u8>),
    KeyValues(Seq<u8>),
    Paint(Seq<bool>),
    /// Which of two players on a screen the messages behind it are for; only in the
    /// newer numbering.
    ScreenUser(bool),
}

/// The number of a message. The newer numbering puts one at 3, the four of the older one
/// from there on one higher, and printed text at 16.
pub open spec fn number_of(m: Net, remap: bool) -> int {
    match m {
        Net::Nop => 0,
        Net::ScreenUser(_) => 3,
        Net::Tick(_, _, _) => if remap { 4 } else { 3 },
        Net::Command(_) => if remap { 5 } else { 4 },
        Net::Vars(_) => if remap { 6 } else { 5 },
        Net::Signon(_, _) => if remap { 7 } else { 6 },
        Net::Print(_) => if remap { 16 } else { 7 },
        Net::Info(_, _, _, _, _, _) => 8,
        Net::Pause(_) => 11,
        Net::Table(_, _, _) => 13,
        Net::VoiceInit(_, _) => 14,
        Net::Voice(_, _, _) => 15,
        Net::SureSounds(_) => 17,
        Net::Sounds(_, _) => 17,
        Net::View(_) => 18,
        Net::Angle(_, _, _, _) => 19,
        Net::Crosshair(_, _, _) => 20,
        Net::Split(_, _) => 22,
        Net::User(_, _) => 23,
        Net::Entity(_, _, _) => 24,
        Net::Event(_, _) => 25,
        Net::Entities(_, _, _, _, _, _) => 26,
        Net::Temporary(_, _, _) => 27,
        Net::Prefetch(_, _) => 28,
        Net::Menu(_, _) => 29,
        Net::List(_, _) => 30,
        Net::Cvar(_, _) => 31,
        Net::KeyValues(_) => 32,
        Net::Paint(_) => 33,
    }
}

pub open spec fn vars_bits(vs: Seq<(Seq<u8>, Seq<u8>)>, i: int) -> Seq<bool>
    decreases vs.len() - i,
{
    if i < 0 || i >= vs.len() {
        Seq::empty()
    } else {
        bits_of_text(vs[i].0) + (bits_of_text(vs[i].1) + vars_bits(vs, i + 1))
    }
}

/// A message behind its number.
#[verifier::opaque]
pub open spec fn body_bits(m: Net, wide: bool) -> Seq<bool> {
    match m {
        Net::Nop => Seq::empty(),
        Net::ScreenUser(b) => flag(b),
        Net::Tick(t, a, b) => bits_of(t, 32) + (bits_of(a, 16) + bits_of(b, 16)),
        Net::Command(s) => bits_of_text(s),
        Net::Vars(vs) => bits_of(vs.len() as int, 8) + vars_bits(vs, 0),
        Net::Signon(a, b) => bits_of(a, 8) + bits_of(b, 32),
        Net::Print(s) => bits_of_text(s),
        Net::Info(x, a, b, c, d, e) => x + (bits_of_text(a) + (bits_of_text(b) + (bits_of_text(c) + (
        bits_of_text(d) + flag(e))))),
        Net::Pause(b) => flag(b),
        Net::Table(t, n, x) => bits_of(t, 5) + (match n {
            Some(n) => flag(true) + bits_of(n, 16),
            None => flag(false),
        } + (bits_of(x.len() as int, 20) + x)),
        Net::VoiceInit(s, q) => bits_of_text(s) + bits_of(q, 8),
        Net::Voice(a, b, x) => bits_of(a, 8) + (bits_of(b, 8) + (bits_of(x.len() as int, 16) + x)),
        Net::SureSounds(x) => flag(true) + (bits_of(x.len() as int, 8) + x),
        Net::Sounds(n, x) => flag(false) + (bits_of(n, 8) + (bits_of(x.len() as int, 16) + x)),
        Net::View(e) => bits_of(e, 11),
        Net::Angle(r, a, b, c) => flag(r) + (bits_of(a, 16) + (bits_of(b, 16) + bits_of(c, 16))),
        Net::Crosshair(a, b, c) => bits_of(a, 16) + (bits_of(b, 16) + bits_of(c, 16)),
        Net::Split(k, x) => flag(k) + (bits_of(x.len() as int, 11) + x),
        Net::User(k, x) => bits_of(k, 8) + (bits_of(
            x.len() as int,
            if wide {
                12
            } else {
                11
            },
        ) + x),
        Net::Entity(e, k, x) => bits_of(e, 11) + (bits_of(k, 9) + (bits_of(x.len() as int, 11) + x)),
        Net::Event(id, vs) => event_bits(id, vs),
        Net::Entities(most, from, base, n, new, x) => bits_of(most, 11) + (match from {
            Some(t) => flag(true) + bits_of(t, 32),
            None => flag(false),
        } + (flag(base) + (bits_of(n, 11) + (bits_of(x.len() as int, 20) + (flag(new) + x))))),
        Net::Temporary(r, n, x) => flag(r) + (bits_of(n, 8) + (bits_of(x.len() as int, 17) + x)),
        Net::Prefetch(k, i) => flag(k) + bits_of(i, 13),
        Net::Menu(k, s) => bits_of(k, 16) + (bits_of(s.len() as int, 16) + bits_of_bytes(s)),
        Net::List(n, x) => bits_of(n, 9) + (bits_of(x.len() as int, 20) + x),
        Net::Cvar(k, s) => bits_of(k, 32) + bits_of_text(s),
        Net::KeyValues(s) => bits_of(s.len() as int, 32) + bits_of_bytes(s),
        Net::Paint(x) => bits_of(x.len() as int, 32) + x,
    }
}

/// A text that fits in `max` bytes with the zero behind it.
pub open spec fn text_fits(s: Seq<u8>, max: int) -> bool {
    no_zero(s) && s.len() < max
}

pub open spec fn vars_fit(vs: Seq<(Seq<u8>, Seq<u8>)>) -> bool {
    forall|i: int|
        0 <= i < vs.len() ==> text_fits((#[trigger] vs[i]).0, 256) && text_fits(vs[i].1, 256)
}

/// Whether a message can be written. The lengths are what their fields hold.
#[verifier::opaque]
pub open spec fn net_fits(m: Net, r: Reading) -> bool {
    match m {
        Net::ScreenUser(_) => r.remap,
        Net::Command(s) => text_fits(s, 512),
        Net::Vars(vs) => vs.len() < 256 && vars_fit(vs),
        Net::Print(s) => text_fits(s, 2048),
        Net::Info(x, a, b, c, d, _) => {
            &&& x.len() == if r.newer {
                218int
            } else {
                282
            }
            &&& text_fits(a, 260) && text_fits(b, 260) && text_fits(c, 260) && text_fits(d, 260)
        },
        Net::Table(_, _, x) => x.len() < 0x10_0000,
        Net::VoiceInit(s, _) => text_fits(s, 256),
        Net::Voice(_, _, x) => x.len() < 0x1_0000,
        Net::SureSounds(x) => x.len() < 256,
        Net::Sounds(_, x) => x.len() < 0x1_0000,
        Net::Split(_, x) => x.len() < 2048,
        Net::User(k, x) => 0 <= k < 256 && x.len() < if r.wide {
            4096int
        } else {
            2048
        },
        Net::Entity(_, _, x) => x.len() < 2048,
        Net::Event(id, vs) => {
            &&& 0 <= id < 512
            &&& r.schemas.dom().contains(id as u16)
            &&& told_for(r.schemas[id as u16].fields, vs)
            &&& 9 + all_told_bits(vs, 0).len() < 2048
        },
        Net::Entities(_, _, _, _, _, x) => x.len() < 0x10_0000,
        Net::Temporary(_, _, x) => x.len() < 0x2_0000,
        Net::Menu(_, s) => s.len() < 0x1_0000,
        Net::List(_, x) => x.len() < 0x10_0000,
        Net::Cvar(_, s) => text_fits(s, 256),
        Net::KeyValues(s) => s.len() < 0x2000_0000,
        Net::Paint(x) => x.len() < 0x1_0000_0000,
        _ => true,
    }
}

/// A message as it is written.
pub open spec fn net_bits(m: Net, remap: bool, wide: bool) -> Seq<bool> {
    bits_of(number_of(m, remap), 6) + body_bits(m, wide)
}

proof fn lemma_skip(c: Cursor, x: Seq<bool>, rest: Seq<bool>)
    requires
        c.holds(x + rest),
    ensures
        past_bits(Some(c), x.len() as int) == Some(c.past(x)),
        c.past(x).holds(rest),
{
    c.lemma_holds(x, rest);
    reveal(Cursor::holds);
}

/// Past what a length says, in `unit`s of bits.
proof fn lemma_sized(c: Cursor, v: int, n: nat, unit: int, x: Seq<bool>, rest: Seq<bool>)
    requires
        0 <= v < pow2(n),
        x.len() == v * unit,
        c.holds((bits_of(v, n) + x) + rest),
    ensures
        past_sized(Some(c), n, unit) == Some(c.past(bits_of(v, n) + x)),
        c.past(bits_of(v, n) + x).holds(rest),
{
    lemma_bits_len(v, n);
    assert((bits_of(v, n) + x) + rest =~= bits_of(v, n) + (x + rest));
    c.lemma_number(v, n, x + rest);
    lemma_skip(c.adv(n as int), x, rest);
    assert(c.adv(n as int).past(x) == c.past(bits_of(v, n) + x));
}

proof fn lemma_text(c: Cursor, s: Seq<u8>, max: nat, rest: Seq<bool>)
    requires
        text_fits(s, max as int),
        c.holds(bits_of_text(s) + rest),
    ensures
        past_text(Some(c), max) == Some(c.past(bits_of_text(s))),
        c.past(bits_of_text(s)).holds(rest),
{
    c.law_text_reads(s, max, rest);
}

proof fn lemma_vars(c: Cursor, vs: Seq<(Seq<u8>, Seq<u8>)>, i: int, rest: Seq<bool>)
    requires
        vars_fit(vs),
        0 <= i <= vs.len(),
        c.holds(vars_bits(vs, i) + rest),
    ensures
        past_texts(Some(c), 256, 2 * (vs.len() - i)) == Some(c.past(vars_bits(vs, i))),
        c.past(vars_bits(vs, i)).holds(rest),
    decreases vs.len() - i,
{
    let all = vars_bits(vs, i);
    if i == vs.len() {
        assert(all + rest =~= rest);
        assert(c.past(all) == c);
    } else {
        let (a, b, e) = (bits_of_text(vs[i].0), bits_of_text(vs[i].1), vars_bits(vs, i + 1));
        assert(all + rest =~= a + (b + (e + rest)));
        lemma_text(c, vs[i].0, 256, b + (e + rest));
        lemma_text(c.past(a), vs[i].1, 256, e + rest);
        lemma_vars(c.past(a).past(b), vs, i + 1, rest);
        assert(c.past(a).past(b).past(e) == c.past(all));
        let n = 2 * (vs.len() - i);
        assert(past_texts(Some(c), 256, n) == past_texts(Some(c.past(a)), 256, n - 1));
        assert(past_texts(Some(c.past(a)), 256, n - 1) == past_texts(
            Some(c.past(a).past(b)),
            256,
            n - 2,
        ));
    }
}

/// The lengths of what has a fixed one.
#[verifier::rlimit(50)]
proof fn lemma_fixed_len(m: Net, wide: bool)
    ensures
        m is Nop ==> body_bits(m, wide).len() == 0,
        m is ScreenUser ==> body_bits(m, wide).len() == 1,
        m is Tick ==> body_bits(m, wide).len() == 64,
        m is Signon ==> body_bits(m, wide).len() == 40,
        m is Pause ==> body_bits(m, wide).len() == 1,
        m is View ==> body_bits(m, wide).len() == 11,
        m is Angle ==> body_bits(m, wide).len() == 49,
        m is Crosshair ==> body_bits(m, wide).len() == 48,
        m is Prefetch ==> body_bits(m, wide).len() == 14,
{
    reveal(body_bits);
    match m {
        Net::Tick(t, a, b) => {
            lemma_bits_len(t, 32);
            lemma_bits_len(a, 16);
            lemma_bits_len(b, 16);
        },
        Net::Signon(a, b) => {
            lemma_bits_len(a, 8);
            lemma_bits_len(b, 32);
        },
        Net::View(e) => lemma_bits_len(e, 11),
        Net::Angle(_, a, b, c) => {
            lemma_bits_len(a, 16);
            lemma_bits_len(b, 16);
            lemma_bits_len(c, 16);
        },
        Net::Crosshair(a, b, c) => {
            lemma_bits_len(a, 16);
            lemma_bits_len(b, 16);
            lemma_bits_len(c, 16);
        },
        Net::Prefetch(_, i) => lemma_bits_len(i, 13),
        _ => {},
    }
}

/// Messages of a fixed length, and those that are a text.
#[verifier::rlimit(50)]
proof fn lemma_plain_fixed(m: Net, r: Reading, c: Cursor, rest: Seq<bool>)
    requires
        net_fits(m, r),
        m is Nop || m is ScreenUser || m is Tick || m is Signon || m is Pause || m is View || m is Angle
            || m is Crosshair || m is Prefetch || m is Command || m is Print || m is Vars,
        c.holds(body_bits(m, r.wide) + rest),
    ensures
        is_plain(canonical(number_of(m, r.remap) as u32, r.remap)),
        plain_end(c, canonical(number_of(m, r.remap) as u32, r.remap), r.newer) == Some(
            c.past(body_bits(m, r.wide)),
        ),
        c.past(body_bits(m, r.wide)).holds(rest),
{
    lemma2_to64();
    lemma_fixed_len(m, r.wide);
    reveal(net_fits);
    let b = body_bits(m, r.wide);
    lemma_skip(c, b, rest);
    match m {
        Net::Command(s) => {
            reveal(body_bits);
            lemma_text(c, s, 512, rest);
        },
        Net::Print(s) => {
            reveal(body_bits);
            lemma_text(c, s, 2048, rest);
        },
        Net::Vars(vs) => {
            reveal(body_bits);
            let n = vs.len() as int;
            lemma_bits_len(n, 8);
            assert(b + rest =~= bits_of(n, 8) + (vars_bits(vs, 0) + rest));
            c.lemma_number(n, 8, vars_bits(vs, 0) + rest);
            lemma_vars(c.adv(8), vs, 0, rest);
            assert(c.adv(8).past(vars_bits(vs, 0)) == c.past(b));
        },
        _ => {},
    }
}

/// Messages that say how long they are.
#[verifier::spinoff_prover]
#[verifier::rlimit(60)]
proof fn lemma_plain_sized(m: Net, r: Reading, c: Cursor, rest: Seq<bool>)
    requires
        net_fits(m, r),
        m is Voice || m is SureSounds || m is Sounds || m is Split || m is Entity || m is Temporary
            || m is List || m is Paint,
        c.holds(body_bits(m, r.wide) + rest),
    ensures
        is_plain(canonical(number_of(m, r.remap) as u32, r.remap)),
        plain_end(c, canonical(number_of(m, r.remap) as u32, r.remap), r.newer) == Some(
            c.past(body_bits(m, r.wide)),
        ),
        c.past(body_bits(m, r.wide)).holds(rest),
{
    lemma2_to64();
    lemma_pow2_adds(8, 3);
    lemma_pow2_adds(16, 1);
    lemma_pow2_adds(16, 4);
    reveal(net_fits);
    reveal(body_bits);
    let b = body_bits(m, r.wide);
    match m {
        Net::Voice(p, q, x) => {
            let h = bits_of(p, 8) + bits_of(q, 8);
            lemma_bits_len(p, 8);
            lemma_bits_len(q, 8);
            let l = bits_of(x.len() as int, 16);
            assert(b + rest =~= h + ((l + x) + rest));
            lemma_skip(c, h, (l + x) + rest);
            lemma_sized(c.past(h), x.len() as int, 16, 1, x, rest);
            assert(c.past(h).past(l + x) == c.past(b));
        },
        Net::SureSounds(x) => {
            let l = bits_of(x.len() as int, 8);
            assert(b + rest =~= flag(true) + ((l + x) + rest));
            c.lemma_flag(true, (l + x) + rest);
            lemma_sized(c.adv(1), x.len() as int, 8, 1, x, rest);
            assert(c.adv(1).past(l + x) == c.past(b));
        },
        Net::Sounds(n, x) => {
            let h = bits_of(n, 8);
            lemma_bits_len(n, 8);
            let l = bits_of(x.len() as int, 16);
            assert(b + rest =~= flag(false) + (h + ((l + x) + rest)));
            c.lemma_flag(false, h + ((l + x) + rest));
            lemma_skip(c.adv(1), h, (l + x) + rest);
            lemma_sized(c.adv(1).past(h), x.len() as int, 16, 1, x, rest);
            assert(c.adv(1).past(h).past(l + x) == c.past(b));
        },
        Net::Split(k, x) => {
            let l = bits_of(x.len() as int, 11);
            assert(b + rest =~= flag(k) + ((l + x) + rest));
            lemma_skip(c, flag(k), (l + x) + rest);
            lemma_sized(c.adv(1), x.len() as int, 11, 1, x, rest);
            assert(c.adv(1).past(l + x) == c.past(b));
        },
        Net::Entity(p, q, x) => {
            let h = bits_of(p, 11) + bits_of(q, 9);
            lemma_bits_len(p, 11);
            lemma_bits_len(q, 9);
            let l = bits_of(x.len() as int, 11);
            assert(b + rest =~= h + ((l + x) + rest));
            lemma_skip(c, h, (l + x) + rest);
            lemma_sized(c.past(h), x.len() as int, 11, 1, x, rest);
            assert(c.past(h).past(l + x) == c.past(b));
        },
        Net::Temporary(p, q, x) => {
            let h = flag(p) + bits_of(q, 8);
            lemma_bits_len(q, 8);
            let l = bits_of(x.len() as int, 17);
            assert(b + rest =~= h + ((l + x) + rest));
            lemma_skip(c, h, (l + x) + rest);
            lemma_sized(c.past(h), x.len() as int, 17, 1, x, rest);
            assert(c.past(h).past(l + x) == c.past(b));
        },
        Net::List(n, x) => {
            let h = bits_of(n, 9);
            lemma_bits_len(n, 9);
            let l = bits_of(x.len() as int, 20);
            assert(b + rest =~= h + ((l + x) + rest));
            lemma_skip(c, h, (l + x) + rest);
            lemma_sized(c.past(h), x.len() as int, 20, 1, x, rest);
            assert(c.past(h).past(l + x) == c.past(b));
        },
        Net::Paint(x) => {
            lemma_sized(c, x.len() as int, 32, 1, x, rest);
        },
        _ => {},
    }
}

#[verifier::rlimit(50)]
proof fn lemma_info(
    x: Seq<bool>,
    s1: Seq<u8>,
    s2: Seq<u8>,
    s3: Seq<u8>,
    s4: Seq<u8>,
    e: bool,
    c: Cursor,
    rest: Seq<bool>,
)
    requires
        text_fits(s1, 260) && text_fits(s2, 260) && text_fits(s3, 260) && text_fits(s4, 260),
        c.holds(
            (x + (bits_of_text(s1) + (bits_of_text(s2) + (bits_of_text(s3) + (bits_of_text(s4) + flag(
                e,
            )))))) + rest,
        ),
    ensures
        ({
            let b = x + (bits_of_text(s1) + (bits_of_text(s2) + (bits_of_text(s3) + (bits_of_text(s4)
                + flag(e)))));
            &&& past_bits(past_texts(past_bits(Some(c), x.len() as int), 260, 4), 1) == Some(c.past(b))
            &&& c.past(b).holds(rest)
        }),
{
    let (t1, t2, t3, t4) = (bits_of_text(s1), bits_of_text(s2), bits_of_text(s3), bits_of_text(s4));
    let b4 = t4 + flag(e);
    let b3 = t3 + b4;
    let b2 = t2 + b3;
    let b1 = t1 + b2;
    let b = x + b1;
    let r5 = flag(e) + rest;
    assert((x + b1) + rest =~= x + (b1 + rest));
    lemma_skip(c, x, b1 + rest);
    let c1 = c.past(x);
    assert((t1 + b2) + rest =~= t1 + (b2 + rest));
    lemma_text(c1, s1, 260, b2 + rest);
    let c2 = c1.past(t1);
    assert((t2 + b3) + rest =~= t2 + (b3 + rest));
    lemma_text(c2, s2, 260, b3 + rest);
    let c3 = c2.past(t2);
    assert((t3 + b4) + rest =~= t3 + (b4 + rest));
    lemma_text(c3, s3, 260, b4 + rest);
    let c4 = c3.past(t3);
    assert((t4 + flag(e)) + rest =~= t4 + r5);
    lemma_text(c4, s4, 260, r5);
    let c5 = c4.past(t4);
    lemma_skip(c5, flag(e), rest);
    assert(c5.past(flag(e)) == c.past(b));
    assert(past_texts(Some(c1), 260, 4) == past_texts(Some(c2), 260, 3));
    assert(past_texts(Some(c2), 260, 3) == past_texts(Some(c3), 260, 2));
    assert(past_texts(Some(c3), 260, 2) == past_texts(Some(c4), 260, 1));
    assert(past_texts(Some(c4), 260, 1) == past_texts(Some(c5), 260, 0));
}

/// Messages that have texts or bytes in them.
#[verifier::spinoff_prover]
#[verifier::rlimit(100)]
proof fn lemma_plain_texts(m: Net, r: Reading, c: Cursor, rest: Seq<bool>)
    requires
        net_fits(m, r),
        m is Info || m is VoiceInit || m is Menu || m is Cvar || m is KeyValues,
        c.holds(body_bits(m, r.wide) + rest),
    ensures
        is_plain(canonical(number_of(m, r.remap) as u32, r.remap)),
        plain_end(c, canonical(number_of(m, r.remap) as u32, r.remap), r.newer) == Some(
            c.past(body_bits(m, r.wide)),
        ),
        c.past(body_bits(m, r.wide)).holds(rest),
{
    lemma2_to64();
    reveal(net_fits);
    reveal(body_bits);
    let b = body_bits(m, r.wide);
    match m {
        Net::Info(x, s1, s2, s3, s4, e) => {
            lemma_info(x, s1, s2, s3, s4, e, c, rest);
        },
        Net::VoiceInit(s, q) => {
            let (t, h) = (bits_of_text(s), bits_of(q, 8));
            lemma_bits_len(q, 8);
            assert(b + rest =~= t + (h + rest));
            lemma_text(c, s, 256, h + rest);
            lemma_skip(c.past(t), h, rest);
            assert(c.past(t).past(h) == c.past(b));
        },
        Net::Menu(k, s) => {
            let (h, l, x) = (bits_of(k, 16), bits_of(s.len() as int, 16), bits_of_bytes(s));
            lemma_bits_len(k, 16);
            lemma_bytes_len(s);
            assert(b + rest =~= h + ((l + x) + rest));
            lemma_skip(c, h, (l + x) + rest);
            lemma_sized(c.past(h), s.len() as int, 16, 8, x, rest);
            assert(c.past(h).past(l + x) == c.past(b));
        },
        Net::Cvar(k, s) => {
            let (h, t) = (bits_of(k, 32), bits_of_text(s));
            lemma_bits_len(k, 32);
            assert(b + rest =~= h + (t + rest));
            lemma_skip(c, h, t + rest);
            lemma_text(c.past(h), s, 256, rest);
            assert(c.past(h).past(t) == c.past(b));
        },
        Net::KeyValues(s) => {
            let (l, x) = (bits_of(s.len() as int, 32), bits_of_bytes(s));
            lemma_bits_len(s.len() as int, 32);
            lemma_bytes_len(s);
            assert(b + rest =~= l + (x + rest));
            c.lemma_number(s.len() as int, 32, x + rest);
            lemma_skip(c.adv(32), x, rest);
            assert(c.adv(32).past(x) == c.past(b));
        },
        _ => {},
    }
}

#[verifier::rlimit(50)]
proof fn lemma_table(m: Net, r: Reading, c: Cursor, rest: Seq<bool>)
    requires
        net_fits(m, r),
        m is Table,
        c.holds(body_bits(m, r.wide) + rest),
    ensures
        past_table(c) == Some(c.past(body_bits(m, r.wide))),
        c.past(body_bits(m, r.wide)).holds(rest),
{
    lemma2_to64();
    lemma_pow2_adds(16, 4);
    reveal(net_fits);
    reveal(body_bits);
    let b = body_bits(m, r.wide);
    if let Net::Table(t, n, x) = m {
        let (h, l) = (bits_of(t, 5), bits_of(x.len() as int, 20));
        lemma_bits_len(t, 5);
        match n {
            Some(k) => {
                let q = bits_of(k, 16);
                lemma_bits_len(k, 16);
                assert(b + rest =~= h + (flag(true) + (q + ((l + x) + rest))));
                lemma_skip(c, h, flag(true) + (q + ((l + x) + rest)));
                c.past(h).lemma_flag(true, q + ((l + x) + rest));
                lemma_skip(c.past(h).adv(1), q, (l + x) + rest);
                lemma_sized(c.past(h).adv(1).past(q), x.len() as int, 20, 1, x, rest);
                assert(c.past(h).adv(1).past(q).past(l + x) == c.past(b));
            },
            None => {
                assert(b + rest =~= h + (flag(false) + ((l + x) + rest)));
                lemma_skip(c, h, flag(false) + ((l + x) + rest));
                c.past(h).lemma_flag(false, (l + x) + rest);
                lemma_sized(c.past(h).adv(1), x.len() as int, 20, 1, x, rest);
                assert(c.past(h).adv(1).past(l + x) == c.past(b));
            },
        }
    }
}

#[verifier::rlimit(50)]
proof fn lemma_entities(m: Net, r: Reading, c: Cursor, rest: Seq<bool>)
    requires
        net_fits(m, r),
        m is Entities,
        c.holds(body_bits(m, r.wide) + rest),
    ensures
        past_entities(c) == Some(c.past(body_bits(m, r.wide))),
        c.past(body_bits(m, r.wide)).holds(rest),
{
    lemma2_to64();
    lemma_pow2_adds(16, 4);
    reveal(net_fits);
    reveal(body_bits);
    let b = body_bits(m, r.wide);
    if let Net::Entities(most, from, base, n, new, x) = m {
        let (h, k, l) = (bits_of(most, 11), bits_of(n, 11), bits_of(x.len() as int, 20));
        lemma_bits_len(most, 11);
        lemma_bits_len(n, 11);
        lemma_bits_len(x.len() as int, 20);
        let tail = flag(base) + (k + (l + (flag(new) + (x + rest))));
        let c2 = match from {
            Some(t) => {
                let q = bits_of(t, 32);
                lemma_bits_len(t, 32);
                assert(b + rest =~= h + (flag(true) + (q + tail)));
                lemma_skip(c, h, flag(true) + (q + tail));
                c.past(h).lemma_flag(true, q + tail);
                lemma_skip(c.past(h).adv(1), q, tail);
                c.past(h).adv(1).past(q)
            },
            None => {
                assert(b + rest =~= h + (flag(false) + tail));
                lemma_skip(c, h, flag(false) + tail);
                c.past(h).lemma_flag(false, tail);
                c.past(h).adv(1)
            },
        };
        lemma_skip(c2, flag(base), k + (l + (flag(new) + (x + rest))));
        let c3 = c2.past(flag(base));
        lemma_skip(c3, k, l + (flag(new) + (x + rest)));
        let c4 = c3.past(k);
        c4.lemma_number(x.len() as int, 20, flag(new) + (x + rest));
        let c5 = c4.adv(20);
        lemma_skip(c5, flag(new), x + rest);
        lemma_skip(c5.past(flag(new)), x, rest);
        assert(c5.past(flag(new)).past(x) == c.past(b));
    }
}

/// The event of a message: of one of the game, if it is shown; a message to the user may
/// be a line of chat.
pub open spec fn net_event(m: Net, r: Reading, c: Cursor) -> Option<EventOf> {
    match m {
        Net::Event(id, vs) => if r.shown.contains(r.schemas[id as u16].name) {
            Some(
                EventOf {
                    event: r.schemas[id as u16].name,
                    tick: r.tick,
                    fields: all_told(r.schemas[id as u16].fields, vs, 0),
                },
            )
        } else {
            None
        },
        Net::User(k, x) => if (k == 3 || k == 4) && x.len() >= 16 {
            shown_only(
                crate::source::events::chat_at(
                    c.adv(
                        14 + if r.wide {
                            12int
                        } else {
                            11
                        },
                    ),
                    r.tick,
                ),
                r.shown,
            )
        } else {
            None
        },
        _ => None,
    }
}

proof fn lemma_user(kind: int, x: Seq<bool>, r: Reading, c: Cursor, rest: Seq<bool>)
    requires
        net_fits(Net::User(kind, x), r),
        c.holds(body_bits(Net::User(kind, x), r.wide) + rest),
    ensures
        user_message(c, r) == Some(
            (
                c.past(body_bits(Net::User(kind, x), r.wide)),
                net_event(Net::User(kind, x), r, c.adv(-6)),
            ),
        ),
        c.past(body_bits(Net::User(kind, x), r.wide)).holds(rest),
{
    lemma2_to64();
    lemma_pow2_adds(8, 3);
    lemma_pow2_adds(8, 4);
    reveal(net_fits);
    reveal(body_bits);
    let b = body_bits(Net::User(kind, x), r.wide);
    let w: nat = if r.wide {
        12
    } else {
        11
    };
    let l = bits_of(x.len() as int, w);
    lemma_bits_len(kind, 8);
    lemma_bits_len(x.len() as int, w);
    assert(b + rest =~= bits_of(kind, 8) + (l + (x + rest)));
    c.lemma_number(kind, 8, l + (x + rest));
    c.adv(8).lemma_number(x.len() as int, w, x + rest);
    let c3 = c.adv(8).adv(w as int);
    lemma_skip(c3, x, rest);
    assert(c3.past(x) == c.past(b));
}

/// A message that was written is read to its end, whichever it is: the next one is read
/// right behind it.
#[verifier::spinoff_prover]
#[verifier::rlimit(60)]
pub proof fn law_message_round_trip(m: Net, r: Reading, c: Cursor, rest: Seq<bool>)
    requires
        net_fits(m, r),
        c.holds(net_bits(m, r.remap, r.wide) + rest),
    ensures
        message_at(c, r) == Some((c.past(net_bits(m, r.remap, r.wide)), net_event(m, r, c))),
        c.past(net_bits(m, r.remap, r.wide)).holds(rest),
        net_bits(m, r.remap, r.wide).len() > 0,
{
    lemma2_to64();
    lemma_pow2_adds(8, 3);
    lemma_pow2_adds(8, 4);
    let k = number_of(m, r.remap);
    let b = body_bits(m, r.wide);
    let all = net_bits(m, r.remap, r.wide);
    lemma_bits_len(k, 6);
    assert(all + rest =~= bits_of(k, 6) + (b + rest));
    c.lemma_number(k, 6, b + rest);
    let c1 = c.adv(6);
    assert(c1.past(b) == c.past(all));
    assert(c1.adv(-6) == c);
    match m {
        Net::Nop | Net::ScreenUser(_) | Net::Tick(_, _, _) | Net::Signon(_, _) | Net::Pause(_)
        | Net::View(_) | Net::Angle(_, _, _, _) | Net::Crosshair(_, _, _) | Net::Prefetch(_, _)
        | Net::Command(_) | Net::Print(_) | Net::Vars(_) => lemma_plain_fixed(m, r, c1, rest),
        Net::Voice(_, _, _) | Net::SureSounds(_) | Net::Sounds(_, _) | Net::Split(_, _)
        | Net::Entity(_, _, _) | Net::Temporary(_, _, _) | Net::List(_, _) | Net::Paint(_) => {
            lemma_plain_sized(m, r, c1, rest)
        },
        Net::Info(_, _, _, _, _, _) | Net::VoiceInit(_, _) | Net::Menu(_, _) | Net::Cvar(_, _)
        | Net::KeyValues(_) => lemma_plain_texts(m, r, c1, rest),
        Net::Table(_, _, _) => lemma_table(m, r, c1, rest),
        Net::Entities(_, _, _, _, _, _) => lemma_entities(m, r, c1, rest),
        Net::User(kind, x) => {
            lemma_user(kind, x, r, c1, rest);
        },
        Net::Event(id, vs) => {
            reveal(net_fits);
            reveal(body_bits);
            law_event_round_trip(id, vs, r, c, rest);
        },
    }
}

} // verus!
