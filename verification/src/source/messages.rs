//! The frames of the bit-packed messages between server and client.
use crate::bits::{lemma_bits_bound, BitReader, Cursor};
use vstd::arithmetic::power2::lemma2_to64;
use vstd::prelude::*;

verus! {

/// The number under which the message of a second player on one screen goes.
pub const SPLIT_SCREEN_USER: u32 = 64;

/// The number of a message in the older games. Newer ones put the message of a
/// second player at 3, moved the four behind it up by one, and printed text to 16.
pub open spec fn canonical(raw: u32, remap: bool) -> u32 {
    if !remap {
        raw
    } else if raw == 3 {
        SPLIT_SCREEN_USER
    } else if 4 <= raw <= 7 {
        (raw - 1) as u32
    } else if raw == 16 {
        7
    } else {
        raw
    }
}

pub(crate) fn canonical_id(raw: u32, remap: bool) -> (r: u32)
    ensures
        r == canonical(raw, remap),
{
    if !remap {
        raw
    } else if raw == 3 {
        SPLIT_SCREEN_USER
    } else if 4 <= raw && raw <= 7 {
        raw - 1
    } else if raw == 16 {
        7
    } else {
        raw
    }
}

pub open spec fn past_bits(o: Option<Cursor>, n: int) -> Option<Cursor> {
    match o {
        Some(c) => if c.has(n) {
            Some(c.adv(n))
        } else {
            None
        },
        None => None,
    }
}

pub open spec fn past_text(o: Option<Cursor>, max: nat) -> Option<Cursor> {
    match o {
        Some(c) => match c.cstring(max) {
            Some((_, e)) => Some(e),
            None => None,
        },
        None => None,
    }
}

/// Past as many units of `unit` bits as the next `n` bits say.
pub open spec fn past_sized(o: Option<Cursor>, n: nat, unit: int) -> Option<Cursor> {
    match o {
        Some(c) => match c.take(n) {
            Some((v, e)) => past_bits(Some(e), v * unit),
            None => None,
        },
        None => None,
    }
}

pub open spec fn past_texts(o: Option<Cursor>, max: nat, n: int) -> Option<Cursor>
    decreases n,
{
    if n <= 0 {
        o
    } else {
        past_texts(past_text(o, max), max, n - 1)
    }
}

/// A message of a fixed number of bits.
pub open spec fn fixed_bits(t: u32) -> Option<int> {
    match t {
        0 => Some(0),
        3 => Some(64),
        6 => Some(40),
        11 => Some(1),
        18 => Some(11),
        19 => Some(49),
        20 => Some(48),
        28 => Some(14),
        64 => Some(1),
        _ => None,
    }
}

/// Messages that are passed over: what follows one, if it can be read.
pub open spec fn plain_end(c: Cursor, t: u32, newer: bool) -> Option<Cursor> {
    let o = Some(c);
    match fixed_bits(t) {
        Some(n) => past_bits(o, n),
        None => if t == 4 {
            past_text(o, 512)
        } else if t == 5 {
            match c.take(8) {
                Some((n, e)) => past_texts(Some(e), 256, 2 * n),
                None => None,
            }
        } else if t == 7 {
            past_text(o, 2048)
        } else if t == 8 {
            past_bits(
                past_texts(
                    past_bits(
                        o,
                        if newer {
                            218
                        } else {
                            282
                        },
                    ),
                    260,
                    4,
                ),
                1,
            )
        } else if t == 14 {
            past_bits(past_text(o, 256), 8)
        } else if t == 15 {
            past_sized(past_bits(o, 16), 16, 1)
        } else if t == 17 {
            match c.take(1) {
                Some((reliable, e)) => if reliable == 1 {
                    past_sized(Some(e), 8, 1)
                } else {
                    past_sized(past_bits(Some(e), 8), 16, 1)
                },
                None => None,
            }
        } else if t == 22 {
            past_sized(past_bits(o, 1), 11, 1)
        } else if t == 24 {
            past_sized(past_bits(o, 20), 11, 1)
        } else if t == 27 {
            past_sized(past_bits(o, 9), 17, 1)
        } else if t == 29 {
            past_sized(past_bits(o, 16), 16, 8)
        } else if t == 30 {
            past_sized(past_bits(o, 9), 20, 1)
        } else if t == 31 {
            past_text(past_bits(o, 32), 256)
        } else if t == 32 {
            match c.take(32) {
                Some((n, e)) => past_bits(Some(e), (n * 8) % 0x1_0000_0000),
                None => None,
            }
        } else if t == 33 {
            past_sized(o, 32, 1)
        } else {
            None
        },
    }
}

/// Whether a message is passed over.
pub open spec fn is_plain(t: u32) -> bool {
    match t {
        0 | 3 | 4 | 5 | 6 | 7 | 8 | 11 | 14 | 15 | 17 | 18 | 19 | 20 | 22 | 24 => true,
        27 | 28 | 29 | 30 | 31 | 32 | 33 | 64 => true,
        _ => false,
    }
}

pub(crate) fn plain(t: u32) -> (r: bool)
    ensures
        r == is_plain(t),
{
    match t {
        0 | 3 | 4 | 5 | 6 | 7 | 8 | 11 | 14 | 15 | 17 | 18 | 19 | 20 | 22 | 24 => true,
        27 | 28 | 29 | 30 | 31 | 32 | 33 | 64 => true,
        _ => false,
    }
}

/// Whether a reader moved to where `o` says, if it says where.
pub open spec fn reached(ok: bool, c: Cursor, o: Option<Cursor>) -> bool {
    match o {
        Some(e) => ok && c == e,
        None => !ok,
    }
}

pub(crate) fn skip_text(br: &mut BitReader, max: usize) -> (ok: bool)
    requires
        old(br).wf(),
    ensures
        final(br).wf(),
        reached(ok, final(br)@, past_text(Some(old(br)@), max as nat)),
{
    br.read_cstring_bytes(max).is_some()
}

/// Skips as many units of `unit` bits as the next `n` bits say.
pub(crate) fn skip_sized(br: &mut BitReader, n: u32, unit: u32) -> (ok: bool)
    requires
        old(br).wf(),
        n <= 32,
        unit == 1 || (unit == 8 && n <= 16),
    ensures
        final(br).wf(),
        reached(ok, final(br)@, past_sized(Some(old(br)@), n as nat, unit as int)),
{
    match br.read_bits(n) {
        Some(v) => {
            proof {
                lemma2_to64();
                if n < 16 {
                    vstd::arithmetic::power2::lemma_pow2_strictly_increases(n as nat, 16);
                }
            }
            if unit == 1 {
                br.skip(v)
            } else {
                br.skip(v * 8)
            }
        },
        None => false,
    }
}

pub(crate) fn skip_texts(br: &mut BitReader, max: usize, n: u32) -> (ok: bool)
    requires
        old(br).wf(),
    ensures
        final(br).wf(),
        reached(ok, final(br)@, past_texts(Some(old(br)@), max as nat, n as int)),
{
    let mut i: u32 = 0;
    while i < n
        invariant
            br.wf(),
            i <= n,
            past_texts(Some(old(br)@), max as nat, n as int) == past_texts(
                Some(br@),
                max as nat,
                n - i,
            ),
        decreases n - i,
    {
        if !skip_text(br, max) {
            proof {
                lemma_texts_none(max as nat, n - i - 1);
            }
            return false;
        }
        i += 1;
    }
    true
}

proof fn lemma_texts_none(max: nat, n: int)
    ensures
        past_texts(None, max, n) is None,
    decreases n,
{
    if n > 0 {
        lemma_texts_none(max, n - 1);
    }
}

/// The reader goes on in the same bits.
pub open spec fn further(a: Cursor, b: Cursor) -> bool {
    b.d == a.d && b.end == a.end && a.pos <= b.pos
}

pub proof fn lemma_texts_onward(o: Option<Cursor>, max: nat, n: int)
    ensures
        (o is Some && past_texts(o, max, n) is Some) ==> further(o->0, past_texts(o, max, n)->0),
    decreases n,
{
    if n > 0 && o is Some {
        crate::bits::lemma_cstring_onward(o->0, max);
        lemma_texts_onward(past_text(o, max), max, n - 1);
        if past_text(o, max) is None {
            lemma_texts_none(max, n - 1);
        }
    }
}

/// A message stands in the bits that it is read from.
pub proof fn lemma_plain_onward(c: Cursor, t: u32, newer: bool)
    ensures
        plain_end(c, t, newer) is Some ==> further(c, plain_end(c, t, newer)->0),
{
    lemma2_to64();
    crate::bits::lemma_cstring_onward(c, 512);
    crate::bits::lemma_cstring_onward(c, 2048);
    crate::bits::lemma_cstring_onward(c, 256);
    crate::bits::lemma_cstring_onward(c.adv(32), 256);
    let fixed = if newer {
        218int
    } else {
        282
    };
    lemma_texts_onward(Some(c.adv(fixed)), 260, 4);
    lemma_texts_none(260, 4);
    lemma_texts_onward(Some(c.adv(8)), 256, 2 * c.val(8));
    lemma_bits_bound(c.d, c.pos, 32);
    lemma_bits_bound(c.d, c.pos + 1, 8);
    lemma_bits_bound(c.d, c.pos + 1, 11);
    lemma_bits_bound(c.d, c.pos + 9, 16);
    lemma_bits_bound(c.d, c.pos + 9, 17);
    lemma_bits_bound(c.d, c.pos + 9, 20);
    lemma_bits_bound(c.d, c.pos + 16, 16);
    lemma_bits_bound(c.d, c.pos + 20, 11);
}

fn fixed_size(t: u32) -> (r: Option<u32>)
    ensures
        match (r, fixed_bits(t)) {
            (Some(n), Some(v)) => n == v,
            (None, None) => true,
            _ => false,
        },
{
    match t {
        0 => Some(0),
        3 => Some(64),
        6 => Some(40),
        11 => Some(1),
        18 => Some(11),
        19 => Some(49),
        20 => Some(48),
        28 => Some(14),
        64 => Some(1),
        _ => None,
    }
}

/// Passes over a message.
pub(crate) fn skip_plain(br: &mut BitReader, t: u32, newer: bool) -> (ok: bool)
    requires
        old(br).wf(),
        is_plain(t),
    ensures
        final(br).wf(),
        reached(ok, final(br)@, plain_end(old(br)@, t, newer)),
{
    proof {
        lemma2_to64();
        lemma_texts_none(260, 4);
    }
    match fixed_size(t) {
        Some(n) => {
            if n == 0 {
                // Nothing to read: the reader may stand behind its end.
                return br.skip(0);
            }
            return br.skip(n);
        },
        None => {},
    }
    match t {
        4 => skip_text(br, 512),
        5 => match br.read_bits(8) {
            Some(n) => skip_texts(br, 256, 2 * n),
            None => false,
        },
        7 => skip_text(br, 2048),
        8 => {
            let n: u32 = if newer {
                218
            } else {
                282
            };
            br.skip(n) && skip_texts(br, 260, 4) && br.skip(1)
        },
        14 => skip_text(br, 256) && br.skip(8),
        15 => br.skip(16) && skip_sized(br, 16, 1),
        17 => match br.read_bits(1) {
            Some(reliable) => {
                if reliable == 1 {
                    skip_sized(br, 8, 1)
                } else {
                    br.skip(8) && skip_sized(br, 16, 1)
                }
            },
            None => false,
        },
        22 => br.skip(1) && skip_sized(br, 11, 1),
        24 => br.skip(20) && skip_sized(br, 11, 1),
        27 => br.skip(9) && skip_sized(br, 17, 1),
        29 => br.skip(16) && skip_sized(br, 16, 8),
        30 => br.skip(9) && skip_sized(br, 20, 1),
        31 => br.skip(32) && skip_text(br, 256),
        32 => match br.read_bits(32) {
            Some(n) => {
                let m: u64 = (n as u64 * 8) % 0x1_0000_0000;
                br.skip(m as u32)
            },
            None => false,
        },
        _ => skip_sized(br, 32, 1),
    }
}

} // verus!
