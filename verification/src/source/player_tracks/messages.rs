//! Messages in the packets of a demo that only the players' tracks need: the classes,
//! new string tables, and changes to the table of players.
use crate::bits::{countable, lemma_bits_bound, lemma_cstring_onward, BitReader, Cursor};
use crate::source::csgo::stringtables::{entry_index, floor_log2, log2, merge_record, past_string,
    read_index, read_userdata, renamed, skip_string, userdata_at};
use crate::source::messages::{
    further, past_bits, past_text, past_texts, reached, skip_text, skip_texts,
};
use crate::source::stringtable::{blob_player, parse_player_info_blob, players_view, PlayerInfo,
    PlayerView};
use std::collections::HashMap;
use vstd::arithmetic::power2::lemma2_to64;
use vstd::prelude::*;

verus! {

/// How many bits the number of a class takes in the list of classes.
pub open spec fn class_bits(n: int) -> int {
    if n <= 2 {
        1
    } else {
        floor_log2(n - 1) + 1
    }
}

pub(crate) fn bits_for(n: u32) -> (r: u32)
    ensures
        r == class_bits(n as int),
        r <= 32,
{
    if n <= 2 {
        1
    } else {
        log2(n - 1) + 1
    }
}

/// Past `n` classes: for each its number and two names.
pub open spec fn past_classes(o: Option<Cursor>, bits: int, n: int) -> Option<Cursor>
    decreases n,
{
    if n <= 0 {
        o
    } else {
        past_classes(past_texts(past_bits(o, bits), 256, 2), bits, n - 1)
    }
}

/// Past the list of classes, which the players may make themselves.
pub open spec fn class_info(c: Cursor, classes: int) -> Option<Cursor> {
    match c.take(16) {
        None => None,
        Some((n, c1)) => match c1.take(1) {
            None => None,
            Some((create, c2)) => if create == 1 {
                Some(c2)
            } else {
                past_classes(Some(c2), class_bits(classes), n)
            },
        },
    }
}

proof fn lemma_past_none(bits: int, n: int)
    ensures
        past_classes(None, bits, n) is None,
        past_texts(None, 256, 2) is None,
    decreases n,
{
    reveal_with_fuel(past_texts, 3);
    if n > 0 {
        lemma_past_none(bits, n - 1);
    }
}

pub(crate) fn skip_class_info(br: &mut BitReader, classes: u32) -> (ok: bool)
    requires
        old(br).wf(),
    ensures
        final(br).wf(),
        reached(ok, final(br)@, class_info(old(br)@, classes as int)),
{
    let n: u32 = match br.read_bits(16) {
        Some(v) => v,
        None => {
            return false;
        },
    };
    match br.read_bool() {
        None => {
            return false;
        },
        Some(true) => {
            return true;
        },
        Some(false) => {},
    }
    let bits: u32 = bits_for(classes);
    let ghost c2 = br@;
    let mut i: u32 = 0;
    while i < n
        invariant
            br.wf(),
            i <= n,
            past_classes(Some(c2), bits as int, n as int) == past_classes(
                Some(br@),
                bits as int,
                n - i,
            ),
            class_info(old(br)@, classes as int) == past_classes(Some(c2), bits as int, n as int),
        decreases n - i,
    {
        proof {
            lemma_past_none(bits as int, n - i - 1);
        }
        if !br.skip(bits) || !skip_texts(br, 256, 2) {
            return false;
        }
        i += 1;
    }
    true
}

/// Past `n` more bits where the next one says so.
pub open spec fn past_optional(c: Cursor, n: int) -> Option<Cursor> {
    match c.take(1) {
        None => None,
        Some((there, e)) => if there == 1 {
            past_bits(Some(e), n)
        } else {
            Some(e)
        },
    }
}

/// Past a mark before a name, if there is one.
pub open spec fn past_mark(c: Cursor) -> Option<Cursor> {
    match c.take(8) {
        None => None,
        Some((b, e)) => if b == 0x3a {
            Some(e)
        } else {
            Some(c)
        },
    }
}

/// The length of a new table: a number in groups of seven bits, or 20 bits.
pub open spec fn table_length(c: Cursor, grouped: bool) -> Option<(int, Cursor)> {
    if grouped {
        match c.var_u32(0) {
            Some((v, e)) => Some((v % 0x1_0000_0000, e)),
            None => None,
        }
    } else {
        c.take(20)
    }
}

/// Past a new string table: its name, how many entries it may have and has, its
/// length, the size of its data where that is fixed and, where tables can be
/// compressed, whether it is.
pub open spec fn new_table(c: Cursor, compressible: bool) -> Option<Cursor> {
    match past_text(
        if compressible {
            past_mark(c)
        } else {
            Some(c)
        },
        256,
    ) {
        None => None,
        Some(c1) => match c1.take(16) {
            None => None,
            Some((most, c2)) => match past_bits(Some(c2), floor_log2(most) + 1) {
                None => None,
                Some(c3) => match table_length(c3, compressible) {
                    None => None,
                    Some((length, c4)) => past_bits(
                        if compressible {
                            past_bits(past_optional(c4, 16), 1)
                        } else {
                            past_optional(c4, 16)
                        },
                        length,
                    ),
                },
            },
        },
    }
}

fn skip_optional(br: &mut BitReader, n: u32) -> (ok: bool)
    requires
        old(br).wf(),
    ensures
        final(br).wf(),
        reached(ok, final(br)@, past_optional(old(br)@, n as int)),
{
    proof {
        lemma2_to64();
    }
    match br.read_bits(1) {
        None => false,
        Some(there) => there != 1 || br.skip(n),
    }
}

fn skip_mark(br: &mut BitReader) -> (ok: bool)
    requires
        old(br).wf(),
    ensures
        final(br).wf(),
        reached(ok, final(br)@, past_mark(old(br)@)),
{
    let save: u64 = br.bit_pos();
    match br.read_bits(8) {
        None => false,
        Some(b) => {
            if b != 0x3a {
                br.set_bit_pos(save);
            }
            true
        },
    }
}

fn read_length(br: &mut BitReader, grouped: bool) -> (r: Option<u32>)
    requires
        old(br).wf(),
    ensures
        final(br).wf(),
        match (r, table_length(old(br)@, grouped)) {
            (Some(v), Some((n, e))) => v == n && final(br)@ == e,
            (None, None) => true,
            _ => false,
        },
{
    if grouped {
        br.read_var_u32()
    } else {
        br.read_bits(20)
    }
}

pub(crate) fn skip_new_table(br: &mut BitReader, compressible: bool) -> (ok: bool)
    requires
        old(br).wf(),
    ensures
        final(br).wf(),
        reached(ok, final(br)@, new_table(old(br)@, compressible)),
{
    proof {
        lemma2_to64();
    }
    if compressible && !skip_mark(br) {
        return false;
    }
    if !skip_text(br, 256) {
        return false;
    }
    let most: u32 = match br.read_bits(16) {
        Some(v) => v,
        None => {
            return false;
        },
    };
    let bits: u32 = log2(most) + 1;
    if !br.skip(bits) {
        return false;
    }
    let length: u32 = match read_length(br, compressible) {
        Some(v) => v,
        None => {
            return false;
        },
    };
    if !skip_optional(br, 16) {
        return false;
    }
    if compressible && !br.skip(1) {
        return false;
    }
    br.skip(length)
}

/// An entry of a change to the table of players: its number, the players after it,
/// and what follows it.
#[verifier::opaque]
pub open spec fn slot_at(c: Cursor, last: int, names: Map<u32, PlayerView>) -> Option<
    (int, Map<u32, PlayerView>, Cursor),
> {
    match entry_index(c, last, 8) {
        None => None,
        Some((index, c1)) => match past_string(c1) {
            None => None,
            Some(c2) => match userdata_at(c2, false, 0) {
                None => None,
                Some((None, e)) => Some((index, names, e)),
                Some((Some(b), e)) => match blob_player(b) {
                    None => Some((index, names, e)),
                    Some(p) => {
                        let id = ((index + 1) % 0x1_0000_0000) as u32;
                        Some((index, names.insert(id, renamed(names, id, p)), e))
                    },
                },
            },
        },
    }
}

/// The players after `n` more entries, each of which must start before `stop`.
pub open spec fn slots_from(
    c: Cursor,
    stop: int,
    n: int,
    last: int,
    names: Map<u32, PlayerView>,
) -> Map<u32, PlayerView>
    decreases n,
{
    if n <= 0 || c.pos >= stop {
        names
    } else {
        match slot_at(c, last, names) {
            None => names,
            Some((index, after, e)) => slots_from(e, stop, n - 1, index, after),
        }
    }
}

fn read_slot(br: &mut BitReader, last: u32, names: &mut HashMap<u32, PlayerInfo>) -> (r: Option<u32>)
    requires
        old(br).wf(),
    ensures
        final(br).wf(),
        match (r, slot_at(old(br)@, last as int, players_view(old(names)@))) {
            (Some(v), Some((index, after, e))) => v == index && players_view(final(names)@) == after
                && final(br)@ == e,
            (None, None) => final(names)@ == old(names)@,
            _ => false,
        },
{
    reveal(slot_at);
    let index: u32 = match read_index(br, last, 8) {
        Some(v) => v,
        None => {
            return None;
        },
    };
    if !skip_string(br) {
        return None;
    }
    match read_userdata(br, false, 0) {
        None => {
            return None;
        },
        Some(None) => {},
        Some(Some(b)) => match parse_player_info_blob(b.as_slice()) {
            None => {},
            Some(p) => {
                merge_record(names, index.wrapping_add(1), p);
            },
        },
    }
    Some(index)
}

/// Applies a change to the table of players from bit `start` on.
fn apply_userinfo_update(
    payload: &[u8],
    start: u64,
    stop: u64,
    num_changed: u32,
    names: &mut HashMap<u32, PlayerInfo>,
)
    requires
        countable(payload@),
    ensures
        players_view(final(names)@) == slots_from(
            Cursor { d: payload@, pos: start as int, end: 8 * payload@.len() as int },
            stop as int,
            num_changed as int,
            0xffff_ffff,
            players_view(old(names)@),
        ),
{
    let mut br = BitReader::new_at(payload, start);
    let ghost goal = slots_from(
        br@,
        stop as int,
        num_changed as int,
        0xffff_ffff,
        players_view(names@),
    );
    let mut last: u32 = 0xffff_ffff;
    let mut i: u32 = 0;
    while i < num_changed
        invariant
            br.wf(),
            i <= num_changed,
            goal == slots_from(
                br@,
                stop as int,
                num_changed - i,
                last as int,
                players_view(names@),
            ),
            goal == slots_from(
                Cursor { d: payload@, pos: start as int, end: 8 * payload@.len() as int },
                stop as int,
                num_changed as int,
                0xffff_ffff,
                players_view(old(names)@),
            ),
        decreases num_changed - i,
    {
        if br.bit_pos() >= stop {
            return;
        }
        let index: u32 = match read_slot(&mut br, last, names) {
            Some(v) => v,
            None => {
                return;
            },
        };
        last = index;
        i += 1;
    }
}

/// The head of a change to a string table: its number, how many entries change, how
/// many bits they take, and where they start.
pub open spec fn change_head(c: Cursor) -> Option<(int, int, int, Cursor)> {
    match c.take(5) {
        None => None,
        Some((id, c1)) => match c1.take(1) {
            None => None,
            Some((several, c2)) => match if several == 1 {
                c2.take(16)
            } else {
                Some((1, c2))
            } {
                None => None,
                Some((count, c3)) => match c3.take(20) {
                    None => None,
                    Some((length, c4)) => Some((id, count, length, c4)),
                },
            },
        },
    }
}

/// The players after a change to a string table, which is theirs where it has their
/// number, and what follows it, if it can be read.
pub open spec fn table_change(
    c: Cursor,
    names: Map<u32, PlayerView>,
    userinfo: Option<usize>,
) -> (Map<u32, PlayerView>, Option<Cursor>) {
    match change_head(c) {
        None => (names, None),
        Some((id, count, length, e)) => (
            if userinfo == Some(id as usize) {
                slots_from(e, e.pos + length, count, 0xffff_ffff, names)
            } else {
                names
            },
            past_bits(Some(e), length),
        ),
    }
}

pub(crate) fn read_table_change(
    payload: &[u8],
    br: &mut BitReader,
    userinfo: Option<usize>,
    names: &mut HashMap<u32, PlayerInfo>,
) -> (ok: bool)
    requires
        old(br).wf(),
        countable(payload@),
        old(br)@.d == payload@,
        old(br)@.end == 8 * payload@.len(),
    ensures
        final(br).wf(),
        players_view(final(names)@) == table_change(
            old(br)@,
            players_view(old(names)@),
            userinfo,
        ).0,
        reached(
            ok,
            final(br)@,
            table_change(old(br)@, players_view(old(names)@), userinfo).1,
        ),
{
    proof {
        lemma2_to64();
        br.lemma_wf();
    }
    let id: u32 = match br.read_bits(5) {
        Some(v) => v,
        None => {
            return false;
        },
    };
    let several: u32 = match br.read_bits(1) {
        Some(v) => v,
        None => {
            return false;
        },
    };
    let count: u32 = if several == 1 {
        match br.read_bits(16) {
            Some(v) => v,
            None => {
                return false;
            },
        }
    } else {
        1
    };
    let length: u32 = match br.read_bits(20) {
        Some(v) => v,
        None => {
            return false;
        },
    };
    let mine = match userinfo {
        Some(u) => u == id as usize,
        None => false,
    };
    if mine {
        let start: u64 = br.bit_pos();
        apply_userinfo_update(payload, start, start + length as u64, count, names);
    }
    br.skip(length)
}

proof fn lemma_classes_onward(o: Option<Cursor>, bits: int, n: int)
    requires
        bits >= 0,
    ensures
        (o is Some && past_classes(o, bits, n) is Some) ==> further(
            o->0,
            past_classes(o, bits, n)->0,
        ),
    decreases n,
{
    if n > 0 {
        lemma_past_none(bits, n - 1);
        match past_bits(o, bits) {
            None => {},
            Some(c1) => {
                crate::source::messages::lemma_texts_onward(Some(c1), 256, 2);
                lemma_classes_onward(past_texts(Some(c1), 256, 2), bits, n - 1);
            },
        }
    }
}

proof fn lemma_log_positive(n: int)
    ensures
        floor_log2(n) >= 0,
    decreases n,
{
    if n > 1 {
        lemma_log_positive(n / 2);
    }
}

proof fn lemma_var_onward(c: Cursor, k: int)
    ensures
        c.var_u32(k) matches Some((v, e)) ==> v >= 0 && further(c, e),
    decreases 5 - k,
{
    lemma_bits_bound(c.d, c.pos, 8);
    if k < 4 && c.has(8) {
        lemma_var_onward(c.adv(8), k + 1);
    }
}

/// These messages stand in the bits that they are read from.
pub proof fn lemma_others_onward(
    c: Cursor,
    classes: int,
    compressible: bool,
    names: Map<u32, PlayerView>,
    userinfo: Option<usize>,
)
    ensures
        class_info(c, classes) is Some ==> further(c, class_info(c, classes)->0),
        new_table(c, compressible) is Some ==> further(c, new_table(c, compressible)->0),
        table_change(c, names, userinfo).1 is Some ==> further(
            c,
            table_change(c, names, userinfo).1->0,
        ),
{
    lemma_log_positive(classes - 1);
    lemma_classes_onward(Some(c.adv(17)), class_bits(classes), c.val(16));
    lemma_cstring_onward(c, 256);
    lemma_cstring_onward(c.adv(8), 256);
    match past_text(
        if compressible {
            past_mark(c)
        } else {
            Some(c)
        },
        256,
    ) {
        None => {},
        Some(c1) => match c1.take(16) {
            None => {},
            Some((most, c2)) => {
                lemma_log_positive(most);
                let c3 = c2.adv(floor_log2(most) + 1);
                lemma_var_onward(c3, 0);
                lemma_bits_bound(c3.d, c3.pos, 20);
            },
        },
    }
    match change_head(c) {
        None => {},
        Some((_, _, _, e)) => {
            lemma_bits_bound(e.d, e.pos - 20, 20);
        },
    }
}

} // verus!
