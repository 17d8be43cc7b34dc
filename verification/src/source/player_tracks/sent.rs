//! Messages about entities, classes and tables, as servers write them.
use super::messages::{change_head, class_bits, class_info, past_classes, table_change};
use super::payloads::{entities_head, Engine};
use crate::bits::Cursor;
use crate::source::csgo::stringtables::floor_log2;
use crate::source::messages::past_texts;
use crate::source::sent_tables::{after_changes, changes_bits, changes_fit, law_slots_round_trip};
use crate::source::stringtable::PlayerView;
use crate::written::{bits_of, bits_of_text, flag, lemma_bits_len, no_zero};
use vstd::arithmetic::power2::{lemma2_to64, lemma_pow2_adds, pow2};
use vstd::prelude::*;

verus! {

/// A joined sequence is joined from either side.
proof fn lemma_join(a: Seq<bool>, b: Seq<bool>, c: Seq<bool>)
    ensures
        (a + b) + c == a + (b + c),
{
    assert((a + b) + c =~= a + (b + c));
}

/// The head of a message of entities: the highest number, what it is a delta of, which
/// baseline is used, how many entities are told of, in how many bits, and whether there is
/// a new baseline.
pub struct EntitiesHead {
    pub most: int,
    pub from: Option<int>,
    pub baseline: bool,
    pub count: int,
    pub length: int,
    pub update: bool,
}

/// How many bits the length takes.
pub open spec fn length_width(e: Engine) -> nat {
    if e.edict_bits == 13 {
        24
    } else {
        20
    }
}

#[verifier::opaque]
pub open spec fn from_bits(from: Option<int>) -> Seq<bool> {
    match from {
        None => flag(false),
        Some(v) => flag(true) + bits_of(v, 32),
    }
}

pub open spec fn head_bits(x: EntitiesHead, e: Engine) -> Seq<bool> {
    bits_of(x.most, e.edict_bits as nat) + (from_bits(x.from) + (flag(x.baseline) + (bits_of(
        x.count,
        e.edict_bits as nat,
    ) + (bits_of(x.length, length_width(e)) + flag(x.update)))))
}

pub open spec fn head_fits(x: EntitiesHead, e: Engine) -> bool {
    &&& 0 <= x.most < pow2(e.edict_bits as nat)
    &&& 0 <= x.count < pow2(e.edict_bits as nat)
    &&& 0 <= x.length < pow2(length_width(e))
    &&& x.from matches Some(v) ==> 0 <= v < 0x1_0000_0000
}

/// The head of a message of entities that was written is read back.
#[verifier::rlimit(50)]
pub proof fn law_entities_head_round_trip(x: EntitiesHead, e: Engine, c: Cursor, rest: Seq<bool>)
    requires
        head_fits(x, e),
        c.holds(head_bits(x, e) + rest),
    ensures
        entities_head(c, e) == Some(
            (x.from is Some, x.count, x.length, c.past(head_bits(x, e))),
        ),
        c.past(head_bits(x, e)).holds(rest),
{
    lemma2_to64();
    let n = e.edict_bits as nat;
    let w = length_width(e);
    let (a, b) = (bits_of(x.most, n), from_bits(x.from));
    let (g, h) = (bits_of(x.count, n), bits_of(x.length, w));
    lemma_bits_len(x.most, n);
    lemma_bits_len(x.count, n);
    lemma_bits_len(x.length, w);
    let t4 = h + flag(x.update);
    let t3 = g + t4;
    let t2 = flag(x.baseline) + t3;
    let t1 = b + t2;
    lemma_join(a, t1, rest);
    c.lemma_number(x.most, n, t1 + rest);
    let c1 = c.adv(n as int);
    lemma_join(b, t2, rest);
    let c2 = c1.past(b);
    reveal(from_bits);
    match x.from {
        None => c1.lemma_flag(false, t2 + rest),
        Some(v) => {
            lemma_bits_len(v, 32);
            lemma_join(flag(true), bits_of(v, 32), t2 + rest);
            c1.lemma_flag(true, bits_of(v, 32) + (t2 + rest));
            c1.adv(1).lemma_number(v, 32, t2 + rest);
            assert(c1.adv(1).adv(32) == c2);
        },
    }
    lemma_join(flag(x.baseline), t3, rest);
    c2.lemma_flag(x.baseline, t3 + rest);
    let c3 = c2.adv(1);
    lemma_join(g, t4, rest);
    c3.lemma_number(x.count, n, t4 + rest);
    let c4 = c3.adv(n as int);
    lemma_join(h, flag(x.update), rest);
    c4.lemma_number(x.length, w, flag(x.update) + rest);
    let c5 = c4.adv(w as int);
    c5.lemma_flag(x.update, rest);
    assert(c5.adv(1) == c.past(head_bits(x, e)));
}

/// The head of a change of a table: the table, how many entries, and in how many bits.
/// One entry is not counted.
pub open spec fn change_bits(table: int, count: Option<int>, length: int) -> Seq<bool> {
    bits_of(table, 5) + ((match count {
        None => flag(false),
        Some(n) => flag(true) + bits_of(n, 16),
    }) + bits_of(length, 20))
}

#[verifier::rlimit(50)]
pub proof fn law_change_head_round_trip(table: int, count: Option<int>, length: int, c: Cursor, rest: Seq<bool>)
    requires
        0 <= table < 32,
        count matches Some(n) ==> 0 <= n < 0x1_0000,
        0 <= length < 0x10_0000,
        c.holds(change_bits(table, count, length) + rest),
    ensures
        change_head(c) == Some(
            (
                table,
                match count {
                    None => 1,
                    Some(n) => n,
                },
                length,
                c.past(change_bits(table, count, length)),
            ),
        ),
        c.past(change_bits(table, count, length)).holds(rest),
{
    lemma2_to64();
    lemma_pow2_adds(16, 4);
    let a = bits_of(table, 5);
    let b = match count {
        None => flag(false),
        Some(n) => flag(true) + bits_of(n, 16),
    };
    let g = bits_of(length, 20);
    lemma_bits_len(table, 5);
    lemma_bits_len(length, 20);
    lemma_join(a, b + g, rest);
    c.lemma_number(table, 5, (b + g) + rest);
    lemma_join(b, g, rest);
    let c1 = c.adv(5);
    match count {
        None => c1.lemma_flag(false, g + rest),
        Some(n) => {
            lemma_bits_len(n, 16);
            lemma_join(flag(true), bits_of(n, 16), g + rest);
            c1.lemma_flag(true, bits_of(n, 16) + (g + rest));
            c1.adv(1).lemma_number(n, 16, g + rest);
            assert(c1.adv(1).adv(16) == c1.past(b));
        },
    }
    c1.past(b).lemma_number(length, 20, rest);
    assert(c1.past(b).adv(20) == c.past(change_bits(table, count, length)));
}

/// A change of the table of players that was written names them; one of another table
/// names nobody.
pub proof fn law_change_round_trip(
    table: int,
    xs: Seq<crate::source::sent_tables::Changed>,
    names: Map<u32, PlayerView>,
    userinfo: Option<usize>,
    c: Cursor,
    rest: Seq<bool>,
)
    requires
        0 <= table < 32,
        xs.len() < 0x1_0000,
        changes_fit(xs, 0xffff_ffff, 8, false, 0),
        changes_bits(xs, 8, false).len() < 0x10_0000,
        c.holds(
            (change_bits(table, Some(xs.len() as int), changes_bits(xs, 8, false).len() as int)
                + changes_bits(xs, 8, false)) + rest,
        ),
    ensures
        table_change(c, names, userinfo) == (
            if userinfo == Some(table as usize) {
                after_changes(names, xs)
            } else {
                names
            },
            Some(
                c.past(
                    change_bits(table, Some(xs.len() as int), changes_bits(xs, 8, false).len() as int)
                        + changes_bits(xs, 8, false),
                ),
            ),
        ),
{
    let b = changes_bits(xs, 8, false);
    let n = xs.len() as int;
    let a = change_bits(table, Some(n), b.len() as int);
    lemma_join(a, b, rest);
    law_change_head_round_trip(table, Some(n), b.len() as int, c, b + rest);
    let e = c.past(a);
    law_slots_round_trip(xs, 0xffff_ffff, e.pos + b.len(), names, e, rest);
    e.lemma_holds(b, rest);
    reveal(Cursor::holds);
    assert(e.adv(b.len() as int) == c.past(a + b));
}

/// Classes, each with its number and two names.
pub open spec fn classes_bits(xs: Seq<(int, Seq<u8>, Seq<u8>)>, w: nat) -> Seq<bool>
    decreases xs.len(),
{
    if xs.len() == 0 {
        Seq::empty()
    } else {
        bits_of(xs[0].0, w) + (bits_of_text(xs[0].1) + (bits_of_text(xs[0].2) + classes_bits(
            xs.drop_first(),
            w,
        )))
    }
}

pub open spec fn classes_fit(xs: Seq<(int, Seq<u8>, Seq<u8>)>, w: nat) -> bool {
    forall|i: int|
        0 <= i < xs.len() ==> {
            let x = #[trigger] xs[i];
            0 <= x.0 < pow2(w) && no_zero(x.1) && no_zero(x.2) && x.1.len() < 256 && x.2.len() < 256
        }
}

#[verifier::rlimit(50)]
proof fn lemma_classes(xs: Seq<(int, Seq<u8>, Seq<u8>)>, w: nat, c: Cursor, rest: Seq<bool>)
    requires
        classes_fit(xs, w),
        c.holds(classes_bits(xs, w) + rest),
    ensures
        past_classes(Some(c), w as int, xs.len() as int) == Some(c.past(classes_bits(xs, w))),
        c.past(classes_bits(xs, w)).holds(rest),
    decreases xs.len(),
{
    if xs.len() == 0 {
        assert(classes_bits(xs, w) + rest =~= rest);
        assert(c.past(classes_bits(xs, w)) == c);
    } else {
        let x = xs[0];
        let (a, s, t) = (bits_of(x.0, w), bits_of_text(x.1), bits_of_text(x.2));
        let b = classes_bits(xs.drop_first(), w);
        lemma_bits_len(x.0, w);
        lemma_join(a, s + (t + b), rest);
        c.lemma_number(x.0, w, (s + (t + b)) + rest);
        let c1 = c.adv(w as int);
        lemma_join(s, t + b, rest);
        c1.law_text_reads(x.1, 256, (t + b) + rest);
        let c2 = c1.past(s);
        lemma_join(t, b, rest);
        c2.law_text_reads(x.2, 256, b + rest);
        let c3 = c2.past(t);
        reveal_with_fuel(past_texts, 3);
        assert(past_texts(Some(c1), 256, 2) == Some(c3));
        assert forall|i: int| 0 <= i < xs.drop_first().len() implies {
            let x = #[trigger] xs.drop_first()[i];
            0 <= x.0 < pow2(w) && no_zero(x.1) && no_zero(x.2) && x.1.len() < 256 && x.2.len() < 256
        } by {
            assert(xs.drop_first()[i] == xs[i + 1]);
        }
        lemma_classes(xs.drop_first(), w, c3, rest);
        assert(c3.past(b) == c.past(classes_bits(xs, w)));
    }
}

/// A message of classes that was written is passed: the classes follow unless the client
/// makes them itself, and a number takes as many bits as the largest of them needs.
pub proof fn law_classes_are_passed(
    n: int,
    own: bool,
    xs: Seq<(int, Seq<u8>, Seq<u8>)>,
    known: int,
    c: Cursor,
    rest: Seq<bool>,
)
    requires
        0 <= n < 0x1_0000,
        if own {
            xs.len() == 0
        } else {
            xs.len() == n
        },
        classes_fit(xs, class_bits(known) as nat),
        class_bits(known) >= 0,
        c.holds(
            (bits_of(n, 16) + (flag(own) + classes_bits(xs, class_bits(known) as nat))) + rest,
        ),
    ensures
        class_info(c, known) == Some(
            c.past(bits_of(n, 16) + (flag(own) + classes_bits(xs, class_bits(known) as nat))),
        ),
{
    lemma2_to64();
    let w = class_bits(known) as nat;
    let (a, b) = (bits_of(n, 16), classes_bits(xs, w));
    lemma_bits_len(n, 16);
    lemma_join(a, flag(own) + b, rest);
    c.lemma_number(n, 16, (flag(own) + b) + rest);
    lemma_join(flag(own), b, rest);
    c.adv(16).lemma_flag(own, b + rest);
    let c2 = c.adv(16).adv(1);
    if own {
        assert(c2 == c.past(a + (flag(own) + b)));
    } else {
        lemma_classes(xs, w, c2, rest);
        assert(c2.past(b) == c.past(a + (flag(own) + b)));
    }
}

/// The bits that a number of classes takes are just enough for it.
pub proof fn law_class_bits(n: int)
    requires
        n >= 2,
    ensures
        n <= pow2(class_bits(n) as nat),
        n > 2 ==> n > pow2((class_bits(n) - 1) as nat),
        class_bits(n) >= 1,
{
    lemma2_to64();
    if n > 2 {
        law_log(n - 1);
    }
}

/// The place of the highest bit of a number.
pub proof fn law_log(n: int)
    requires
        n >= 1,
    ensures
        pow2(floor_log2(n) as nat) <= n < 2 * pow2(floor_log2(n) as nat),
        floor_log2(n) >= 0,
        pow2((floor_log2(n) + 1) as nat) == 2 * pow2(floor_log2(n) as nat),
    decreases n,
{
    lemma2_to64();
    if n > 1 {
        law_log(n / 2);
    }
    vstd::arithmetic::power2::lemma_pow2_unfold((floor_log2(n) + 1) as nat);
}

} // verus!
