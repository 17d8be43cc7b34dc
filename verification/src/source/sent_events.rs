//! Game events as a server writes them.
use super::events::{kinds_from, list_at, message_at, schema_at, schemas_from, value_at, values_from,
    EventOf, FieldOf, Reading, SchemaOf, ValueOf};
use super::messages::canonical;
use crate::bits::Cursor;
use crate::text::lossy_chars;
use crate::written::{bits_of, bits_of_text, flag, lemma_bits_len, no_zero, stands};
use vstd::arithmetic::power2::{lemma2_to64, lemma_pow2_adds};
use vstd::prelude::*;

verus! {

/// A value of a field, by its type.
pub enum Told {
    /// 1
    Text(Seq<u8>),
    /// 2: the bits of a number of single precision.
    Float(u32),
    /// 3
    Long(i32),
    /// 4
    Short(i16),
    /// 5
    Byte(u8),
    /// 6
    Bool(bool),
    /// 7: it is not sent.
    Local,
}

pub open spec fn told_type(v: Told) -> u8 {
    match v {
        Told::Text(_) => 1,
        Told::Float(_) => 2,
        Told::Long(_) => 3,
        Told::Short(_) => 4,
        Told::Byte(_) => 5,
        Told::Bool(_) => 6,
        Told::Local => 7,
    }
}

/// A value as it is written: a number of 32, 16 or 8 bits, a negative one counted from
/// the largest, a text up to a zero byte, or one bit.
#[verifier::opaque]
pub open spec fn told_bits(v: Told) -> Seq<bool> {
    match v {
        Told::Text(s) => bits_of_text(s),
        Told::Float(n) => bits_of(n as int, 32),
        Told::Long(n) => bits_of(
            if n < 0 {
                0x1_0000_0000 + n
            } else {
                n as int
            },
            32,
        ),
        Told::Short(n) => bits_of(
            if n < 0 {
                0x1_0000 + n
            } else {
                n as int
            },
            16,
        ),
        Told::Byte(n) => bits_of(n as int, 8),
        Told::Bool(b) => flag(b),
        Told::Local => Seq::empty(),
    }
}

pub open spec fn told_fits(v: Told) -> bool {
    v matches Told::Text(s) ==> no_zero(s) && s.len() < 256
}

pub open spec fn told_value(v: Told) -> ValueOf {
    match v {
        Told::Text(s) => ValueOf::Str(lossy_chars(s)),
        Told::Float(n) => ValueOf::Float(n),
        Told::Long(n) => ValueOf::Int(n),
        Told::Short(n) => ValueOf::Int(n as i32),
        Told::Byte(n) => ValueOf::Int(n as i32),
        Told::Bool(b) => ValueOf::Bool(b),
        Told::Local => ValueOf::Null,
    }
}

/// A value that was written is read back as one of its type, and the reader ends right
/// behind it.
#[verifier::rlimit(50)]
pub proof fn law_told_round_trip(v: Told, c: Cursor, rest: Seq<bool>)
    requires
        told_fits(v),
        c.holds(told_bits(v) + rest),
    ensures
        value_at(c, told_type(v)) == Some((told_value(v), c.past(told_bits(v)))),
        c.past(told_bits(v)).holds(rest),
{
    reveal(told_bits);
    lemma2_to64();
    match v {
        Told::Text(s) => c.law_text_reads(s, 256, rest),
        Told::Float(n) => {
            lemma_bits_len(n as int, 32);
            c.lemma_number(n as int, 32, rest);
        },
        Told::Long(n) => {
            let u = if n < 0 {
                0x1_0000_0000 + n
            } else {
                n as int
            };
            lemma_bits_len(u, 32);
            c.lemma_number(u, 32, rest);
        },
        Told::Short(n) => {
            let u = if n < 0 {
                0x1_0000 + n
            } else {
                n as int
            };
            lemma_bits_len(u, 16);
            c.lemma_number(u, 16, rest);
        },
        Told::Byte(n) => {
            lemma_bits_len(n as int, 8);
            c.lemma_number(n as int, 8, rest);
        },
        Told::Bool(b) => c.lemma_flag(b, rest),
        Told::Local => {
            assert(told_bits(v) + rest =~= rest);
            assert(c.past(told_bits(v)) == c);
        },
    }
}

/// The values of an event from the `i`-th on, one behind the other.
pub open spec fn all_told_bits(vs: Seq<Told>, i: int) -> Seq<bool>
    decreases vs.len() - i,
{
    if i < 0 || i >= vs.len() {
        Seq::empty()
    } else {
        told_bits(vs[i]) + all_told_bits(vs, i + 1)
    }
}

pub open spec fn all_told(ks: Seq<(Seq<char>, u8)>, vs: Seq<Told>, i: int) -> Seq<FieldOf>
    decreases vs.len() - i,
{
    if i < 0 || i >= vs.len() {
        Seq::empty()
    } else {
        seq![FieldOf { name: ks[i].0, value: told_value(vs[i]) }] + all_told(ks, vs, i + 1)
    }
}

/// Whether values are those of a list of fields.
pub open spec fn told_for(ks: Seq<(Seq<char>, u8)>, vs: Seq<Told>) -> bool {
    &&& ks.len() == vs.len()
    &&& forall|i: int| 0 <= i < vs.len() ==> told_fits(#[trigger] vs[i]) && told_type(vs[i]) == ks[i].1
}

/// The values of an event that were written in the order of its fields are read back,
/// each as the field's.
pub proof fn law_all_told_round_trip(
    ks: Seq<(Seq<char>, u8)>,
    vs: Seq<Told>,
    i: int,
    c: Cursor,
    rest: Seq<bool>,
)
    requires
        told_for(ks, vs),
        0 <= i <= vs.len(),
        c.holds(all_told_bits(vs, i) + rest),
    ensures
        values_from(c, ks, i) == Some(all_told(ks, vs, i)),
        c.past(all_told_bits(vs, i)).holds(rest),
    decreases vs.len() - i,
{
    let all = all_told_bits(vs, i);
    if i == vs.len() {
        assert(all + rest =~= rest);
        assert(c.past(all) == c);
    } else {
        let a = told_bits(vs[i]);
        let b = all_told_bits(vs, i + 1);
        assert(all + rest =~= a + (b + rest));
        law_told_round_trip(vs[i], c, b + rest);
        law_all_told_round_trip(ks, vs, i + 1, c.past(a), rest);
        assert(c.past(a).past(b) == c.past(all));
    }
}

/// An event's message behind its number: how many bits it has, its number in the list,
/// and its values.
pub open spec fn event_bits(id: int, vs: Seq<Told>) -> Seq<bool> {
    bits_of(9 + all_told_bits(vs, 0).len() as int, 11) + (bits_of(id, 9) + all_told_bits(vs, 0))
}

/// An event that was written is read back, if it is one of the list and one that is
/// shown; what follows it is read right behind it.
pub proof fn law_event_round_trip(id: int, vs: Seq<Told>, r: Reading, c: Cursor, rest: Seq<bool>)
    requires
        0 <= id < 512,
        r.schemas.dom().contains(id as u16),
        told_for(r.schemas[id as u16].fields, vs),
        9 + all_told_bits(vs, 0).len() < 2048,
        c.holds((bits_of(25, 6) + event_bits(id, vs)) + rest),
    ensures
        message_at(c, r) == Some(
            (
                c.past(bits_of(25, 6) + event_bits(id, vs)),
                if r.shown.contains(r.schemas[id as u16].name) {
                    Some(
                        EventOf {
                            event: r.schemas[id as u16].name,
                            tick: r.tick,
                            fields: all_told(r.schemas[id as u16].fields, vs, 0),
                        },
                    )
                } else {
                    None
                },
            ),
        ),
        c.past(bits_of(25, 6) + event_bits(id, vs)).holds(rest),
{
    lemma2_to64();
    lemma_pow2_adds(8, 3);
    let b = all_told_bits(vs, 0);
    let n = (9 + b.len()) as int;
    let all = bits_of(25, 6) + event_bits(id, vs);
    lemma_bits_len(25, 6);
    lemma_bits_len(n, 11);
    lemma_bits_len(id, 9);
    assert(all + rest =~= bits_of(25, 6) + (bits_of(n, 11) + (bits_of(id, 9) + (b + rest))));
    c.lemma_number(25, 6, bits_of(n, 11) + (bits_of(id, 9) + (b + rest)));
    let c1 = c.adv(6);
    c1.lemma_number(n, 11, bits_of(id, 9) + (b + rest));
    let c2 = c1.adv(11);
    c2.lemma_number(id, 9, b + rest);
    let c3 = c2.adv(9);
    law_all_told_round_trip(r.schemas[id as u16].fields, vs, 0, c3, rest);
    assert(c3.past(b) == c.past(all));
    assert(c2.adv(n) == c.past(all));
    assert(canonical(25, r.remap) == 25);
}

/// A field of a list's entry: its name and type.
pub struct Kind {
    pub name: Seq<u8>,
    pub t: u8,
}

/// The fields of an entry: the type and the name of each, and a type that ends them.
pub open spec fn kinds_bits(ks: Seq<Kind>, i: int) -> Seq<bool>
    decreases ks.len() - i,
{
    if i < 0 || i >= ks.len() {
        bits_of(0, 3)
    } else {
        bits_of(ks[i].t as int, 3) + (bits_of_text(ks[i].name) + kinds_bits(ks, i + 1))
    }
}

pub open spec fn kinds_fit(ks: Seq<Kind>) -> bool {
    forall|i: int|
        0 <= i < ks.len() ==> 1 <= (#[trigger] ks[i]).t <= 7 && no_zero(ks[i].name) && ks[i].name.len() < 64
}

pub open spec fn kinds_view(ks: Seq<Kind>, i: int) -> Seq<(Seq<char>, u8)>
    decreases ks.len() - i,
{
    if i < 0 || i >= ks.len() {
        Seq::empty()
    } else {
        seq![(lossy_chars(ks[i].name), ks[i].t)] + kinds_view(ks, i + 1)
    }
}

/// The fields of an entry that were written are read back.
pub proof fn law_kinds_round_trip(ks: Seq<Kind>, i: int, end: int, c: Cursor, rest: Seq<bool>)
    requires
        kinds_fit(ks),
        0 <= i <= ks.len(),
        c.holds(kinds_bits(ks, i) + rest),
        c.pos + kinds_bits(ks, i).len() <= end + 64,
    ensures
        kinds_from(c, end) == Some((kinds_view(ks, i), c.past(kinds_bits(ks, i)))),
        c.past(kinds_bits(ks, i)).holds(rest),
    decreases ks.len() - i,
{
    lemma2_to64();
    let all = kinds_bits(ks, i);
    lemma_room(c, all + rest);
    if i == ks.len() {
        lemma_bits_len(0, 3);
        c.lemma_number(0, 3, rest);
    } else {
        let k = ks[i];
        let (a, b, e) = (bits_of(k.t as int, 3), bits_of_text(k.name), kinds_bits(ks, i + 1));
        lemma_bits_len(k.t as int, 3);
        lemma_bits_len(0, 3);
        assert(all + rest =~= a + (b + (e + rest)));
        c.lemma_number(k.t as int, 3, b + (e + rest));
        let c1 = c.adv(3);
        c1.law_text_reads(k.name, 64, e + rest);
        let c2 = c1.past(b);
        law_kinds_round_trip(ks, i + 1, end, c2, rest);
        assert(c2.past(e) == c.past(all));
    }
}

proof fn lemma_room(c: Cursor, b: Seq<bool>)
    requires
        c.holds(b),
    ensures
        b.len() <= c.left(),
        c.pos + b.len() <= c.end,
{
    reveal(Cursor::holds);
}

/// An entry of the list: its number, its name and its fields.
pub struct Listed {
    pub id: int,
    pub name: Seq<u8>,
    pub kinds: Seq<Kind>,
}

pub open spec fn listed_bits(x: Listed) -> Seq<bool> {
    bits_of(x.id, 9) + (bits_of_text(x.name) + kinds_bits(x.kinds, 0))
}

pub open spec fn ascii_name(s: Seq<u8>) -> bool {
    forall|i: int| 0 <= i < s.len() ==> crate::bits::name_byte(#[trigger] s[i])
}

pub open spec fn listed_fits(x: Listed) -> bool {
    0 <= x.id < 512 && ascii_name(x.name) && 0 < x.name.len() < 64 && kinds_fit(x.kinds)
}

pub open spec fn listed_schema(x: Listed) -> SchemaOf {
    SchemaOf { name: x.name.map_values(|b: u8| b as char), fields: kinds_view(x.kinds, 0) }
}

/// An entry of the list that was written is read back.
pub proof fn law_listed_round_trip(x: Listed, end: int, c: Cursor, rest: Seq<bool>)
    requires
        listed_fits(x),
        c.holds(listed_bits(x) + rest),
        c.pos + listed_bits(x).len() <= end,
    ensures
        schema_at(c, end) == Some(((x.id as u16, listed_schema(x)), c.past(listed_bits(x)))),
        c.past(listed_bits(x)).holds(rest),
{
    lemma2_to64();
    let all = listed_bits(x);
    let (a, b, e) = (bits_of(x.id, 9), bits_of_text(x.name), kinds_bits(x.kinds, 0));
    lemma_bits_len(x.id, 9);
    assert(all + rest =~= a + (b + (e + rest)));
    c.lemma_number(x.id, 9, b + (e + rest));
    let c1 = c.adv(9);
    assert forall|i: int| 0 <= i < x.name.len() implies #[trigger] x.name[i] != 0 by {
        assert(crate::bits::name_byte(x.name[i]));
    }
    c1.law_text_reads(x.name, 64, e + rest);
    let c2 = c1.past(b);
    assert(all.len() == a.len() + b.len() + e.len());
    law_kinds_round_trip(x.kinds, 0, end, c2, rest);
    assert(c2.past(e) == c.past(all));
}

/// The entries of a list from the `i`-th on.
pub open spec fn all_listed_bits(xs: Seq<Listed>, i: int) -> Seq<bool>
    decreases xs.len() - i,
{
    if i < 0 || i >= xs.len() {
        Seq::empty()
    } else {
        listed_bits(xs[i]) + all_listed_bits(xs, i + 1)
    }
}

/// The entries by their numbers; of one that comes twice the later entry.
pub open spec fn all_listed(xs: Seq<Listed>, i: int, m: Map<u16, SchemaOf>) -> Map<u16, SchemaOf>
    decreases xs.len() - i,
{
    if i < 0 || i >= xs.len() {
        m
    } else {
        all_listed(xs, i + 1, m.insert(xs[i].id as u16, listed_schema(xs[i])))
    }
}

pub open spec fn names_death(xs: Seq<Listed>, i: int) -> bool {
    exists|k: int| i <= k < xs.len() && #[trigger] listed_schema(xs[k]).name == "player_death"@
}

#[verifier::rlimit(50)]
proof fn lemma_all_listed(
    xs: Seq<Listed>,
    i: int,
    m: Map<u16, SchemaOf>,
    death: bool,
    end: int,
    c: Cursor,
    rest: Seq<bool>,
)
    requires
        0 <= i <= xs.len(),
        forall|k: int| 0 <= k < xs.len() ==> listed_fits(#[trigger] xs[k]),
        c.holds(all_listed_bits(xs, i) + rest),
        c.pos + all_listed_bits(xs, i).len() <= end,
    ensures
        schemas_from(c, end, xs.len() - i, m, death) == Some(
            (all_listed(xs, i, m), death || names_death(xs, i)),
        ),
    decreases xs.len() - i,
{
    if i < xs.len() {
        let (a, b) = (listed_bits(xs[i]), all_listed_bits(xs, i + 1));
        assert(all_listed_bits(xs, i) + rest =~= a + (b + rest));
        law_listed_round_trip(xs[i], end, c, b + rest);
        let here = listed_schema(xs[i]).name == "player_death"@;
        lemma_all_listed(
            xs,
            i + 1,
            m.insert(xs[i].id as u16, listed_schema(xs[i])),
            death || here,
            end,
            c.past(a),
            rest,
        );
        assert(names_death(xs, i) == (here || names_death(xs, i + 1))) by {
            if names_death(xs, i) && !here {
                let k = choose|k: int|
                    i <= k < xs.len() && #[trigger] listed_schema(xs[k]).name == "player_death"@;
                assert(i + 1 <= k);
            }
        }
    }
}

/// A list of events that was written is read back, if a player's death is one of them.
pub proof fn law_list_round_trip(xs: Seq<Listed>, d: Seq<u8>, start: int)
    requires
        10 <= xs.len() < 512,
        forall|k: int| 0 <= k < xs.len() ==> listed_fits(#[trigger] xs[k]),
        20 * xs.len() <= all_listed_bits(xs, 0).len() <= 200_000,
        names_death(xs, 0),
        stands(
            d,
            start,
            bits_of(xs.len() as int, 9) + (bits_of(all_listed_bits(xs, 0).len() as int, 20)
                + all_listed_bits(xs, 0)),
        ),
    ensures
        list_at(d, start) == Some(all_listed(xs, 0, Map::empty())),
{
    lemma2_to64();
    lemma_pow2_adds(16, 4);
    let b = all_listed_bits(xs, 0);
    let n = xs.len() as int;
    let c = Cursor { d, pos: start, end: 8 * d.len() as int };
    let all = bits_of(n, 9) + (bits_of(b.len() as int, 20) + b);
    assert(c.holds(all)) by {
        reveal(Cursor::holds);
    }
    lemma_bits_len(n, 9);
    lemma_bits_len(b.len() as int, 20);
    c.lemma_number(n, 9, bits_of(b.len() as int, 20) + b);
    c.adv(9).lemma_number(b.len() as int, 20, b);
    let e = Seq::<bool>::empty();
    assert(b =~= b + e);
    let c2 = c.adv(9).adv(20);
    lemma_all_listed(xs, 0, Map::empty(), false, c2.pos + b.len(), c2, e);
}

} // verus!
