//! The messages of CS:GO as a server writes them.
use super::entities::{updates_of, with_fields, Updates};
use super::events::{described, description, key_of, sent, value_in, value_of, Described, Sent};
use super::sendtable::{class_at, class_list, classes_from, no_fields, prop_field, prop_fields,
    prop_of, table_fields, table_of, PropFields, TableFields};
use super::stringtables::{change_from, change_of, creation_from, creation_of, creation_step, Change,
    Creation};
use crate::protobuf::reader::{fields_from, whole_from, FieldView, ValueView};
use crate::protobuf::wire::{encoded_fields, law_fields_round_trip, sendable};
use crate::source::datatable::ClassView;
use crate::source::events::ValueOf;
use crate::source::sendprop::type_of;
use crate::text::lossy_chars;
use crate::written::{law_short_reads, law_zero_is_found, le16, lemma_lies, lies, no_zero};
use vstd::prelude::*;

verus! {

/// A number that may be negative: in two's complement of 64 bits.
pub open spec fn whole(v: i32) -> ValueView {
    ValueView::Varint(
        if v < 0 {
            (0x1_0000_0000_0000_0000 + v) as u64
        } else {
            v as u64
        },
    )
}

pub open spec fn yes(v: bool) -> ValueView {
    ValueView::Varint(
        if v {
            1
        } else {
            0
        },
    )
}

pub open spec fn field(number: u32, value: ValueView) -> FieldView {
    FieldView { number, value }
}

/// A message of these fields.
pub open spec fn message(fs: Seq<FieldView>) -> Seq<u8> {
    encoded_fields(fs, fs.len() as int)
}

proof fn lemma_message(fs: Seq<FieldView>)
    requires
        forall|i: int| 0 <= i < fs.len() ==> sendable(#[trigger] fs[i]),
    ensures
        whole_from(message(fs), 0) == Some(fs),
        fields_from(message(fs), 0) == fs,
{
    law_fields_round_trip(fs, fs.len() as int);
    assert(fs.take(fs.len() as int) =~= fs);
}

pub open spec fn short(b: Seq<u8>) -> bool {
    b.len() <= usize::MAX
}

/// A property of a table: its type, name, flags, priority, the table that it stands for,
/// how many elements it has, its limits and its bits.
pub struct Prop {
    pub kind: i32,
    pub name: Seq<u8>,
    pub flags: u32,
    pub priority: i32,
    pub table: Seq<u8>,
    pub elements: i32,
    pub low: u32,
    pub high: u32,
    pub bits: i32,
}

pub open spec fn prop_message(p: Prop) -> Seq<FieldView> {
    seq![
        field(1, whole(p.kind)),
        field(2, ValueView::Len(p.name)),
        field(3, ValueView::Varint(p.flags as u64)),
        field(4, whole(p.priority)),
        field(5, ValueView::Len(p.table)),
        field(6, whole(p.elements)),
        field(7, ValueView::Fixed32(p.low)),
        field(8, ValueView::Fixed32(p.high)),
        field(9, whole(p.bits)),
    ]
}

pub open spec fn prop_said(p: Prop) -> PropFields {
    PropFields {
        kind: p.kind as int,
        name: lossy_chars(p.name),
        flags: p.flags,
        priority: p.priority as int,
        dt_name: lossy_chars(p.table),
        num_elements: p.elements as int,
        low_value: p.low,
        high_value: p.high,
        num_bits: p.bits as int,
    }
}

/// A property that was written is read back.
#[verifier::rlimit(50)]
pub proof fn law_prop_round_trip(p: Prop)
    requires
        short(p.name),
        short(p.table),
        type_of((p.kind as int % 256) as u8) is Some,
    ensures
        prop_of(message(prop_message(p))) == Some(prop_said(p)),
{
    let fs = prop_message(p);
    lemma_message(fs);
    let q0 = no_fields();
    let q1 = PropFields { kind: p.kind as int, ..q0 };
    let q2 = PropFields { name: lossy_chars(p.name), ..q1 };
    let q3 = PropFields { flags: p.flags, ..q2 };
    let q4 = PropFields { priority: p.priority as int, ..q3 };
    let q5 = PropFields { dt_name: lossy_chars(p.table), ..q4 };
    let q6 = PropFields { num_elements: p.elements as int, ..q5 };
    let q7 = PropFields { low_value: p.low, ..q6 };
    let q8 = PropFields { high_value: p.high, ..q7 };
    let q9 = PropFields { num_bits: p.bits as int, ..q8 };
    assert(prop_field(q0, fs[0]) == Some(q1));
    assert(prop_field(q1, fs[1]) == Some(q2));
    assert(prop_field(q2, fs[2]) == Some(q3));
    assert(prop_field(q3, fs[3]) == Some(q4));
    assert(prop_field(q4, fs[4]) == Some(q5));
    assert(prop_field(q5, fs[5]) == Some(q6));
    assert(prop_field(q6, fs[6]) == Some(q7));
    assert(prop_field(q7, fs[7]) == Some(q8));
    assert(prop_field(q8, fs[8]) == Some(q9));
    lemma_prop_fields(fs, seq![q0, q1, q2, q3, q4, q5, q6, q7, q8, q9], 0);
}

proof fn lemma_prop_fields(fs: Seq<FieldView>, qs: Seq<PropFields>, i: int)
    requires
        qs.len() == fs.len() + 1,
        0 <= i <= fs.len(),
        forall|k: int| 0 <= k < fs.len() ==> prop_field(qs[k], #[trigger] fs[k]) == Some(qs[k + 1]),
    ensures
        prop_fields(qs[i], fs, i) == Some(qs[fs.len() as int]),
    decreases fs.len() - i,
{
    if i < fs.len() {
        assert(prop_field(qs[i], fs[i]) == Some(qs[i + 1]));
        lemma_prop_fields(fs, qs, i + 1);
    }
}

/// A table: its name, whether it needs decoding, and its properties.
pub open spec fn table_message(name: Seq<u8>, decoder: bool, ps: Seq<Prop>) -> Seq<FieldView> {
    seq![field(2, ValueView::Len(name)), field(3, yes(decoder))] + Seq::new(
        ps.len(),
        |i: int| field(4, ValueView::Len(message(prop_message(ps[i])))),
    )
}

proof fn lemma_props(fs: Seq<FieldView>, ps: Seq<Prop>, t: TableFields, k: int)
    requires
        fs.len() == 2 + ps.len(),
        0 <= k <= ps.len(),
        forall|i: int|
            0 <= i < ps.len() ==> #[trigger] fs[2 + i] == field(
                4,
                ValueView::Len(message(prop_message(ps[i]))),
            ),
        forall|i: int|
            0 <= i < ps.len() ==> short((#[trigger] ps[i]).name) && short(ps[i].table) && type_of(
                (ps[i].kind as int % 256) as u8,
            ) is Some,
    ensures
        table_fields(t, fs, 2 + k) == Some(
            TableFields {
                props: t.props + Seq::new((ps.len() - k) as nat, |i: int| prop_said(ps[k + i])),
                ..t
            },
        ),
    decreases ps.len() - k,
{
    let rest = Seq::new((ps.len() - k) as nat, |i: int| prop_said(ps[k + i]));
    if k < ps.len() {
        let p = ps[k];
        law_prop_round_trip(p);
        assert(fs[2 + k] == field(4, ValueView::Len(message(prop_message(p)))));
        let u = TableFields { props: t.props.push(prop_said(p)), ..t };
        lemma_props(fs, ps, u, k + 1);
        let after = Seq::new((ps.len() - k - 1) as nat, |i: int| prop_said(ps[k + 1 + i]));
        assert(u.props + after =~= t.props + rest);
    } else {
        assert(t.props + rest =~= t.props);
    }
}

/// A table that was written is read back, its properties in their order.
#[verifier::rlimit(50)]
pub proof fn law_table_round_trip(name: Seq<u8>, decoder: bool, ps: Seq<Prop>)
    requires
        short(name),
        forall|i: int|
            0 <= i < ps.len() ==> short((#[trigger] ps[i]).name) && short(ps[i].table) && type_of(
                (ps[i].kind as int % 256) as u8,
            ) is Some && short(message(prop_message(ps[i]))),
    ensures
        table_of(message(table_message(name, decoder, ps))) == Some(
            TableFields {
                is_end: false,
                name: lossy_chars(name),
                needs_decoder: decoder,
                props: Seq::new(ps.len(), |i: int| prop_said(ps[i])),
            },
        ),
{
    let fs = table_message(name, decoder, ps);
    assert forall|i: int| 0 <= i < fs.len() implies sendable(#[trigger] fs[i]) by {
        if i >= 2 {
            assert(short(ps[i - 2].name));
        }
    }
    lemma_message(fs);
    assert forall|i: int| 0 <= i < ps.len() implies #[trigger] fs[2 + i] == field(
        4,
        ValueView::Len(message(prop_message(ps[i]))),
    ) by {}
    let t = TableFields {
        is_end: false,
        name: lossy_chars(name),
        needs_decoder: decoder,
        props: Seq::empty(),
    };
    assert(fs[0] == field(2, ValueView::Len(name)));
    assert(fs[1] == field(3, yes(decoder)));
    lemma_props(fs, ps, t, 0);
    reveal_with_fuel(table_fields, 3);
    let all = Seq::new(ps.len(), |i: int| prop_said(ps[i]));
    assert(t.props + Seq::new((ps.len() - 0) as nat, |i: int| prop_said(ps[0 + i])) =~= all);
}

/// The classes behind the tables: how many, and of each its number, its name and its table.
pub open spec fn class_bytes(c: (u16, Seq<u8>, Seq<u8>)) -> Seq<u8> {
    le16(c.0 as int) + (c.1.push(0) + c.2.push(0))
}

pub open spec fn classes_bytes(cs: Seq<(u16, Seq<u8>, Seq<u8>)>) -> Seq<u8>
    decreases cs.len(),
{
    if cs.len() == 0 {
        Seq::empty()
    } else {
        class_bytes(cs[0]) + classes_bytes(cs.drop_first())
    }
}

pub open spec fn class_said(c: (u16, Seq<u8>, Seq<u8>)) -> ClassView {
    ClassView { id: c.0, name: lossy_chars(c.1), data_table: lossy_chars(c.2) }
}

proof fn lemma_class(d: Seq<u8>, o: int, c: (u16, Seq<u8>, Seq<u8>))
    requires
        no_zero(c.1),
        no_zero(c.2),
        lies(d, o, class_bytes(c)),
    ensures
        class_at(d, o) == Some((class_said(c), o + class_bytes(c).len())),
{
    let (a, s, t) = (le16(c.0 as int), c.1.push(0), c.2.push(0));
    lemma_lies(d, o, a, s + t);
    lemma_lies(d, o + 2, s, t);
    law_short_reads(d, o, c.0 as int);
    law_zero_is_found(d, o + 2, c.1);
    let z = o + 2 + c.1.len();
    law_zero_is_found(d, z + 1, c.2);
    assert(s =~= c.1 + seq![0u8]);
    lemma_lies(d, o + 2, c.1, seq![0u8]);
    assert(t =~= c.2 + seq![0u8]);
    lemma_lies(d, z + 1, c.2, seq![0u8]);
}

proof fn lemma_classes(d: Seq<u8>, o: int, cs: Seq<(u16, Seq<u8>, Seq<u8>)>)
    requires
        forall|i: int| 0 <= i < cs.len() ==> no_zero((#[trigger] cs[i]).1) && no_zero(cs[i].2),
        lies(d, o, classes_bytes(cs)),
    ensures
        classes_from(d, o, cs.len() as int) == Some(
            Seq::new(cs.len(), |i: int| class_said(cs[i])),
        ),
    decreases cs.len(),
{
    let all = Seq::new(cs.len(), |i: int| class_said(cs[i]));
    if cs.len() == 0 {
        assert(all =~= Seq::empty());
    } else {
        let rest = cs.drop_first();
        lemma_lies(d, o, class_bytes(cs[0]), classes_bytes(rest));
        lemma_class(d, o, cs[0]);
        assert forall|i: int| 0 <= i < rest.len() implies no_zero((#[trigger] rest[i]).1) && no_zero(
            rest[i].2,
        ) by {
            assert(rest[i] == cs[i + 1]);
        }
        lemma_classes(d, o + class_bytes(cs[0]).len(), rest);
        assert(seq![class_said(cs[0])] + Seq::new(rest.len(), |i: int| class_said(rest[i])) =~= all);
    }
}

/// Classes that were written are read back.
pub proof fn law_classes_round_trip(d: Seq<u8>, cs: Seq<(u16, Seq<u8>, Seq<u8>)>)
    requires
        cs.len() < 0x1_0000,
        forall|i: int| 0 <= i < cs.len() ==> no_zero((#[trigger] cs[i]).1) && no_zero(cs[i].2),
        lies(d, 0, le16(cs.len() as int) + classes_bytes(cs)),
    ensures
        class_list(d) == Some(Seq::new(cs.len(), |i: int| class_said(cs[i]))),
{
    lemma_lies(d, 0, le16(cs.len() as int), classes_bytes(cs));
    law_short_reads(d, 0, cs.len() as int);
    lemma_classes(d, 2, cs);
}

/// A message of entities: how many, whether they are a delta, and the bits.
pub proof fn law_updates_round_trip(count: i32, delta: bool, data: Seq<u8>)
    requires
        short(data),
    ensures
        updates_of(
            message(
                seq![
                    field(2, whole(count)),
                    field(3, yes(delta)),
                    field(7, ValueView::Len(data)),
                ],
            ),
        ) == Some(Updates { entries: count as int, delta, data }),
{
    let fs = seq![field(2, whole(count)), field(3, yes(delta)), field(7, ValueView::Len(data))];
    lemma_message(fs);
    reveal_with_fuel(with_fields, 4);
}

/// The creation of a table of strings.
#[verifier::rlimit(50)]
pub proof fn law_creation_round_trip(
    name: Seq<u8>,
    max: u32,
    count: u32,
    fixed: bool,
    size: i32,
    bits: u32,
    flags: i32,
    data: Seq<u8>,
)
    requires
        short(name),
        short(data),
        max > 0,
    ensures
        creation_of(
            message(
                seq![
                    field(1, ValueView::Len(name)),
                    field(2, ValueView::Varint(max as u64)),
                    field(3, ValueView::Varint(count as u64)),
                    field(4, yes(fixed)),
                    field(5, whole(size)),
                    field(6, ValueView::Varint(bits as u64)),
                    field(7, whole(flags)),
                    field(8, ValueView::Len(data)),
                ],
            ),
        ) == Some(
            Creation {
                name: lossy_chars(name),
                max_entries: max,
                num_entries: count,
                fixed,
                size_bits: bits,
                data,
            },
        ),
{
    let fs = seq![
        field(1, ValueView::Len(name)),
        field(2, ValueView::Varint(max as u64)),
        field(3, ValueView::Varint(count as u64)),
        field(4, yes(fixed)),
        field(5, whole(size)),
        field(6, ValueView::Varint(bits as u64)),
        field(7, whole(flags)),
        field(8, ValueView::Len(data)),
    ];
    lemma_message(fs);
    let c0 = Creation {
        name: Seq::empty(),
        max_entries: 0,
        num_entries: 0,
        fixed: false,
        size_bits: 0,
        data: Seq::empty(),
    };
    let c1 = Creation { name: lossy_chars(name), ..c0 };
    let c2 = Creation { max_entries: max, ..c1 };
    let c3 = Creation { num_entries: count, ..c2 };
    let c4 = Creation { fixed, ..c3 };
    let c6 = Creation { size_bits: bits, ..c4 };
    let c8 = Creation { data, ..c6 };
    assert(creation_step(c0, fs[0]) == Some(c1));
    assert(creation_step(c1, fs[1]) == Some(c2));
    assert(creation_step(c2, fs[2]) == Some(c3));
    assert(creation_step(c3, fs[3]) == Some(c4));
    assert(creation_step(c4, fs[4]) == Some(c4));
    assert(creation_step(c4, fs[5]) == Some(c6));
    assert(creation_step(c6, fs[6]) == Some(c6));
    assert(creation_step(c6, fs[7]) == Some(c8));
    lemma_creation(fs, seq![c0, c1, c2, c3, c4, c4, c6, c6, c8], 0);
    assert(fs.skip(0) =~= fs);
}

proof fn lemma_creation(fs: Seq<FieldView>, cs: Seq<Creation>, i: int)
    requires
        cs.len() == fs.len() + 1,
        0 <= i <= fs.len(),
        forall|k: int| 0 <= k < fs.len() ==> creation_step(cs[k], #[trigger] fs[k]) == Some(cs[k + 1]),
    ensures
        creation_from(fs.skip(i), cs[i]) == Some(cs[fs.len() as int]),
    decreases fs.len() - i,
{
    if i < fs.len() {
        assert(creation_step(cs[i], fs[i]) == Some(cs[i + 1]));
        assert(fs.skip(i)[0] == fs[i]);
        assert(fs.skip(i).drop_first() =~= fs.skip(i + 1));
        lemma_creation(fs, cs, i + 1);
    }
}

/// A change of a table of strings.
pub proof fn law_change_round_trip(table: u32, count: u32, data: Seq<u8>)
    requires
        short(data),
    ensures
        change_of(
            message(
                seq![
                    field(1, ValueView::Varint(table as u64)),
                    field(2, ValueView::Varint(count as u64)),
                    field(3, ValueView::Len(data)),
                ],
            ),
        ) == Some(Change { table_id: table, num_changed: count, data }),
{
    let fs = seq![
        field(1, ValueView::Varint(table as u64)),
        field(2, ValueView::Varint(count as u64)),
        field(3, ValueView::Len(data)),
    ];
    lemma_message(fs);
    reveal_with_fuel(change_from, 4);
}

/// A value of an event, as one of the kinds that there are.
pub enum Told {
    Text(Seq<u8>),
    Float(u32),
    Long(i32),
    Short(i32),
    Byte(i32),
    Bool(bool),
}

/// A value: its kind, and itself in the field of that kind.
pub open spec fn told_message(v: Told) -> Seq<FieldView> {
    match v {
        Told::Text(s) => seq![field(1, whole(1)), field(2, ValueView::Len(s))],
        Told::Float(b) => seq![field(1, whole(2)), field(3, ValueView::Fixed32(b))],
        Told::Long(n) => seq![field(1, whole(3)), field(4, whole(n))],
        Told::Short(n) => seq![field(1, whole(4)), field(5, whole(n))],
        Told::Byte(n) => seq![field(1, whole(5)), field(6, whole(n))],
        Told::Bool(b) => seq![field(1, whole(6)), field(7, yes(b))],
    }
}

pub open spec fn told_said(v: Told) -> ValueOf {
    match v {
        Told::Text(s) => ValueOf::Str(lossy_chars(s)),
        Told::Float(b) => ValueOf::Float(b),
        Told::Long(n) => ValueOf::Int(n),
        Told::Short(n) => ValueOf::Int(n),
        Told::Byte(n) => ValueOf::Int(n),
        Told::Bool(b) => ValueOf::Bool(b),
    }
}

/// A value of an event that was written is read back.
pub proof fn law_told_round_trip(v: Told)
    requires
        v matches Told::Text(s) ==> short(s),
    ensures
        value_in(message(told_message(v))) == told_said(v),
{
    lemma_message(told_message(v));
    reveal_with_fuel(value_of, 3);
}

/// A kind of event: its number, its name and its keys, each with a type.
pub open spec fn kind_message(id: i32, name: Seq<u8>, keys: Seq<(i32, Seq<u8>)>) -> Seq<FieldView> {
    seq![field(1, whole(id)), field(2, ValueView::Len(name))] + Seq::new(
        keys.len(),
        |i: int|
            field(
                3,
                ValueView::Len(
                    message(seq![field(1, whole(keys[i].0)), field(2, ValueView::Len(keys[i].1))]),
                ),
            ),
    )
}

pub open spec fn key_message(k: (i32, Seq<u8>)) -> Seq<u8> {
    message(seq![field(1, whole(k.0)), field(2, ValueView::Len(k.1))])
}

proof fn lemma_key(k: (i32, Seq<u8>))
    requires
        short(k.1),
    ensures
        key_of(fields_from(key_message(k), 0), fields_from(key_message(k), 0).len() as int)
            == lossy_chars(k.1),
{
    let fs = seq![field(1, whole(k.0)), field(2, ValueView::Len(k.1))];
    lemma_message(fs);
    reveal_with_fuel(key_of, 3);
}

proof fn lemma_keys(fs: Seq<FieldView>, id: i32, name: Seq<u8>, keys: Seq<(i32, Seq<u8>)>, n: int)
    requires
        fs == kind_message(id, name, keys),
        0 <= n <= keys.len(),
        forall|i: int| 0 <= i < keys.len() ==> short((#[trigger] keys[i]).1),
    ensures
        described(fs, 2 + n) == (Described {
            id,
            name: lossy_chars(name),
            keys: Seq::new(n as nat, |i: int| lossy_chars(keys[i].1)),
        }),
    decreases n,
{
    if n == 0 {
        reveal_with_fuel(described, 3);
        assert(Seq::new(0, |i: int| lossy_chars(keys[i].1)) =~= Seq::empty());
    } else {
        lemma_keys(fs, id, name, keys, n - 1);
        lemma_key(keys[n - 1]);
        assert(fs[n + 1] == field(3, ValueView::Len(key_message(keys[n - 1]))));
        assert(Seq::new((n - 1) as nat, |i: int| lossy_chars(keys[i].1)).push(
            lossy_chars(keys[n - 1].1),
        ) =~= Seq::new(n as nat, |i: int| lossy_chars(keys[i].1)));
    }
}

/// A kind of event that was written is read back.
pub proof fn law_kind_round_trip(id: i32, name: Seq<u8>, keys: Seq<(i32, Seq<u8>)>)
    requires
        short(name),
        forall|i: int|
            0 <= i < keys.len() ==> short((#[trigger] keys[i]).1) && short(key_message(keys[i])),
    ensures
        description(message(kind_message(id, name, keys))) == (Described {
            id,
            name: lossy_chars(name),
            keys: Seq::new(keys.len(), |i: int| lossy_chars(keys[i].1)),
        }),
{
    let fs = kind_message(id, name, keys);
    assert forall|i: int| 0 <= i < fs.len() implies sendable(#[trigger] fs[i]) by {
        if i >= 2 {
            assert(short(key_message(keys[i - 2])));
        }
    }
    lemma_message(fs);
    lemma_keys(fs, id, name, keys, keys.len() as int);
}

/// An event: its number and its values.
pub open spec fn event_message(id: i32, vs: Seq<Told>) -> Seq<FieldView> {
    seq![field(2, whole(id))] + Seq::new(
        vs.len(),
        |i: int| field(3, ValueView::Len(message(told_message(vs[i])))),
    )
}

proof fn lemma_values(fs: Seq<FieldView>, id: i32, vs: Seq<Told>, n: int)
    requires
        fs == event_message(id, vs),
        0 <= n <= vs.len(),
        forall|i: int| 0 <= i < vs.len() ==> (#[trigger] vs[i] matches Told::Text(s) ==> short(s)),
    ensures
        sent(fs, 1 + n) == (Sent {
            name: Seq::empty(),
            id,
            values: Seq::new(n as nat, |i: int| told_said(vs[i])),
        }),
    decreases n,
{
    if n == 0 {
        reveal_with_fuel(sent, 2);
        assert(Seq::new(0, |i: int| told_said(vs[i])) =~= Seq::empty());
    } else {
        lemma_values(fs, id, vs, n - 1);
        law_told_round_trip(vs[n - 1]);
        assert(fs[n] == field(3, ValueView::Len(message(told_message(vs[n - 1])))));
        assert(Seq::new((n - 1) as nat, |i: int| told_said(vs[i])).push(told_said(vs[n - 1]))
            =~= Seq::new(n as nat, |i: int| told_said(vs[i])));
    }
}

/// An event that was written is read back, its values in their order.
pub proof fn law_event_round_trip(id: i32, vs: Seq<Told>)
    requires
        forall|i: int|
            0 <= i < vs.len() ==> (#[trigger] vs[i] matches Told::Text(s) ==> short(s)) && short(
                message(told_message(vs[i])),
            ),
    ensures
        ({
            let fs = fields_from(message(event_message(id, vs)), 0);
            sent(fs, fs.len() as int) == (Sent {
                name: Seq::empty(),
                id,
                values: Seq::new(vs.len(), |i: int| told_said(vs[i])),
            })
        }),
{
    let fs = event_message(id, vs);
    assert forall|i: int| 0 <= i < fs.len() implies sendable(#[trigger] fs[i]) by {
        if i >= 1 {
            assert(vs[i - 1] matches Told::Text(s) ==> short(s));
        }
    }
    lemma_message(fs);
    lemma_values(fs, id, vs, vs.len() as int);
}

} // verus!
