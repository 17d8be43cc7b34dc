//! What the wire format promises: numbers come back, and messages can be joined.
use super::reader::{
    continued, field_at, fields_from, groups, lemma_continued, lemma_field_progress, value_at, varint,
    whole_from, FieldView, ValueView, WireType,
};
use crate::bytes::u32_at;
use vstd::arithmetic::power2::{lemma2_to64, lemma_pow2_adds, lemma_pow2_strictly_increases, pow2};
use vstd::prelude::*;

verus! {

/// A varint reads the same whatever follows it.
proof fn lemma_continued_extends(a: Seq<u8>, b: Seq<u8>, pos: int)
    requires
        0 <= pos,
        pos + continued(a, pos) < a.len(),
    ensures
        continued(a + b, pos) == continued(a, pos),
    decreases a.len() - pos,
{
    if a[pos] >= 0x80 {
        lemma_continued_extends(a, b, pos + 1);
    }
}

proof fn lemma_groups_extends(a: Seq<u8>, b: Seq<u8>, pos: int, n: nat)
    requires
        0 <= pos,
        pos + n <= a.len(),
    ensures
        groups(a + b, pos, n) == groups(a, pos, n),
    decreases n,
{
    if n > 0 {
        lemma_groups_extends(a, b, pos, (n - 1) as nat);
    }
}

pub proof fn lemma_varint_extends(a: Seq<u8>, b: Seq<u8>, pos: int)
    requires
        0 <= pos,
        varint(a, pos).0 is Ok,
    ensures
        varint(a + b, pos) == varint(a, pos),
        pos < varint(a, pos).1 <= a.len(),
{
    lemma_continued(a, pos);
    lemma_continued_extends(a, b, pos);
    lemma_groups_extends(a, b, pos, (continued(a, pos) + 1) as nat);
}

proof fn lemma_shift_continued(a: Seq<u8>, b: Seq<u8>, pos: int)
    requires
        0 <= pos,
    ensures
        continued(a + b, a.len() + pos) == continued(b, pos),
    decreases b.len() - pos,
{
    if pos < b.len() {
        lemma_shift_continued(a, b, pos + 1);
    }
}

proof fn lemma_shift_groups(a: Seq<u8>, b: Seq<u8>, pos: int, n: nat)
    requires
        0 <= pos,
        pos + n <= b.len(),
    ensures
        groups(a + b, a.len() + pos, n) == groups(b, pos, n),
    decreases n,
{
    if n > 0 {
        lemma_shift_groups(a, b, pos, (n - 1) as nat);
        assert((a + b)[a.len() + pos + n - 1] == b[pos + n - 1]);
    }
}

pub proof fn lemma_shift_varint(a: Seq<u8>, b: Seq<u8>, pos: int)
    requires
        0 <= pos <= b.len(),
    ensures
        varint(a + b, a.len() + pos) == (varint(b, pos).0, varint(b, pos).1 + a.len()),
{
    lemma_shift_continued(a, b, pos);
    lemma_continued(b, pos);
    if varint(b, pos).0 is Ok {
        lemma_shift_groups(a, b, pos, (continued(b, pos) + 1) as nat);
    }
}

/// The varint of `n`: seven bits to a byte, the lowest first.
pub open spec fn encoded(n: nat) -> Seq<u8>
    decreases n,
{
    if n < 0x80 {
        seq![n as u8]
    } else {
        seq![(0x80 + n % 0x80) as u8] + encoded(n / 0x80)
    }
}

proof fn lemma_encoded_len(n: nat, k: nat)
    requires
        k >= 1,
        n < pow2(7 * k),
    ensures
        1 <= encoded(n).len() <= k,
    decreases k,
{
    lemma2_to64();
    if n >= 0x80 {
        assert(k > 1);
        let j = (k - 1) as nat;
        lemma_pow2_adds(7 * j, 7);
        assert(pow2(7 * k) == pow2(7 * j) * 128);
        assert(n / 0x80 < pow2(7 * j));
        lemma_encoded_len(n / 0x80, j);
    }
}

/// The first byte holds the lowest bits.
proof fn lemma_groups_first(d: Seq<u8>, pos: int, n: nat)
    ensures
        groups(d, pos, n + 1) == d[pos] % 0x80 + 0x80 * groups(d, pos + 1, n),
    decreases n,
{
    lemma2_to64();
    if n == 0 {
        assert(groups(d, pos, 0) == 0);
        assert(groups(d, pos + 1, 0) == 0);
        assert((d[pos] % 0x80) * pow2(0) == d[pos] % 0x80);
    } else {
        let j = (n - 1) as nat;
        lemma_groups_first(d, pos, j);
        lemma_pow2_adds(7 * j, 7);
        let g = (d[pos + n] % 0x80) as int;
        let w = pow2(7 * j) as int;
        assert(pow2(7 * n) == w * 128);
        assert(d[pos + 1 + n - 1] == d[pos + n]);
        assert(groups(d, pos + 1, n) == groups(d, pos + 1, j) + g * w);
        assert(g * (w * 128) == 128 * (g * w)) by (nonlinear_arith);
    }
}

proof fn lemma_encoded_reads(d: Seq<u8>, pos: int, n: nat)
    requires
        0 <= pos,
        pos + encoded(n).len() <= d.len(),
        d.subrange(pos, pos + encoded(n).len()) == encoded(n),
    ensures
        encoded(n).len() >= 1,
        continued(d, pos) == encoded(n).len() - 1,
        groups(d, pos, encoded(n).len()) == n,
    decreases n,
{
    let e = encoded(n);
    let k = e.len();
    lemma2_to64();
    if n < 0x80 {
        assert(k == 1);
        assert(d[pos] == d.subrange(pos, pos + 1)[0]);
        lemma_groups_first(d, pos, 0);
    } else {
        let rest = encoded(n / 0x80);
        assert(k == 1 + rest.len());
        assert(d[pos] == d.subrange(pos, pos + k)[0]);
        assert(d.subrange(pos + 1, pos + 1 + rest.len()) =~= rest) by {
            assert forall|i: int| 0 <= i < rest.len() implies d[pos + 1 + i] == rest[i] by {
                assert(d.subrange(pos, pos + k)[i + 1] == e[i + 1]);
            }
        }
        lemma_encoded_reads(d, pos + 1, n / 0x80);
        lemma_groups_first(d, pos, rest.len());
    }
}

/// A number that is written is read back, whatever follows it.
pub proof fn law_varint_round_trip(n: u64, rest: Seq<u8>)
    ensures
        varint(encoded(n as nat) + rest, 0) == (
            Ok::<u64, super::Error>(n),
            encoded(n as nat).len() as int,
        ),
{
    let e = encoded(n as nat);
    let d = e + rest;
    lemma2_to64();
    lemma_pow2_strictly_increases(64, 70);
    lemma_encoded_len(n as nat, 10);
    assert(d.subrange(0, e.len() as int) =~= e);
    lemma_encoded_reads(d, 0, n as nat);
}

proof fn lemma_value_extends(a: Seq<u8>, b: Seq<u8>, pos: int, w: WireType)
    requires
        0 <= pos,
        value_at(a, pos, w).0 is Ok,
    ensures
        value_at(a + b, pos, w) == value_at(a, pos, w),
{
    match w {
        WireType::Varint => {
            lemma_varint_extends(a, b, pos);
        },
        WireType::Len => {
            lemma_varint_extends(a, b, pos);
            let (v, p) = varint(a, pos);
            let n = v->Ok_0 as usize;
            assert((a + b).subrange(p, p + n) =~= a.subrange(p, p + n));
        },
        _ => {},
    }
}

proof fn lemma_field_extends(a: Seq<u8>, b: Seq<u8>, pos: int)
    requires
        0 <= pos,
        field_at(a, pos).0 matches Ok(Some(_)),
    ensures
        field_at(a + b, pos) == field_at(a, pos),
{
    lemma_varint_extends(a, b, pos);
    let (tag, p) = varint(a, pos);
    let w = WireType::of_tag((tag->Ok_0 % 8) as u8);
    lemma_value_extends(a, b, p, w->Ok_0);
}

proof fn lemma_shift_value(a: Seq<u8>, b: Seq<u8>, pos: int, w: WireType)
    requires
        0 <= pos <= b.len(),
    ensures
        value_at(a + b, a.len() + pos, w) == (value_at(b, pos, w).0, value_at(b, pos, w).1 + a.len()),
{
    match w {
        WireType::Varint => {
            lemma_shift_varint(a, b, pos);
        },
        WireType::Len => {
            lemma_shift_varint(a, b, pos);
            lemma_continued(b, pos);
            if varint(b, pos).0 is Ok {
                let (v, p) = varint(b, pos);
                let n = v->Ok_0 as usize;
                if p + n <= b.len() {
                    assert((a + b).subrange(a.len() + p, a.len() + p + n) =~= b.subrange(p, p + n));
                }
            }
        },
        _ => {},
    }
}

proof fn lemma_shift_whole(a: Seq<u8>, b: Seq<u8>, pos: int)
    requires
        0 <= pos <= b.len(),
    ensures
        whole_from(a + b, a.len() + pos) == whole_from(b, pos),
    decreases b.len() - pos,
{
    if pos < b.len() {
        lemma_shift_varint(a, b, pos);
        lemma_continued(b, pos);
        if varint(b, pos).0 is Ok {
            let (tag, p) = varint(b, pos);
            let w = WireType::of_tag((tag->Ok_0 % 8) as u8);
            if w is Ok {
                lemma_shift_value(a, b, p, w->Ok_0);
                if value_at(b, p, w->Ok_0).0 is Ok {
                    lemma_field_progress(b, pos);
                    lemma_shift_whole(a, b, field_at(b, pos).1);
                }
            }
        }
    }
}

/// Messages can be joined: the fields of two, one behind the other, are those of the
/// first and then those of the second.
pub proof fn law_messages_join(a: Seq<u8>, b: Seq<u8>, pos: int)
    requires
        0 <= pos <= a.len(),
        whole_from(a, pos) is Some,
    ensures
        whole_from(a + b, pos) == match whole_from(b, 0) {
            Some(more) => Some(whole_from(a, pos)->0 + more),
            None => None::<Seq<FieldView>>,
        },
    decreases a.len() - pos,
{
    match field_at(a, pos) {
        (Ok(Some(f)), p) => {
            lemma_field_progress(a, pos);
            lemma_field_extends(a, b, pos);
            law_messages_join(a, b, p);
            match whole_from(b, 0) {
                Some(more) => {
                    let rest = whole_from(a, p)->0;
                    assert(seq![f] + (rest + more) =~= (seq![f] + rest) + more);
                },
                None => {},
            }
        },
        _ => {
            lemma_shift_whole(a, b, 0);
            match whole_from(b, 0) {
                Some(more) => {
                    assert(Seq::<FieldView>::empty() + more =~= more);
                },
                None => {},
            }
        },
    }
}

/// A number in four bytes, the lowest first.
pub open spec fn four_bytes(v: nat) -> Seq<u8> {
    seq![
        (v % 0x100) as u8,
        (v / 0x100 % 0x100) as u8,
        (v / 0x1_0000 % 0x100) as u8,
        (v / 0x100_0000 % 0x100) as u8,
    ]
}

/// The number of a value's wire type.
pub open spec fn wire_of(v: ValueView) -> nat {
    match v {
        ValueView::Varint(_) => 0,
        ValueView::Fixed64(_) => 1,
        ValueView::Len(_) => 2,
        ValueView::Fixed32(_) => 5,
    }
}

/// A value as it is sent.
pub open spec fn encoded_value(v: ValueView) -> Seq<u8> {
    match v {
        ValueView::Varint(n) => encoded(n as nat),
        ValueView::Fixed64(n) => four_bytes((n % 0x1_0000_0000) as nat) + four_bytes(
            (n / 0x1_0000_0000) as nat,
        ),
        ValueView::Len(b) => encoded(b.len()) + b,
        ValueView::Fixed32(n) => four_bytes(n as nat),
    }
}

/// A field as it is sent: its tag and its value.
pub open spec fn encoded_field(f: FieldView) -> Seq<u8> {
    encoded(8 * f.number as nat + wire_of(f.value)) + encoded_value(f.value)
}

/// The first `n` fields as they are sent, one behind the other.
pub open spec fn encoded_fields(fs: Seq<FieldView>, n: int) -> Seq<u8>
    decreases n,
{
    if n <= 0 {
        Seq::empty()
    } else {
        encoded_fields(fs, n - 1) + encoded_field(fs[n - 1])
    }
}

/// A field whose bytes can be counted.
pub open spec fn sendable(f: FieldView) -> bool {
    f.value matches ValueView::Len(b) ==> b.len() <= usize::MAX
}

proof fn lemma_four_bytes(d: Seq<u8>, pos: int, v: nat)
    requires
        v < 0x1_0000_0000,
        0 <= pos,
        pos + 4 <= d.len(),
        d.subrange(pos, pos + 4) == four_bytes(v),
    ensures
        u32_at(d, pos) == v,
{
    let b = four_bytes(v);
    let e = d.subrange(pos, pos + 4);
    assert(e[0] == d[pos] && e[1] == d[pos + 1] && e[2] == d[pos + 2] && e[3] == d[pos + 3]);
    let (q1, q2, q3) = (v / 0x100, v / 0x1_0000, v / 0x100_0000);
    assert(q2 == q1 / 0x100);
    assert(q3 == q2 / 0x100);
    assert(v == v % 0x100 + 0x100 * q1);
    assert(q1 == q1 % 0x100 + 0x100 * q2);
    assert(q2 == q2 % 0x100 + 0x100 * q3);
    assert(q3 < 0x100);
}

proof fn lemma_value_reads(v: ValueView, rest: Seq<u8>, w: WireType)
    requires
        WireType::of_tag(wire_of(v) as u8) == Ok::<WireType, super::Error>(w),
        sendable(FieldView { number: 0, value: v }),
    ensures
        value_at(encoded_value(v) + rest, 0, w) == (
            Ok::<ValueView, super::Error>(v),
            encoded_value(v).len() as int,
        ),
{
    let e = encoded_value(v);
    let d = e + rest;
    match v {
        ValueView::Varint(n) => {
            law_varint_round_trip(n, rest);
        },
        ValueView::Fixed64(n) => {
            let (lo, hi) = ((n % 0x1_0000_0000) as nat, (n / 0x1_0000_0000) as nat);
            assert(d.subrange(0, 4) =~= four_bytes(lo));
            assert(d.subrange(4, 8) =~= four_bytes(hi));
            lemma_four_bytes(d, 0, lo);
            lemma_four_bytes(d, 4, hi);
        },
        ValueView::Len(b) => {
            let more = b + rest;
            assert(d =~= encoded(b.len()) + more);
            law_varint_round_trip(b.len() as u64, more);
            let p = encoded(b.len()).len() as int;
            assert(d.subrange(p, p + b.len()) =~= b);
        },
        ValueView::Fixed32(n) => {
            assert(d.subrange(0, 4) =~= four_bytes(n as nat));
            lemma_four_bytes(d, 0, n as nat);
        },
    }
}

/// A field that is sent is read back, whatever follows it, and with the kind of value
/// that it was sent with.
pub proof fn law_field_round_trip(f: FieldView, rest: Seq<u8>)
    requires
        sendable(f),
    ensures
        field_at(encoded_field(f) + rest, 0) == (
            Ok::<Option<FieldView>, super::Error>(Some(f)),
            encoded_field(f).len() as int,
        ),
{
    let tag = 8 * f.number as nat + wire_of(f.value);
    let a = encoded(tag);
    let more = encoded_value(f.value) + rest;
    let d = encoded_field(f) + rest;
    assert(d =~= a + more);
    law_varint_round_trip(tag as u64, more);
    let w = WireType::of_tag(wire_of(f.value) as u8)->Ok_0;
    assert(tag % 8 == wire_of(f.value));
    assert(tag / 8 == f.number);
    lemma_value_reads(f.value, rest, w);
    lemma_shift_value(a, more, 0, w);
}

/// Fields that are sent one behind the other are read back as they were sent, each
/// where the one before it ends, and then nothing.
pub proof fn law_fields_round_trip(fs: Seq<FieldView>, n: int)
    requires
        0 <= n <= fs.len(),
        forall|i: int| 0 <= i < fs.len() ==> sendable(#[trigger] fs[i]),
    ensures
        whole_from(encoded_fields(fs, n), 0) == Some(fs.take(n)),
        fields_from(encoded_fields(fs, n), 0) == fs.take(n),
    decreases n,
{
    let d = encoded_fields(fs, n);
    if n <= 0 {
        assert(fs.take(n) =~= Seq::empty());
    } else {
        let a = encoded_fields(fs, n - 1);
        let f = fs[n - 1];
        let b = encoded_field(f);
        law_fields_round_trip(fs, n - 1);
        assert(sendable(f));
        law_field_round_trip(f, Seq::empty());
        assert(b + Seq::<u8>::empty() =~= b);
        lemma_field_progress(b, 0);
        assert(field_at(b, b.len() as int).0 == Ok::<Option<FieldView>, super::Error>(None));
        assert(whole_from(b, b.len() as int) == Some(Seq::<FieldView>::empty()));
        assert(seq![f] + Seq::<FieldView>::empty() =~= seq![f]);
        assert(whole_from(b, 0) == Some(seq![f]));
        law_messages_join(a, b, 0);
        assert(fs.take(n - 1) + seq![f] =~= fs.take(n));
    }
    lemma_whole_is_fields(d, 0);
}

proof fn lemma_whole_is_fields(d: Seq<u8>, pos: int)
    requires
        0 <= pos <= d.len(),
        whole_from(d, pos) is Some,
    ensures
        fields_from(d, pos) == whole_from(d, pos)->0,
    decreases d.len() - pos,
{
    if field_at(d, pos).0 matches Ok(Some(_)) {
        lemma_field_progress(d, pos);
        lemma_whole_is_fields(d, field_at(d, pos).1);
    }
}

/// The same, field by field: behind the first `k` fields the next one is read, up to
/// where the first `k + 1` end; behind all of them nothing is.
pub proof fn law_fields_read_in_turn(fs: Seq<FieldView>, k: int)
    requires
        0 <= k <= fs.len(),
        forall|i: int| 0 <= i < fs.len() ==> sendable(#[trigger] fs[i]),
    ensures
        ({
            let d = encoded_fields(fs, fs.len() as int);
            let pos = encoded_fields(fs, k).len() as int;
            &&& k < fs.len() ==> field_at(d, pos) == (
                Ok::<Option<FieldView>, super::Error>(Some(fs[k])),
                encoded_fields(fs, k + 1).len() as int,
            )
            &&& k == fs.len() ==> field_at(d, pos) == (
                Ok::<Option<FieldView>, super::Error>(None),
                pos,
            )
        }),
{
    let n = fs.len() as int;
    if k < n {
        let a = encoded_fields(fs, k);
        let b = encoded_field(fs[k]);
        let rest = lemma_fields_split(fs, k + 1, n);
        let more = b + rest;
        assert(encoded_fields(fs, n) =~= a + more);
        assert(sendable(fs[k]));
        law_field_round_trip(fs[k], rest);
        lemma_shift_varint(a, more, 0);
        let (tag, p) = varint(more, 0);
        lemma_continued(more, 0);
        let w = WireType::of_tag((tag->Ok_0 % 8) as u8);
        lemma_shift_value(a, more, p, w->Ok_0);
        lemma_field_progress(more, 0);
    }
}

proof fn lemma_fields_split(fs: Seq<FieldView>, k: int, n: int) -> (rest: Seq<u8>)
    requires
        0 <= k <= n,
    ensures
        encoded_fields(fs, n) == encoded_fields(fs, k) + rest,
    decreases n,
{
    if k == n {
        assert(encoded_fields(fs, k) + Seq::<u8>::empty() =~= encoded_fields(fs, k));
        Seq::empty()
    } else {
        let r = lemma_fields_split(fs, k, n - 1);
        let e = encoded_field(fs[n - 1]);
        assert((encoded_fields(fs, k) + r) + e =~= encoded_fields(fs, k) + (r + e));
        r + e
    }
}

} // verus!
