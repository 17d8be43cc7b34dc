//! Deltas and entity updates as a GoldSrc server writes them.
use super::delta::{delta_at, field_at, last_num, last_of, marked_from, masks_at, number_at,
    toward_zero, whole_divisor, ChangeView, DValView, FieldView, Num, Place, DT_ANGLE, DT_FRACTION,
    DT_SIGNED, DT_STRING, DT_WHOLE};
use super::entities::{applied, baselines_from, described, facings_of, full_from, full_head, if_bit,
    next_index, partial_from, samples_of, step_index, with_table, Facing, Net, Sample, StateTables,
    TablesView};
use crate::bits::{bit_at, bits_at};
use crate::text::lossy_chars;
use crate::written::{bits_of, bits_of_bytes, bits_of_text, flag, lemma_bits_len, lemma_bytes_len,
    lemma_number_stands, lemma_set_at, lemma_stands_split, no_zero, set_at, stands};
use vstd::arithmetic::power2::{lemma2_to64, lemma_pow2_adds, lemma_pow2_pos, lemma_pow2_unfold,
    pow2};
use vstd::prelude::*;

verus! {

impl Place {
    /// Whether bits stand where the reader does.
    #[verifier::opaque]
    pub open spec fn holds(self, b: Seq<bool>) -> bool {
        stands(self.d, self.pos, b)
    }

    /// Behind the bits.
    pub open spec fn past(self, b: Seq<bool>) -> Place {
        Place { d: self.d, pos: self.pos + b.len() }
    }

    pub proof fn lemma_holds(self, a: Seq<bool>, b: Seq<bool>)
        requires
            self.holds(a + b),
        ensures
            self.holds(a),
            self.past(a).holds(b),
            self.adv(a.len() as int) == self.past(a),
            !self.over(),
            !self.past(a).over(),
            self.valid(),
            self.past(a).valid(),
    {
        reveal(Place::holds);
        lemma_stands_split(self.d, self.pos, a, b);
    }

    /// A number that was written is read back.
    pub proof fn lemma_number(self, v: int, n: nat, rest: Seq<bool>)
        requires
            n <= 32,
            0 <= v < pow2(n),
            self.holds(bits_of(v, n) + rest),
        ensures
            self.val(n as int) == v,
            self.adv(n as int) == self.past(bits_of(v, n)),
            self.past(bits_of(v, n)).holds(rest),
            !self.over(),
            !self.past(bits_of(v, n)).over(),
    {
        self.lemma_holds(bits_of(v, n), rest);
        lemma_bits_len(v, n);
        reveal(Place::holds);
        lemma_number_stands(self.d, self.pos, v, n);
    }

    pub proof fn lemma_flag(self, b: bool, rest: Seq<bool>)
        requires
            self.holds(flag(b) + rest),
        ensures
            (self.val(1) != 0) == b,
            self.adv(1) == self.past(flag(b)),
            self.past(flag(b)).holds(rest),
            !self.over(),
    {
        let v = if b {
            1int
        } else {
            0
        };
        lemma2_to64();
        assert(bits_of(v, 1) =~= flag(b)) by {
            assert(bits_of(v / 2, 0) =~= Seq::empty());
        }
        self.lemma_number(v, 1, rest);
    }

    /// Where a bit among the next `n` is set, they are no zero.
    proof fn lemma_not_zero(self, b: Seq<bool>, i: int, n: int)
        requires
            self.holds(b),
            0 <= i < b.len(),
            i < n <= 32,
            b[i],
        ensures
            self.val(n) != 0,
            self.valid(),
            !self.over(),
    {
        reveal(Place::holds);
        let m = self.avail(n) as nat;
        assert(i < m);
        assert(set_at(self.d, self.pos + i) == b[i]);
        lemma_set_at(self.d, self.pos + i);
        lemma_some_bit(self.d, self.pos, m, i);
    }

    /// A text that was written is read back, up to the zero that ends it.
    #[verifier::rlimit(50)]
    pub proof fn law_text_reads(self, s: Seq<u8>, rest: Seq<bool>)
        requires
            no_zero(s),
            self.holds(bits_of_text(s) + rest),
        ensures
            self.string() == (s, self.past(bits_of_text(s))),
            self.past(bits_of_text(s)).holds(rest),
            !self.past(bits_of_text(s)).over(),
        decreases s.len(),
    {
        lemma2_to64();
        lemma_bits_len(0, 8);
        lemma_bytes_len(s);
        self.lemma_holds(bits_of_text(s), rest);
        if s.len() == 0 {
            assert(bits_of_text(s) + rest =~= bits_of(0, 8) + rest);
            self.lemma_number(0, 8, rest);
            assert(s =~= Seq::empty());
        } else {
            let t = s.drop_first();
            let more = bits_of_text(t) + rest;
            lemma_bits_len(s[0] as int, 8);
            lemma_bytes_len(t);
            assert(bits_of_text(s) + rest =~= bits_of(s[0] as int, 8) + more);
            self.lemma_number(s[0] as int, 8, more);
            assert forall|i: int| 0 <= i < t.len() implies #[trigger] t[i] != 0 by {
                assert(t[i] == s[i + 1]);
            }
            let q = self.past(bits_of(s[0] as int, 8));
            q.law_text_reads(t, rest);
            assert(s =~= seq![s[0]] + t);
            assert(q.past(bits_of_text(t)) == self.past(bits_of_text(s)));
        }
    }
}

proof fn lemma_some_bit(d: Seq<u8>, pos: int, n: nat, i: int)
    requires
        0 <= i < n,
        bit_at(d, pos + i) == 1,
    ensures
        bits_at(d, pos, n) > 0,
    decreases n,
{
    let m = (n - 1) as nat;
    crate::bits::lemma_bits_bound(d, pos, m);
    lemma_pow2_pos(m);
    let (x, w) = (bit_at(d, pos + m), pow2(m) as int);
    assert(x * w >= 0) by (nonlinear_arith)
        requires
            x >= 0,
            w >= 0,
    ;
    if i == m {
        assert(x * w == w) by (nonlinear_arith)
            requires
                x == 1,
        ;
    } else {
        lemma_some_bit(d, pos, m, i);
    }
}

/// A value of a field.
pub enum Told {
    /// A number in as many parts as the field has.
    Number(int),
    Text(Seq<u8>),
}

/// What kind of a field it is: whole, a fraction, a share of a turn, a text, or nothing
/// that is sent.
pub enum Sort {
    Whole,
    Fraction,
    Turn,
    Text,
    Nothing,
}

pub open spec fn sort_of(f: FieldView) -> Sort {
    if f.flags & DT_WHOLE != 0 {
        Sort::Whole
    } else if f.flags & DT_FRACTION != 0 {
        Sort::Fraction
    } else if f.flags & DT_ANGLE != 0 {
        Sort::Turn
    } else if f.flags & DT_STRING != 0 {
        Sort::Text
    } else {
        Sort::Nothing
    }
}

/// A number: with a sign, its sign and then its magnitude in one bit less.
pub open spec fn number_bits(f: FieldView, v: int) -> Seq<bool> {
    if f.flags & DT_SIGNED != 0 {
        flag(v < 0) + bits_of(
            if v < 0 {
                -v
            } else {
                v
            },
            (f.bits - 1) as nat,
        )
    } else {
        bits_of(v, f.bits as nat)
    }
}

pub open spec fn number_fits(f: FieldView, v: int) -> bool {
    if f.flags & DT_SIGNED != 0 {
        1 <= f.bits <= 33 && -pow2((f.bits - 1) as nat) < v < pow2((f.bits - 1) as nat)
    } else {
        f.bits <= 32 && 0 <= v < pow2(f.bits as nat)
    }
}

/// A field as it is written.
#[verifier::opaque]
pub open spec fn told_bits(f: FieldView, v: Told) -> Seq<bool> {
    match (sort_of(f), v) {
        (Sort::Whole, Told::Number(n)) => number_bits(f, n),
        (Sort::Fraction, Told::Number(n)) => number_bits(f, n),
        (Sort::Turn, Told::Number(n)) => bits_of(n, f.bits as nat),
        (Sort::Text, Told::Text(s)) => bits_of_text(s),
        _ => Seq::empty(),
    }
}

#[verifier::opaque]
pub open spec fn told_fits(f: FieldView, v: Told) -> bool {
    match (sort_of(f), v) {
        (Sort::Whole, Told::Number(n)) => number_fits(f, n),
        (Sort::Fraction, Told::Number(n)) => number_fits(f, n),
        (Sort::Turn, Told::Number(n)) => f.bits <= 32 && 0 <= n < pow2(f.bits as nat),
        (Sort::Text, Told::Text(s)) => no_zero(s),
        (Sort::Nothing, _) => true,
        _ => false,
    }
}

/// What a field that was written is.
#[verifier::opaque]
pub open spec fn told_value(f: FieldView, v: Told) -> DValView {
    match (sort_of(f), v) {
        (Sort::Whole, Told::Number(n)) => DValView::Num(
            Num::Whole(toward_zero(n, whole_divisor(f.divisor)) as i64),
        ),
        (Sort::Fraction, Told::Number(n)) => DValView::Num(Num::Ratio(n as i64, f.divisor)),
        (Sort::Turn, Told::Number(n)) => DValView::Num(Num::Turn(n as u32, f.bits)),
        (Sort::Text, Told::Text(s)) => DValView::Str(lossy_chars(s)),
        _ => DValView::Num(Num::Whole(0)),
    }
}

/// A quotient that is cut toward zero: of its magnitude no larger one fits in the
/// number's, and its sign is the number's.
pub proof fn law_toward_zero(v: int, d: int)
    requires
        d >= 1,
    ensures
        v >= 0 ==> 0 <= toward_zero(v, d) && toward_zero(v, d) * d <= v < (toward_zero(v, d) + 1) * d,
        toward_zero(-v, d) == -toward_zero(v, d),
{
    let a = if v >= 0 {
        v
    } else {
        -v
    };
    vstd::arithmetic::div_mod::lemma_fundamental_div_mod(a, d);
    vstd::arithmetic::div_mod::lemma_mod_bound(a, d);
    vstd::arithmetic::div_mod::lemma_div_pos_is_pos(a, d);
    let q = a / d;
    assert(q * d == d * q && (q + 1) * d == d * q + d) by (nonlinear_arith);
    if v == 0 {
        assert(0int / d == 0) by (nonlinear_arith)
            requires
                d >= 1,
        ;
    }
}

proof fn lemma_number(f: FieldView, v: int, p: Place, rest: Seq<bool>)
    requires
        number_fits(f, v),
        p.holds(number_bits(f, v) + rest),
    ensures
        number_at(f, p) == (v, p.past(number_bits(f, v))),
        p.past(number_bits(f, v)).holds(rest),
{
    let all = number_bits(f, v);
    if f.flags & DT_SIGNED != 0 {
        let a = if v < 0 {
            -v
        } else {
            v
        };
        let n = (f.bits - 1) as nat;
        let b = bits_of(a, n);
        lemma_bits_len(a, n);
        assert(all + rest =~= flag(v < 0) + (b + rest));
        p.lemma_flag(v < 0, b + rest);
        p.past(flag(v < 0)).lemma_number(a, n, rest);
        assert(p.past(flag(v < 0)).past(b) == p.past(all));
    } else {
        p.lemma_number(v, f.bits as nat, rest);
    }
}

/// A field that was written is read back.
pub proof fn law_told_round_trip(f: FieldView, v: Told, p: Place, rest: Seq<bool>)
    requires
        told_fits(f, v),
        p.holds(told_bits(f, v) + rest),
    ensures
        field_at(f, p) == (told_value(f, v), p.past(told_bits(f, v))),
        p.past(told_bits(f, v)).holds(rest),
        !p.past(told_bits(f, v)).over(),
{
    reveal(told_bits);
    reveal(told_fits);
    reveal(told_value);
    p.lemma_holds(told_bits(f, v), rest);
    match (sort_of(f), v) {
        (Sort::Whole, Told::Number(n)) => lemma_number(f, n, p, rest),
        (Sort::Fraction, Told::Number(n)) => lemma_number(f, n, p, rest),
        (Sort::Turn, Told::Number(n)) => p.lemma_number(n, f.bits as nat, rest),
        (Sort::Text, Told::Text(s)) => p.law_text_reads(s, rest),
        _ => {},
    }
}

/// The marked fields from the `i`-th on, in the order of the table.
pub open spec fn marked_bits(t: Seq<FieldView>, masks: Seq<u8>, vs: Seq<Told>, i: int) -> Seq<bool>
    decreases 8 * masks.len() - i,
{
    if i < 0 || i >= 8 * masks.len() || i >= t.len() {
        Seq::empty()
    } else if set_at(masks, i) {
        told_bits(t[i], vs[i]) + marked_bits(t, masks, vs, i + 1)
    } else {
        marked_bits(t, masks, vs, i + 1)
    }
}

/// The changes that the marked fields are.
pub open spec fn marked_changes(t: Seq<FieldView>, masks: Seq<u8>, vs: Seq<Told>, i: int) -> Seq<ChangeView>
    decreases 8 * masks.len() - i,
{
    if i < 0 || i >= 8 * masks.len() || i >= t.len() {
        Seq::empty()
    } else if set_at(masks, i) {
        seq![ChangeView { name: t[i].name, val: told_value(t[i], vs[i]) }] + marked_changes(
            t,
            masks,
            vs,
            i + 1,
        )
    } else {
        marked_changes(t, masks, vs, i + 1)
    }
}

pub open spec fn delta_fits(t: Seq<FieldView>, masks: Seq<u8>, vs: Seq<Told>) -> bool {
    &&& masks.len() <= 7
    &&& vs.len() == t.len()
    &&& forall|i: int| 0 <= i < t.len() ==> told_fits(#[trigger] t[i], vs[i])
}

/// A delta: how many bytes of marks, the marks, and the fields that they mark.
#[verifier::opaque]
pub open spec fn delta_bits(t: Seq<FieldView>, masks: Seq<u8>, vs: Seq<Told>) -> Seq<bool> {
    bits_of(masks.len() as int, 3) + (bits_of_bytes(masks) + marked_bits(t, masks, vs, 0))
}

proof fn lemma_masks(masks: Seq<u8>, p: Place, rest: Seq<bool>)
    requires
        p.holds(bits_of_bytes(masks) + rest),
    ensures
        masks_at(p, masks.len() as int) == (masks, p.past(bits_of_bytes(masks))),
        p.past(bits_of_bytes(masks)).holds(rest),
    decreases masks.len(),
{
    lemma2_to64();
    lemma_bytes_len(masks);
    if masks.len() == 0 {
        assert(bits_of_bytes(masks) + rest =~= rest);
        assert(p.past(bits_of_bytes(masks)) == p);
        assert(masks =~= Seq::empty());
    } else {
        let m = masks.drop_last();
        let x = masks.last();
        lemma_bytes_last(masks);
        lemma_bytes_len(m);
        lemma_bits_len(x as int, 8);
        let b = bits_of(x as int, 8);
        assert(bits_of_bytes(masks) + rest =~= bits_of_bytes(m) + (b + rest));
        lemma_masks(m, p, b + rest);
        p.past(bits_of_bytes(m)).lemma_number(x as int, 8, rest);
        assert(m.push(x) =~= masks);
        assert(p.past(bits_of_bytes(m)).past(b) == p.past(bits_of_bytes(masks)));
    }
}

proof fn lemma_bytes_last(s: Seq<u8>)
    requires
        s.len() > 0,
    ensures
        bits_of_bytes(s) == bits_of_bytes(s.drop_last()) + bits_of(s.last() as int, 8),
    decreases s.len(),
{
    if s.len() == 1 {
        assert(s.drop_first() =~= Seq::<u8>::empty());
        assert(s.drop_last() =~= Seq::<u8>::empty());
        assert(bits_of_bytes(s) =~= bits_of_bytes(s.drop_last()) + bits_of(s.last() as int, 8));
    } else {
        lemma_bytes_last(s.drop_first());
        assert(s.drop_first().drop_last() =~= s.drop_last().drop_first());
        assert(bits_of_bytes(s) =~= bits_of_bytes(s.drop_last()) + bits_of(s.last() as int, 8));
    }
}

proof fn lemma_marked(t: Seq<FieldView>, masks: Seq<u8>, vs: Seq<Told>, i: int, p: Place, rest: Seq<bool>)
    requires
        delta_fits(t, masks, vs),
        0 <= i <= 8 * masks.len(),
        p.holds(marked_bits(t, masks, vs, i) + rest),
    ensures
        marked_from(t, masks, i, p) == (
            marked_changes(t, masks, vs, i),
            p.past(marked_bits(t, masks, vs, i)),
        ),
        p.past(marked_bits(t, masks, vs, i)).holds(rest),
    decreases 8 * masks.len() - i,
{
    let all = marked_bits(t, masks, vs, i);
    p.lemma_holds(all, rest);
    if i >= 8 * masks.len() || i >= t.len() {
        assert(all + rest =~= rest);
        assert(p.past(all) == p);
    } else {
        lemma_set_at(masks, i);
        if set_at(masks, i) {
            let (a, b) = (told_bits(t[i], vs[i]), marked_bits(t, masks, vs, i + 1));
            assert(all + rest =~= a + (b + rest));
            law_told_round_trip(t[i], vs[i], p, b + rest);
            lemma_marked(t, masks, vs, i + 1, p.past(a), rest);
            assert(p.past(a).past(b) == p.past(all));
        } else {
            lemma_marked(t, masks, vs, i + 1, p, rest);
            let more = marked_changes(t, masks, vs, i + 1);
            assert(Seq::<ChangeView>::empty() + more =~= more);
        }
    }
}

/// A delta that was written is read back: the fields that are marked, each under its
/// name and with its value.
pub proof fn law_delta_round_trip(t: Seq<FieldView>, masks: Seq<u8>, vs: Seq<Told>, p: Place, rest: Seq<bool>)
    requires
        delta_fits(t, masks, vs),
        p.holds(delta_bits(t, masks, vs) + rest),
    ensures
        delta_at(t, p) == (marked_changes(t, masks, vs, 0), p.past(delta_bits(t, masks, vs))),
        p.past(delta_bits(t, masks, vs)).holds(rest),
        !p.past(delta_bits(t, masks, vs)).over(),
{
    reveal(delta_bits);
    lemma2_to64();
    let all = delta_bits(t, masks, vs);
    p.lemma_holds(all, rest);
    let n = masks.len() as int;
    let (a, b) = (bits_of_bytes(masks), marked_bits(t, masks, vs, 0));
    lemma_bits_len(n, 3);
    assert(all + rest =~= bits_of(n, 3) + (a + (b + rest)));
    p.lemma_number(n, 3, a + (b + rest));
    let q = p.past(bits_of(n, 3));
    lemma_masks(masks, q, b + rest);
    lemma_marked(t, masks, vs, 0, q.past(a), rest);
    assert(q.past(a).past(b) == p.past(all));
}

/// How the number of an entity is written.
pub enum How {
    /// It is the next one; only in a full update.
    Next,
    /// As itself.
    Given,
    /// As the step from the one before.
    Step,
}

/// The number of an entity behind `last`.
#[verifier::opaque]
pub open spec fn index_bits(full: bool, last: int, i: int, how: How) -> Seq<bool> {
    let b = match how {
        How::Given => flag(true) + bits_of(i, 11),
        _ => flag(false) + bits_of(i - last, 6),
    };
    if how is Next {
        flag(true)
    } else if full {
        flag(false) + b
    } else {
        b
    }
}

pub open spec fn index_fits(full: bool, last: int, i: int, how: How) -> bool {
    &&& 0 <= last < i < 0x1_0000
    &&& match how {
        How::Next => full && i == last + 1,
        How::Given => i < 2048,
        How::Step => i - last < 64,
    }
}

proof fn lemma_step(last: int, i: int, how: How, p: Place, rest: Seq<bool>)
    requires
        index_fits(false, last, i, how),
        p.holds(index_bits(false, last, i, how) + rest),
    ensures
        step_index(p, last) == (i, p.past(index_bits(false, last, i, how))),
        p.past(index_bits(false, last, i, how)).holds(rest),
{
    reveal(index_bits);
    lemma2_to64();
    lemma_pow2_adds(8, 3);
    let all = index_bits(false, last, i, how);
    match how {
        How::Given => {
            let b = bits_of(i, 11);
            assert(all + rest =~= flag(true) + (b + rest));
            p.lemma_flag(true, b + rest);
            p.past(flag(true)).lemma_number(i, 11, rest);
            assert(p.past(flag(true)).past(b) == p.past(all));
        },
        _ => {
            let b = bits_of(i - last, 6);
            assert(all + rest =~= flag(false) + (b + rest));
            p.lemma_flag(false, b + rest);
            p.past(flag(false)).lemma_number(i - last, 6, rest);
            assert(p.past(flag(false)).past(b) == p.past(all));
        },
    }
}

/// The number of an entity that was written is read back: a step names the entity that
/// many behind the last one.
pub proof fn law_index_round_trip(full: bool, last: int, i: int, how: How, p: Place, rest: Seq<bool>)
    requires
        index_fits(full, last, i, how),
        p.holds(index_bits(full, last, i, how) + rest),
    ensures
        (if full {
            next_index(p, last)
        } else {
            step_index(p, last)
        }) == (i, p.past(index_bits(full, last, i, how))),
        p.past(index_bits(full, last, i, how)).holds(rest),
{
    reveal(index_bits);
    let all = index_bits(full, last, i, how);
    if how is Next {
        p.lemma_flag(true, rest);
        assert(all == flag(true));
        assert(p.val(1) != 0);
        assert(p.adv(1) == p.past(all));
        assert((last + 1) % 0x1_0000 == i);
    } else if full {
        let b = index_bits(false, last, i, how);
        assert(all + rest =~= flag(false) + (b + rest));
        p.lemma_flag(false, b + rest);
        lemma_step(last, i, how, p.past(flag(false)), rest);
        assert(p.past(flag(false)).past(b) == p.past(all));
    } else {
        lemma_step(last, i, how, p, rest);
    }
}

/// An entity of an update: its number and how that is written, whether it is custom,
/// the number of the baseline that a full update may start from, and its fields; none
/// where it is gone.
pub struct Item {
    pub i: int,
    pub how: How,
    pub custom: bool,
    pub base: Option<int>,
    pub fields: Option<(Seq<u8>, Seq<Told>)>,
}

pub open spec fn table_of(ts: StateTables, max: u8, x: Item) -> Seq<FieldView> {
    if 1 <= x.i <= max {
        ts.player->0
    } else if x.custom {
        ts.custom->0
    } else {
        ts.entity->0
    }
}

/// The number of a baseline, where there is one.
#[verifier::opaque]
pub open spec fn base_bits(base: Option<int>) -> Seq<bool> {
    match base {
        Some(k) => flag(true) + bits_of(k, 6),
        None => flag(false),
    }
}

proof fn lemma_base(base: Option<int>, p: Place, rest: Seq<bool>)
    requires
        base matches Some(k) ==> 0 <= k < 64,
        p.holds(base_bits(base) + rest),
    ensures
        if_bit(p, 6) == p.past(base_bits(base)),
        p.past(base_bits(base)).holds(rest),
{
    reveal(base_bits);
    lemma2_to64();
    match base {
        Some(n) => {
            let b = bits_of(n, 6);
            lemma_bits_len(n, 6);
            assert(base_bits(base) + rest =~= flag(true) + (b + rest));
            p.lemma_flag(true, b + rest);
            p.past(flag(true)).lemma_number(n, 6, rest);
            assert(p.past(flag(true)).past(b) == p.past(base_bits(base)));
        },
        None => {
            p.lemma_flag(false, rest);
        },
    }
}

pub open spec fn item_bits(full: bool, ts: StateTables, max: u8, last: int, x: Item) -> Seq<bool> {
    let head = index_bits(full, last, x.i, x.how);
    if full {
        head + (flag(x.custom) + (base_bits(x.base) + delta_bits(table_of(ts, max, x), (x.fields->0).0, (x.fields->0).1)))
    } else {
        match x.fields {
            None => flag(true) + head,
            Some((masks, vs)) => flag(false) + (head + (flag(x.custom) + delta_bits(
                table_of(ts, max, x),
                masks,
                vs,
            ))),
        }
    }
}

pub open spec fn item_fits(full: bool, ts: StateTables, max: u8, last: int, x: Item) -> bool {
    &&& index_fits(full, last, x.i, x.how)
    &&& full ==> x.fields is Some
    &&& x.base matches Some(k) ==> 0 <= k < 64
    &&& x.fields matches Some((masks, vs)) ==> {
        &&& delta_fits(table_of(ts, max, x), masks, vs)
        &&& if 1 <= x.i <= max {
            ts.player is Some
        } else if x.custom {
            ts.custom is Some
        } else {
            ts.entity is Some
        }
    }
}

/// The entities of an update in the order of their numbers, and what ends them.
pub open spec fn items_bits(full: bool, ts: StateTables, max: u8, last: int, xs: Seq<Item>) -> Seq<bool>
    decreases xs.len(),
{
    if xs.len() == 0 {
        bits_of(0, 16)
    } else {
        item_bits(full, ts, max, last, xs[0]) + items_bits(full, ts, max, xs[0].i, xs.drop_first())
    }
}

pub open spec fn items_fit(full: bool, ts: StateTables, max: u8, last: int, xs: Seq<Item>) -> bool
    decreases xs.len(),
{
    xs.len() == 0 || (item_fits(full, ts, max, last, xs[0]) && items_fit(
        full,
        ts,
        max,
        xs[0].i,
        xs.drop_first(),
    ))
}

/// The game after an update: each entity has its changes, and a player a sample.
pub open spec fn after_items(ts: StateTables, max: u8, time: u32, xs: Seq<Item>, st: Net) -> Net
    decreases xs.len(),
{
    if xs.len() == 0 {
        st
    } else {
        let x = xs[0];
        let s = match x.fields {
            Some((masks, vs)) => applied(
                st,
                x.i as u16,
                marked_changes(table_of(ts, max, x), masks, vs, 0),
                time,
            ),
            None => st,
        };
        after_items(ts, max, time, xs.drop_first(), s)
    }
}

/// The first bits of an entity are not those that end an update.
#[verifier::rlimit(50)]
proof fn lemma_head_is_some(full: bool, ts: StateTables, max: u8, last: int, x: Item, p: Place, more: Seq<bool>)
    requires
        item_fits(full, ts, max, last, x),
        p.holds(item_bits(full, ts, max, last, x) + more),
    ensures
        p.val(16) != 0,
        p.valid(),
        !p.over(),
{
    reveal(index_bits);
    let b = item_bits(full, ts, max, last, x) + more;
    lemma2_to64();
    match x.how {
        How::Next => {
            assert(b[0]);
            p.lemma_not_zero(b, 0, 16);
        },
        How::Given => {
            if !full && x.fields is None {
                assert(b[0]);
                p.lemma_not_zero(b, 0, 16);
            } else {
                assert(b[1]);
                p.lemma_not_zero(b, 1, 16);
            }
        },
        How::Step => {
            if !full && x.fields is None {
                assert(b[0]);
                p.lemma_not_zero(b, 0, 16);
            } else {
                let k = lemma_small_bit(x.i - last, 6);
                lemma_bits_len(x.i - last, 6);
                assert(b[2 + k] == bits_of(x.i - last, 6)[k]);
                p.lemma_not_zero(b, 2 + k, 16);
            }
        },
    }
}

/// A number that is not zero has a bit.
proof fn lemma_small_bit(v: int, n: nat) -> (k: int)
    requires
        0 < v < pow2(n),
    ensures
        0 <= k < n,
        bits_of(v, n).len() == n,
        bits_of(v, n)[k],
    decreases n,
{
    lemma2_to64();
    lemma_bits_len(v, n);
    if n == 0 {
        0
    } else {
        lemma_pow2_unfold(n);
        if v % 2 == 1 {
            assert(bits_of(v, n)[0]);
            0
        } else {
            let j = lemma_small_bit(v / 2, (n - 1) as nat);
            assert(bits_of(v, n)[j + 1] == bits_of(v / 2, (n - 1) as nat)[j]);
            j + 1
        }
    }
}

proof fn lemma_full_item(ts: StateTables, max: u8, last: int, x: Item, p: Place, more: Seq<bool>)
    requires
        item_fits(true, ts, max, last, x),
        p.holds(item_bits(true, ts, max, last, x) + more),
    ensures
        full_head(p, last).0 == x.i,
        full_head(p, last).1 == x.custom,
        delta_at(table_of(ts, max, x), full_head(p, last).2) == (
            marked_changes(table_of(ts, max, x), (x.fields->0).0, (x.fields->0).1, 0),
            p.past(item_bits(true, ts, max, last, x)),
        ),
        p.past(item_bits(true, ts, max, last, x)).holds(more),
        !p.past(item_bits(true, ts, max, last, x)).over(),
{
    lemma2_to64();
    let all = item_bits(true, ts, max, last, x);
    let t = table_of(ts, max, x);
    let (masks, vs) = x.fields->0;
    let (a, e) = (index_bits(true, last, x.i, x.how), delta_bits(t, masks, vs));
    let k = base_bits(x.base);
    assert(all + more =~= a + (flag(x.custom) + (k + (e + more))));
    law_index_round_trip(true, last, x.i, x.how, p, flag(x.custom) + (k + (e + more)));
    let p1 = p.past(a);
    p1.lemma_flag(x.custom, k + (e + more));
    let p2 = p1.past(flag(x.custom));
    lemma_base(x.base, p2, e + more);
    law_delta_round_trip(t, masks, vs, p2.past(k), more);
    assert(p2.past(k).past(e) == p.past(all));
}

/// A full update that was written gives each of its entities its changes.
pub proof fn law_full_round_trip(
    ts: StateTables,
    max: u8,
    last: int,
    time: u32,
    xs: Seq<Item>,
    st: Net,
    p: Place,
    rest: Seq<bool>,
)
    requires
        items_fit(true, ts, max, last, xs),
        p.holds(items_bits(true, ts, max, last, xs) + rest),
    ensures
        full_from(ts, max, p, last, time, st) == (
            Some(p.past(items_bits(true, ts, max, last, xs))),
            after_items(ts, max, time, xs, st),
        ),
    decreases xs.len(),
{
    lemma2_to64();
    let all = items_bits(true, ts, max, last, xs);
    p.lemma_holds(all, rest);
    if xs.len() == 0 {
        p.lemma_number(0, 16, rest);
    } else {
        let x = xs[0];
        let a = item_bits(true, ts, max, last, x);
        let b = items_bits(true, ts, max, x.i, xs.drop_first());
        assert(all + rest =~= a + (b + rest));
        lemma_head_is_some(true, ts, max, last, x, p, b + rest);
        lemma_full_item(ts, max, last, x, p, b + rest);
        let cs = marked_changes(table_of(ts, max, x), (x.fields->0).0, (x.fields->0).1, 0);
        let s = applied(st, x.i as u16, cs, time);
        law_full_round_trip(ts, max, x.i, time, xs.drop_first(), s, p.past(a), rest);
        assert(p.past(a).past(b) == p.past(all));
    }
}

#[verifier::rlimit(50)]
proof fn lemma_partial_item(ts: StateTables, max: u8, last: int, x: Item, p: Place, more: Seq<bool>)
    requires
        item_fits(false, ts, max, last, x),
        p.holds(item_bits(false, ts, max, last, x) + more),
    ensures
        (p.val(1) != 0) == (x.fields is None),
        step_index(p.adv(1), last).0 == x.i,
        p.past(item_bits(false, ts, max, last, x)).holds(more),
        !p.past(item_bits(false, ts, max, last, x)).over(),
        x.fields is None ==> step_index(p.adv(1), last).1 == p.past(
            item_bits(false, ts, max, last, x),
        ),
        x.fields matches Some((masks, vs)) ==> {
            let c = step_index(p.adv(1), last).1;
            &&& (c.val(1) != 0) == x.custom
            &&& delta_at(table_of(ts, max, x), c.adv(1)) == (
                marked_changes(table_of(ts, max, x), masks, vs, 0),
                p.past(item_bits(false, ts, max, last, x)),
            )
        },
{
    let a = item_bits(false, ts, max, last, x);
    let h = index_bits(false, last, x.i, x.how);
    p.lemma_holds(a, more);
    match x.fields {
        None => {
            assert(a + more =~= flag(true) + (h + more));
            p.lemma_flag(true, h + more);
            let p1 = p.past(flag(true));
            law_index_round_trip(false, last, x.i, x.how, p1, more);
            assert(p1.past(h) == p.past(a));
        },
        Some((masks, vs)) => {
            let t = table_of(ts, max, x);
            let e = delta_bits(t, masks, vs);
            let tail = flag(x.custom) + (e + more);
            assert(a + more =~= flag(false) + (h + tail));
            p.lemma_flag(false, h + tail);
            let p1 = p.past(flag(false));
            law_index_round_trip(false, last, x.i, x.how, p1, tail);
            let p2 = p1.past(h);
            p2.lemma_flag(x.custom, e + more);
            let p3 = p2.past(flag(x.custom));
            law_delta_round_trip(t, masks, vs, p3, more);
            assert(p3.past(e) == p.past(a));
        },
    }
}

/// An update that changes or takes away some entities, as it was written.
#[verifier::rlimit(50)]
pub proof fn law_partial_round_trip(
    ts: StateTables,
    max: u8,
    last: int,
    time: u32,
    xs: Seq<Item>,
    st: Net,
    p: Place,
    rest: Seq<bool>,
)
    requires
        items_fit(false, ts, max, last, xs),
        p.holds(items_bits(false, ts, max, last, xs) + rest),
    ensures
        partial_from(ts, max, p, last, time, st) == (
            Some(p.past(items_bits(false, ts, max, last, xs))),
            after_items(ts, max, time, xs, st),
        ),
    decreases xs.len(),
{
    lemma2_to64();
    let all = items_bits(false, ts, max, last, xs);
    p.lemma_holds(all, rest);
    if xs.len() == 0 {
        p.lemma_number(0, 16, rest);
    } else {
        let x = xs[0];
        let a = item_bits(false, ts, max, last, x);
        let b = items_bits(false, ts, max, x.i, xs.drop_first());
        assert(all + rest =~= a + (b + rest));
        lemma_head_is_some(false, ts, max, last, x, p, b + rest);
        lemma_partial_item(ts, max, last, x, p, b + rest);
        let s = match x.fields {
            Some((masks, vs)) => applied(
                st,
                x.i as u16,
                marked_changes(table_of(ts, max, x), masks, vs, 0),
                time,
            ),
            None => st,
        };
        law_partial_round_trip(ts, max, x.i, time, xs.drop_first(), s, p.past(a), rest);
        assert(p.past(a).past(b) == p.past(all));
    }
}

/// Whether a delta gives a number to the field of a name: the last one that it gives.
pub open spec fn gives(cs: Seq<ChangeView>, name: Seq<char>, n: Num) -> bool {
    exists|i: int| gives_at(cs, name, n, i)
}

pub open spec fn gives_at(cs: Seq<ChangeView>, name: Seq<char>, n: Num, i: int) -> bool {
    &&& 0 <= i < cs.len()
    &&& cs[i] == (ChangeView { name, val: DValView::Num(n) })
    &&& forall|j: int| i < j < cs.len() ==> (#[trigger] cs[j]).name != name
}

proof fn lemma_gives(cs: Seq<ChangeView>, name: Seq<char>, n: Num, i: int)
    requires
        gives_at(cs, name, n, i),
    ensures
        last_num(cs, name) == Some(n),
    decreases cs.len(),
{
    if i < cs.len() - 1 {
        assert(cs.last() == cs[cs.len() - 1]);
        assert(cs.last().name != name);
        assert forall|j: int| i < j < cs.drop_last().len() implies (#[trigger] cs.drop_last()[j]).name
            != name by {
            assert(cs.drop_last()[j] == cs[j]);
        }
        assert(gives_at(cs.drop_last(), name, n, i));
        lemma_gives(cs.drop_last(), name, n, i);
    }
}

/// A delta of a player that gives its origin adds the sample of that origin: the field
/// `origin[0]` is its x, `origin[1]` its y and `origin[2]` its z. Nothing else of
/// another entity's track changes.
pub proof fn law_origin_is_sampled(st: Net, i: u16, cs: Seq<ChangeView>, time: u32, x: Num, y: Num, z: Num)
    requires
        1 <= i <= st.max_client,
        gives(cs, "origin[0]"@, x),
        gives(cs, "origin[1]"@, y),
        gives(cs, "origin[2]"@, z),
        x.finite(),
        y.finite(),
        z.finite(),
    ensures
        samples_of(applied(st, i, cs, time).tracks, i as u32) == samples_of(st.tracks, i as u32).push(
            Sample { time, x, y, z },
        ),
        forall|k: u32| k != i ==> samples_of(applied(st, i, cs, time).tracks, k) == samples_of(
            st.tracks,
            k,
        ),
{
    lemma_gives(cs, "origin[0]"@, x, choose|j: int| gives_at(cs, "origin[0]"@, x, j));
    lemma_gives(cs, "origin[1]"@, y, choose|j: int| gives_at(cs, "origin[1]"@, y, j));
    lemma_gives(cs, "origin[2]"@, z, choose|j: int| gives_at(cs, "origin[2]"@, z, j));
}

/// With its angles, `angles[0]` is the pitch and `angles[1]` the yaw of its view.
pub proof fn law_angles_are_sampled(
    st: Net,
    i: u16,
    cs: Seq<ChangeView>,
    time: u32,
    x: Num,
    y: Num,
    z: Num,
    pitch: Num,
    yaw: Num,
)
    requires
        1 <= i <= st.max_client,
        gives(cs, "origin[0]"@, x),
        gives(cs, "origin[1]"@, y),
        gives(cs, "origin[2]"@, z),
        gives(cs, "angles[0]"@, pitch),
        gives(cs, "angles[1]"@, yaw),
        x.finite(),
        y.finite(),
        z.finite(),
    ensures
        facings_of(applied(st, i, cs, time).yaws, i as u32) == facings_of(st.yaws, i as u32).push(
            Facing { time, yaw, pitch },
        ),
{
    law_origin_is_sampled(st, i, cs, time, x, y, z);
    lemma_gives(cs, "origin[0]"@, x, choose|j: int| gives_at(cs, "origin[0]"@, x, j));
    lemma_gives(cs, "origin[1]"@, y, choose|j: int| gives_at(cs, "origin[1]"@, y, j));
    lemma_gives(cs, "origin[2]"@, z, choose|j: int| gives_at(cs, "origin[2]"@, z, j));
    lemma_gives(cs, "angles[0]"@, pitch, choose|j: int| gives_at(cs, "angles[0]"@, pitch, j));
    lemma_gives(cs, "angles[1]"@, yaw, choose|j: int| gives_at(cs, "angles[1]"@, yaw, j));
}

/// What is known of an entity stays until a delta gives it anew.
pub proof fn law_origin_stays(st: Net, i: u16, cs: Seq<ChangeView>, time: u32, x: Num, y: Num, z: Num)
    requires
        1 <= i <= st.max_client,
        st.ents.contains_key(i),
        st.ents[i].x == Some(x),
        st.ents[i].y == Some(y),
        gives(cs, "origin[2]"@, z),
        forall|j: int| 0 <= j < cs.len() ==> (#[trigger] cs[j]).name != "origin[0]"@ && cs[j].name
            != "origin[1]"@,
        x.finite(),
        y.finite(),
        z.finite(),
    ensures
        samples_of(applied(st, i, cs, time).tracks, i as u32) == samples_of(st.tracks, i as u32).push(
            Sample { time, x, y, z },
        ),
{
    lemma_gives(cs, "origin[2]"@, z, choose|j: int| gives_at(cs, "origin[2]"@, z, j));
    lemma_gives_none(cs, "origin[0]"@);
    lemma_gives_none(cs, "origin[1]"@);
}

proof fn lemma_gives_none(cs: Seq<ChangeView>, name: Seq<char>)
    requires
        forall|j: int| 0 <= j < cs.len() ==> (#[trigger] cs[j]).name != name,
    ensures
        last_num(cs, name) is None,
    decreases cs.len(),
{
    if cs.len() > 0 {
        assert(cs[cs.len() - 1].name != name);
        assert forall|j: int| 0 <= j < cs.drop_last().len() implies (#[trigger] cs.drop_last()[j]).name
            != name by {
            assert(cs.drop_last()[j] == cs[j]);
        }
        lemma_gives_none(cs.drop_last(), name);
    }
}

/// An entity of the baselines: its number, whether it is custom, and its fields.
pub struct Base {
    pub i: int,
    pub custom: bool,
    pub masks: Seq<u8>,
    pub vs: Seq<Told>,
}

pub open spec fn base_table(ts: StateTables, max: u8, x: Base) -> Option<Seq<FieldView>> {
    if x.custom {
        ts.custom
    } else if 1 <= x.i <= max {
        ts.player
    } else {
        ts.entity
    }
}

pub open spec fn base_item_bits(ts: StateTables, max: u8, x: Base) -> Seq<bool> {
    bits_of(x.i, 11) + (bits_of(
        if x.custom {
            2
        } else {
            1
        },
        2,
    ) + delta_bits(base_table(ts, max, x)->0, x.masks, x.vs))
}

pub open spec fn base_fits(ts: StateTables, max: u8, x: Base) -> bool {
    &&& 0 <= x.i < 2047
    &&& base_table(ts, max, x) is Some
    &&& delta_fits(base_table(ts, max, x)->0, x.masks, x.vs)
}

/// The baselines, each with its number.
pub open spec fn bases_bits(ts: StateTables, max: u8, xs: Seq<Base>) -> Seq<bool>
    decreases xs.len(),
{
    if xs.len() == 0 {
        Seq::empty()
    } else {
        base_item_bits(ts, max, xs[0]) + bases_bits(ts, max, xs.drop_first())
    }
}

pub open spec fn after_bases(ts: StateTables, max: u8, xs: Seq<Base>, st: Net) -> Net
    decreases xs.len(),
{
    if xs.len() == 0 {
        st
    } else {
        let x = xs[0];
        after_bases(
            ts,
            max,
            xs.drop_first(),
            applied(
                st,
                x.i as u16,
                marked_changes(base_table(ts, max, x)->0, x.masks, x.vs, 0),
                0,
            ),
        )
    }
}

proof fn lemma_not_ones(d: Seq<u8>, pos: int, n: nat, i: int)
    requires
        0 <= i < n,
        bit_at(d, pos + i) == 0,
    ensures
        bits_at(d, pos, n) < pow2(n) - 1,
    decreases n,
{
    let m = (n - 1) as nat;
    crate::bits::lemma_bits_bound(d, pos, m);
    lemma_pow2_pos(m);
    lemma_pow2_unfold(n);
    let (x, w) = (bit_at(d, pos + m), pow2(m) as int);
    if i == m {
        assert(x * w == 0) by (nonlinear_arith)
            requires
                x == 0,
        ;
    } else {
        lemma_not_ones(d, pos, m, i);
        assert(x * w <= w) by (nonlinear_arith)
            requires
                0 <= x <= 1,
                w >= 0,
        ;
    }
}

/// A number that is not all ones has a bit that is not set.
proof fn lemma_unset_bit(v: int, n: nat) -> (k: int)
    requires
        0 <= v < pow2(n) - 1,
    ensures
        0 <= k < n,
        bits_of(v, n).len() == n,
        !bits_of(v, n)[k],
    decreases n,
{
    lemma2_to64();
    lemma_bits_len(v, n);
    if n == 0 {
        0
    } else {
        lemma_pow2_unfold(n);
        if v % 2 == 0 {
            assert(!bits_of(v, n)[0]);
            0
        } else {
            let j = lemma_unset_bit(v / 2, (n - 1) as nat);
            assert(bits_of(v, n)[j + 1] == bits_of(v / 2, (n - 1) as nat)[j]);
            j + 1
        }
    }
}

#[verifier::rlimit(50)]
proof fn lemma_base_item(ts: StateTables, max: u8, x: Base, st: Net, p: Place, more: Seq<bool>)
    requires
        base_fits(ts, max, x),
        p.holds(base_item_bits(ts, max, x) + more),
    ensures
        p.past(base_item_bits(ts, max, x)).holds(more),
        baselines_from(ts, max, p, st) == baselines_from(
            ts,
            max,
            p.past(base_item_bits(ts, max, x)),
            applied(
                st,
                x.i as u16,
                marked_changes(base_table(ts, max, x)->0, x.masks, x.vs, 0),
                0,
            ),
        ),
{
    lemma2_to64();
    lemma_pow2_adds(8, 3);
    let t = base_table(ts, max, x)->0;
    let kind = if x.custom {
        2int
    } else {
        1
    };
    let all = base_item_bits(ts, max, x);
    let (a, b, e) = (bits_of(x.i, 11), bits_of(kind, 2), delta_bits(t, x.masks, x.vs));
    lemma_bits_len(x.i, 11);
    lemma_bits_len(kind, 2);
    p.lemma_holds(all, more);
    assert(all + more =~= a + (b + (e + more)));
    p.lemma_number(x.i, 11, b + (e + more));
    p.past(a).lemma_number(kind, 2, e + more);
    law_delta_round_trip(t, x.masks, x.vs, p.past(a).past(b), more);
    assert(p.past(a).past(b).past(e) == p.past(all));
    assert(p.val(16) != 0xffff) by {
        let k = lemma_unset_bit(x.i, 11);
        reveal(Place::holds);
        let w = all + more;
        assert(w[k] == a[k]);
        assert(set_at(p.d, p.pos + k) == w[k]);
        lemma_set_at(p.d, p.pos + k);
        let m = p.avail(16) as nat;
        assert(k < m);
        lemma_not_ones(p.d, p.pos, m, k);
        if m < 16 {
            vstd::arithmetic::power2::lemma_pow2_strictly_increases(m, 16);
        }
    }
}

/// The baselines that were written give each of their entities its first state.
#[verifier::rlimit(50)]
pub proof fn law_baselines_round_trip(ts: StateTables, max: u8, xs: Seq<Base>, st: Net, p: Place, rest: Seq<bool>)
    requires
        forall|i: int| 0 <= i < xs.len() ==> base_fits(ts, max, #[trigger] xs[i]),
        p.holds(bases_bits(ts, max, xs) + (bits_of(0xffff, 16) + rest)),
    ensures
        baselines_from(ts, max, p, st) == (
            Some(p.past(bases_bits(ts, max, xs))),
            after_bases(ts, max, xs, st),
        ),
    decreases xs.len(),
{
    lemma2_to64();
    let all = bases_bits(ts, max, xs);
    let end = bits_of(0xffff, 16) + rest;
    p.lemma_holds(all, end);
    if xs.len() == 0 {
        assert(all + end =~= end);
        assert(p.past(all) == p);
        p.lemma_number(0xffff, 16, rest);
    } else {
        let x = xs[0];
        let (a, b) = (base_item_bits(ts, max, x), bases_bits(ts, max, xs.drop_first()));
        assert(all + end =~= a + (b + end));
        lemma_base_item(ts, max, x, st, p, b + end);
        assert forall|i: int| 0 <= i < xs.drop_first().len() implies base_fits(
            ts,
            max,
            #[trigger] xs.drop_first()[i],
        ) by {
            assert(xs.drop_first()[i] == xs[i + 1]);
        }
        let s = applied(
            st,
            x.i as u16,
            marked_changes(base_table(ts, max, x)->0, x.masks, x.vs, 0),
            0,
        );
        law_baselines_round_trip(ts, max, xs.drop_first(), s, p.past(a), rest);
        assert(p.past(a).past(b) == p.past(all));
    }
}

/// Whether a delta gives a text to the field of a name, and nothing else behind it.
pub open spec fn gives_text(cs: Seq<ChangeView>, name: Seq<char>, s: Seq<char>) -> bool {
    exists|i: int| gives_text_at(cs, name, s, i)
}

pub open spec fn gives_text_at(cs: Seq<ChangeView>, name: Seq<char>, s: Seq<char>, i: int) -> bool {
    &&& 0 <= i < cs.len()
    &&& cs[i] == (ChangeView { name, val: DValView::Str(s) })
    &&& forall|j: int| i < j < cs.len() ==> (#[trigger] cs[j]).name != name
}

proof fn lemma_gives_text(cs: Seq<ChangeView>, name: Seq<char>, s: Seq<char>, i: int)
    requires
        gives_text_at(cs, name, s, i),
    ensures
        last_of(cs, name) == Some(DValView::Str(s)),
    decreases cs.len(),
{
    if i < cs.len() - 1 {
        assert(cs.last() == cs[cs.len() - 1]);
        assert(cs.last().name != name);
        assert forall|j: int| i < j < cs.drop_last().len() implies (#[trigger] cs.drop_last()[j]).name
            != name by {
            assert(cs.drop_last()[j] == cs[j]);
        }
        assert(gives_text_at(cs.drop_last(), name, s, i));
        lemma_gives_text(cs.drop_last(), name, s, i);
    }
}

/// A description of a field says what it is by the names of its parts: `name`, how many
/// `bits` it has, its `divisor` in four thousandths, and what its `flags` are.
pub proof fn law_description(cs: Seq<ChangeView>, name: Seq<char>, bits: u8, flags: u32, divisor: u32, d: u32)
    requires
        gives_text(cs, "name"@, name),
        gives(cs, "bits"@, Num::Whole(bits as i64)),
        gives(cs, "flags"@, Num::Whole(flags as i64)),
        gives(cs, "divisor"@, Num::Ratio(divisor as i64, d)),
    ensures
        described(cs) == Some(FieldView { name, bits: bits as u32, divisor, flags }),
{
    lemma_gives_text(cs, "name"@, name, choose|j: int| gives_text_at(cs, "name"@, name, j));
    let b = Num::Whole(bits as i64);
    let f = Num::Whole(flags as i64);
    let r = Num::Ratio(divisor as i64, d);
    lemma_gives(cs, "bits"@, b, choose|j: int| gives_at(cs, "bits"@, b, j));
    lemma_gives(cs, "flags"@, f, choose|j: int| gives_at(cs, "flags"@, f, j));
    lemma_gives(cs, "divisor"@, r, choose|j: int| gives_at(cs, "divisor"@, r, j));
}

/// Tables of fields are kept by what they are of.
pub proof fn law_tables_by_name(t: TablesView, fs: Seq<FieldView>)
    ensures
        with_table(t, "event_t"@, fs).event == Some(fs),
        with_table(t, "clientdata_t"@, fs).client == Some(fs),
        with_table(t, "weapon_data_t"@, fs).weapon == Some(fs),
        with_table(t, "entity_state_t"@, fs).entity == Some(fs),
        with_table(t, "entity_state_player_t"@, fs).player == Some(fs),
        with_table(t, "custom_entity_state_t"@, fs).custom == Some(fs),
        with_table(t, "entity_state_player_t"@, fs).entity == t.entity,
        with_table(t, "entity_state_t"@, fs).player == t.player,
        with_table(t, "custom_entity_state_t"@, fs).entity == t.entity,
{
    reveal_strlit("event_t");
    reveal_strlit("clientdata_t");
    reveal_strlit("weapon_data_t");
    reveal_strlit("entity_state_t");
    reveal_strlit("entity_state_player_t");
    reveal_strlit("custom_entity_state_t");
    assert("event_t"@.len() == 7 && "clientdata_t"@.len() == 12 && "weapon_data_t"@.len() == 13);
    assert("entity_state_t"@.len() == 14 && "entity_state_player_t"@.len() == 21);
    assert("custom_entity_state_t"@.len() == 21);
    assert("entity_state_player_t"@[0] != "custom_entity_state_t"@[0]);
}

} // verus!
