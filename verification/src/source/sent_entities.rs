//! Entity updates as a server writes them.
use super::datatable::TablesView;
use super::packetentities::{entity_gap, field_index, gap_at, gapped_at, index_list, mixed_at,
    props_at, removals_from, update_at, updates_from, values_at, world_after, Entity, Layout,
    PropOrder};
use super::sendprop::{PropView, SendPropDef};
use super::sent::{law_value_round_trip, sent_bits, sent_fits, sent_view, Sent};
use crate::bits::Cursor;
use crate::written::{bits_of, flag, lemma_bits_len, parted_bits, parted_width, stands, var_bits,
    var_width};
use vstd::arithmetic::power2::{lemma2_to64, pow2};
use vstd::prelude::*;

verus! {

/// A gap in one of four widths: up to 31 in seven bits, and else its lowest five bits
/// and a mark that says in how many bits the others follow.
pub open spec fn gap_bits(g: int, mark: int) -> Seq<bool> {
    if mark == 0 {
        bits_of(g, 7)
    } else {
        bits_of(g % 32 + 32 * mark, 7) + bits_of(g / 32, gap_width(mark))
    }
}

pub open spec fn gap_width(mark: int) -> nat {
    if mark == 1 {
        2
    } else if mark == 2 {
        4
    } else {
        7
    }
}

pub open spec fn gap_fits(g: int, mark: int) -> bool {
    &&& 0 <= mark <= 3
    &&& 0 <= g
    &&& if mark == 0 {
        g < 32
    } else {
        g / 32 < pow2(gap_width(mark))
    }
}

/// A gap that was written is read back, in each of the widths that hold it.
pub proof fn law_gap_round_trip(g: int, mark: int, c: Cursor, rest: Seq<bool>)
    requires
        gap_fits(g, mark),
        c.holds(gap_bits(g, mark) + rest),
    ensures
        gap_at(c) == Some((g, c.past(gap_bits(g, mark)))),
        c.past(gap_bits(g, mark)).holds(rest),
{
    lemma2_to64();
    if mark == 0 {
        lemma_bits_len(g, 7);
        c.lemma_number(g, 7, rest);
    } else {
        let head = g % 32 + 32 * mark;
        let b = bits_of(g / 32, gap_width(mark));
        lemma_bits_len(head, 7);
        lemma_bits_len(g / 32, gap_width(mark));
        assert(gap_bits(g, mark) + rest =~= bits_of(head, 7) + (b + rest));
        c.lemma_number(head, 7, b + rest);
        c.adv(7).lemma_number(g / 32, gap_width(mark), rest);
    }
}

/// How the number of a property is written: as the next one, as a small gap, or as a
/// gap of the width that a mark says.
pub enum How {
    Next,
    Small,
    Gap(int),
}

/// The number of a property, `g` behind the one after the last. The older way has only
/// gaps.
#[verifier::opaque]
pub open spec fn step_bits(new_way: bool, g: int, how: How) -> Seq<bool> {
    if new_way {
        match how {
            How::Next => flag(true),
            How::Small => flag(false) + (flag(true) + bits_of(g, 3)),
            How::Gap(m) => flag(false) + (flag(false) + gap_bits(g, m)),
        }
    } else {
        match how {
            How::Gap(m) => gap_bits(g, m),
            _ => Seq::empty(),
        }
    }
}

pub open spec fn step_fits(new_way: bool, g: int, how: How) -> bool {
    match how {
        How::Next => new_way && g == 0,
        How::Small => new_way && 0 <= g < 8,
        How::Gap(m) => gap_fits(g, m) && g < 0xfff,
    }
}

/// What ends a list of properties: a gap of all ones.
#[verifier::opaque]
pub open spec fn end_bits(new_way: bool) -> Seq<bool> {
    if new_way {
        flag(false) + (flag(false) + gap_bits(0xfff, 3))
    } else {
        gap_bits(0xfff, 3)
    }
}

/// The number of a property that was written is read back: one more than the last one,
/// and the gap.
#[verifier::rlimit(50)]
pub proof fn law_step_round_trip(
    new_way: bool,
    last: int,
    g: int,
    how: How,
    c: Cursor,
    rest: Seq<bool>,
)
    requires
        step_fits(new_way, g, how),
        c.holds(step_bits(new_way, g, how) + rest),
    ensures
        field_index(c, last, new_way) == Some((last + 1 + g, c.past(step_bits(new_way, g, how)))),
        c.past(step_bits(new_way, g, how)).holds(rest),
        step_bits(new_way, g, how).len() > 0,
{
    reveal(step_bits);
    reveal(field_index);
    lemma2_to64();
    let all = step_bits(new_way, g, how);
    match how {
        How::Next => {
            c.lemma_flag(true, rest);
        },
        How::Small => {
            let b = bits_of(g, 3);
            lemma_bits_len(g, 3);
            assert(all + rest =~= flag(false) + (flag(true) + (b + rest)));
            c.lemma_flag(false, flag(true) + (b + rest));
            c.adv(1).lemma_flag(true, b + rest);
            c.adv(1).adv(1).lemma_number(g, 3, rest);
        },
        How::Gap(m) => {
            let b = gap_bits(g, m);
            lemma_bits_len(g, 7);
            lemma_bits_len(g % 32 + 32 * m, 7);
            if new_way {
                assert(all + rest =~= flag(false) + (flag(false) + (b + rest)));
                c.lemma_flag(false, flag(false) + (b + rest));
                c.adv(1).lemma_flag(false, b + rest);
                law_gap_round_trip(g, m, c.adv(1).adv(1), rest);
                assert(c.adv(1).adv(1).past(b) == c.past(all));
            } else {
                law_gap_round_trip(g, m, c, rest);
            }
        },
    }
}

proof fn lemma_end(new_way: bool, last: int, c: Cursor, rest: Seq<bool>)
    requires
        c.holds(end_bits(new_way) + rest),
    ensures
        field_index(c, last, new_way) == Some((-1int, c.past(end_bits(new_way)))),
        c.past(end_bits(new_way)).holds(rest),
{
    reveal(end_bits);
    reveal(field_index);
    lemma2_to64();
    let all = end_bits(new_way);
    let b = gap_bits(0xfff, 3);
    assert(gap_fits(0xfff, 3));
    if new_way {
        assert(all + rest =~= flag(false) + (flag(false) + (b + rest)));
        c.lemma_flag(false, flag(false) + (b + rest));
        c.adv(1).lemma_flag(false, b + rest);
        law_gap_round_trip(0xfff, 3, c.adv(1).adv(1), rest);
        assert(c.adv(1).adv(1).past(b) == c.past(all));
    } else {
        law_gap_round_trip(0xfff, 3, c, rest);
    }
}

/// A property of an update: its number, how that is written, and its value. In the
/// oldest way the gap has the width that `kind` says.
pub struct Item {
    pub i: int,
    pub how: How,
    pub kind: int,
    pub v: Sent,
}

/// Whether properties can be written, the numbers rising from `last` on.
pub open spec fn items_fit(flat: Seq<SendPropDef>, order: PropOrder, new_way: bool, last: int, items: Seq<Item>) -> bool
    decreases items.len(),
{
    items.len() == 0 || {
        let x = items[0];
        &&& last < x.i < flat.len()
        &&& sent_fits(flat[x.i], x.v)
        &&& if order == PropOrder::Gapped {
            0 <= x.kind < 4 && x.i - last - 1 < pow2(var_width(x.kind)) && x.i < 0x8000_0000
        } else {
            step_fits(new_way, x.i - last - 1, x.how)
        }
        &&& items_fit(flat, order, new_way, x.i, items.drop_first())
    }
}

/// The numbers of properties, and the end of the list.
pub open spec fn numbers_bits(new_way: bool, last: int, items: Seq<Item>) -> Seq<bool>
    decreases items.len(),
{
    if items.len() == 0 {
        end_bits(new_way)
    } else {
        step_bits(new_way, items[0].i - last - 1, items[0].how) + numbers_bits(
            new_way,
            items[0].i,
            items.drop_first(),
        )
    }
}

/// The values of properties.
pub open spec fn values_bits(flat: Seq<SendPropDef>, items: Seq<Item>) -> Seq<bool>
    decreases items.len(),
{
    if items.len() == 0 {
        Seq::empty()
    } else {
        sent_bits(flat[items[0].i], items[0].v) + values_bits(flat, items.drop_first())
    }
}

/// Each number with its value, and the end of the list.
pub open spec fn mixed_bits(flat: Seq<SendPropDef>, new_way: bool, last: int, items: Seq<Item>) -> Seq<bool>
    decreases items.len(),
{
    if items.len() == 0 {
        end_bits(new_way)
    } else {
        step_bits(new_way, items[0].i - last - 1, items[0].how) + (sent_bits(
            flat[items[0].i],
            items[0].v,
        ) + mixed_bits(flat, new_way, items[0].i, items.drop_first()))
    }
}

/// In the oldest way: a mark, the gap and the value of each, and a mark that none
/// follows.
pub open spec fn gapped_bits(flat: Seq<SendPropDef>, last: int, items: Seq<Item>) -> Seq<bool>
    decreases items.len(),
{
    if items.len() == 0 {
        flag(false)
    } else {
        flag(true) + (var_bits(items[0].i - last - 1, items[0].kind) + (sent_bits(
            flat[items[0].i],
            items[0].v,
        ) + gapped_bits(flat, items[0].i, items.drop_first())))
    }
}

/// Properties with others put over them.
pub open spec fn put_over(flat: Seq<SendPropDef>, props: Map<usize, PropView>, items: Seq<Item>) -> Map<
    usize,
    PropView,
>
    decreases items.len(),
{
    if items.len() == 0 {
        props
    } else {
        put_over(
            flat,
            props.insert(items[0].i as usize, sent_view(flat[items[0].i], items[0].v)),
            items.drop_first(),
        )
    }
}

pub open spec fn numbers_of(items: Seq<Item>) -> Seq<int> {
    items.map_values(|x: Item| x.i)
}

proof fn lemma_within(c: Cursor, b: Seq<bool>)
    requires
        c.holds(b),
    ensures
        c.pos + b.len() <= c.end,
{
    reveal(Cursor::holds);
}

/// A rising list of property numbers that was written is read back as that list.
pub proof fn law_numbers_round_trip(
    flat: Seq<SendPropDef>,
    new_way: bool,
    last: int,
    items: Seq<Item>,
    c: Cursor,
    rest: Seq<bool>,
)
    requires
        items_fit(flat, PropOrder::Separated, new_way, last, items),
        last >= -1,
        c.holds(numbers_bits(new_way, last, items) + rest),
    ensures
        index_list(c, last, new_way, flat.len() as int) == Some(
            (numbers_of(items), c.past(numbers_bits(new_way, last, items))),
        ),
        c.past(numbers_bits(new_way, last, items)).holds(rest),
    decreases items.len(),
{
    let all = numbers_bits(new_way, last, items);
    if items.len() == 0 {
        lemma_end(new_way, last, c, rest);
        assert(numbers_of(items) =~= Seq::empty());
    } else {
        let x = items[0];
        let tail = items.drop_first();
        let a = step_bits(new_way, x.i - last - 1, x.how);
        let b = numbers_bits(new_way, x.i, tail);
        assert(all + rest =~= a + (b + rest));
        law_step_round_trip(new_way, last, x.i - last - 1, x.how, c, b + rest);
        let e = c.past(a);
        lemma_within(c, a + (b + rest));
        law_numbers_round_trip(flat, new_way, x.i, tail, e, rest);
        assert(e.past(b) == c.past(all));
        assert(numbers_of(items) =~= seq![x.i] + numbers_of(tail));
    }
}

#[verifier::rlimit(50)]
proof fn lemma_values(
    flat: Seq<SendPropDef>,
    order: PropOrder,
    new_way: bool,
    last: int,
    items: Seq<Item>,
    list: Seq<int>,
    k: int,
    props: Map<usize, PropView>,
    c: Cursor,
    rest: Seq<bool>,
)
    requires
        items_fit(flat, order, new_way, last, items),
        0 <= k <= list.len(),
        list.skip(k) == numbers_of(items),
        c.holds(values_bits(flat, items) + rest),
    ensures
        values_at(flat, list, k, c, props) == (
            put_over(flat, props, items),
            Some(c.past(values_bits(flat, items))),
        ),
        c.past(values_bits(flat, items)).holds(rest),
    decreases items.len(),
{
    let all = values_bits(flat, items);
    assert(list.skip(k).len() == items.len());
    if items.len() == 0 {
        assert(all + rest =~= rest);
        assert(c.past(all) == c);
    } else {
        let x = items[0];
        let tail = items.drop_first();
        let a = sent_bits(flat[x.i], x.v);
        let b = values_bits(flat, tail);
        assert(all + rest =~= a + (b + rest));
        assert(list.skip(k)[0] == x.i);
        assert(list[k] == x.i);
        law_value_round_trip(flat[x.i], x.v, c, b + rest);
        assert(list.skip(k + 1) =~= numbers_of(tail)) by {
            assert forall|j: int| 0 <= j < tail.len() implies list.skip(k + 1)[j] == numbers_of(tail)[j] by {
                assert(list.skip(k)[j + 1] == numbers_of(items)[j + 1]);
            }
        }
        lemma_values(
            flat,
            order,
            new_way,
            x.i,
            tail,
            list,
            k + 1,
            props.insert(x.i as usize, sent_view(flat[x.i], x.v)),
            c.past(a),
            rest,
        );
        assert(c.past(a).past(b) == c.past(all));
    }
}

#[verifier::rlimit(50)]
proof fn lemma_mixed(
    flat: Seq<SendPropDef>,
    new_way: bool,
    last: int,
    items: Seq<Item>,
    props: Map<usize, PropView>,
    c: Cursor,
    rest: Seq<bool>,
)
    requires
        items_fit(flat, PropOrder::Mixed, new_way, last, items),
        last >= -1,
        c.holds(mixed_bits(flat, new_way, last, items) + rest),
    ensures
        mixed_at(flat, c, last, new_way, props) == (
            put_over(flat, props, items),
            Some(c.past(mixed_bits(flat, new_way, last, items))),
        ),
        c.past(mixed_bits(flat, new_way, last, items)).holds(rest),
    decreases items.len(),
{
    let all = mixed_bits(flat, new_way, last, items);
    if items.len() == 0 {
        lemma_end(new_way, last, c, rest);
    } else {
        let x = items[0];
        let tail = items.drop_first();
        let a = step_bits(new_way, x.i - last - 1, x.how);
        let v = sent_bits(flat[x.i], x.v);
        let b = mixed_bits(flat, new_way, x.i, tail);
        assert(all + rest =~= a + (v + (b + rest)));
        law_step_round_trip(new_way, last, x.i - last - 1, x.how, c, v + (b + rest));
        let e = c.past(a);
        law_value_round_trip(flat[x.i], x.v, e, b + rest);
        let f = e.past(v);
        lemma_within(c, a + (v + (b + rest)));
        lemma_mixed(
            flat,
            new_way,
            x.i,
            tail,
            props.insert(x.i as usize, sent_view(flat[x.i], x.v)),
            f,
            rest,
        );
        assert(f.past(b) == c.past(all));
    }
}

#[verifier::rlimit(50)]
proof fn lemma_gapped(
    flat: Seq<SendPropDef>,
    last: int,
    items: Seq<Item>,
    props: Map<usize, PropView>,
    c: Cursor,
    rest: Seq<bool>,
)
    requires
        items_fit(flat, PropOrder::Gapped, false, last, items),
        last >= -1,
        c.holds(gapped_bits(flat, last, items) + rest),
    ensures
        gapped_at(flat, c, last, props) == (
            put_over(flat, props, items),
            Some(c.past(gapped_bits(flat, last, items))),
        ),
        c.past(gapped_bits(flat, last, items)).holds(rest),
    decreases items.len(),
{
    let all = gapped_bits(flat, last, items);
    if items.len() == 0 {
        c.lemma_flag(false, rest);
    } else {
        let x = items[0];
        let tail = items.drop_first();
        let a = var_bits(x.i - last - 1, x.kind);
        let v = sent_bits(flat[x.i], x.v);
        let b = gapped_bits(flat, x.i, tail);
        assert(all + rest =~= flag(true) + (a + (v + (b + rest))));
        c.lemma_flag(true, a + (v + (b + rest)));
        let c1 = c.adv(1);
        c1.law_var_reads(x.i - last - 1, x.kind, v + (b + rest));
        let e = c1.past(a);
        law_value_round_trip(flat[x.i], x.v, e, b + rest);
        let f = e.past(v);
        lemma_within(c, flag(true) + (a + (v + (b + rest))));
        lemma_gapped(
            flat,
            x.i,
            tail,
            props.insert(x.i as usize, sent_view(flat[x.i], x.v)),
            f,
            rest,
        );
        assert(f.past(b) == c.past(all));
    }
}

/// The properties of an update as they are written.
pub open spec fn props_bits(flat: Seq<SendPropDef>, order: PropOrder, new_way: bool, items: Seq<Item>) -> Seq<bool> {
    match order {
        PropOrder::Gapped => gapped_bits(flat, -1, items),
        PropOrder::Mixed => flag(new_way) + mixed_bits(flat, new_way, -1, items),
        PropOrder::Separated => flag(new_way) + (numbers_bits(new_way, -1, items) + values_bits(
            flat,
            items,
        )),
    }
}

/// Properties that were written are read back: each of them has its value then, and the
/// others stay.
#[verifier::rlimit(50)]
pub proof fn law_props_round_trip(
    flat: Seq<SendPropDef>,
    order: PropOrder,
    new_way: bool,
    items: Seq<Item>,
    props: Map<usize, PropView>,
    c: Cursor,
    rest: Seq<bool>,
)
    requires
        items_fit(flat, order, new_way, -1, items),
        order == PropOrder::Gapped ==> !new_way,
        c.holds(props_bits(flat, order, new_way, items) + rest),
    ensures
        props_at(flat, c, order, props) == (
            put_over(flat, props, items),
            Some(c.past(props_bits(flat, order, new_way, items))),
        ),
        c.past(props_bits(flat, order, new_way, items)).holds(rest),
{
    let all = props_bits(flat, order, new_way, items);
    match order {
        PropOrder::Gapped => lemma_gapped(flat, -1, items, props, c, rest),
        PropOrder::Mixed => {
            let b = mixed_bits(flat, new_way, -1, items);
            assert(all + rest =~= flag(new_way) + (b + rest));
            c.lemma_flag(new_way, b + rest);
            lemma_mixed(flat, new_way, -1, items, props, c.adv(1), rest);
            assert(c.adv(1).past(b) == c.past(all));
        },
        PropOrder::Separated => {
            let a = numbers_bits(new_way, -1, items);
            let b = values_bits(flat, items);
            assert(all + rest =~= flag(new_way) + (a + (b + rest)));
            c.lemma_flag(new_way, a + (b + rest));
            law_numbers_round_trip(flat, new_way, -1, items, c.adv(1), b + rest);
            let list = numbers_of(items);
            assert(list.skip(0) =~= list);
            let c2 = c.adv(1).past(a);
            lemma_values(flat, order, new_way, -1, items, list, 0, props, c2, rest);
            assert(c2.past(b) == c.past(all));
        },
    }
}

/// What properties that are put over others come to: each has the value of its item, and
/// one without an item what it had.
#[verifier::rlimit(50)]
pub proof fn law_put_over(
    flat: Seq<SendPropDef>,
    props: Map<usize, PropView>,
    items: Seq<Item>,
    order: PropOrder,
    new_way: bool,
    last: int,
    j: usize,
)
    requires
        items_fit(flat, order, new_way, last, items),
        last >= -1,
        flat.len() <= usize::MAX,
    ensures
        forall|k: int|
            0 <= k < items.len() && (#[trigger] items[k]).i == j ==> put_over(flat, props, items).contains_pair(
                j,
                sent_view(flat[items[k].i], items[k].v),
            ),
        (forall|k: int| 0 <= k < items.len() ==> (#[trigger] items[k]).i != j) ==> (put_over(
            flat,
            props,
            items,
        ).contains_key(j) == props.contains_key(j) && put_over(flat, props, items)[j] == props[j]),
    decreases items.len(),
{
    if items.len() > 0 {
        let x = items[0];
        let tail = items.drop_first();
        let next = props.insert(x.i as usize, sent_view(flat[x.i], x.v));
        assert(forall|m: int| 0 <= m < tail.len() ==> #[trigger] tail[m] == items[m + 1]);
        lemma_rising(flat, order, new_way, x.i, tail);
        law_put_over(flat, next, tail, order, new_way, x.i, j);
        assert forall|k: int| 0 <= k < items.len() && (#[trigger] items[k]).i == j implies put_over(
            flat,
            props,
            items,
        ).contains_pair(j, sent_view(flat[items[k].i], items[k].v)) by {
            if k > 0 {
                assert(tail[k - 1].i == j);
            } else {
                assert forall|m: int| 0 <= m < tail.len() implies (#[trigger] tail[m]).i != j by {}
            }
        }
        if forall|k: int| 0 <= k < items.len() ==> (#[trigger] items[k]).i != j {
            assert(x.i != j);
            assert forall|m: int| 0 <= m < tail.len() implies (#[trigger] tail[m]).i != j by {
                assert(items[m + 1].i != j);
            }
        }
    }
}

proof fn lemma_rising(flat: Seq<SendPropDef>, order: PropOrder, new_way: bool, last: int, items: Seq<Item>)
    requires
        items_fit(flat, order, new_way, last, items),
    ensures
        forall|m: int| 0 <= m < items.len() ==> last < (#[trigger] items[m]).i < flat.len(),
    decreases items.len(),
{
    if items.len() > 0 {
        let tail = items.drop_first();
        lemma_rising(flat, order, new_way, items[0].i, tail);
        assert forall|m: int| 0 <= m < items.len() implies last < (#[trigger] items[m]).i < flat.len() by {
            if m > 0 {
                assert(items[m] == tail[m - 1]);
            }
        }
    }
}

/// What becomes of an entity.
pub enum Act {
    /// It changes.
    Change(Seq<Item>),
    /// It comes, as one of a class, with a serial number.
    Enter(int, int, Seq<Item>),
    /// It is out of sight.
    Leave,
    /// It is gone.
    Delete,
}

/// An update: the entity, how its gap is written, how its properties are, and what
/// becomes of it.
pub struct Update {
    pub eid: int,
    pub kind: int,
    pub new_way: bool,
    pub act: Act,
}

/// The number of an entity, `g` behind the one after the last.
#[verifier::opaque]
pub open spec fn eid_bits(proto4: bool, g: int, kind: int) -> Seq<bool> {
    if proto4 {
        parted_bits(g, kind)
    } else {
        var_bits(g, kind)
    }
}

/// An update behind its number: 2 bits that say what it is, and what that takes.
#[verifier::opaque]
pub open spec fn act_bits(
    ents: Map<u16, Entity>,
    t: TablesView,
    class_bits: nat,
    order: PropOrder,
    u: Update,
) -> Seq<bool> {
    match u.act {
        Act::Change(items) => bits_of(0, 2) + props_bits(
            t.flat[ents[u.eid as u16].class_id],
            order,
            u.new_way,
            items,
        ),
        Act::Leave => bits_of(1, 2),
        Act::Enter(class, serial, items) => bits_of(2, 2) + (bits_of(class, class_bits) + (bits_of(
            serial,
            10,
        ) + if t.flat.contains_key(class as u16) {
            props_bits(t.flat[class as u16], order, u.new_way, items)
        } else {
            Seq::empty()
        })),
        Act::Delete => bits_of(3, 2),
    }
}

#[verifier::opaque]
pub open spec fn act_fits(
    ents: Map<u16, Entity>,
    t: TablesView,
    class_bits: nat,
    order: PropOrder,
    u: Update,
) -> bool {
    &&& order == PropOrder::Gapped ==> !u.new_way
    &&& match u.act {
        Act::Change(items) => {
            &&& ents.contains_key(u.eid as u16)
            &&& t.flat.contains_key(ents[u.eid as u16].class_id)
            &&& items_fit(t.flat[ents[u.eid as u16].class_id], order, u.new_way, -1, items)
        },
        Act::Enter(class, serial, items) => {
            &&& 0 <= class < pow2(class_bits)
            &&& class < 0x1_0000
            &&& 0 <= serial < 1024
            &&& t.flat.contains_key(class as u16) ==> items_fit(
                t.flat[class as u16],
                order,
                u.new_way,
                -1,
                items,
            )
        },
        _ => true,
    }
}

/// The entities after an update.
#[verifier::opaque]
pub open spec fn acted(ents: Map<u16, Entity>, t: TablesView, u: Update) -> Map<u16, Entity> {
    let eid = u.eid as u16;
    match u.act {
        Act::Change(items) => ents.insert(
            eid,
            Entity {
                class_id: ents[eid].class_id,
                props: put_over(t.flat[ents[eid].class_id], ents[eid].props, items),
            },
        ),
        Act::Enter(class, _, items) => ents.insert(
            eid,
            Entity {
                class_id: class as u16,
                props: if t.flat.contains_key(class as u16) {
                    put_over(t.flat[class as u16], Map::empty(), items)
                } else {
                    Map::empty()
                },
            },
        ),
        Act::Leave => ents,
        Act::Delete => ents.remove(eid),
    }
}

/// An update that was written is read back: the entity changes, comes, stays away or is
/// gone, as it was written.
#[verifier::rlimit(50)]
pub proof fn law_update_round_trip(
    ents: Map<u16, Entity>,
    t: TablesView,
    class_bits: nat,
    order: PropOrder,
    u: Update,
    c: Cursor,
    rest: Seq<bool>,
)
    requires
        act_fits(ents, t, class_bits, order, u),
        c.holds(act_bits(ents, t, class_bits, order, u) + rest),
    ensures
        update_at(c, u.eid as u16, ents, t, class_bits as int, order) == (
            acted(ents, t, u),
            Some(c.past(act_bits(ents, t, class_bits, order, u))),
        ),
        c.past(act_bits(ents, t, class_bits, order, u)).holds(rest),
        act_bits(ents, t, class_bits, order, u).len() >= 2,
{
    reveal(act_bits);
    reveal(act_fits);
    reveal(acted);
    reveal(update_at);
    lemma2_to64();
    let all = act_bits(ents, t, class_bits, order, u);
    lemma_bits_len(0, 2);
    lemma_bits_len(1, 2);
    lemma_bits_len(2, 2);
    lemma_bits_len(3, 2);
    match u.act {
        Act::Change(items) => {
            let flat = t.flat[ents[u.eid as u16].class_id];
            let b = props_bits(flat, order, u.new_way, items);
            assert(all + rest =~= bits_of(0, 2) + (b + rest));
            c.lemma_number(0, 2, b + rest);
            law_props_round_trip(
                flat,
                order,
                u.new_way,
                items,
                ents[u.eid as u16].props,
                c.adv(2),
                rest,
            );
            assert(c.adv(2).past(b) == c.past(all));
        },
        Act::Leave => {
            c.lemma_number(1, 2, rest);
        },
        Act::Enter(class, serial, items) => {
            let b = if t.flat.contains_key(class as u16) {
                props_bits(t.flat[class as u16], order, u.new_way, items)
            } else {
                Seq::empty()
            };
            let (x, y) = (bits_of(class, class_bits), bits_of(serial, 10));
            lemma_bits_len(class, class_bits);
            lemma_bits_len(serial, 10);
            assert(all + rest =~= bits_of(2, 2) + (x + (y + (b + rest))));
            c.lemma_number(2, 2, x + (y + (b + rest)));
            let c1 = c.adv(2);
            c1.lemma_number(class, class_bits, y + (b + rest));
            let c2 = c1.adv(class_bits as int);
            c2.lemma_number(serial, 10, b + rest);
            let c3 = c2.adv(10);
            if t.flat.contains_key(class as u16) {
                law_props_round_trip(
                    t.flat[class as u16],
                    order,
                    u.new_way,
                    items,
                    Map::empty(),
                    c3,
                    rest,
                );
            } else {
                assert(b + rest =~= rest);
            }
            assert(c3.past(b) == c.past(all));
        },
        Act::Delete => {
            c.lemma_number(3, 2, rest);
        },
    }
}

/// Updates in the order of their entities.
pub open spec fn updates_bits(
    ents: Map<u16, Entity>,
    t: TablesView,
    class_bits: nat,
    l: Layout,
    last: int,
    us: Seq<Update>,
) -> Seq<bool>
    decreases us.len(),
{
    if us.len() == 0 {
        Seq::empty()
    } else {
        eid_bits(l.proto4, us[0].eid - last - 1, us[0].kind) + (act_bits(
            ents,
            t,
            class_bits,
            l.order,
            us[0],
        ) + updates_bits(
            acted(ents, t, us[0]),
            t,
            class_bits,
            l,
            us[0].eid,
            us.drop_first(),
        ))
    }
}

pub open spec fn updates_fit(
    ents: Map<u16, Entity>,
    t: TablesView,
    class_bits: nat,
    l: Layout,
    last: int,
    us: Seq<Update>,
) -> bool
    decreases us.len(),
{
    us.len() == 0 || {
        let u = us[0];
        let g = u.eid - last - 1;
        &&& last < u.eid < pow2(l.edict_bits as nat)
        &&& u.eid < 0x1_0000
        &&& 0 <= u.kind < 4
        &&& if l.proto4 {
            g < 16 * pow2(parted_width(u.kind))
        } else {
            g < pow2(var_width(u.kind))
        }
        &&& act_fits(ents, t, class_bits, l.order, u)
        &&& updates_fit(acted(ents, t, u), t, class_bits, l, u.eid, us.drop_first())
    }
}

pub open spec fn all_acted(ents: Map<u16, Entity>, t: TablesView, us: Seq<Update>) -> Map<
    u16,
    Entity,
>
    decreases us.len(),
{
    if us.len() == 0 {
        ents
    } else {
        all_acted(acted(ents, t, us[0]), t, us.drop_first())
    }
}

proof fn lemma_eid(proto4: bool, g: int, kind: int, c: Cursor, rest: Seq<bool>)
    requires
        0 <= g < 0x1_0000,
        0 <= kind < 4,
        proto4 ==> g < 16 * pow2(parted_width(kind)),
        !proto4 ==> g < pow2(var_width(kind)),
        c.holds(eid_bits(proto4, g, kind) + rest),
    ensures
        entity_gap(c, proto4) == Some((g, c.past(eid_bits(proto4, g, kind)))),
        c.past(eid_bits(proto4, g, kind)).holds(rest),
        eid_bits(proto4, g, kind).len() > 0,
{
    reveal(eid_bits);
    reveal(entity_gap);
    if proto4 {
        lemma_bits_len(g % 16, 4);
        c.law_parted_reads(g, kind, rest);
    } else {
        lemma_bits_len(kind, 2);
        c.law_var_reads(g, kind, rest);
    }
}

/// Updates that were written are read back, each for the entity that it was written
/// for.
#[verifier::rlimit(50)]
pub proof fn law_updates_round_trip(
    ents: Map<u16, Entity>,
    t: TablesView,
    class_bits: nat,
    l: Layout,
    last: int,
    us: Seq<Update>,
    end: int,
    c: Cursor,
    rest: Seq<bool>,
)
    requires
        updates_fit(ents, t, class_bits, l, last, us),
        last >= -1,
        c.end <= end,
        c.holds(updates_bits(ents, t, class_bits, l, last, us) + rest),
    ensures
        updates_from(c, end, us.len() as int, last, ents, t, class_bits as int, l) == (
            all_acted(ents, t, us),
            Some(c.past(updates_bits(ents, t, class_bits, l, last, us))),
        ),
        c.past(updates_bits(ents, t, class_bits, l, last, us)).holds(rest),
    decreases us.len(),
{
    let all = updates_bits(ents, t, class_bits, l, last, us);
    if us.len() == 0 {
        assert(all + rest =~= rest);
        assert(c.past(all) == c);
    } else {
        let u = us[0];
        let g = u.eid - last - 1;
        let a = eid_bits(l.proto4, g, u.kind);
        let b = act_bits(ents, t, class_bits, l.order, u);
        let m = acted(ents, t, u);
        let e = updates_bits(m, t, class_bits, l, u.eid, us.drop_first());
        assert(all + rest =~= a + (b + (e + rest)));
        lemma_within(c, a + (b + (e + rest)));
        lemma_eid(l.proto4, g, u.kind, c, b + (e + rest));
        let c1 = c.past(a);
        law_update_round_trip(ents, t, class_bits, l.order, u, c1, e + rest);
        let c2 = c1.past(b);
        law_updates_round_trip(m, t, class_bits, l, u.eid, us.drop_first(), end, c2, rest);
        assert(c2.past(e) == c.past(all));
        assert(c.pos < end);
    }
}

/// Entities that are taken away: a mark and a number each, and a mark that none follows.
pub open spec fn gone_bits(bits: nat, gone: Seq<u16>) -> Seq<bool>
    decreases gone.len(),
{
    if gone.len() == 0 {
        flag(false)
    } else {
        flag(true) + (bits_of(gone[0] as int, bits) + gone_bits(bits, gone.drop_first()))
    }
}

pub open spec fn without(ents: Map<u16, Entity>, gone: Seq<u16>) -> Map<u16, Entity>
    decreases gone.len(),
{
    if gone.len() == 0 {
        ents
    } else {
        without(ents.remove(gone[0]), gone.drop_first())
    }
}

/// A list of entities that are taken away is read back.
pub proof fn law_gone_round_trip(
    bits: nat,
    gone: Seq<u16>,
    ents: Map<u16, Entity>,
    end: int,
    c: Cursor,
    rest: Seq<bool>,
)
    requires
        bits <= 16,
        forall|i: int| 0 <= i < gone.len() ==> (#[trigger] gone[i]) < pow2(bits),
        c.end <= end,
        c.holds(gone_bits(bits, gone) + rest),
    ensures
        removals_from(c, end, bits, ents) == (without(ents, gone), true),
    decreases gone.len(),
{
    lemma_within(c, gone_bits(bits, gone) + rest);
    if gone.len() == 0 {
        c.lemma_flag(false, rest);
    } else {
        let tail = gone.drop_first();
        assert(forall|i: int| 0 <= i < tail.len() ==> #[trigger] tail[i] == gone[i + 1]);
        let b = bits_of(gone[0] as int, bits);
        let e = gone_bits(bits, tail);
        lemma_bits_len(gone[0] as int, bits);
        assert(gone_bits(bits, gone) + rest =~= flag(true) + (b + (e + rest)));
        c.lemma_flag(true, b + (e + rest));
        c.adv(1).lemma_number(gone[0] as int, bits, e + rest);
        law_gone_round_trip(bits, tail, ents.remove(gone[0]), end, c.adv(1).adv(bits as int), rest);
    }
}

/// A message of updates that was written, and of the entities that it takes away, gives
/// the entities that were meant.
#[verifier::rlimit(50)]
pub proof fn law_world_round_trip(
    d: Seq<u8>,
    start: int,
    len: int,
    ents: Map<u16, Entity>,
    t: TablesView,
    class_bits: nat,
    l: Layout,
    us: Seq<Update>,
    gone: Option<Seq<u16>>,
)
    requires
        l.edict_bits <= 16,
        updates_fit(ents, t, class_bits, l, -1, us),
        gone matches Some(g) ==> forall|i: int|
            0 <= i < g.len() ==> (#[trigger] g[i]) < pow2(l.edict_bits as nat),
        stands(d, start, message_bits(ents, t, class_bits, l, us, gone)),
        message_bits(ents, t, class_bits, l, us, gone).len() <= len,
    ensures
        world_after(
            d,
            start,
            len,
            us.len() as int,
            gone is Some,
            ents,
            t,
            class_bits as int,
            l,
        ) == (
            match gone {
                Some(g) => without(all_acted(ents, t, us), g),
                None => all_acted(ents, t, us),
            },
            true,
        ),
{
    let end = start + len;
    let c = Cursor {
        d,
        pos: start,
        end: if end <= 8 * d.len() {
            end
        } else {
            8 * d.len() as int
        },
    };
    let a = updates_bits(ents, t, class_bits, l, -1, us);
    let e = Seq::<bool>::empty();
    assert(c.holds(message_bits(ents, t, class_bits, l, us, gone))) by {
        reveal(Cursor::holds);
    }
    match gone {
        Some(g) => {
            let b = gone_bits(l.edict_bits as nat, g);
            assert(b =~= b + e);
            law_updates_round_trip(ents, t, class_bits, l, -1, us, end, c, b);
            law_gone_round_trip(
                l.edict_bits as nat,
                g,
                all_acted(ents, t, us),
                end,
                c.past(a),
                e,
            );
        },
        None => {
            assert(a =~= a + e);
            law_updates_round_trip(ents, t, class_bits, l, -1, us, end, c, e);
        },
    }
}

pub open spec fn message_bits(
    ents: Map<u16, Entity>,
    t: TablesView,
    class_bits: nat,
    l: Layout,
    us: Seq<Update>,
    gone: Option<Seq<u16>>,
) -> Seq<bool> {
    match gone {
        Some(g) => updates_bits(ents, t, class_bits, l, -1, us) + gone_bits(l.edict_bits as nat, g),
        None => updates_bits(ents, t, class_bits, l, -1, us),
    }
}

} // verus!
