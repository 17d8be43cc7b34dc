//! Entity updates: which entities enter, change and leave, and the properties that
//! change with them.
use crate::bits::{countable, BitReader, Cursor};
use crate::bytes::{signed32, to_i32};
use crate::source::csgo::stringtables::{floor_log2, log2};
use crate::source::datatable::{DataTables, TablesView};
use crate::source::sendprop::{decode_prop, lemma_prop_onward, onward, prop_at, PropValue, PropView,
    SendPropDef};
use std::collections::HashMap;
use vstd::arithmetic::power2::{lemma2_to64, pow2};
use vstd::prelude::*;

verus! {

#[derive(Debug)]
pub struct EntityState {
    pub class_id: u16,
    pub props: HashMap<usize, PropValue>,
}

/// What an `EntityState` says.
#[verifier::ext_equal]
pub struct Entity {
    pub class_id: u16,
    pub props: Map<usize, PropView>,
}

pub open spec fn props_view(m: Map<usize, PropValue>) -> Map<usize, PropView> {
    m.map_values(|v: PropValue| v@)
}

impl EntityState {
    pub open spec fn view(&self) -> Entity {
        Entity { class_id: self.class_id, props: props_view(self.props@) }
    }
}

pub open spec fn entities_view(m: Map<u16, EntityState>) -> Map<u16, Entity> {
    m.map_values(|e: EntityState| e@)
}

pub struct EntityWorld {
    pub entities: HashMap<u16, EntityState>,
    /// How many bits a class takes.
    pub class_bits: u32,
}

/// How many bits the number of a class takes, of `n` classes.
pub open spec fn class_width(n: int) -> int {
    floor_log2(n) + 1
}

impl EntityWorld {
    pub open spec fn view(&self) -> Map<u16, Entity> {
        entities_view(self.entities@)
    }

    pub open spec fn wf(&self) -> bool {
        self.class_bits <= 32
    }

    /// A world without entities.
    pub fn new(data: &DataTables) -> (w: Self)
        requires
            data.wf(),
        ensures
            w.wf(),
            w@ == Map::<u16, Entity>::empty(),
            w.class_bits == class_width(data@.classes.len() as int),
    {
        broadcast use vstd::std_specs::hash::group_hash_axioms;

        let n: u32 = data.server_classes.len() as u32;
        let w = EntityWorld { entities: HashMap::new(), class_bits: log2(n) + 1 };
        assert(w@ =~= Map::<u16, Entity>::empty());
        w
    }
}

/// The next property of a list: one more than the last, a small gap, or a gap of up
/// to twelve bits. A gap of all ones ends the list: -1.
#[verifier::opaque]
pub open spec fn field_index(c: Cursor, last: int, new_way: bool) -> Option<(int, Cursor)> {
    let c0 = if new_way {
        match c.take(1) {
            Some((b, e)) => Some((b, e)),
            None => None,
        }
    } else {
        Some((0, c))
    };
    match c0 {
        None => None,
        Some((next, c1)) => if next == 1 {
            Some((last + 1, c1))
        } else {
            match if new_way {
                c1.take(1)
            } else {
                Some((0, c1))
            } {
                None => None,
                Some((small, c2)) => match if small == 1 {
                    c2.take(3)
                } else {
                    gap_at(c2)
                } {
                    None => None,
                    Some((gap, c3)) => Some(
                        (
                            if gap == 0xfff {
                                -1
                            } else {
                                last + gap + 1
                            },
                            c3,
                        ),
                    ),
                },
            }
        },
    }
}

/// A gap: seven bits, of which the upper two say whether 2, 4 or 7 bits follow in
/// their place.
pub open spec fn gap_at(c: Cursor) -> Option<(int, Cursor)> {
    match c.take(7) {
        None => None,
        Some((v, e)) => if v < 32 {
            Some((v, e))
        } else {
            match e.take(
                if v < 64 {
                    2
                } else if v < 96 {
                    4
                } else {
                    7
                },
            ) {
                Some((w, f)) => Some((v % 32 + 32 * w, f)),
                None => None,
            }
        },
    }
}

fn read_gap(br: &mut BitReader) -> (r: Option<u32>)
    requires
        old(br).wf(),
    ensures
        final(br).wf(),
        final(br)@.d == old(br)@.d,
        match (r, gap_at(old(br)@)) {
            (Some(v), Some((w, c))) => v == w && final(br)@ == c && v <= 0xfff,
            (None, None) => true,
            _ => false,
        },
{
    proof {
        lemma2_to64();
    }
    let v: u32 = match br.read_bits(7) {
        Some(v) => v,
        None => {
            return None;
        },
    };
    if v < 32 {
        return Some(v);
    }
    let n: u32 = if v < 64 {
        2
    } else if v < 96 {
        4
    } else {
        7
    };
    match br.read_bits(n) {
        Some(w) => Some(v % 32 + 32 * w),
        None => None,
    }
}

fn read_field_index(br: &mut BitReader, last: i32, new_way: bool) -> (r: Option<i32>)
    requires
        old(br).wf(),
        -1 <= last < 0x7fff_0000,
    ensures
        final(br).wf(),
        final(br)@.d == old(br)@.d,
        match (r, field_index(old(br)@, last as int, new_way)) {
            (Some(v), Some((w, c))) => v == w && final(br)@ == c && final(br)@.pos > old(br)@.pos
                && final(br)@.end == old(br)@.end && final(br)@.pos <= final(br)@.end && v >= -1,
            (None, None) => true,
            _ => false,
        },
{
    proof {
        reveal(field_index);
        lemma2_to64();
    }
    if new_way {
        match br.read_bits(1) {
            Some(b) => {
                if b == 1 {
                    return Some(last + 1);
                }
            },
            None => {
                return None;
            },
        }
    }
    let mut small = false;
    if new_way {
        match br.read_bits(1) {
            Some(b) => {
                small = b == 1;
            },
            None => {
                return None;
            },
        }
    }
    let gap: Option<u32> = if small {
        br.read_bits(3)
    } else {
        read_gap(br)
    };
    match gap {
        Some(g) => {
            if g == 0xfff {
                Some(-1)
            } else {
                Some(last + g as i32 + 1)
            }
        },
        None => None,
    }
}

/// A list of properties, up to its end. All of them must be among the first `n`.
pub open spec fn index_list(c: Cursor, last: int, new_way: bool, n: int) -> Option<
    (Seq<int>, Cursor),
>
    decreases c.end - c.pos,
{
    match field_index(c, last, new_way) {
        None => None,
        Some((i, e)) => if i == -1 {
            Some((Seq::empty(), e))
        } else if i < 0 || i >= n || e.pos <= c.pos || e.end != c.end || e.pos > c.end {
            None
        } else {
            match index_list(e, i, new_way, n) {
                Some((rest, f)) => Some((seq![i] + rest, f)),
                None => None,
            }
        },
    }
}

/// The properties after the values of a list are read, and what follows them, if
/// all could be read.
pub open spec fn values_at(
    flat: Seq<SendPropDef>,
    list: Seq<int>,
    k: int,
    c: Cursor,
    props: Map<usize, PropView>,
) -> (Map<usize, PropView>, Option<Cursor>)
    decreases list.len() - k,
{
    if k < 0 || k >= list.len() {
        (props, Some(c))
    } else {
        match prop_at(flat[list[k]], c) {
            Some((v, e)) => values_at(flat, list, k + 1, e, props.insert(list[k] as usize, v)),
            None => (props, None),
        }
    }
}

/// Properties of which each is followed by its value.
pub open spec fn mixed_at(
    flat: Seq<SendPropDef>,
    c: Cursor,
    last: int,
    new_way: bool,
    props: Map<usize, PropView>,
) -> (Map<usize, PropView>, Option<Cursor>)
    decreases c.end - c.pos,
{
    match field_index(c, last, new_way) {
        None => (props, None),
        Some((i, e)) => if i == -1 {
            (props, Some(e))
        } else if i < 0 || i >= flat.len() || e.pos <= c.pos || e.end != c.end || e.pos > c.end {
            (props, None)
        } else {
            match prop_at(flat[i], e) {
                None => (props, None),
                Some((v, f)) => if f.pos < e.pos || f.end != c.end || f.pos > c.end {
                    (props, None)
                } else {
                    mixed_at(flat, f, i, new_way, props.insert(i as usize, v))
                },
            }
        },
    }
}

/// Properties in the older way: a bit that says whether one follows, the gap, and
/// the value.
pub open spec fn gapped_at(
    flat: Seq<SendPropDef>,
    c: Cursor,
    last: int,
    props: Map<usize, PropView>,
) -> (Map<usize, PropView>, Option<Cursor>)
    decreases c.end - c.pos,
{
    match c.take(1) {
        None => (props, None),
        Some((more, c1)) => if more == 0 {
            (props, Some(c1))
        } else {
            match c1.bit_var() {
                None => (props, None),
                Some((gap, c2)) => {
                    let i = last + signed32(gap) + 1;
                    if i < 0 || i >= flat.len() {
                        (props, None)
                    } else {
                        match prop_at(flat[i], c2) {
                            None => (props, None),
                            Some((v, f)) => if f.pos < c1.pos || f.end != c.end || f.pos > c.end {
                                (props, None)
                            } else {
                                gapped_at(flat, f, i, props.insert(i as usize, v))
                            },
                        }
                    }
                },
            }
        },
    }
}

/// How the properties of an update are written.
#[derive(Debug, Clone, Copy, PartialEq, Eq, Structural)]
pub enum PropOrder {
    /// All the numbers, and then all the values.
    Separated,
    /// Each number with its value.
    Mixed,
    /// Gaps and values.
    Gapped,
}

/// The properties of an entity after an update, and what follows it, if it could be
/// read. What was read before it could not be is kept.
pub open spec fn props_at(
    flat: Seq<SendPropDef>,
    c: Cursor,
    order: PropOrder,
    props: Map<usize, PropView>,
) -> (Map<usize, PropView>, Option<Cursor>) {
    match order {
        PropOrder::Gapped => gapped_at(flat, c, -1, props),
        _ => match c.take(1) {
            None => (props, None),
            Some((b, c1)) => if order == PropOrder::Mixed {
                mixed_at(flat, c1, -1, b == 1, props)
            } else {
                match index_list(c1, -1, b == 1, flat.len() as int) {
                    None => (props, None),
                    Some((list, c2)) => values_at(flat, list, 0, c2, props),
                }
            },
        },
    }
}

fn read_separated(
    br: &mut BitReader,
    flat: &Vec<SendPropDef>,
    out: &mut HashMap<usize, PropValue>,
    new_way: bool,
) -> (ok: bool)
    requires
        old(br).wf(),
        old(br)@.pos <= old(br)@.end,
        flat@.len() <= 0x7fff_0000,
    ensures
        final(br).wf(),
        final(br)@.d == old(br)@.d,
        match index_list(old(br)@, -1, new_way, flat@.len() as int) {
            None => !ok && props_view(final(out)@) == props_view(old(out)@),
            Some((list, c2)) => {
                let (m, e) = values_at(flat@, list, 0, c2, props_view(old(out)@));
                props_view(final(out)@) == m && match e {
                    Some(c) => ok && final(br)@ == c,
                    None => !ok,
                }
            },
        },
{
    broadcast use vstd::std_specs::hash::group_hash_axioms;

    let ghost c0 = br@;
    let ghost all = index_list(c0, -1, new_way, flat@.len() as int);
    let mut list: Vec<usize> = Vec::new();
    let mut last: i32 = -1;
    loop
        invariant_except_break
            br.wf(),
            br@.d == old(br)@.d,
            br@.pos <= br@.end,
            flat@.len() <= 0x7fff_0000,
            -1 <= last < flat@.len(),
            forall|k: int| 0 <= k < list@.len() ==> (#[trigger] list@[k]) < flat@.len(),
            all == index_list(old(br)@, -1, new_way, flat@.len() as int),
            props_view(out@) == props_view(old(out)@),
            match (all, index_list(br@, last as int, new_way, flat@.len() as int)) {
                (Some((l, e)), Some((rest, f))) => l == ints(list@) + rest && e == f,
                (None, None) => true,
                _ => false,
            },
        ensures
            br.wf(),
            br@.d == old(br)@.d,
            forall|k: int| 0 <= k < list@.len() ==> (#[trigger] list@[k]) < flat@.len(),
            all == Some((ints(list@), br@)),
            props_view(out@) == props_view(old(out)@),
        decreases br@.end - br@.pos,
    {
        let ghost c = br@;
        match read_field_index(br, last, new_way) {
            None => {
                return false;
            },
            Some(i) => {
                if i == -1 {
                    assert(ints(list@) + Seq::<int>::empty() =~= ints(list@));
                    break;
                }
                if i < 0 || i as usize >= flat.len() {
                    return false;
                }
                proof {
                    match index_list(br@, i as int, new_way, flat@.len() as int) {
                        Some((rest, _)) => {
                            assert(ints(list@) + (seq![i as int] + rest) =~= ints(
                                list@.push(i as usize),
                            ) + rest);
                        },
                        None => {},
                    }
                }
                list.push(i as usize);
                last = i;
            },
        }
    }
    let ghost c2 = br@;
    let ghost l = ints(list@);
    let mut k: usize = 0;
    while k < list.len()
        invariant
            br.wf(),
            br@.d == old(br)@.d,
            k <= list@.len(),
            l == ints(list@),
            all == Some((l, c2)),
            all == index_list(old(br)@, -1, new_way, flat@.len() as int),
            forall|k: int| 0 <= k < list@.len() ==> (#[trigger] list@[k]) < flat@.len(),
            values_at(flat@, l, 0, c2, props_view(old(out)@)) == values_at(
                flat@,
                l,
                k as int,
                br@,
                props_view(out@),
            ),
        decreases list@.len() - k,
    {
        broadcast use vstd::std_specs::hash::group_hash_axioms;

        let i: usize = list[k];
        match decode_prop(&flat[i], br) {
            None => {
                return false;
            },
            Some(v) => {
                put_prop(out, i, v);
            },
        }
        k += 1;
    }
    true
}

spec fn ints(v: Seq<usize>) -> Seq<int> {
    v.map_values(|x: usize| x as int)
}

fn put_prop(out: &mut HashMap<usize, PropValue>, i: usize, v: PropValue)
    ensures
        props_view(final(out)@) == props_view(old(out)@).insert(i, v@),
{
    broadcast use vstd::std_specs::hash::group_hash_axioms;

    let ghost m = out@;
    let ghost w = v@;
    out.insert(i, v);
    assert(props_view(out@) =~= props_view(m).insert(i, w));
}

fn read_mixed(
    br: &mut BitReader,
    flat: &Vec<SendPropDef>,
    out: &mut HashMap<usize, PropValue>,
    new_way: bool,
) -> (ok: bool)
    requires
        old(br).wf(),
        old(br)@.pos <= old(br)@.end,
        flat@.len() <= 0x7fff_0000,
    ensures
        final(br).wf(),
        final(br)@.d == old(br)@.d,
        ({
            let (m, e) = mixed_at(flat@, old(br)@, -1, new_way, props_view(old(out)@));
            props_view(final(out)@) == m && match e {
                Some(c) => ok && final(br)@ == c,
                None => !ok,
            }
        }),
{
    let mut last: i32 = -1;
    loop
        invariant
            br.wf(),
            br@.d == old(br)@.d,
            br@.pos <= br@.end,
            flat@.len() <= 0x7fff_0000,
            -1 <= last < flat@.len(),
            mixed_at(flat@, old(br)@, -1, new_way, props_view(old(out)@)) == mixed_at(
                flat@,
                br@,
                last as int,
                new_way,
                props_view(out@),
            ),
        decreases br@.end - br@.pos,
    {
        match read_field_index(br, last, new_way) {
            None => {
                return false;
            },
            Some(i) => {
                if i == -1 {
                    return true;
                }
                if i < 0 || i as usize >= flat.len() {
                    return false;
                }
                proof {
                    lemma_prop_onward(flat@[i as int], br@);
                }
                match decode_prop(&flat[i as usize], br) {
                    None => {
                        return false;
                    },
                    Some(v) => put_prop(out, i as usize, v),
                }
                last = i;
            },
        }
    }
}

proof fn lemma_bit_var(c: Cursor)
    ensures
        c.bit_var() matches Some((v, e)) ==> onward(c, e) && 0 <= v <= u32::MAX,
{
    match c.take(2) {
        Some((k, e)) => {
            crate::bits::lemma_bits_bound(e.d, e.pos, 4);
            crate::bits::lemma_bits_bound(e.d, e.pos, 8);
            crate::bits::lemma_bits_bound(e.d, e.pos, 12);
            crate::bits::lemma_bits_bound(e.d, e.pos, 32);
            lemma2_to64();
        },
        None => {},
    }
}

fn read_gapped(
    br: &mut BitReader,
    flat: &Vec<SendPropDef>,
    out: &mut HashMap<usize, PropValue>,
) -> (ok: bool)
    requires
        old(br).wf(),
        old(br)@.pos <= old(br)@.end,
        flat@.len() <= 0x7fff_0000,
    ensures
        final(br).wf(),
        final(br)@.d == old(br)@.d,
        ({
            let (m, e) = gapped_at(flat@, old(br)@, -1, props_view(old(out)@));
            props_view(final(out)@) == m && match e {
                Some(c) => ok && final(br)@ == c,
                None => !ok,
            }
        }),
{
    let mut last: i32 = -1;
    proof {
        lemma2_to64();
    }
    loop
        invariant
            br.wf(),
            br@.d == old(br)@.d,
            br@.pos <= br@.end,
            flat@.len() <= 0x7fff_0000,
            -1 <= last < flat@.len(),
            pow2(1) == 2,
            gapped_at(flat@, old(br)@, -1, props_view(old(out)@)) == gapped_at(
                flat@,
                br@,
                last as int,
                props_view(out@),
            ),
        decreases br@.end - br@.pos,
    {
        let more: u32 = match br.read_bits(1) {
            Some(b) => b,
            None => {
                return false;
            },
        };
        if more == 0 {
            return true;
        }
        proof {
            lemma_bit_var(br@);
        }
        let gap: u32 = match br.read_bit_var() {
            Some(g) => g,
            None => {
                return false;
            },
        };
        let i: i64 = last as i64 + to_i32(gap) as i64 + 1;
        if i < 0 || i >= flat.len() as i64 {
            return false;
        }
        proof {
            lemma_prop_onward(flat@[i as int], br@);
        }
        match decode_prop(&flat[i as usize], br) {
            None => {
                return false;
            },
            Some(v) => put_prop(out, i as usize, v),
        }
        last = i as i32;
    }
}

fn read_prop_deltas(
    br: &mut BitReader,
    flat: &Vec<SendPropDef>,
    out: &mut HashMap<usize, PropValue>,
    order: PropOrder,
) -> (ok: bool)
    requires
        old(br).wf(),
        old(br)@.pos <= old(br)@.end,
        flat@.len() <= 0x7fff_0000,
    ensures
        final(br).wf(),
        final(br)@.d == old(br)@.d,
        ({
            let (m, e) = props_at(flat@, old(br)@, order, props_view(old(out)@));
            props_view(final(out)@) == m && match e {
                Some(c) => ok && final(br)@ == c,
                None => !ok,
            }
        }),
{
    if order == PropOrder::Gapped {
        return read_gapped(br, flat, out);
    }
    let new_way = match br.read_bool() {
        Some(b) => b,
        None => {
            return false;
        },
    };
    if order == PropOrder::Mixed {
        read_mixed(br, flat, out, new_way)
    } else {
        read_separated(br, flat, out, new_way)
    }
}

/// How entity updates are written.
#[derive(Debug, Clone, Copy, PartialEq, Eq, Structural)]
pub struct Layout {
    /// Whether gaps between entities are written in the newer way.
    pub proto4: bool,
    pub order: PropOrder,
    /// How many bits the number of an entity takes.
    pub edict_bits: u32,
}

/// How the properties are written: numbers and values apart, in the newer way, or in
/// the older one.
pub open spec fn prop_order(separated: bool, newer: bool) -> PropOrder {
    if separated {
        PropOrder::Separated
    } else if newer {
        PropOrder::Mixed
    } else {
        PropOrder::Gapped
    }
}

/// An entity that enters: its class, a serial number and its properties, which it
/// must have if its class has any.
pub open spec fn entered(
    c: Cursor,
    eid: u16,
    ents: Map<u16, Entity>,
    t: TablesView,
    class_bits: int,
    order: PropOrder,
) -> (Map<u16, Entity>, Option<Cursor>) {
    match c.take(class_bits as nat) {
        None => (ents, None),
        Some((v, c1)) => match c1.take(10) {
            None => (ents, None),
            Some((_, c2)) => {
                let class_id = (v % 0x1_0000) as u16;
                if t.flat.contains_key(class_id) {
                    match props_at(t.flat[class_id], c2, order, Map::empty()) {
                        (props, Some(e)) => (ents.insert(eid, Entity { class_id, props }), Some(e)),
                        (_, None) => (ents, None),
                    }
                } else {
                    (ents.insert(eid, Entity { class_id, props: Map::empty() }), Some(c2))
                }
            },
        },
    }
}

/// An entity that changes: it must be there, and its class have properties.
pub open spec fn changed(
    c: Cursor,
    eid: u16,
    ents: Map<u16, Entity>,
    t: TablesView,
    order: PropOrder,
) -> (Map<u16, Entity>, Option<Cursor>) {
    if !ents.contains_key(eid) || !t.flat.contains_key(ents[eid].class_id) {
        (ents, None)
    } else {
        let e = ents[eid];
        let (props, end) = props_at(t.flat[e.class_id], c, order, e.props);
        (ents.insert(eid, Entity { class_id: e.class_id, props }), end)
    }
}

/// One update behind the number of its entity: it changes, stays away, enters or is
/// deleted.
#[verifier::opaque]
pub open spec fn update_at(
    c: Cursor,
    eid: u16,
    ents: Map<u16, Entity>,
    t: TablesView,
    class_bits: int,
    order: PropOrder,
) -> (Map<u16, Entity>, Option<Cursor>) {
    match c.take(2) {
        None => (ents, None),
        Some((kind, c1)) => if kind == 2 {
            entered(c1, eid, ents, t, class_bits, order)
        } else if kind == 0 {
            changed(c1, eid, ents, t, order)
        } else if kind == 1 {
            (ents, Some(c1))
        } else {
            (ents.remove(eid), Some(c1))
        },
    }
}

/// The gap to the next entity.
#[verifier::opaque]
pub open spec fn entity_gap(c: Cursor, proto4: bool) -> Option<(int, Cursor)> {
    if proto4 {
        c.ubit_int()
    } else {
        c.bit_var()
    }
}

/// `left` updates, as far as they go up to bit `end`: the entities after them, and
/// what follows, if all could be read.
pub open spec fn updates_from(
    c: Cursor,
    end: int,
    left: int,
    last: int,
    ents: Map<u16, Entity>,
    t: TablesView,
    class_bits: int,
    l: Layout,
) -> (Map<u16, Entity>, Option<Cursor>)
    decreases left,
{
    if left <= 0 || c.pos >= end {
        (ents, Some(c))
    } else {
        match entity_gap(c, l.proto4) {
            None => (ents, None),
            Some((gap, c1)) => {
                let i = last + signed32(gap) + 1;
                if i < 0 || i >= pow2(l.edict_bits as nat) {
                    (ents, None)
                } else {
                    match update_at(c1, i as u16, ents, t, class_bits, l.order) {
                        (m, Some(e)) => updates_from(
                            e,
                            end,
                            left - 1,
                            i,
                            m,
                            t,
                            class_bits,
                            l,
                        ),
                        (m, None) => (m, None),
                    }
                }
            },
        }
    }
}

/// The entities that a list takes away, up to bit `end`.
pub open spec fn removals_from(c: Cursor, end: int, bits: nat, ents: Map<u16, Entity>) -> (
    Map<u16, Entity>,
    bool,
)
    decreases c.end - c.pos,
{
    if c.pos >= end {
        (ents, true)
    } else {
        match c.take(1) {
            None => (ents, false),
            Some((more, c1)) => if more == 0 {
                (ents, true)
            } else {
                match c1.take(bits) {
                    None => (ents, false),
                    Some((v, c2)) => removals_from(
                        c2,
                        end,
                        bits,
                        ents.remove((v % 0x1_0000) as u16),
                    ),
                }
            },
        }
    }
}

/// The entities after a message, and whether all of it could be read.
pub open spec fn world_after(
    d: Seq<u8>,
    start: int,
    len: int,
    n: int,
    removals: bool,
    ents: Map<u16, Entity>,
    t: TablesView,
    class_bits: int,
    l: Layout,
) -> (Map<u16, Entity>, bool) {
    let end = start + len;
    let c = Cursor {
        d,
        pos: start,
        end: if end <= 8 * d.len() {
            end
        } else {
            8 * d.len() as int
        },
    };
    match updates_from(c, end, n, -1, ents, t, class_bits, l) {
        (m, None) => (m, false),
        (m, Some(e)) => if removals {
            removals_from(e, end, l.edict_bits as nat, m)
        } else {
            (m, true)
        },
    }
}

proof fn lemma_entities_insert(m: Map<u16, EntityState>, k: u16, e: EntityState)
    ensures
        entities_view(m.insert(k, e)) == entities_view(m).insert(k, e@),
{
    assert(entities_view(m.insert(k, e)) =~= entities_view(m).insert(k, e@));
}

fn read_entered(
    br: &mut BitReader,
    eid: u16,
    world: &mut EntityWorld,
    data: &DataTables,
    order: PropOrder,
) -> (ok: bool)
    requires
        old(br).wf(),
        old(world).wf(),
        data.wf(),
    ensures
        final(br).wf(),
        final(br)@.d == old(br)@.d,
        final(world).wf(),
        final(world).class_bits == old(world).class_bits,
        ({
            let (m, e) = entered(
                old(br)@,
                eid,
                old(world)@,
                data@,
                old(world).class_bits as int,
                order,
            );
            final(world)@ == m && match e {
                Some(c) => ok && final(br)@ == c,
                None => !ok,
            }
        }),
{
    broadcast use vstd::std_specs::hash::group_hash_axioms;

    let v: u32 = match br.read_bits(world.class_bits) {
        Some(v) => v,
        None => {
            return false;
        },
    };
    if br.read_bits(10).is_none() {
        return false;
    }
    let class_id: u16 = (v % 0x1_0000) as u16;
    let mut props: HashMap<usize, PropValue> = HashMap::new();
    assert(props_view(props@) =~= Map::empty());
    match data.flat_props.get(&class_id) {
        Some(flat) => {
            if !read_prop_deltas(br, flat, &mut props, order) {
                return false;
            }
        },
        None => {},
    }
    let state = EntityState { class_id, props };
    proof {
        lemma_entities_insert(world.entities@, eid, state);
    }
    world.entities.insert(eid, state);
    true
}

fn read_changed(
    br: &mut BitReader,
    eid: u16,
    world: &mut EntityWorld,
    data: &DataTables,
    order: PropOrder,
) -> (ok: bool)
    requires
        old(br).wf(),
        old(br)@.pos <= old(br)@.end,
        old(world).wf(),
        data.wf(),
    ensures
        final(br).wf(),
        final(br)@.d == old(br)@.d,
        final(world).wf(),
        final(world).class_bits == old(world).class_bits,
        ({
            let (m, e) = changed(old(br)@, eid, old(world)@, data@, order);
            final(world)@ == m && match e {
                Some(c) => ok && final(br)@ == c,
                None => !ok,
            }
        }),
{
    broadcast use vstd::std_specs::hash::group_hash_axioms;

    let class_id: u16 = match world.entities.get(&eid) {
        Some(s) => s.class_id,
        None => {
            return false;
        },
    };
    match data.flat_props.get(&class_id) {
        None => false,
        Some(flat) => {
            let ghost m0 = world.entities@;
            match world.entities.remove(&eid) {
                None => false,
                Some(mut state) => {
                    let ok = read_prop_deltas(br, flat, &mut state.props, order);
                    proof {
                        lemma_entities_insert(world.entities@, eid, state);
                        assert(entities_view(m0.remove(eid)).insert(eid, state@) =~= entities_view(
                            m0,
                        ).insert(eid, state@));
                    }
                    world.entities.insert(eid, state);
                    ok
                },
            }
        },
    }
}

fn read_update(
    br: &mut BitReader,
    eid: u16,
    world: &mut EntityWorld,
    data: &DataTables,
    order: PropOrder,
) -> (ok: bool)
    requires
        old(br).wf(),
        old(world).wf(),
        data.wf(),
    ensures
        final(br).wf(),
        final(br)@.d == old(br)@.d,
        final(world).wf(),
        final(world).class_bits == old(world).class_bits,
        ({
            let (m, e) = update_at(
                old(br)@,
                eid,
                old(world)@,
                data@,
                old(world).class_bits as int,
                order,
            );
            final(world)@ == m && match e {
                Some(c) => ok && final(br)@ == c,
                None => !ok,
            }
        }),
{
    broadcast use vstd::std_specs::hash::group_hash_axioms;

    proof {
        reveal(update_at);
    }
    let kind: u32 = match br.read_bits(2) {
        Some(k) => k,
        None => {
            return false;
        },
    };
    if kind == 2 {
        read_entered(br, eid, world, data, order)
    } else if kind == 0 {
        read_changed(br, eid, world, data, order)
    } else if kind == 1 {
        true
    } else {
        let ghost m0 = world.entities@;
        world.entities.remove(&eid);
        assert(entities_view(world.entities@) =~= entities_view(m0).remove(eid));
        true
    }
}

fn read_entity_gap(br: &mut BitReader, proto4: bool) -> (r: Option<u32>)
    requires
        old(br).wf(),
    ensures
        final(br).wf(),
        final(br)@.d == old(br)@.d,
        match (r, entity_gap(old(br)@, proto4)) {
            (Some(v), Some((w, c))) => v == w && final(br)@ == c,
            (None, None) => true,
            _ => false,
        },
{
    proof {
        reveal(entity_gap);
    }
    if proto4 {
        br.read_ubit_int()
    } else {
        br.read_bit_var()
    }
}

fn read_updates(
    br: &mut BitReader,
    end: u64,
    n: u32,
    world: &mut EntityWorld,
    data: &DataTables,
    l: Layout,
) -> (ok: bool)
    requires
        old(br).wf(),
        old(world).wf(),
        data.wf(),
        l.edict_bits <= 16,
    ensures
        final(br).wf(),
        final(br)@.d == old(br)@.d,
        final(world).wf(),
        final(world).class_bits == old(world).class_bits,
        ({
            let (m, e) = updates_from(
                old(br)@,
                end as int,
                n as int,
                -1,
                old(world)@,
                data@,
                old(world).class_bits as int,
                l,
            );
            final(world)@ == m && match e {
                Some(c) => ok && final(br)@ == c,
                None => !ok,
            }
        }),
{
    let ghost bits = world.class_bits as int;
    let ghost all = updates_from(br@, end as int, n as int, -1, world@, data@, bits, l);
    proof {
        lemma2_to64();
        vstd::bits::lemma_u64_shl_is_mul(1, l.edict_bits as u64);
        if l.edict_bits < 16 {
            vstd::arithmetic::power2::lemma_pow2_strictly_increases(l.edict_bits as nat, 16);
        }
    }
    let max: i64 = (1u64 << (l.edict_bits as u64)) as i64;
    let mut last: i32 = -1;
    let mut i: u32 = 0;
    while i < n
        invariant
            br.wf(),
            br@.d == old(br)@.d,
            world.wf(),
            world.class_bits == bits,
            bits == old(world).class_bits,
            data.wf(),
            i <= n,
            max == pow2(l.edict_bits as nat),
            max <= 0x1_0000,
            -1 <= last < 0x1_0000,
            all == updates_from(
                old(br)@,
                end as int,
                n as int,
                -1,
                old(world)@,
                data@,
                bits,
                l,
            ),
            all == updates_from(br@, end as int, n - i, last as int, world@, data@, bits, l),
        decreases n - i,
    {
        if br.bit_pos() >= end {
            return true;
        }
        let gap: u32 = match read_entity_gap(br, l.proto4) {
            Some(g) => g,
            None => {
                return false;
            },
        };
        let k: i64 = last as i64 + to_i32(gap) as i64 + 1;
        if k < 0 || k >= max {
            return false;
        }
        if !read_update(br, k as u16, world, data, l.order) {
            return false;
        }
        last = k as i32;
        i += 1;
    }
    true
}

fn read_removals(br: &mut BitReader, end: u64, bits: u32, world: &mut EntityWorld) -> (ok: bool)
    requires
        old(br).wf(),
        old(world).wf(),
        bits <= 16,
    ensures
        final(br).wf(),
        final(world).wf(),
        final(world).class_bits == old(world).class_bits,
        (final(world)@, ok) == removals_from(old(br)@, end as int, bits as nat, old(world)@),
{
    proof {
        lemma2_to64();
    }
    while br.bit_pos() < end
        invariant
            br.wf(),
            world.wf(),
            world.class_bits == old(world).class_bits,
            bits <= 16,
            pow2(1) == 2,
            removals_from(br@, end as int, bits as nat, world@) == removals_from(
                old(br)@,
                end as int,
                bits as nat,
                old(world)@,
            ),
        decreases br@.end - br@.pos,
    {
        broadcast use vstd::std_specs::hash::group_hash_axioms;

        let more: u32 = match br.read_bits(1) {
            Some(b) => b,
            None => {
                return false;
            },
        };
        if more == 0 {
            return true;
        }
        match br.read_bits(bits) {
            Some(v) => {
                let ghost m0 = world.entities@;
                let k: u16 = (v % 0x1_0000) as u16;
                world.entities.remove(&k);
                assert(entities_view(world.entities@) =~= entities_view(m0).remove(k));
            },
            None => {
                return false;
            },
        }
    }
    true
}

/// Applies a message of entity updates: `num_updates` updates in `length_bits` bits
/// from bit `start_bit` on and, where there is a tick that it refers to, the
/// entities that are gone. At the first bit that cannot be read the rest is given
/// up; what was read is kept.
pub fn parse_entity_updates(
    payload: &[u8],
    start_bit: u64,
    length_bits: u64,
    num_updates: u32,
    has_delta_tick: bool,
    world: &mut EntityWorld,
    data: &DataTables,
    layout: Layout,
) -> (ok: bool)
    requires
        countable(payload@),
        start_bit + length_bits <= u64::MAX,
        old(world).wf(),
        data.wf(),
        layout.edict_bits <= 16,
    ensures
        final(world).wf(),
        final(world).class_bits == old(world).class_bits,
        (final(world)@, ok) == world_after(
            payload@,
            start_bit as int,
            length_bits as int,
            num_updates as int,
            has_delta_tick,
            old(world)@,
            data@,
            old(world).class_bits as int,
            layout,
        ),
{
    let end: u64 = start_bit + length_bits;
    let mut br = BitReader::new_at(payload, start_bit);
    br.set_max_bit(end);
    if !read_updates(&mut br, end, num_updates, world, data, layout) {
        return false;
    }
    if has_delta_tick {
        return read_removals(&mut br, end, layout.edict_bits, world);
    }
    true
}

/// An update touches only the entity that it names.
pub proof fn law_update_is_local(
    c: Cursor,
    eid: u16,
    other: u16,
    ents: Map<u16, Entity>,
    t: TablesView,
    class_bits: int,
    order: PropOrder,
)
    requires
        other != eid,
    ensures
        ({
            let m = update_at(c, eid, ents, t, class_bits, order).0;
            m.contains_key(other) == ents.contains_key(other) && (ents.contains_key(other)
                ==> m[other] == ents[other])
        }),
{
    reveal(update_at);
}

} // verus!
