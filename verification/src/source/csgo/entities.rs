//! Entity updates that CS:GO wraps in protobuf messages.
use crate::bits::countable;
use crate::bytes::signed32;
use crate::protobuf::reader::{field_views, whole_fields, whole_from, FieldView, ValueView};
use crate::source::datatable::{DataTables, TablesView};
use crate::source::packetentities::{parse_entity_updates, world_after, Entity, EntityWorld, Layout,
    PropOrder};
use vstd::prelude::*;

verus! {

/// What a message of entity updates says of them, and their bits.
pub struct Updates {
    pub entries: int,
    pub delta: bool,
    pub data: Seq<u8>,
}

/// A field of the message; none where its value is of the wrong kind.
pub open spec fn with_field(u: Updates, f: FieldView) -> Option<Updates> {
    if f.number == 2 {
        match f.value.number() {
            Some(v) => Some(Updates { entries: signed32((v % 0x1_0000_0000) as int), ..u }),
            None => None,
        }
    } else if f.number == 3 {
        match f.value.number() {
            Some(v) => Some(Updates { delta: v != 0, ..u }),
            None => None,
        }
    } else if f.number == 7 {
        match f.value {
            ValueView::Len(b) => Some(Updates { data: b, ..u }),
            _ => None,
        }
    } else {
        Some(u)
    }
}

pub open spec fn with_fields(u: Updates, fs: Seq<FieldView>, i: int) -> Option<Updates>
    decreases fs.len() - i,
{
    if i < 0 || i >= fs.len() {
        Some(u)
    } else {
        match with_field(u, fs[i]) {
            Some(v) => with_fields(v, fs, i + 1),
            None => None,
        }
    }
}

/// What a message says; none where it cannot be read.
pub open spec fn updates_of(body: Seq<u8>) -> Option<Updates> {
    match whole_from(body, 0) {
        Some(fs) => with_fields(Updates { entries: 0, delta: false, data: Seq::empty() }, fs, 0),
        None => None,
    }
}

struct Header<'a> {
    entries: i32,
    delta: bool,
    data: &'a [u8],
}

impl<'a> Header<'a> {
    spec fn view(&self) -> Updates {
        Updates { entries: self.entries as int, delta: self.delta, data: self.data@ }
    }
}

fn read_header<'a>(body: &'a [u8]) -> (r: Option<Header<'a>>)
    ensures
        match (r, updates_of(body@)) {
            (Some(h), Some(u)) => h@ == u,
            (None, None) => true,
            _ => false,
        },
{
    let fs = match whole_fields(body) {
        Some(fs) => fs,
        None => {
            return None;
        },
    };
    let ghost all = field_views(fs@);
    let mut h = Header { entries: 0, delta: false, data: vstd::slice::slice_subrange(body, 0, 0) };
    assert(h.data@ =~= Seq::empty());
    let mut i: usize = 0;
    while i < fs.len()
        invariant
            i <= fs@.len(),
            all == field_views(fs@),
            updates_of(body@) == with_fields(h@, all, i as int),
        decreases fs@.len() - i,
    {
        let f = &fs[i];
        assert(all[i as int] == f@);
        match f.number {
            2 => match f.value.as_i32() {
                Some(v) => {
                    h.entries = v;
                },
                None => {
                    return None;
                },
            },
            3 => match f.value.as_bool() {
                Some(v) => {
                    h.delta = v;
                },
                None => {
                    return None;
                },
            },
            7 => match f.value.as_bytes() {
                Some(b) => {
                    h.data = b;
                },
                None => {
                    return None;
                },
            },
            _ => {},
        }
        i += 1;
    }
    Some(h)
}

/// How CS:GO writes entity updates.
pub open spec fn csgo_layout() -> Layout {
    Layout { proto4: true, order: PropOrder::Separated, edict_bits: 11 }
}

/// The entities after a message, and whether all of it could be read.
pub open spec fn world_of(
    body: Seq<u8>,
    ents: Map<u16, Entity>,
    t: TablesView,
    class_bits: int,
) -> (Map<u16, Entity>, bool) {
    match updates_of(body) {
        None => (ents, false),
        Some(u) => world_after(
            u.data,
            0,
            8 * u.data.len() as int,
            u.entries % 0x1_0000_0000,
            u.delta,
            ents,
            t,
            class_bits,
            csgo_layout(),
        ),
    }
}

/// Applies a message of entity updates.
pub fn decode_packet_entities(body: &[u8], world: &mut EntityWorld, data: &DataTables) -> (ok: bool)
    requires
        countable(body@),
        old(world).wf(),
        data.wf(),
    ensures
        final(world).wf(),
        final(world).class_bits == old(world).class_bits,
        (final(world)@, ok) == world_of(
            body@,
            old(world)@,
            data@,
            old(world).class_bits as int,
        ),
{
    match read_header(body) {
        None => false,
        Some(h) => {
            proof {
                lemma_data_short(body@);
            }
            let n: u32 = if h.entries >= 0 {
                h.entries as u32
            } else {
                u32::MAX - (-(h.entries + 1)) as u32
            };
            parse_entity_updates(
                h.data,
                0,
                h.data.len() as u64 * 8,
                n,
                h.delta,
                world,
                data,
                Layout { proto4: true, order: PropOrder::Separated, edict_bits: 11 },
            )
        },
    }
}

/// The bytes of a field are no more than `n`.
spec fn is_short(f: FieldView, n: nat) -> bool {
    f.value matches ValueView::Len(b) ==> b.len() <= n
}

/// The bytes of a field are part of the message.
proof fn lemma_fields_short(d: Seq<u8>, pos: int)
    requires
        0 <= pos <= d.len(),
        whole_from(d, pos) is Some,
    ensures
        forall|i: int|
            0 <= i < whole_from(d, pos)->0.len() ==> is_short(
                #[trigger] (whole_from(d, pos)->0)[i],
                d.len(),
            ),
    decreases d.len() - pos,
{
    match crate::protobuf::reader::field_at(d, pos) {
        (Ok(Some(f)), p) => {
            crate::protobuf::reader::lemma_field_progress(d, pos);
            lemma_fields_short(d, p);
            let rest = whole_from(d, p)->0;
            assert(is_short(f, d.len()));
            assert forall|i: int| 0 <= i < whole_from(d, pos)->0.len() implies is_short(
                #[trigger] (whole_from(d, pos)->0)[i],
                d.len(),
            ) by {
                if i > 0 {
                    assert((seq![f] + rest)[i] == rest[i - 1]);
                }
            }
        },
        _ => {},
    }
}

proof fn lemma_with_short(u: Updates, fs: Seq<FieldView>, i: int, n: nat)
    requires
        u.data.len() <= n,
        forall|k: int| 0 <= k < fs.len() ==> is_short(#[trigger] fs[k], n),
    ensures
        with_fields(u, fs, i) matches Some(v) ==> v.data.len() <= n,
    decreases fs.len() - i,
{
    if 0 <= i < fs.len() {
        assert(is_short(fs[i], n));
        match with_field(u, fs[i]) {
            Some(v) => lemma_with_short(v, fs, i + 1, n),
            None => {},
        }
    }
}

proof fn lemma_data_short(body: Seq<u8>)
    ensures
        updates_of(body) matches Some(u) ==> u.data.len() <= body.len(),
{
    if whole_from(body, 0) is Some {
        lemma_fields_short(body, 0);
        lemma_with_short(
            Updates { entries: 0, delta: false, data: Seq::empty() },
            whole_from(body, 0)->0,
            0,
            body.len(),
        );
    }
}

} // verus!
