//! The tables of networked properties that CS:GO wraps in protobuf messages.
use super::message::{frame_at, lemma_frame_progress};
use crate::bytes::{flag, has_flag, le_u16, signed32, u16_at, zero_from};
use crate::protobuf::reader::{field_views, whole_fields, whole_from, Field, FieldView, Reader,
    ValueView};
use crate::source::datatable::{classes, ClassView, RawSendPropDef, ServerClass};
use crate::source::sendprop::{type_of, SendPropType};
use crate::text::{lossy, lossy_chars};
use vstd::prelude::*;

verus! {

/// A property as it was sent: its flags in the layout of this engine.
#[derive(Debug)]
pub struct RawProp {
    pub prop_type: SendPropType,
    pub name: String,
    pub flags: u32,
    pub priority: i32,
    pub dt_name: String,
    pub num_elements: i32,
    /// The bits of the limits.
    pub low_value: u32,
    pub high_value: u32,
    pub num_bits: i32,
}

/// What the fields of a property say.
#[verifier::ext_equal]
pub struct PropFields {
    pub kind: int,
    pub name: Seq<char>,
    pub flags: u32,
    pub priority: int,
    pub dt_name: Seq<char>,
    pub num_elements: int,
    pub low_value: u32,
    pub high_value: u32,
    pub num_bits: int,
}

pub open spec fn as_int(v: ValueView) -> Option<int> {
    match v.number() {
        Some(n) => Some(signed32((n % 0x1_0000_0000) as int)),
        None => None,
    }
}

pub open spec fn as_text(v: ValueView) -> Option<Seq<char>> {
    match v {
        ValueView::Len(b) => Some(lossy_chars(b)),
        _ => None,
    }
}

pub open spec fn as_float(v: ValueView) -> Option<u32> {
    match v {
        ValueView::Fixed32(n) => Some(n),
        _ => None,
    }
}

/// One field of a property; none where its value is of the wrong kind.
pub open spec fn prop_field(p: PropFields, f: FieldView) -> Option<PropFields> {
    if f.number == 1 {
        match as_int(f.value) {
            Some(v) => Some(PropFields { kind: v, ..p }),
            None => None,
        }
    } else if f.number == 2 {
        match as_text(f.value) {
            Some(s) => Some(PropFields { name: s, ..p }),
            None => None,
        }
    } else if f.number == 3 {
        match f.value.number() {
            Some(n) => Some(PropFields { flags: (n % 0x1_0000_0000) as u32, ..p }),
            None => None,
        }
    } else if f.number == 4 {
        match as_int(f.value) {
            Some(v) => Some(PropFields { priority: v, ..p }),
            None => None,
        }
    } else if f.number == 5 {
        match as_text(f.value) {
            Some(s) => Some(PropFields { dt_name: s, ..p }),
            None => None,
        }
    } else if f.number == 6 {
        match as_int(f.value) {
            Some(v) => Some(PropFields { num_elements: v, ..p }),
            None => None,
        }
    } else if f.number == 7 {
        match as_float(f.value) {
            Some(v) => Some(PropFields { low_value: v, ..p }),
            None => None,
        }
    } else if f.number == 8 {
        match as_float(f.value) {
            Some(v) => Some(PropFields { high_value: v, ..p }),
            None => None,
        }
    } else if f.number == 9 {
        match as_int(f.value) {
            Some(v) => Some(PropFields { num_bits: v, ..p }),
            None => None,
        }
    } else {
        Some(p)
    }
}

pub open spec fn prop_fields(p: PropFields, fs: Seq<FieldView>, i: int) -> Option<PropFields>
    decreases fs.len() - i,
{
    if i < 0 || i >= fs.len() {
        Some(p)
    } else {
        match prop_field(p, fs[i]) {
            Some(q) => prop_fields(q, fs, i + 1),
            None => None,
        }
    }
}

pub open spec fn no_fields() -> PropFields {
    PropFields {
        kind: 0,
        name: Seq::empty(),
        flags: 0,
        priority: 0,
        dt_name: Seq::empty(),
        num_elements: 0,
        low_value: 0,
        high_value: 0,
        num_bits: 0,
    }
}

/// A property; none where it cannot be read or is of an unknown type.
pub open spec fn prop_of(body: Seq<u8>) -> Option<PropFields> {
    match whole_from(body, 0) {
        None => None,
        Some(fs) => match prop_fields(no_fields(), fs, 0) {
            Some(p) => if type_of((p.kind % 256) as u8) is Some {
                Some(p)
            } else {
                None
            },
            None => None,
        },
    }
}

impl RawProp {
    /// Whether the property says what the fields do.
    pub open spec fn says(&self, p: PropFields) -> bool {
        &&& type_of((p.kind % 256) as u8) == Some(self.prop_type)
        &&& self.name@ == p.name
        &&& self.flags == p.flags
        &&& self.priority == p.priority
        &&& self.dt_name@ == p.dt_name
        &&& self.num_elements == p.num_elements
        &&& self.low_value == p.low_value
        &&& self.high_value == p.high_value
        &&& self.num_bits == p.num_bits
    }
}

fn low_byte(v: i32) -> (r: u8)
    ensures
        r == v as int % 256,
{
    let m: i64 = v as i64 + 0x8000_0000;
    proof {
        assert((v + 0x8000_0000) % 256 == v as int % 256) by {
            vstd::arithmetic::div_mod::lemma_mod_multiples_vanish(0x80_0000, v as int, 256);
        }
    }
    (m % 256) as u8
}

struct Draft {
    kind: i32,
    name: String,
    flags: u32,
    priority: i32,
    dt_name: String,
    num_elements: i32,
    low_value: u32,
    high_value: u32,
    num_bits: i32,
}

impl Draft {
    spec fn view(&self) -> PropFields {
        PropFields {
            kind: self.kind as int,
            name: self.name@,
            flags: self.flags,
            priority: self.priority as int,
            dt_name: self.dt_name@,
            num_elements: self.num_elements as int,
            low_value: self.low_value,
            high_value: self.high_value,
            num_bits: self.num_bits as int,
        }
    }

    fn set(&mut self, f: &Field) -> (ok: bool)
        ensures
            match prop_field(old(self)@, f@) {
                Some(p) => ok && final(self)@ == p,
                None => !ok,
            },
    {
        match f.number {
            1 => match f.value.as_i32() {
                Some(v) => {
                    self.kind = v;
                    true
                },
                None => false,
            },
            2 => match f.value.as_str() {
                Some(s) => {
                    self.name = s;
                    true
                },
                None => false,
            },
            3 => match f.value.as_u32() {
                Some(v) => {
                    self.flags = v;
                    true
                },
                None => false,
            },
            4 => match f.value.as_i32() {
                Some(v) => {
                    self.priority = v;
                    true
                },
                None => false,
            },
            5 => match f.value.as_str() {
                Some(s) => {
                    self.dt_name = s;
                    true
                },
                None => false,
            },
            6 => match f.value.as_i32() {
                Some(v) => {
                    self.num_elements = v;
                    true
                },
                None => false,
            },
            7 => match f.value.as_f32() {
                Some(v) => {
                    self.low_value = v;
                    true
                },
                None => false,
            },
            8 => match f.value.as_f32() {
                Some(v) => {
                    self.high_value = v;
                    true
                },
                None => false,
            },
            9 => match f.value.as_i32() {
                Some(v) => {
                    self.num_bits = v;
                    true
                },
                None => false,
            },
            _ => true,
        }
    }
}

fn decode_prop(body: &[u8]) -> (r: Option<RawProp>)
    ensures
        match (r, prop_of(body@)) {
            (Some(p), Some(q)) => p.says(q),
            (None, None) => true,
            _ => false,
        },
{
    let fs = match whole_fields(body) {
        Some(fs) => fs,
        None => {
            return None;
        },
    };
    let ghost all = field_views(fs@);
    let mut p = Draft {
        kind: 0,
        name: String::new(),
        flags: 0,
        priority: 0,
        dt_name: String::new(),
        num_elements: 0,
        low_value: 0,
        high_value: 0,
        num_bits: 0,
    };
    assert(p@ =~= no_fields());
    let mut i: usize = 0;
    while i < fs.len()
        invariant
            i <= fs@.len(),
            all == field_views(fs@),
            whole_from(body@, 0) == Some(all),
            prop_fields(no_fields(), all, 0) == prop_fields(p@, all, i as int),
        decreases fs@.len() - i,
    {
        assert(all[i as int] == fs@[i as int]@);
        if !p.set(&fs[i]) {
            return None;
        }
        i += 1;
    }
    match SendPropType::from_u8(low_byte(p.kind)) {
        Some(prop_type) => Some(
            RawProp {
                prop_type,
                name: p.name,
                flags: p.flags,
                priority: p.priority,
                dt_name: p.dt_name,
                num_elements: p.num_elements,
                low_value: p.low_value,
                high_value: p.high_value,
                num_bits: p.num_bits,
            },
        ),
        None => None,
    }
}

/// A table as it was sent.
#[derive(Debug)]
pub struct RawTable {
    pub needs_decoder: bool,
    pub name: String,
    pub props: Vec<RawProp>,
}

/// What the fields of a table say.
#[verifier::ext_equal]
pub struct TableFields {
    pub is_end: bool,
    pub name: Seq<char>,
    pub needs_decoder: bool,
    pub props: Seq<PropFields>,
}

/// One field of a table; none where its value is of the wrong kind. A property that
/// cannot be read is left out.
pub open spec fn table_field(t: TableFields, f: FieldView) -> Option<TableFields> {
    if f.number == 1 {
        match f.value.number() {
            Some(v) => Some(TableFields { is_end: v != 0, ..t }),
            None => None,
        }
    } else if f.number == 2 {
        match as_text(f.value) {
            Some(s) => Some(TableFields { name: s, ..t }),
            None => None,
        }
    } else if f.number == 3 {
        match f.value.number() {
            Some(v) => Some(TableFields { needs_decoder: v != 0, ..t }),
            None => None,
        }
    } else if f.number == 4 {
        match f.value {
            ValueView::Len(b) => match prop_of(b) {
                Some(p) => Some(TableFields { props: t.props.push(p), ..t }),
                None => Some(t),
            },
            _ => None,
        }
    } else {
        Some(t)
    }
}

pub open spec fn table_fields(t: TableFields, fs: Seq<FieldView>, i: int) -> Option<TableFields>
    decreases fs.len() - i,
{
    if i < 0 || i >= fs.len() {
        Some(t)
    } else {
        match table_field(t, fs[i]) {
            Some(u) => table_fields(u, fs, i + 1),
            None => None,
        }
    }
}

pub open spec fn no_table() -> TableFields {
    TableFields { is_end: false, name: Seq::empty(), needs_decoder: false, props: Seq::empty() }
}

/// A table; none where it cannot be read.
pub open spec fn table_of(body: Seq<u8>) -> Option<TableFields> {
    match whole_from(body, 0) {
        None => None,
        Some(fs) => table_fields(no_table(), fs, 0),
    }
}

pub open spec fn props_say(v: Seq<RawProp>, s: Seq<PropFields>) -> bool {
    v.len() == s.len() && forall|i: int| 0 <= i < v.len() ==> (#[trigger] v[i]).says(s[i])
}

impl RawTable {
    pub open spec fn says(&self, t: TableFields) -> bool {
        self.needs_decoder == t.needs_decoder && self.name@ == t.name && props_say(
            self.props@,
            t.props,
        )
    }
}

fn decode_send_table(body: &[u8]) -> (r: Option<(RawTable, bool)>)
    ensures
        match (r, table_of(body@)) {
            (Some((t, end)), Some(f)) => t.says(f) && end == f.is_end,
            (None, None) => true,
            _ => false,
        },
{
    let fs = match whole_fields(body) {
        Some(fs) => fs,
        None => {
            return None;
        },
    };
    let ghost all = field_views(fs@);
    let mut is_end = false;
    let mut t = RawTable { needs_decoder: false, name: String::new(), props: Vec::new() };
    let ghost mut g = no_table();
    assert(t.name@ =~= Seq::empty());
    let mut i: usize = 0;
    while i < fs.len()
        invariant
            i <= fs@.len(),
            all == field_views(fs@),
            whole_from(body@, 0) == Some(all),
            t.says(g),
            is_end == g.is_end,
            table_fields(no_table(), all, 0) == table_fields(g, all, i as int),
        decreases fs@.len() - i,
    {
        let f = &fs[i];
        assert(all[i as int] == f@);
        match f.number {
            1 => match f.value.as_bool() {
                Some(v) => {
                    is_end = v;
                },
                None => {
                    return None;
                },
            },
            2 => match f.value.as_str() {
                Some(s) => {
                    t.name = s;
                },
                None => {
                    return None;
                },
            },
            3 => match f.value.as_bool() {
                Some(v) => {
                    t.needs_decoder = v;
                },
                None => {
                    return None;
                },
            },
            4 => match f.value.as_bytes() {
                Some(b) => match decode_prop(b) {
                    Some(p) => t.props.push(p),
                    None => {},
                },
                None => {
                    return None;
                },
            },
            _ => {},
        }
        proof {
            g = table_field(g, f@)->0;
        }
        i += 1;
    }
    Some((t, is_end))
}

/// The tables from `pos` on, up to the one that says that it is the last, and what
/// follows it; none where they cannot be read.
pub open spec fn tables_from(d: Seq<u8>, pos: int) -> Option<(Seq<TableFields>, int)>
    decreases d.len() - pos,
    via tables_from_decreases
{
    if pos < 0 {
        None
    } else {
        match frame_at(d, pos) {
            None => None,
            Some((f, p)) => match table_of(f.body) {
                None => None,
                Some(t) => if t.is_end {
                    Some((Seq::empty(), p))
                } else {
                    match tables_from(d, p) {
                        Some((rest, q)) => Some((seq![t] + rest, q)),
                        None => None,
                    }
                },
            },
        }
    }
}

#[via_fn]
proof fn tables_from_decreases(d: Seq<u8>, pos: int) {
    if pos >= 0 && frame_at(d, pos) is Some {
        lemma_frame_progress(d, pos);
    }
}

/// One class: a number, a name and the name of its table.
pub open spec fn class_at(d: Seq<u8>, pos: int) -> Option<(ClassView, int)> {
    if pos + 2 > d.len() {
        None
    } else {
        let z1 = zero_from(d, pos + 2);
        let z2 = zero_from(d, z1 + 1);
        if z1 >= d.len() || z2 >= d.len() {
            None
        } else {
            Some(
                (
                    ClassView {
                        id: u16_at(d, pos) as u16,
                        name: lossy_chars(d.subrange(pos + 2, z1)),
                        data_table: lossy_chars(d.subrange(z1 + 1, z2)),
                    },
                    z2 + 1,
                ),
            )
        }
    }
}

/// `n` classes from `pos` on.
pub open spec fn classes_from(d: Seq<u8>, pos: int, n: int) -> Option<Seq<ClassView>>
    decreases n,
{
    if n <= 0 {
        Some(Seq::empty())
    } else {
        match class_at(d, pos) {
            None => None,
            Some((c, p)) => match classes_from(d, p, n - 1) {
                Some(rest) => Some(seq![c] + rest),
                None => None,
            },
        }
    }
}

/// The classes that follow the tables, behind their number.
pub open spec fn class_list(d: Seq<u8>) -> Option<Seq<ClassView>> {
    if d.len() < 2 {
        None
    } else {
        classes_from(d, 2, u16_at(d, 0))
    }
}

fn find_end(d: &[u8], pos: usize) -> (z: usize)
    requires
        pos <= d@.len(),
    ensures
        z == zero_from(d@, pos as int),
        pos <= z <= d@.len(),
{
    let mut z: usize = pos;
    while z < d.len() && d[z] != 0
        invariant
            pos <= z <= d@.len(),
            zero_from(d@, pos as int) == zero_from(d@, z as int),
        decreases d@.len() - z,
    {
        z += 1;
    }
    z
}

fn read_class(d: &[u8], pos: usize) -> (r: Option<(ServerClass, usize)>)
    requires
        pos <= d@.len(),
    ensures
        match (r, class_at(d@, pos as int)) {
            (Some((c, p)), Some((v, q))) => c@ == v && p == q && pos < p <= d@.len(),
            (None, None) => true,
            _ => false,
        },
{
    if d.len() - pos < 2 {
        return None;
    }
    let z1: usize = find_end(d, pos + 2);
    if z1 >= d.len() {
        return None;
    }
    let z2: usize = find_end(d, z1 + 1);
    if z2 >= d.len() {
        return None;
    }
    let id: u16 = le_u16(d, pos);
    let name = lossy(vstd::slice::slice_subrange(d, pos + 2, z1));
    let data_table = lossy(vstd::slice::slice_subrange(d, z1 + 1, z2));
    Some((ServerClass { id, name, data_table }, z2 + 1))
}

fn read_server_classes(d: &[u8]) -> (r: Option<Vec<ServerClass>>)
    ensures
        match (r, class_list(d@)) {
            (Some(v), Some(s)) => classes(v@) == s,
            (None, None) => true,
            _ => false,
        },
{
    if d.len() < 2 {
        return None;
    }
    let n: u16 = le_u16(d, 0);
    let mut pos: usize = 2;
    let mut out: Vec<ServerClass> = Vec::new();
    let mut i: u16 = 0;
    let ghost all = classes_from(d@, 2, n as int);
    proof {
        match all {
            Some(s) => {
                assert(classes(out@) + s =~= s);
            },
            None => {},
        }
    }
    while i < n
        invariant
            i <= n,
            pos <= d@.len(),
            all == classes_from(d@, 2, n as int),
            d@.len() >= 2,
            n == u16_at(d@, 0),
            match (all, classes_from(d@, pos as int, n - i)) {
                (Some(s), Some(rest)) => s == classes(out@) + rest,
                (None, None) => true,
                _ => false,
            },
        decreases n - i,
    {
        let ghost done = classes(out@);
        match read_class(d, pos) {
            None => {
                return None;
            },
            Some((c, p)) => {
                proof {
                    assert(classes(out@.push(c)) =~= done.push(c@));
                    match classes_from(d@, p as int, n - i - 1) {
                        Some(rest) => {
                            assert(done + (seq![c@] + rest) =~= done.push(c@) + rest);
                        },
                        None => {},
                    }
                }
                out.push(c);
                pos = p;
            },
        }
        i += 1;
    }
    assert(classes(out@) + Seq::<ClassView>::empty() =~= classes(out@));
    Some(out)
}

/// The tables of a demo, and the classes of its server.
#[derive(Debug)]
pub struct SendTables {
    pub tables: Vec<RawTable>,
    pub server_classes: Vec<ServerClass>,
}

pub open spec fn tables_say(v: Seq<RawTable>, s: Seq<TableFields>) -> bool {
    v.len() == s.len() && forall|i: int| 0 <= i < v.len() ==> (#[trigger] v[i]).says(s[i])
}

/// What a message of tables and classes says.
pub open spec fn send_tables(d: Seq<u8>) -> Option<(Seq<TableFields>, Seq<ClassView>)> {
    match tables_from(d, 0) {
        None => None,
        Some((t, p)) => match class_list(d.subrange(p, d.len() as int)) {
            Some(c) => Some((t, c)),
            None => None,
        },
    }
}

/// Reads the tables and the classes. What turns them into lists of properties for
/// each class also turns the flags into the layout of the other games: see
/// `resolve`.
pub fn parse(payload: &[u8]) -> (r: Option<SendTables>)
    ensures
        match (r, send_tables(payload@)) {
            (Some(t), Some((s, c))) => tables_say(t.tables@, s) && classes(t.server_classes@) == c,
            (None, None) => true,
            _ => false,
        },
{
    let mut reader = Reader::new(payload);
    let mut tables: Vec<RawTable> = Vec::new();
    let ghost d = payload@;
    let ghost all = tables_from(d, 0);
    let ghost mut done: Seq<TableFields> = Seq::empty();
    proof {
        match all {
            Some((s, _)) => {
                assert(done + s =~= s);
            },
            None => {},
        }
    }
    loop
        invariant_except_break
            match (all, tables_from(d, reader.pos())) {
                (Some((s, e)), Some((rest, f))) => s == done + rest && e == f,
                (None, None) => true,
                _ => false,
            },
        invariant
            d == payload@,
            reader.wf(),
            reader.bytes() == d,
            0 <= reader.pos() <= d.len(),
            all == tables_from(d, 0),
            tables_say(tables@, done),
        ensures
            all == Some((done, reader.pos())),
        decreases d.len() - reader.pos(),
    {
        let ghost pos = reader.pos();
        proof {
            if frame_at(d, pos) is Some {
                lemma_frame_progress(d, pos);
            }
        }
        if reader.is_empty() {
            return None;
        }
        match reader.read_varint() {
            Ok(_) => {},
            Err(_) => {
                return None;
            },
        }
        let size: usize = match reader.read_varint() {
            Ok(v) => v as usize,
            Err(_) => {
                return None;
            },
        };
        let body = match reader.read_bytes(size) {
            Ok(b) => b,
            Err(_) => {
                return None;
            },
        };
        match decode_send_table(body) {
            None => {
                return None;
            },
            Some((t, end)) => {
                let ghost f = table_of(body@)->0;
                if end {
                    assert(done + Seq::<TableFields>::empty() =~= done);
                    break;
                }
                proof {
                    match tables_from(d, reader.pos()) {
                        Some((rest, _)) => {
                            assert(done + (seq![f] + rest) =~= done.push(f) + rest);
                        },
                        None => {},
                    }
                    done = done.push(f);
                }
                tables.push(t);
            },
        }
    }
    match read_server_classes(reader.remaining()) {
        Some(server_classes) => Some(SendTables { tables, server_classes }),
        None => None,
    }
}

/// The flags of a property in the layout of the other games, `normalized`, with the
/// mark of numbers written in groups, which that layout has in another place.
pub open spec fn folded(flags: u32, normalized: u32) -> u32 {
    if has_flag(flags as int, 19) && !has_flag(normalized as int, 5) {
        (normalized + 32) as u32
    } else {
        normalized
    }
}

pub open spec fn text_is(o: Option<String>, s: Option<Seq<char>>) -> bool {
    match (o, s) {
        (Some(a), Some(b)) => a@ == b,
        (None, None) => true,
        _ => false,
    }
}

/// Whether `r` is the property with its flags in the layout of the other games: an
/// exclusion names the table that it is about, a table the one that it stands for.
pub open spec fn resolved(r: RawSendPropDef, p: RawProp, normalized: u32) -> bool {
    let flags = folded(p.flags, normalized);
    &&& r.prop_type == p.prop_type
    &&& r.name@ == p.name@
    &&& r.flags == flags
    &&& r.priority == p.priority as int % 256
    &&& text_is(
        r.exclude_dt_name,
        if has_flag(flags as int, 6) {
            Some(p.dt_name@)
        } else {
            None
        },
    )
    &&& text_is(
        r.data_table_name,
        if !has_flag(flags as int, 6) && p.prop_type == SendPropType::DataTable {
            Some(p.dt_name@)
        } else {
            None
        },
    )
    &&& r.low_value == p.low_value
    &&& r.high_value == p.high_value
    &&& r.bit_count == p.num_bits as int % 0x1_0000_0000
    &&& r.element_count == p.num_elements as int % 0x1_0000
    &&& r.array_element is None
}

fn low_word(v: i32) -> (r: u32)
    ensures
        r == v as int % 0x1_0000_0000,
{
    if v >= 0 {
        v as u32
    } else {
        let r: u32 = (v as i64 + 0x1_0000_0000) as u32;
        proof {
            vstd::arithmetic::div_mod::lemma_mod_multiples_vanish(1, v as int, 0x1_0000_0000);
        }
        r
    }
}

proof fn lemma_low_short(v: int)
    ensures
        (v % 0x1_0000_0000) % 0x1_0000 == v % 0x1_0000,
{
    vstd::arithmetic::div_mod::lemma_mod_mod(v, 0x1_0000, 0x1_0000);
}

/// Turns a property into the form that all games share, given its flags in the
/// layout of the other games.
pub fn resolve(p: RawProp, normalized: u32) -> (r: RawSendPropDef)
    ensures
        resolved(r, p, normalized),
{
    let flags: u32 = if flag(p.flags, 19) && !flag(normalized, 5) {
        proof {
            lemma_room(normalized);
        }
        normalized + 32
    } else {
        normalized
    };
    let excluded = flag(flags, 6);
    let table = !excluded && p.prop_type == SendPropType::DataTable;
    let exclude_dt_name = if excluded {
        Some(p.dt_name.clone())
    } else {
        None
    };
    let data_table_name = if table {
        Some(p.dt_name.clone())
    } else {
        None
    };
    proof {
        lemma_low_short(p.num_elements as int);
    }
    let n: u32 = low_word(p.num_elements);
    RawSendPropDef {
        prop_type: p.prop_type,
        name: p.name,
        flags,
        priority: low_byte(p.priority),
        exclude_dt_name,
        data_table_name,
        low_value: p.low_value,
        high_value: p.high_value,
        bit_count: low_word(p.num_bits),
        element_count: (n % 0x1_0000) as u16,
        array_element: None,
    }
}

proof fn lemma_room(n: u32)
    requires
        !has_flag(n as int, 5),
    ensures
        n + 32 <= u32::MAX,
{
    vstd::arithmetic::power2::lemma2_to64();
    assert(vstd::arithmetic::power2::pow2(5) == 32);
    if n + 32 > u32::MAX {
        assert(n as int / 32 == 0x7ff_ffff);
    }
}

/// The properties from `i` on, each array with the element that stands before it;
/// `pending` is an element that no array has taken. An array without one is left
/// out.
pub open spec fn bound_from(
    props: Seq<RawSendPropDef>,
    i: int,
    pending: Option<RawSendPropDef>,
) -> Seq<RawSendPropDef>
    decreases props.len() - i,
{
    if i < 0 || i >= props.len() {
        Seq::empty()
    } else {
        let p = props[i];
        if has_flag(p.flags as int, 8) {
            bound_from(props, i + 1, Some(p))
        } else if p.prop_type == SendPropType::Array {
            match pending {
                Some(e) => seq![RawSendPropDef { array_element: Some(Box::new(e)), ..p }]
                    + bound_from(props, i + 1, None),
                None => bound_from(props, i + 1, None),
            }
        } else {
            seq![p] + bound_from(props, i + 1, pending)
        }
    }
}

fn reversed(v: Vec<RawSendPropDef>) -> (r: Vec<RawSendPropDef>)
    ensures
        r@ == v@.reverse(),
{
    let mut v = v;
    let ghost v0 = v@;
    let mut r: Vec<RawSendPropDef> = Vec::new();
    while v.len() > 0
        invariant
            v@.len() + r@.len() == v0.len(),
            v@ == v0.take(v@.len() as int),
            r@ == v0.skip(v@.len() as int).reverse(),
        decreases v@.len(),
    {
        let ghost n = v@.len() as int;
        match v.pop() {
            Some(x) => {
                r.push(x);
            },
            None => {},
        }
        proof {
            assert(v@ =~= v0.take(n - 1));
            assert(r@ =~= v0.skip(n - 1).reverse());
        }
    }
    assert(v0.skip(0) =~= v0);
    r
}

/// Gives each array the element that stands before it.
pub fn bind_array_elements(raw_props: Vec<RawSendPropDef>) -> (out: Vec<RawSendPropDef>)
    ensures
        out@ == bound_from(raw_props@, 0, None),
{
    let ghost props = raw_props@;
    let mut rest = reversed(raw_props);
    let mut pending: Option<RawSendPropDef> = None;
    let mut out: Vec<RawSendPropDef> = Vec::new();
    let ghost mut i: int = 0;
    assert(out@ + bound_from(props, 0, None) =~= bound_from(props, 0, None));
    while rest.len() > 0
        invariant
            0 <= i <= props.len(),
            rest@ == props.skip(i).reverse(),
            bound_from(props, 0, None) == out@ + bound_from(props, i, pending),
        decreases rest@.len(),
    {
        let ghost before = out@;
        match rest.pop() {
            None => {},
            Some(p) => {
                proof {
                    assert(p == props[i]);
                    assert(rest@ =~= props.skip(i + 1).reverse());
                }
                if flag(p.flags, 8) {
                    pending = Some(p);
                } else if p.prop_type == SendPropType::Array {
                    let element = pending.take();
                    match element {
                        Some(e) => {
                            let bound = RawSendPropDef { array_element: Some(Box::new(e)), ..p };
                            proof {
                                let tail = bound_from(props, i + 1, None);
                                assert(before + (seq![bound] + tail) =~= before.push(bound) + tail);
                            }
                            out.push(bound);
                        },
                        None => {},
                    }
                } else {
                    proof {
                        let tail = bound_from(props, i + 1, pending);
                        assert(before + (seq![p] + tail) =~= before.push(p) + tail);
                    }
                    out.push(p);
                }
                proof {
                    i = i + 1;
                }
            },
        }
    }
    assert(out@ + Seq::<RawSendPropDef>::empty() =~= out@);
    out
}

} // verus!
