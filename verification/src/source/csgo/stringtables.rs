//! String-table creation and update messages.
use crate::bits::{countable, BitReader, Cursor};
use crate::protobuf::reader::{field_at, fields_from, lemma_field_progress, FieldView, ValueView};
use crate::protobuf::{Field, Reader};
use crate::source::stringtable::{blob_player, lemma_players_insert, parse_player_info_blob,
    players_view, PlayerInfo, PlayerView};
use crate::text::{clone_texts, contains_text, lossy_chars, str_eq, texts};
use std::collections::HashMap;
use vstd::arithmetic::power2::{lemma2_to64, lemma_pow2_adds, pow2};
use vstd::prelude::*;

verus! {

/// Width of the "bytes to copy" field of an entry string.
pub const SUBSTRING_BITS: u32 = 5;

/// Width of an entry's userdata byte count.
pub const MAX_USERDATA_BITS: u32 = 14;

/// The largest exponent of two that is no larger than `n`; 0 for 0.
pub open spec fn floor_log2(n: int) -> int
    decreases n,
{
    if n <= 1 {
        0
    } else {
        1 + floor_log2(n / 2)
    }
}

/// The place of the highest bit of a number; zero for zero.
pub fn log2(n: u32) -> (r: u32)
    ensures
        r == floor_log2(n as int),
        r <= 31,
{
    let mut m: u32 = n;
    let mut r: u32 = 0;
    proof {
        lemma2_to64();
    }
    while m > 1
        invariant
            floor_log2(n as int) == r + floor_log2(m as int),
            m * pow2(r as nat) <= n,
            pow2(32) == 0x1_0000_0000,
            r <= 31,
        decreases m,
    {
        proof {
            let p = pow2(r as nat) as int;
            vstd::arithmetic::power2::lemma_pow2_unfold((r + 1) as nat);
            let h = (m / 2) as int;
            assert(h * (2 * p) <= m * p) by (nonlinear_arith)
                requires
                    2 * h <= m,
                    p >= 0,
            ;
            assert(pow2((r + 1) as nat) <= n) by (nonlinear_arith)
                requires
                    h >= 1,
                    h * (2 * p) <= n,
                    pow2((r + 1) as nat) == 2 * p,
                    p >= 0,
            ;
            if r + 1 >= 32 {
                assert(false);
            }
        }
        m = m / 2;
        r = r + 1;
    }
    r
}

/// A created table: its name and how its entries are laid out.
pub struct TableMeta {
    name: String,
    entry_bits: u32,
    user_data_fixed_size: bool,
    user_data_size_bits: u32,
}

/// What a `TableMeta` says.
pub struct TableView {
    pub name: Seq<char>,
    pub entry_bits: u32,
    pub fixed: bool,
    pub size_bits: u32,
}

impl TableMeta {
    pub closed spec fn view(&self) -> TableView {
        TableView {
            name: self.name@,
            entry_bits: self.entry_bits,
            fixed: self.user_data_fixed_size,
            size_bits: self.user_data_size_bits,
        }
    }
}

/// A creation message's envelope.
pub struct Creation {
    pub name: Seq<char>,
    pub max_entries: u32,
    pub num_entries: u32,
    pub fixed: bool,
    pub size_bits: u32,
    pub data: Seq<u8>,
}

pub open spec fn u32_of(v: ValueView) -> Option<u32> {
    match v.number() {
        Some(n) => Some((n % 0x1_0000_0000) as u32),
        None => None,
    }
}

/// A creation envelope after one more field; none where the field's kind is wrong.
pub open spec fn creation_step(a: Creation, f: FieldView) -> Option<Creation> {
    if f.number == 1 {
        match f.value {
            ValueView::Len(b) => Some(Creation { name: lossy_chars(b), ..a }),
            _ => None,
        }
    } else if f.number == 2 {
        match u32_of(f.value) {
            Some(max_entries) => Some(Creation { max_entries, ..a }),
            None => None,
        }
    } else if f.number == 3 {
        match u32_of(f.value) {
            Some(num_entries) => Some(Creation { num_entries, ..a }),
            None => None,
        }
    } else if f.number == 4 {
        match f.value.number() {
            Some(n) => Some(Creation { fixed: n != 0, ..a }),
            None => None,
        }
    } else if f.number == 6 {
        match u32_of(f.value) {
            Some(size_bits) => Some(Creation { size_bits, ..a }),
            None => None,
        }
    } else if f.number == 8 {
        match f.value {
            ValueView::Len(data) => Some(Creation { data, ..a }),
            _ => None,
        }
    } else {
        Some(a)
    }
}

pub open spec fn creation_from(fs: Seq<FieldView>, a: Creation) -> Option<Creation>
    decreases fs.len(),
{
    if fs.len() == 0 {
        Some(a)
    } else {
        match creation_step(a, fs[0]) {
            Some(a) => creation_from(fs.drop_first(), a),
            None => None,
        }
    }
}

/// The envelope of a creation message: none where a field's kind is wrong or the
/// table has no room for an entry.
pub open spec fn creation_of(body: Seq<u8>) -> Option<Creation> {
    match creation_from(
        fields_from(body, 0),
        Creation {
            name: Seq::empty(),
            max_entries: 0,
            num_entries: 0,
            fixed: false,
            size_bits: 0,
            data: Seq::empty(),
        },
    ) {
        Some(c) => if c.max_entries == 0 {
            None
        } else {
            Some(c)
        },
        None => None,
    }
}

/// An update message's envelope.
pub struct Change {
    pub table_id: u32,
    pub num_changed: u32,
    pub data: Seq<u8>,
}

pub open spec fn change_step(a: Change, f: FieldView) -> Option<Change> {
    if f.number == 1 {
        match u32_of(f.value) {
            Some(table_id) => Some(Change { table_id, ..a }),
            None => None,
        }
    } else if f.number == 2 {
        match u32_of(f.value) {
            Some(num_changed) => Some(Change { num_changed, ..a }),
            None => None,
        }
    } else if f.number == 3 {
        match f.value {
            ValueView::Len(data) => Some(Change { data, ..a }),
            _ => None,
        }
    } else {
        Some(a)
    }
}

pub open spec fn change_from(fs: Seq<FieldView>, a: Change) -> Option<Change>
    decreases fs.len(),
{
    if fs.len() == 0 {
        Some(a)
    } else {
        match change_step(a, fs[0]) {
            Some(a) => change_from(fs.drop_first(), a),
            None => None,
        }
    }
}

/// The envelope of an update message; one entry changes where no count is given.
pub open spec fn change_of(body: Seq<u8>) -> Option<Change> {
    change_from(fields_from(body, 0), Change { table_id: 0, num_changed: 1, data: Seq::empty() })
}

struct Create<'a> {
    name: String,
    max_entries: u32,
    num_entries: u32,
    user_data_fixed_size: bool,
    user_data_size_bits: u32,
    string_data: &'a [u8],
}

impl<'a> Create<'a> {
    spec fn view(&self) -> Creation {
        Creation {
            name: self.name@,
            max_entries: self.max_entries,
            num_entries: self.num_entries,
            fixed: self.user_data_fixed_size,
            size_bits: self.user_data_size_bits,
            data: self.string_data@,
        }
    }
}

fn parse_create<'a>(body: &'a [u8]) -> (r: Option<Create<'a>>)
    ensures
        match (r, creation_of(body@)) {
            (Some(c), Some(v)) => c@ == v,
            (None, None) => true,
            _ => false,
        },
{
    let fs = Reader::new(body).fields();
    let ghost all = fields_from(body@, 0);
    let mut c = Create {
        name: String::new(),
        max_entries: 0,
        num_entries: 0,
        user_data_fixed_size: false,
        user_data_size_bits: 0,
        string_data: vstd::slice::slice_subrange(body, 0, 0),
    };
    let ghost init = c@;
    proof {
        assert(c.string_data@ =~= Seq::empty());
        assert(all.skip(0) =~= all);
    }
    let mut i: usize = 0;
    while i < fs.len()
        invariant
            i <= fs@.len(),
            fs@.map_values(|f: Field<'a>| f@) == all,
            all == fields_from(body@, 0),
            creation_from(all, init) is None ==> creation_of(body@) is None,
            creation_from(all, init) == creation_from(all.skip(i as int), c@),
        decreases fs@.len() - i,
    {
        let f = &fs[i];
        proof {
            let rest = all.skip(i as int);
            assert(rest[0] == f@);
            assert(rest.drop_first() =~= all.skip(i + 1));
        }
        match f.number {
            1 => match f.value.as_str() {
                Some(s) => {
                    c.name = s;
                },
                None => {
                    return None;
                },
            },
            2 => match f.value.as_u32() {
                Some(v) => {
                    c.max_entries = v;
                },
                None => {
                    return None;
                },
            },
            3 => match f.value.as_u32() {
                Some(v) => {
                    c.num_entries = v;
                },
                None => {
                    return None;
                },
            },
            4 => match f.value.as_bool() {
                Some(v) => {
                    c.user_data_fixed_size = v;
                },
                None => {
                    return None;
                },
            },
            6 => match f.value.as_u32() {
                Some(v) => {
                    c.user_data_size_bits = v;
                },
                None => {
                    return None;
                },
            },
            8 => match f.value.as_bytes() {
                Some(b) => {
                    c.string_data = b;
                },
                None => {
                    return None;
                },
            },
            _ => {},
        }
        i += 1;
    }
    assert(all.skip(i as int).len() == 0);
    if c.max_entries == 0 {
        return None;
    }
    Some(c)
}

struct Update<'a> {
    table_id: u32,
    num_changed_entries: u32,
    string_data: &'a [u8],
}

impl<'a> Update<'a> {
    spec fn view(&self) -> Change {
        Change {
            table_id: self.table_id,
            num_changed: self.num_changed_entries,
            data: self.string_data@,
        }
    }
}

fn parse_update<'a>(body: &'a [u8]) -> (r: Option<Update<'a>>)
    ensures
        match (r, change_of(body@)) {
            (Some(c), Some(v)) => c@ == v,
            (None, None) => true,
            _ => false,
        },
{
    let fs = Reader::new(body).fields();
    let ghost all = fields_from(body@, 0);
    let mut c = Update {
        table_id: 0,
        num_changed_entries: 1,
        string_data: vstd::slice::slice_subrange(body, 0, 0),
    };
    let ghost init = c@;
    proof {
        assert(c.string_data@ =~= Seq::empty());
        assert(all.skip(0) =~= all);
    }
    let mut i: usize = 0;
    while i < fs.len()
        invariant
            i <= fs@.len(),
            fs@.map_values(|f: Field<'a>| f@) == all,
            all == fields_from(body@, 0),
            change_from(all, init) == change_of(body@),
            change_from(all, init) == change_from(all.skip(i as int), c@),
        decreases fs@.len() - i,
    {
        let f = &fs[i];
        proof {
            let rest = all.skip(i as int);
            assert(rest[0] == f@);
            assert(rest.drop_first() =~= all.skip(i + 1));
        }
        match f.number {
            1 => match f.value.as_u32() {
                Some(v) => {
                    c.table_id = v;
                },
                None => {
                    return None;
                },
            },
            2 => match f.value.as_u32() {
                Some(v) => {
                    c.num_changed_entries = v;
                },
                None => {
                    return None;
                },
            },
            3 => match f.value.as_bytes() {
                Some(b) => {
                    c.string_data = b;
                },
                None => {
                    return None;
                },
            },
            _ => {},
        }
        i += 1;
    }
    assert(all.skip(i as int).len() == 0);
    Some(c)
}

/// A record after an update: the aliases that the slot had, and the new name
/// behind them if it is not among them.
pub open spec fn renamed(names: Map<u32, PlayerView>, id: u32, p: PlayerView) -> PlayerView {
    let before = if names.contains_key(id) {
        names[id].aliases
    } else {
        p.aliases
    };
    PlayerView {
        aliases: if before.contains(p.name) {
            before
        } else {
            before.push(p.name)
        },
        ..p
    }
}

/// The userdata of an entry: a flag, then a fixed number of bits or a byte count
/// and that many bytes. None where the bits run out.
pub open spec fn userdata_at(c: Cursor, fixed: bool, size_bits: u32) -> Option<
    (Option<Seq<u8>>, Cursor),
> {
    if !c.has(1) {
        None
    } else if c.val(1) != 1 {
        Some((None, c.adv(1)))
    } else {
        let c = c.adv(1);
        if fixed {
            if c.has(size_bits as int) {
                Some((Some(c.packed(size_bits as nat)), c.adv(size_bits as int)))
            } else {
                None
            }
        } else if !c.has(14) || !c.adv(14).has(8 * c.val(14)) {
            None
        } else {
            Some((Some(c.adv(14).packed((8 * c.val(14)) as nat)), c.adv(14).adv(8 * c.val(14))))
        }
    }
}

/// Past an entry's optional string: a flag, then whether it starts with a copy
/// from an earlier one, then its text.
pub open spec fn past_string(c: Cursor) -> Option<Cursor> {
    if !c.has(1) {
        None
    } else if c.val(1) != 1 {
        Some(c.adv(1))
    } else if !c.adv(1).has(1) {
        None
    } else {
        let sub = c.adv(1).val(1) == 1;
        let c = c.adv(2);
        if sub && !c.has(10) {
            None
        } else {
            match (if sub { c.adv(10) } else { c }).cstring(1024) {
                Some((_, c)) => Some(c),
                None => None,
            }
        }
    }
}

/// An entry's number: one more than the last one, or given.
pub open spec fn entry_index(c: Cursor, last: int, entry_bits: u32) -> Option<(int, Cursor)> {
    if !c.has(1) {
        None
    } else if c.val(1) == 1 {
        Some(((last + 1) % 0x1_0000_0000, c.adv(1)))
    } else {
        c.adv(1).take(entry_bits as nat)
    }
}

/// The names after `n` more entries, as far as the bits go.
pub open spec fn entries_from(
    c: Cursor,
    n: int,
    last: int,
    t: TableView,
    names: Map<u32, PlayerView>,
) -> Map<u32, PlayerView>
    decreases n,
{
    if n <= 0 {
        names
    } else {
        match entry_index(c, last, t.entry_bits) {
            None => names,
            Some((index, c)) => match past_string(c) {
                None => names,
                Some(c) => match userdata_at(c, t.fixed, t.size_bits) {
                    None => names,
                    Some((None, c)) => entries_from(c, n - 1, index, t, names),
                    Some((Some(b), c)) => match blob_player(b) {
                        None => entries_from(c, n - 1, index, t, names),
                        Some(p) => {
                            let id = ((index + 1) % 0x1_0000_0000) as u32;
                            entries_from(
                                c,
                                n - 1,
                                index,
                                t,
                                names.insert(id, renamed(names, id, p)),
                            )
                        },
                    },
                },
            },
        }
    }
}

/// The names after a userinfo entry stream; a dictionary-encoded one is skipped.
pub open spec fn userinfo_after(
    d: Seq<u8>,
    n: u32,
    t: TableView,
    names: Map<u32, PlayerView>,
) -> Map<u32, PlayerView> {
    let c = Cursor { d, pos: 0, end: 8 * d.len() as int };
    if !c.has(1) || c.val(1) == 1 {
        names
    } else {
        entries_from(c.adv(1), n as int, 0xffff_ffff, t, names)
    }
}

/// Gives a record the aliases that its slot had.
pub(crate) fn merge_record(names: &mut HashMap<u32, PlayerInfo>, id: u32, p: PlayerInfo)
    ensures
        players_view(final(names)@) == players_view(old(names)@).insert(
            id,
            renamed(players_view(old(names)@), id, p@),
        ),
{
    broadcast use vstd::std_specs::hash::group_hash_axioms;

    let mut p = p;
    let ghost before = p@;
    match names.get(&id) {
        Some(prev) => {
            p.aliases = clone_texts(&prev.aliases);
        },
        None => {},
    }
    if !contains_text(&p.aliases, p.name.as_str()) {
        let s = p.name.clone();
        assert(texts(p.aliases@.push(s)) =~= texts(p.aliases@).push(s@));
        p.aliases.push(s);
    }
    proof {
        assert(p@ == renamed(players_view(names@), id, before));
        lemma_players_insert(names@, id, p);
    }
    names.insert(id, p);
}

/// Skips an entry's optional string; false where the bits run out.
pub(crate) fn skip_string(br: &mut BitReader) -> (ok: bool)
    requires
        old(br).wf(),
    ensures
        final(br).wf(),
        match past_string(old(br)@) {
            Some(c) => ok && final(br)@ == c,
            None => !ok,
        },
{
    match br.read_bool() {
        Some(true) => {
            let sub = match br.read_bool() {
                Some(b) => b,
                None => {
                    return false;
                },
            };
            if sub && !br.skip(5 + SUBSTRING_BITS) {
                return false;
            }
            match br.read_cstring_bytes(1024) {
                Some(_) => true,
                None => false,
            }
        },
        Some(false) => true,
        None => false,
    }
}

pub(crate) fn read_index(br: &mut BitReader, last: u32, entry_bits: u32) -> (r: Option<u32>)
    requires
        old(br).wf(),
        entry_bits <= 32,
    ensures
        final(br).wf(),
        match (r, entry_index(old(br)@, last as int, entry_bits)) {
            (Some(v), Some((w, c))) => v == w && final(br)@ == c,
            (None, None) => true,
            _ => false,
        },
{
    match br.read_bool() {
        Some(true) => Some(last.wrapping_add(1)),
        Some(false) => br.read_bits(entry_bits),
        None => None,
    }
}

pub(crate) fn read_userdata(br: &mut BitReader, fixed: bool, size_bits: u32) -> (r: Option<Option<Vec<u8>>>)
    requires
        old(br).wf(),
    ensures
        final(br).wf(),
        match (r, userdata_at(old(br)@, fixed, size_bits)) {
            (Some(Some(v)), Some((Some(b), c))) => v@ == b && final(br)@ == c,
            (Some(None), Some((None, c))) => final(br)@ == c,
            (None, None) => true,
            _ => false,
        },
{
    proof {
        lemma2_to64();
        lemma_pow2_adds(8, 6);
    }
    match br.read_bool() {
        Some(true) => {
            if fixed {
                match br.read_bits_as_bytes(size_bits) {
                    Some(b) => Some(Some(b)),
                    None => None,
                }
            } else {
                match br.read_bits(MAX_USERDATA_BITS) {
                    Some(n) => match br.read_bits_as_bytes(n * 8) {
                        Some(b) => Some(Some(b)),
                        None => None,
                    },
                    None => None,
                }
            }
        },
        Some(false) => Some(None),
        None => None,
    }
}

/// Reads the entries of a table of players.
#[verifier::spinoff_prover]
#[verifier::rlimit(40)]
pub fn decode_userinfo_entries(
    string_data: &[u8],
    num_entries: u32,
    entry_bits: u32,
    user_data_fixed_size: bool,
    user_data_size_bits: u32,
    names: &mut HashMap<u32, PlayerInfo>,
)
    requires
        countable(string_data@),
        entry_bits <= 32,
    ensures
        players_view(final(names)@) == userinfo_after(
            string_data@,
            num_entries,
            TableView {
                name: "userinfo"@,
                entry_bits,
                fixed: user_data_fixed_size,
                size_bits: user_data_size_bits,
            },
            players_view(old(names)@),
        ),
{
    let ghost t = TableView {
        name: "userinfo"@,
        entry_bits,
        fixed: user_data_fixed_size,
        size_bits: user_data_size_bits,
    };
    let mut br = BitReader::new(string_data);
    match br.read_bool() {
        Some(false) => {},
        _ => {
            return ;
        },
    }
    let mut last: u32 = 0xffff_ffff;
    let mut i: u32 = 0;
    let ghost want = entries_from(br@, num_entries as int, last as int, t, players_view(names@));
    while i < num_entries
        invariant
            br.wf(),
            entry_bits <= 32,
            i <= num_entries,
            t.entry_bits == entry_bits,
            t.fixed == user_data_fixed_size,
            t.size_bits == user_data_size_bits,
            want == userinfo_after(string_data@, num_entries, t, players_view(old(names)@)),
            want == entries_from(br@, num_entries - i, last as int, t, players_view(names@)),
            t == (TableView {
                name: "userinfo"@,
                entry_bits,
                fixed: user_data_fixed_size,
                size_bits: user_data_size_bits,
            }),
        decreases num_entries - i,
    {
        let index: u32 = match read_index(&mut br, last, entry_bits) {
            Some(v) => v,
            None => {
                return ;
            },
        };
        last = index;
        if !skip_string(&mut br) {
            return ;
        }
        match read_userdata(&mut br, user_data_fixed_size, user_data_size_bits) {
            Some(Some(bytes)) => match parse_player_info_blob(bytes.as_slice()) {
                Some(p) => {
                    merge_record(names, index.wrapping_add(1), p);
                },
                None => {},
            },
            Some(None) => {},
            None => {
                return ;
            },
        }
        i += 1;
    }
}

/// The tables created so far, in order: an update names one by its place.
pub struct StringTables {
    tables: Vec<TableMeta>,
}

pub open spec fn table_of(c: Creation) -> TableView {
    TableView {
        name: c.name,
        entry_bits: floor_log2(c.max_entries as int) as u32,
        fixed: c.fixed,
        size_bits: c.size_bits,
    }
}

/// A message about string tables.
pub enum Message {
    Create(Seq<u8>),
    Update(Seq<u8>),
}

/// The tables that were created and the players that were named.
pub struct Registry {
    pub tables: Seq<TableView>,
    pub names: Map<u32, PlayerView>,
}

impl Registry {
    /// The tables and the players after a message: only a creation registers a table,
    /// and only `userinfo` names players.
    pub open spec fn after(self, m: Message) -> Registry {
        match m {
            Message::Create(body) => match creation_of(body) {
                Some(c) => Registry {
                    tables: self.tables.push(table_of(c)),
                    names: if c.name == "userinfo"@ {
                        userinfo_after(c.data, c.num_entries, table_of(c), self.names)
                    } else {
                        self.names
                    },
                },
                None => self,
            },
            Message::Update(body) => match change_of(body) {
                Some(u) => if u.table_id < self.tables.len() && self.tables[u.table_id as int].name
                    == "userinfo"@ {
                    Registry {
                        tables: self.tables,
                        names: userinfo_after(
                            u.data,
                            u.num_changed,
                            self.tables[u.table_id as int],
                            self.names,
                        ),
                    }
                } else {
                    self
                },
                None => self,
            },
        }
    }

    /// The tables and the players after the first `n` messages.
    pub open spec fn after_all(self, ms: Seq<Message>, n: int) -> Registry
        decreases n,
    {
        if n <= 0 {
            self
        } else {
            self.after_all(ms, n - 1).after(ms[n - 1])
        }
    }
}

/// The tables that the first `n` messages create, one for each creation message whose
/// envelope can be read.
pub open spec fn created(ms: Seq<Message>, n: int) -> Seq<TableView>
    decreases n,
{
    if n <= 0 {
        Seq::empty()
    } else {
        match ms[n - 1] {
            Message::Create(body) => match creation_of(body) {
                Some(c) => created(ms, n - 1).push(table_of(c)),
                None => created(ms, n - 1),
            },
            Message::Update(_) => created(ms, n - 1),
        }
    }
}

impl StringTables {
    pub closed spec fn view(&self) -> Seq<TableView> {
        self.tables@.map_values(|t: TableMeta| t@)
    }

    /// Entry numbers fit in 32 bits.
    pub closed spec fn wf(&self) -> bool {
        forall|i: int| 0 <= i < self.tables@.len() ==> (#[trigger] self.tables@[i]).entry_bits <= 31
    }

    pub fn new() -> (r: Self)
        ensures
            r@ == Seq::<TableView>::empty(),
            r.wf(),
    {
        let r = StringTables { tables: Vec::new() };
        assert(r@ =~= Seq::<TableView>::empty());
        r
    }

    /// Registers a created table and, if it is `userinfo`, reads its first entries.
    pub fn handle_create(&mut self, body: &[u8], names: &mut HashMap<u32, PlayerInfo>)
        requires
            countable(body@),
            old(self).wf(),
        ensures
            final(self).wf(),
            match creation_of(body@) {
                Some(c) => {
                    &&& final(self)@ == old(self)@.push(table_of(c))
                    &&& players_view(final(names)@) == if c.name == "userinfo"@ {
                        userinfo_after(
                            c.data,
                            c.num_entries,
                            table_of(c),
                            players_view(old(names)@),
                        )
                    } else {
                        players_view(old(names)@)
                    }
                },
                None => final(self)@ == old(self)@ && final(names)@ == old(names)@,
            },
            (Registry { tables: final(self)@, names: players_view(final(names)@) }) == (Registry {
                tables: old(self)@,
                names: players_view(old(names)@),
            }).after(Message::Create(body@)),
    {
        let c = match parse_create(body) {
            Some(c) => c,
            None => {
                return ;
            },
        };
        proof {
            lemma_creation_data(body@);
        }
        let entry_bits: u32 = log2(c.max_entries);
        let is_userinfo = str_eq(c.name.as_str(), "userinfo");
        let ghost v = c@;
        let t = TableMeta {
            name: c.name,
            entry_bits,
            user_data_fixed_size: c.user_data_fixed_size,
            user_data_size_bits: c.user_data_size_bits,
        };
        assert(t@ == table_of(v));
        assert(self.tables@.push(t).map_values(|t: TableMeta| t@) =~= self@.push(t@));
        self.tables.push(t);
        if is_userinfo {
            decode_userinfo_entries(
                c.string_data,
                c.num_entries,
                entry_bits,
                c.user_data_fixed_size,
                c.user_data_size_bits,
                names,
            );
        }
    }

    /// Applies an update to the table that it names, if that is `userinfo`.
    pub fn handle_update(&mut self, body: &[u8], names: &mut HashMap<u32, PlayerInfo>)
        requires
            countable(body@),
            old(self).wf(),
        ensures
            final(self).wf(),
            final(self)@ == old(self)@,
            players_view(final(names)@) == match change_of(body@) {
                Some(u) => if u.table_id < old(self)@.len() && old(self)@[u.table_id as int].name
                    == "userinfo"@ {
                    userinfo_after(
                        u.data,
                        u.num_changed,
                        old(self)@[u.table_id as int],
                        players_view(old(names)@),
                    )
                } else {
                    players_view(old(names)@)
                },
                None => players_view(old(names)@),
            },
            (Registry { tables: final(self)@, names: players_view(final(names)@) }) == (Registry {
                tables: old(self)@,
                names: players_view(old(names)@),
            }).after(Message::Update(body@)),
    {
        let u = match parse_update(body) {
            Some(u) => u,
            None => {
                return ;
            },
        };
        proof {
            lemma_change_data(body@);
        }
        if u.table_id as u64 >= self.tables.len() as u64 {
            return ;
        }
        let meta = &self.tables[u.table_id as usize];
        assert(self@[u.table_id as int] == meta@);
        if !str_eq(meta.name.as_str(), "userinfo") {
            return ;
        }
        decode_userinfo_entries(
            u.string_data,
            u.num_changed_entries,
            meta.entry_bits,
            meta.user_data_fixed_size,
            meta.user_data_size_bits,
            names,
        );
    }
}

/// Byte fields no longer than `m`.
spec fn short_fields(fs: Seq<FieldView>, m: nat) -> bool {
    forall|i: int|
        0 <= i < fs.len() ==> match (#[trigger] fs[i]).value {
            ValueView::Len(b) => b.len() <= m,
            _ => true,
        }
}

proof fn lemma_short_fields(d: Seq<u8>, pos: int)
    requires
        0 <= pos,
    ensures
        short_fields(fields_from(d, pos), d.len()),
    decreases d.len() - pos,
{
    match field_at(d, pos) {
        (Ok(Some(f)), p) => {
            lemma_field_progress(d, pos);
            lemma_short_fields(d, p);
            let rest = fields_from(d, p);
            assert forall|i: int| 1 <= i < fields_from(d, pos).len() implies fields_from(d, pos)[i]
                == rest[i - 1] by {}
        },
        _ => {},
    }
}

proof fn lemma_creation_short(fs: Seq<FieldView>, a: Creation, m: nat)
    requires
        short_fields(fs, m),
        a.data.len() <= m,
    ensures
        creation_from(fs, a) matches Some(c) ==> c.data.len() <= m,
    decreases fs.len(),
{
    if fs.len() > 0 {
        assert(short_fields(fs.drop_first(), m)) by {
            assert forall|i: int| 0 <= i < fs.drop_first().len() implies fs.drop_first()[i] == fs[i
                + 1] by {}
        }
        match creation_step(a, fs[0]) {
            Some(b) => lemma_creation_short(fs.drop_first(), b, m),
            None => {},
        }
    }
}

proof fn lemma_change_short(fs: Seq<FieldView>, a: Change, m: nat)
    requires
        short_fields(fs, m),
        a.data.len() <= m,
    ensures
        change_from(fs, a) matches Some(c) ==> c.data.len() <= m,
    decreases fs.len(),
{
    if fs.len() > 0 {
        assert(short_fields(fs.drop_first(), m)) by {
            assert forall|i: int| 0 <= i < fs.drop_first().len() implies fs.drop_first()[i] == fs[i
                + 1] by {}
        }
        match change_step(a, fs[0]) {
            Some(b) => lemma_change_short(fs.drop_first(), b, m),
            None => {},
        }
    }
}

proof fn lemma_creation_data(body: Seq<u8>)
    ensures
        creation_of(body) matches Some(c) ==> c.data.len() <= body.len(),
{
    lemma_short_fields(body, 0);
    lemma_creation_short(
        fields_from(body, 0),
        Creation {
            name: Seq::empty(),
            max_entries: 0,
            num_entries: 0,
            fixed: false,
            size_bits: 0,
            data: Seq::empty(),
        },
        body.len(),
    );
}

proof fn lemma_change_data(body: Seq<u8>)
    ensures
        change_of(body) matches Some(c) ==> c.data.len() <= body.len(),
{
    lemma_short_fields(body, 0);
    lemma_change_short(
        fields_from(body, 0),
        Change { table_id: 0, num_changed: 1, data: Seq::empty() },
        body.len(),
    );
}

/// Entries never drop a player, and a player's list of names only grows.
pub proof fn law_aliases_grow(
    c: Cursor,
    n: int,
    last: int,
    t: TableView,
    names: Map<u32, PlayerView>,
    id: u32,
)
    requires
        names.contains_key(id),
    ensures
        entries_from(c, n, last, t, names).contains_key(id),
        names[id].aliases.is_prefix_of(entries_from(c, n, last, t, names)[id].aliases),
    decreases n,
{
    if n > 0 {
        match entry_index(c, last, t.entry_bits) {
            Some((index, c1)) => match past_string(c1) {
                Some(c2) => match userdata_at(c2, t.fixed, t.size_bits) {
                    Some((None, c3)) => law_aliases_grow(c3, n - 1, index, t, names, id),
                    Some((Some(b), c3)) => match blob_player(b) {
                        None => law_aliases_grow(c3, n - 1, index, t, names, id),
                        Some(p) => {
                            let k = ((index + 1) % 0x1_0000_0000) as u32;
                            let after = names.insert(k, renamed(names, k, p));
                            law_aliases_grow(c3, n - 1, index, t, after, id);
                        },
                    },
                    None => {},
                },
                None => {},
            },
            None => {},
        }
    }
}

/// A merged record's name is among its aliases.
pub proof fn law_name_among_aliases(names: Map<u32, PlayerView>, id: u32, p: PlayerView)
    ensures
        renamed(names, id, p).aliases.contains(renamed(names, id, p).name),
{
    let before = if names.contains_key(id) {
        names[id].aliases
    } else {
        p.aliases
    };
    assert(before.push(p.name)[before.len() as int] == p.name);
}

/// After any messages, the tables are those that they created, in the order of the
/// messages: an update registers none, and a creation that cannot be read takes no
/// number.
pub proof fn law_tables_are_numbered(ms: Seq<Message>, n: int, names: Map<u32, PlayerView>)
    ensures
        (Registry { tables: Seq::empty(), names }).after_all(ms, n).tables == created(ms, n),
    decreases n,
{
    if n > 0 {
        law_tables_are_numbered(ms, n - 1, names);
    }
}

/// After any messages, an update reads its entries as the table has them that it gives
/// the number of, counted over the tables that were created; where that is none, or not
/// `userinfo`, or the update cannot be read, every player stays.
pub proof fn law_update_finds_its_table(
    ms: Seq<Message>,
    n: int,
    names: Map<u32, PlayerView>,
    body: Seq<u8>,
)
    ensures
        ({
            let r = (Registry { tables: Seq::empty(), names }).after_all(ms, n);
            let made = created(ms, n);
            &&& r.after(Message::Update(body)).tables == made
            &&& match change_of(body) {
                Some(u) if u.table_id < made.len() && made[u.table_id as int].name == "userinfo"@ =>
                    r.after(Message::Update(body)).names == userinfo_after(
                        u.data,
                        u.num_changed,
                        made[u.table_id as int],
                        r.names,
                    ),
                _ => r.after(Message::Update(body)).names == r.names,
            }
        }),
{
    law_tables_are_numbered(ms, n, names);
}

/// None of the fields has this number.
pub open spec fn lacks(fs: Seq<FieldView>, number: u32) -> bool {
    forall|i: int| 0 <= i < fs.len() ==> (#[trigger] fs[i]).number != number
}

proof fn lemma_change_lacks(fs: Seq<FieldView>, a: Change)
    ensures
        change_from(fs, a) matches Some(u) ==> {
            &&& lacks(fs, 1) ==> u.table_id == a.table_id
            &&& lacks(fs, 2) ==> u.num_changed == a.num_changed
            &&& lacks(fs, 3) ==> u.data == a.data
        },
    decreases fs.len(),
{
    if fs.len() > 0 {
        match change_step(a, fs[0]) {
            Some(b) => {
                let rest = fs.drop_first();
                assert(forall|i: int| 0 <= i < rest.len() ==> #[trigger] rest[i] == fs[i + 1]);
                lemma_change_lacks(rest, b);
                assert(lacks(fs, 1) ==> lacks(rest, 1) && fs[0].number != 1);
                assert(lacks(fs, 2) ==> lacks(rest, 2) && fs[0].number != 2);
                assert(lacks(fs, 3) ==> lacks(rest, 3) && fs[0].number != 3);
            },
            None => {},
        }
    }
}

/// An update that gives no number is about the first table, and one that gives no count
/// changes one entry.
pub proof fn law_update_defaults(body: Seq<u8>)
    ensures
        change_of(body) matches Some(u) ==> {
            &&& lacks(fields_from(body, 0), 1) ==> u.table_id == 0
            &&& lacks(fields_from(body, 0), 2) ==> u.num_changed == 1
            &&& lacks(fields_from(body, 0), 3) ==> u.data.len() == 0
        },
{
    lemma_change_lacks(
        fields_from(body, 0),
        Change { table_id: 0, num_changed: 1, data: Seq::empty() },
    );
}

/// Each player's name is among the aliases, and no alias is there twice.
pub open spec fn well_named(names: Map<u32, PlayerView>) -> bool {
    forall|id: u32| #[trigger]
        names.contains_key(id) ==> names[id].aliases.contains(names[id].name)
            && names[id].aliases.no_duplicates()
}

/// The records that `n` entries hold, each with its player's number, as far as the bits
/// go.
pub open spec fn records_from(c: Cursor, n: int, last: int, t: TableView) -> Seq<(u32, PlayerView)>
    decreases n,
{
    if n <= 0 {
        Seq::empty()
    } else {
        match entry_index(c, last, t.entry_bits) {
            None => Seq::empty(),
            Some((index, c)) => match past_string(c) {
                None => Seq::empty(),
                Some(c) => match userdata_at(c, t.fixed, t.size_bits) {
                    None => Seq::empty(),
                    Some((None, c)) => records_from(c, n - 1, index, t),
                    Some((Some(b), c)) => match blob_player(b) {
                        None => records_from(c, n - 1, index, t),
                        Some(p) => seq![(((index + 1) % 0x1_0000_0000) as u32, p)] + records_from(
                            c,
                            n - 1,
                            index,
                            t,
                        ),
                    },
                },
            },
        }
    }
}

/// The names after the records.
pub open spec fn merged(names: Map<u32, PlayerView>, rs: Seq<(u32, PlayerView)>) -> Map<
    u32,
    PlayerView,
>
    decreases rs.len(),
{
    if rs.len() == 0 {
        names
    } else {
        let (id, p) = rs[0];
        merged(names.insert(id, renamed(names, id, p)), rs.drop_first())
    }
}

/// The entries of a stream are merged one after the other: the names after them are the
/// names before them with each record that could be read, and where the bits run out the
/// records before that stay merged.
pub proof fn law_entries_are_merged(
    c: Cursor,
    n: int,
    last: int,
    t: TableView,
    names: Map<u32, PlayerView>,
)
    ensures
        entries_from(c, n, last, t, names) == merged(names, records_from(c, n, last, t)),
    decreases n,
{
    if n > 0 {
        match entry_index(c, last, t.entry_bits) {
            Some((index, c1)) => match past_string(c1) {
                Some(c2) => match userdata_at(c2, t.fixed, t.size_bits) {
                    Some((None, c3)) => law_entries_are_merged(c3, n - 1, index, t, names),
                    Some((Some(b), c3)) => match blob_player(b) {
                        None => law_entries_are_merged(c3, n - 1, index, t, names),
                        Some(p) => {
                            let id = ((index + 1) % 0x1_0000_0000) as u32;
                            let after = names.insert(id, renamed(names, id, p));
                            let rest = records_from(c3, n - 1, index, t);
                            law_entries_are_merged(c3, n - 1, index, t, after);
                            let all = seq![(id, p)] + rest;
                            assert(all.drop_first() =~= rest);
                            assert(all[0] == (id, p));
                        },
                    },
                    None => {},
                },
                None => {},
            },
            None => {},
        }
    }
}

/// A record as it is read has one alias, its name.
pub open spec fn fresh(rs: Seq<(u32, PlayerView)>) -> bool {
    forall|i: int| 0 <= i < rs.len() ==> (#[trigger] rs[i]).1.aliases == seq![rs[i].1.name]
}

/// Whether one of the records is for this player.
pub open spec fn among(rs: Seq<(u32, PlayerView)>, id: u32) -> bool {
    exists|i: int| 0 <= i < rs.len() && (#[trigger] rs[i]).0 == id
}

/// What records do to the players: none is dropped, each list of aliases goes on where
/// it was, a player that no record is for stays as it was, and the names stay among the
/// aliases, with no alias twice.
pub proof fn law_merged(names: Map<u32, PlayerView>, rs: Seq<(u32, PlayerView)>, id: u32)
    requires
        fresh(rs),
    ensures
        well_named(names) ==> well_named(merged(names, rs)),
        merged(names, rs).contains_key(id) <==> names.contains_key(id) || among(rs, id),
        names.contains_key(id) ==> names[id].aliases.is_prefix_of(merged(names, rs)[id].aliases),
        names.contains_key(id) && !among(rs, id) ==> merged(names, rs)[id] == names[id],
    decreases rs.len(),
{
    if rs.len() > 0 {
        let (k, p) = rs[0];
        let q = renamed(names, k, p);
        let after = names.insert(k, q);
        let rest = rs.drop_first();
        assert(forall|i: int| 0 <= i < rest.len() ==> #[trigger] rest[i] == rs[i + 1]);
        law_merged(after, rest, id);
        assert(among(rs, id) <==> k == id || among(rest, id)) by {
            if among(rs, id) && k != id {
                let i = choose|i: int| 0 <= i < rs.len() && (#[trigger] rs[i]).0 == id;
                assert(rest[i - 1].0 == id);
            }
            if among(rest, id) {
                let i = choose|i: int| 0 <= i < rest.len() && (#[trigger] rest[i]).0 == id;
                assert(rs[i + 1].0 == id);
            }
            if k == id {
                assert(rs[0].0 == id);
            }
        }
        if well_named(names) {
            law_name_among_aliases(names, k, p);
            assert(p.aliases == seq![p.name]);
            assert(q.aliases.no_duplicates()) by {
                if names.contains_key(k) {
                    let before = names[k].aliases;
                    assert(before.no_duplicates());
                    if !before.contains(p.name) {
                        let grown = before.push(p.name);
                        assert forall|i: int, j: int|
                            0 <= i < grown.len() && 0 <= j < grown.len() && i != j implies grown[i]
                            != grown[j] by {
                            if i < before.len() {
                                assert(before.contains(before[i]));
                            }
                            if j < before.len() {
                                assert(before.contains(before[j]));
                            }
                        }
                    }
                } else {
                    assert(p.aliases[0] == p.name);
                }
            }
            assert(well_named(after));
        }
    }
}

proof fn lemma_records_fresh(c: Cursor, n: int, last: int, t: TableView)
    ensures
        fresh(records_from(c, n, last, t)),
    decreases n,
{
    if n > 0 {
        match entry_index(c, last, t.entry_bits) {
            Some((index, c1)) => match past_string(c1) {
                Some(c2) => match userdata_at(c2, t.fixed, t.size_bits) {
                    Some((None, c3)) => lemma_records_fresh(c3, n - 1, index, t),
                    Some((Some(b), c3)) => {
                        lemma_records_fresh(c3, n - 1, index, t);
                        if let Some(p) = blob_player(b) {
                            let rest = records_from(c3, n - 1, index, t);
                            let all = records_from(c, n, last, t);
                            assert(p.aliases == seq![p.name]);
                            assert forall|i: int| 0 <= i < all.len() implies (
                            #[trigger] all[i]).1.aliases == seq![all[i].1.name] by {
                                if i > 0 {
                                    assert(all[i] == rest[i - 1]);
                                }
                            }
                        }
                    },
                    None => {},
                },
                None => {},
            },
            None => {},
        }
    }
}

/// The records of a userinfo entry stream; a dictionary-encoded one holds none.
pub open spec fn userinfo_records(d: Seq<u8>, n: u32, t: TableView) -> Seq<(u32, PlayerView)> {
    let c = Cursor { d, pos: 0, end: 8 * d.len() as int };
    if !c.has(1) || c.val(1) == 1 {
        Seq::empty()
    } else {
        records_from(c.adv(1), n as int, 0xffff_ffff, t)
    }
}

/// What a userinfo entry stream does to the players: the names after it are the names
/// before it with its records merged; none is dropped, a player whose slot carries no
/// record stays as it was, each list of aliases goes on where it was, and where each name
/// was among its aliases, with no alias twice, it still is.
pub proof fn law_userinfo_keeps_names(
    d: Seq<u8>,
    n: u32,
    t: TableView,
    names: Map<u32, PlayerView>,
    id: u32,
)
    ensures
        userinfo_after(d, n, t, names) == merged(names, userinfo_records(d, n, t)),
        well_named(names) ==> well_named(userinfo_after(d, n, t, names)),
        userinfo_after(d, n, t, names).contains_key(id) <==> names.contains_key(id) || among(
            userinfo_records(d, n, t),
            id,
        ),
        names.contains_key(id) ==> names[id].aliases.is_prefix_of(
            userinfo_after(d, n, t, names)[id].aliases,
        ),
        names.contains_key(id) && !among(userinfo_records(d, n, t), id) ==> userinfo_after(
            d,
            n,
            t,
            names,
        )[id] == names[id],
{
    let c = Cursor { d, pos: 0, end: 8 * d.len() as int };
    if !c.has(1) || c.val(1) == 1 {
    } else {
        lemma_records_fresh(c.adv(1), n as int, 0xffff_ffff, t);
        law_entries_are_merged(c.adv(1), n as int, 0xffff_ffff, t, names);
    }
    law_merged(names, userinfo_records(d, n, t), id);
}

/// Whatever messages come, each player's name is among the aliases, with no alias twice.
pub proof fn law_aliases_stay_distinct(ms: Seq<Message>, n: int, r: Registry)
    requires
        well_named(r.names),
    ensures
        well_named(r.after_all(ms, n).names),
    decreases n,
{
    if n > 0 {
        law_aliases_stay_distinct(ms, n - 1, r);
        let q = r.after_all(ms, n - 1);
        match ms[n - 1] {
            Message::Create(body) => if let Some(c) = creation_of(body) {
                law_userinfo_keeps_names(c.data, c.num_entries, table_of(c), q.names, 0);
            },
            Message::Update(body) => if let Some(u) = change_of(body) {
                if u.table_id < q.tables.len() {
                    law_userinfo_keeps_names(
                        u.data,
                        u.num_changed,
                        q.tables[u.table_id as int],
                        q.names,
                        0,
                    );
                }
            },
        }
    }
}

} // verus!
