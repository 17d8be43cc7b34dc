//! String tables and the records of players in them, as they are written.
use super::stringtable::{blob_player, latin1, name_offset, printable, scan_string, scan_strings,
    scan_table, scan_tables, snapshot_of, PlayerView, Scan};
use super::csgo::stringtables::{entries_from, entry_index, past_string, renamed, userdata_at,
    TableView};
use super::player_tracks::messages::{slot_at, slots_from};
use crate::bits::Cursor;
use crate::bytes::until_zero;
use crate::packets::{blob_entry, client_strings, key_entry, string_at, strings_from, table_at,
    tables_from, userinfo_in, Entry};
use crate::text::lossy_chars;
use crate::written::{bits_of, bits_of_bytes, bits_of_text, flag, law_word_reads, law_zero_is_found,
    le32, lemma_bits_len, lemma_bytes_len, lemma_lies, lemma_lies_at, lemma_start, lies, no_zero,
    stands};
use vstd::arithmetic::power2::{lemma2_to64, pow2};
use vstd::prelude::*;

verus! {

/// A text in a field of `w` bytes.
pub open spec fn field(s: Seq<u8>, w: nat) -> Seq<u8> {
    s + Seq::new((w - s.len()) as nat, |i: int| 0u8)
}

pub open spec fn text_in(s: Seq<u8>, w: nat) -> bool {
    s.len() < w && no_zero(s)
}

proof fn lemma_field(d: Seq<u8>, o: int, s: Seq<u8>, w: nat)
    requires
        text_in(s, w),
        lies(d, o, field(s, w)),
    ensures
        until_zero(d.subrange(o, o + w)) == s,
        o + w <= d.len(),
{
    let x = d.subrange(o, o + w);
    let z = Seq::new((w - s.len() - 1) as nat, |i: int| 0u8);
    assert(field(s, w) =~= s.push(0) + z);
    assert(x.subrange(0, w as int) =~= x);
    lemma_lies(x, 0, s.push(0), z);
    law_zero_is_found(x, 0, s);
    assert(x.take(s.len() as int) =~= s) by {
        assert forall|i: int| 0 <= i < s.len() implies x[i] == s[i] by {
            assert(field(s, w)[i] == s[i]);
        }
    }
}

/// A player: the name, a number, an identity, and whether it is a bot or a relay.
pub struct Record {
    pub name: Seq<u8>,
    pub id: u32,
    pub guid: Seq<u8>,
    pub between: Seq<u8>,
    pub fake: u8,
    pub hltv: u8,
    pub rest: Seq<u8>,
}

/// A record of most games: a name of 32 bytes, the number with the low byte first, and
/// an identity of 33 bytes. Some games put eight or sixteen bytes before it.
pub open spec fn record(before: Seq<u8>, r: Record) -> Seq<u8> {
    before + (field(r.name, 32) + (le32(r.id as int) + (field(r.guid, 33) + (r.between + (seq![r.fake] + (
    seq![r.hltv] + r.rest))))))
}

pub open spec fn record_fits(before: Seq<u8>, r: Record) -> bool {
    &&& before.len() == 0 || before.len() == 8 || before.len() == 16
    &&& before.len() > 0 ==> !printable(before[0])
    &&& before.len() == 16 ==> !printable(before[8])
    &&& text_in(r.name, 32)
    &&& text_in(r.guid, 33)
    &&& r.name.len() > 0
    &&& printable(r.name[0])
    &&& lossy_chars(r.name).len() > 0
    &&& r.between.len() == 39
    &&& record(before, r).len() < 200
}

/// A record that was written is read back.
#[verifier::rlimit(50)]
pub proof fn law_record_round_trip(before: Seq<u8>, r: Record)
    requires
        record_fits(before, r),
    ensures
        blob_player(record(before, r)) == Some(
            PlayerView {
                name: lossy_chars(r.name),
                user_id: r.id,
                steam_id: latin1(r.guid),
                is_fake: r.fake != 0,
                is_hltv: r.hltv != 0,
                aliases: seq![lossy_chars(r.name)],
            },
        ),
{
    let b = record(before, r);
    let o = before.len() as int;
    assert(b.subrange(0, b.len() as int) =~= b);
    let t5 = seq![r.hltv] + r.rest;
    let t4 = seq![r.fake] + t5;
    let t3 = r.between + t4;
    let t2 = field(r.guid, 33) + t3;
    let t1 = le32(r.id as int) + t2;
    let t0 = field(r.name, 32) + t1;
    lemma_lies(b, 0, before, t0);
    lemma_lies(b, o, field(r.name, 32), t1);
    lemma_lies(b, o + 32, le32(r.id as int), t2);
    lemma_lies(b, o + 36, field(r.guid, 33), t3);
    lemma_lies(b, o + 69, r.between, t4);
    lemma_lies(b, o + 108, seq![r.fake], t5);
    lemma_lies(b, o + 109, seq![r.hltv], r.rest);
    lemma_field(b, o, r.name, 32);
    law_word_reads(b, o + 32, r.id as int);
    lemma_field(b, o + 36, r.guid, 33);
    lemma_lies_at(b, o + 108, seq![r.fake], 0);
    lemma_lies_at(b, o + 109, seq![r.hltv], 0);
    lemma_lies_at(b, o, field(r.name, 32), 0);
    if o > 0 {
        lemma_lies_at(b, 0, before, 0);
    }
    if o == 16 {
        lemma_lies_at(b, 0, before, 8);
    }
    assert(name_offset(b) == o);
}

/// A number with the high byte first.
pub open spec fn be32(v: u32) -> Seq<u8> {
    seq![
        (v / 0x100_0000) as u8,
        (v / 0x1_0000 % 256) as u8,
        (v / 0x100 % 256) as u8,
        (v % 256) as u8,
    ]
}

/// A long record: sixteen bytes, a name of 128, the number with the high byte first and
/// an identity of 33 bytes.
pub open spec fn long_record(before: Seq<u8>, r: Record) -> Seq<u8> {
    before + (field(r.name, 128) + (be32(r.id) + (field(r.guid, 33) + r.rest)))
}

pub proof fn law_long_record_round_trip(before: Seq<u8>, r: Record)
    requires
        before.len() == 16,
        text_in(r.name, 128),
        text_in(r.guid, 33),
        r.name.len() > 0,
        printable(r.name[0]),
        lossy_chars(r.name).len() > 0,
        long_record(before, r).len() >= 200,
    ensures
        blob_player(long_record(before, r)) == Some(
            PlayerView {
                name: lossy_chars(r.name),
                user_id: r.id,
                steam_id: latin1(r.guid),
                is_fake: false,
                is_hltv: false,
                aliases: seq![lossy_chars(r.name)],
            },
        ),
{
    let b = long_record(before, r);
    assert(b.subrange(0, b.len() as int) =~= b);
    let t2 = field(r.guid, 33) + r.rest;
    let t1 = be32(r.id) + t2;
    lemma_lies(b, 0, before, field(r.name, 128) + t1);
    lemma_lies(b, 16, field(r.name, 128), t1);
    lemma_lies(b, 144, be32(r.id), t2);
    lemma_lies(b, 148, field(r.guid, 33), r.rest);
    lemma_field(b, 16, r.name, 128);
    lemma_field(b, 148, r.guid, 33);
    lemma_lies_at(b, 16, field(r.name, 128), 0);
    lemma_lies_at(b, 144, be32(r.id), 0);
    lemma_lies_at(b, 144, be32(r.id), 1);
    lemma_lies_at(b, 144, be32(r.id), 2);
    lemma_lies_at(b, 144, be32(r.id), 3);
}

/// The record that names are taken from: sixteen bytes, the name, the number, and behind
/// 72 more bytes whether it is a bot.
pub open spec fn named_record(before: Seq<u8>, name: Seq<u8>, id: i32, between: Seq<u8>, fake: u8, rest: Seq<u8>) -> Seq<u8> {
    before + (field(name, 32) + (le32(id as int) + (between + (seq![fake] + rest))))
}

pub proof fn law_named_record_round_trip(
    before: Seq<u8>,
    name: Seq<u8>,
    id: i32,
    between: Seq<u8>,
    fake: u8,
    rest: Seq<u8>,
    slot: int,
)
    requires
        before.len() == 16,
        text_in(name, 32),
        between.len() == 72,
        lossy_chars(name).len() > 0,
    ensures
        blob_entry(named_record(before, name, id, between, fake, rest), slot) == if id > 0 {
            seq![
                Entry {
                    slot: slot as usize,
                    id,
                    name: lossy_chars(name),
                    is_fake: fake != 0,
                },
            ]
        } else {
            Seq::empty()
        },
{
    let b = named_record(before, name, id, between, fake, rest);
    assert(b.subrange(0, b.len() as int) =~= b);
    let t2 = between + (seq![fake] + rest);
    let t1 = le32(id as int) + t2;
    lemma_lies(b, 0, before, field(name, 32) + t1);
    lemma_lies(b, 16, field(name, 32), t1);
    lemma_lies(b, 48, le32(id as int), t2);
    lemma_lies(b, 52, between, seq![fake] + rest);
    lemma_lies(b, 124, seq![fake], rest);
    lemma_field(b, 16, name, 32);
    law_word_reads(b, 48, id as int);
    lemma_lies_at(b, 124, seq![fake], 0);
}

/// A string of a table: its key, and data that may be there.
pub struct Row {
    pub key: Seq<u8>,
    pub data: Option<Seq<u8>>,
}

#[verifier::opaque]
pub open spec fn row_bits(r: Row) -> Seq<bool> {
    bits_of_text(r.key) + (match r.data {
        None => flag(false),
        Some(d) => flag(true) + (bits_of(d.len() as int, 16) + bits_of_bytes(d)),
    })
}

pub open spec fn row_fits(r: Row) -> bool {
    &&& no_zero(r.key)
    &&& r.key.len() < 512
    &&& r.data matches Some(d) ==> d.len() <= 8192
}

/// What a row of a table of players tells: its record, or the key where there is no
/// record as long.
pub open spec fn row_entry(r: Row, slot: int) -> Seq<Entry> {
    match r.data {
        Some(d) => if d.len() >= 52 {
            blob_entry(d, slot)
        } else {
            key_entry(lossy_chars(r.key), slot)
        },
        None => key_entry(lossy_chars(r.key), slot),
    }
}

/// The players after a row of their table: the entity is the slot's, one more.
pub open spec fn row_player(players: Map<u32, PlayerView>, r: Row, slot: int) -> Map<u32, PlayerView> {
    match r.data {
        Some(d) => if d.len() >= 36 {
            match blob_player(d) {
                Some(p) => players.insert((slot + 1) as u32, p),
                None => players,
            }
        } else {
            players
        },
        None => players,
    }
}

#[verifier::rlimit(50)]
proof fn lemma_row(r: Row, slot: int, user: bool, players: Map<u32, PlayerView>, c: Cursor, rest: Seq<bool>)
    requires
        row_fits(r),
        c.holds(row_bits(r) + rest),
    ensures
        string_at(c, slot, user) == Some(
            (
                if user {
                    row_entry(r, slot)
                } else {
                    Seq::empty()
                },
                c.past(row_bits(r)),
            ),
        ),
        scan_string(Scan { c, players }, slot, user) == Some(
            Scan {
                c: c.past(row_bits(r)),
                players: if user {
                    row_player(players, r, slot)
                } else {
                    players
                },
            },
        ),
        c.past(row_bits(r)).holds(rest),
{
    reveal(row_bits);
    lemma2_to64();
    let a = bits_of_text(r.key);
    match r.data {
        None => {
            assert(row_bits(r) + rest =~= a + (flag(false) + rest));
            c.law_text_reads(r.key, 512, flag(false) + rest);
            c.past(a).lemma_flag(false, rest);
            assert(c.past(a).adv(1) == c.past(row_bits(r)));
        },
        Some(d) => {
            let n = d.len() as int;
            let (b, e) = (bits_of(n, 16), bits_of_bytes(d));
            lemma_bits_len(n, 16);
            lemma_bytes_len(d);
            assert(row_bits(r) + rest =~= a + (flag(true) + (b + (e + rest))));
            c.law_text_reads(r.key, 512, flag(true) + (b + (e + rest)));
            let c1 = c.past(a);
            c1.lemma_flag(true, b + (e + rest));
            c1.adv(1).lemma_number(n, 16, e + rest);
            let c2 = c1.adv(1).adv(16);
            assert(c2 == c1.adv(17));
            c2.law_bytes_read(d, rest);
            assert(c2.adv(8 * n) == c.past(row_bits(r)));
        },
    }
}

pub open spec fn rows_bits(rs: Seq<Row>, i: int) -> Seq<bool>
    decreases rs.len() - i,
{
    if i >= rs.len() {
        Seq::empty()
    } else {
        row_bits(rs[i]) + rows_bits(rs, i + 1)
    }
}

pub open spec fn rows_fit(rs: Seq<Row>) -> bool {
    forall|i: int| 0 <= i < rs.len() ==> row_fits(#[trigger] rs[i])
}

/// The rows of a table of players, each for its slot.
pub open spec fn rows_entries(rs: Seq<Row>, i: int, user: bool) -> Seq<Entry>
    decreases rs.len() - i,
{
    if i >= rs.len() {
        Seq::empty()
    } else {
        (if user {
            row_entry(rs[i], i)
        } else {
            Seq::empty()
        }) + rows_entries(rs, i + 1, user)
    }
}

pub open spec fn rows_players(players: Map<u32, PlayerView>, rs: Seq<Row>, i: int, user: bool) -> Map<
    u32,
    PlayerView,
>
    decreases rs.len() - i,
{
    if i >= rs.len() {
        players
    } else {
        rows_players(
            if user {
                row_player(players, rs[i], i)
            } else {
                players
            },
            rs,
            i + 1,
            user,
        )
    }
}

proof fn lemma_rows(rs: Seq<Row>, i: int, user: bool, players: Map<u32, PlayerView>, c: Cursor, rest: Seq<bool>)
    requires
        rows_fit(rs),
        0 <= i <= rs.len(),
        c.holds(rows_bits(rs, i) + rest),
    ensures
        strings_from(c, i, rs.len() as int, user) == Some(
            (rows_entries(rs, i, user), c.past(rows_bits(rs, i))),
        ),
        scan_strings(Scan { c, players }, i, rs.len() as int, user) == Some(
            Scan { c: c.past(rows_bits(rs, i)), players: rows_players(players, rs, i, user) },
        ),
        c.past(rows_bits(rs, i)).holds(rest),
    decreases rs.len() - i,
{
    if i >= rs.len() {
        assert(rows_bits(rs, i) + rest =~= rest);
        assert(c.past(rows_bits(rs, i)) == c);
    } else {
        let (a, b) = (row_bits(rs[i]), rows_bits(rs, i + 1));
        assert(rows_bits(rs, i) + rest =~= a + (b + rest));
        lemma_row(rs[i], i, user, players, c, b + rest);
        let next = if user {
            row_player(players, rs[i], i)
        } else {
            players
        };
        lemma_rows(rs, i + 1, user, next, c.past(a), rest);
        assert(c.past(a).past(b) == c.past(rows_bits(rs, i)));
    }
}

proof fn lemma_clients(rs: Seq<Row>, i: int, c: Cursor, rest: Seq<bool>)
    requires
        rows_fit(rs),
        0 <= i <= rs.len(),
        c.holds(rows_bits(rs, i) + rest),
    ensures
        client_strings(c, rs.len() - i) == Some(c.past(rows_bits(rs, i))),
        c.past(rows_bits(rs, i)).holds(rest),
    decreases rs.len() - i,
{
    if i >= rs.len() {
        assert(rows_bits(rs, i) + rest =~= rest);
        assert(c.past(rows_bits(rs, i)) == c);
    } else {
        let (a, b) = (row_bits(rs[i]), rows_bits(rs, i + 1));
        assert(rows_bits(rs, i) + rest =~= a + (b + rest));
        lemma_row(rs[i], i, false, Map::empty(), c, b + rest);
        lemma_clients(rs, i + 1, c.past(a), rest);
        assert(c.past(a).past(b) == c.past(rows_bits(rs, i)));
    }
}

/// A table: its name, its rows, and rows of the client's that may be there.
pub struct Table {
    pub name: Seq<u8>,
    pub rows: Seq<Row>,
    pub clients: Option<Seq<Row>>,
}

#[verifier::opaque]
pub open spec fn clients_bits(t: Option<Seq<Row>>) -> Seq<bool> {
    match t {
        None => flag(false),
        Some(rs) => flag(true) + (bits_of(rs.len() as int, 16) + rows_bits(rs, 0)),
    }
}

#[verifier::opaque]
pub open spec fn table_bits(t: Table) -> Seq<bool> {
    bits_of_text(t.name) + (bits_of(t.rows.len() as int, 16) + (rows_bits(t.rows, 0) + clients_bits(
        t.clients,
    )))
}

pub open spec fn table_fits(t: Table) -> bool {
    &&& no_zero(t.name)
    &&& t.name.len() < 64
    &&& t.rows.len() <= 4096
    &&& rows_fit(t.rows)
    &&& t.clients matches Some(rs) ==> rs.len() < 0x1_0000 && rows_fit(rs)
}

/// Whether a table is that of the players.
pub open spec fn of_players(t: Table) -> bool {
    lossy_chars(t.name) == "userinfo"@
}

#[verifier::rlimit(50)]
proof fn lemma_table(t: Table, players: Map<u32, PlayerView>, c: Cursor, rest: Seq<bool>)
    requires
        table_fits(t),
        c.holds(table_bits(t) + rest),
    ensures
        table_at(c) == Some((rows_entries(t.rows, 0, of_players(t)), c.past(table_bits(t)))),
        scan_table(Scan { c, players }) == Some(
            (
                lossy_chars(t.name),
                Scan {
                    c: c.past(table_bits(t)),
                    players: rows_players(players, t.rows, 0, of_players(t)),
                },
            ),
        ),
        c.past(table_bits(t)).holds(rest),
{
    reveal(table_bits);
    reveal(clients_bits);
    lemma2_to64();
    let n = t.rows.len() as int;
    let (a, b) = (bits_of_text(t.name), bits_of(n, 16));
    let (e, g) = (rows_bits(t.rows, 0), clients_bits(t.clients));
    lemma_bits_len(n, 16);
    assert(table_bits(t) + rest =~= a + (b + (e + (g + rest))));
    c.law_text_reads(t.name, 64, b + (e + (g + rest)));
    c.law_text_reads(t.name, 128, b + (e + (g + rest)));
    let c1 = c.past(a);
    c1.lemma_number(n, 16, e + (g + rest));
    let c2 = c1.adv(16);
    lemma_rows(t.rows, 0, of_players(t), players, c2, g + rest);
    let c3 = c2.past(e);
    match t.clients {
        None => c3.lemma_flag(false, rest),
        Some(rs) => {
            let m = rs.len() as int;
            lemma_bits_len(m, 16);
            assert(g + rest =~= flag(true) + (bits_of(m, 16) + (rows_bits(rs, 0) + rest)));
            c3.lemma_flag(true, bits_of(m, 16) + (rows_bits(rs, 0) + rest));
            c3.adv(1).lemma_number(m, 16, rows_bits(rs, 0) + rest);
            assert(c3.adv(1).adv(16) == c3.adv(17));
            lemma_clients(rs, 0, c3.adv(17), rest);
            assert(c3.adv(17).past(rows_bits(rs, 0)) == c3.past(g));
        },
    }
    assert(c3.past(g) == c.past(table_bits(t)));
}

pub open spec fn tables_bits(ts: Seq<Table>) -> Seq<bool>
    decreases ts.len(),
{
    if ts.len() == 0 {
        Seq::empty()
    } else {
        table_bits(ts[0]) + tables_bits(ts.drop_first())
    }
}

pub open spec fn tables_fit(ts: Seq<Table>) -> bool {
    forall|i: int| 0 <= i < ts.len() ==> table_fits(#[trigger] ts[i])
}

pub open spec fn all_entries(ts: Seq<Table>) -> Seq<Entry>
    decreases ts.len(),
{
    if ts.len() == 0 {
        Seq::empty()
    } else {
        rows_entries(ts[0].rows, 0, of_players(ts[0])) + all_entries(ts.drop_first())
    }
}

pub open spec fn all_players(players: Map<u32, PlayerView>, ts: Seq<Table>) -> Map<u32, PlayerView>
    decreases ts.len(),
{
    if ts.len() == 0 {
        players
    } else {
        all_players(rows_players(players, ts[0].rows, 0, of_players(ts[0])), ts.drop_first())
    }
}

pub open spec fn all_names(ts: Seq<Table>) -> Seq<Seq<char>> {
    Seq::new(ts.len(), |i: int| lossy_chars(ts[i].name))
}

proof fn lemma_tables(ts: Seq<Table>, players: Map<u32, PlayerView>, c: Cursor, rest: Seq<bool>)
    requires
        tables_fit(ts),
        c.holds(tables_bits(ts) + rest),
    ensures
        tables_from(c, ts.len() as int) == Some(all_entries(ts)),
        scan_tables(Scan { c, players }, ts.len() as int) == Some(
            (all_names(ts), all_players(players, ts)),
        ),
    decreases ts.len(),
{
    if ts.len() == 0 {
        assert(all_names(ts) =~= Seq::empty());
    } else {
        let u = ts.drop_first();
        let (a, b) = (table_bits(ts[0]), tables_bits(u));
        assert(tables_bits(ts) + rest =~= a + (b + rest));
        lemma_table(ts[0], players, c, b + rest);
        assert forall|i: int| 0 <= i < u.len() implies table_fits(#[trigger] u[i]) by {
            assert(u[i] == ts[i + 1]);
        }
        lemma_tables(u, rows_players(players, ts[0].rows, 0, of_players(ts[0])), c.past(a), rest);
        assert(seq![lossy_chars(ts[0].name)] + all_names(u) =~= all_names(ts));
    }
}

/// Tables that were written are read back: their names in order, and of the table of
/// players each row for its slot.
pub proof fn law_tables_round_trip(ts: Seq<Table>, d: Seq<u8>, rest: Seq<bool>)
    requires
        0 < ts.len() <= 64,
        tables_fit(ts),
        stands(d, 0, (bits_of(ts.len() as int, 8) + tables_bits(ts)) + rest),
    ensures
        userinfo_in(d) == all_entries(ts),
        snapshot_of(d) == Some((all_names(ts), all_players(Map::empty(), ts))),
{
    lemma2_to64();
    let n = ts.len() as int;
    let c = Cursor { d, pos: 0, end: 8 * d.len() as int };
    let all = (bits_of(n, 8) + tables_bits(ts)) + rest;
    lemma_start(d, all);
    lemma_bits_len(n, 8);
    assert(all =~= bits_of(n, 8) + (tables_bits(ts) + rest));
    c.lemma_number(n, 8, tables_bits(ts) + rest);
    lemma_tables(ts, Map::empty(), c.adv(8), rest);
}

/// An entry of a change: its number and whether that is told by being the next one, a
/// text that may be there and where it starts in an earlier one, and data that may be
/// there.
pub struct Changed {
    pub index: int,
    pub next: bool,
    pub text: Option<(Option<int>, Seq<u8>)>,
    pub data: Option<Seq<u8>>,
}

#[verifier::opaque]
pub open spec fn index_bits(x: Changed, width: u32) -> Seq<bool> {
    if x.next {
        flag(true)
    } else {
        flag(false) + bits_of(x.index, width as nat)
    }
}

#[verifier::opaque]
pub open spec fn text_bits(x: Changed) -> Seq<bool> {
    match x.text {
        None => flag(false),
        Some((None, s)) => flag(true) + (flag(false) + bits_of_text(s)),
        Some((Some(from), s)) => flag(true) + (flag(true) + (bits_of(from, 10) + bits_of_text(s))),
    }
}

#[verifier::opaque]
pub open spec fn data_bits(x: Changed, fixed: bool) -> Seq<bool> {
    match x.data {
        None => flag(false),
        Some(d) => if fixed {
            flag(true) + bits_of_bytes(d)
        } else {
            flag(true) + (bits_of(d.len() as int, 14) + bits_of_bytes(d))
        },
    }
}

pub open spec fn changed_bits(x: Changed, width: u32, fixed: bool) -> Seq<bool> {
    index_bits(x, width) + (text_bits(x) + data_bits(x, fixed))
}

pub open spec fn changed_fits(x: Changed, last: int, width: u32, fixed: bool, size: u32) -> bool {
    &&& 0 <= x.index < 0xffff_ffff
    &&& if x.next {
        x.index == (last + 1) % 0x1_0000_0000
    } else {
        x.index < pow2(width as nat)
    }
    &&& x.text matches Some((from, s)) ==> no_zero(s) && s.len() < 1024
    &&& x.text matches Some((Some(from), s)) ==> 0 <= from < 1024
    &&& x.data matches Some(d) ==> if fixed {
        size == 8 * d.len()
    } else {
        d.len() < 0x4000
    }
}

proof fn lemma_index(x: Changed, last: int, width: u32, fixed: bool, size: u32, c: Cursor, rest: Seq<bool>)
    requires
        changed_fits(x, last, width, fixed, size),
        c.holds(index_bits(x, width) + rest),
    ensures
        entry_index(c, last, width) == Some((x.index, c.past(index_bits(x, width)))),
        c.past(index_bits(x, width)).holds(rest),
{
    reveal(index_bits);
    if x.next {
        c.lemma_flag(true, rest);
    } else {
        let b = bits_of(x.index, width as nat);
        lemma_bits_len(x.index, width as nat);
        assert(index_bits(x, width) + rest =~= flag(false) + (b + rest));
        c.lemma_flag(false, b + rest);
        c.adv(1).lemma_number(x.index, width as nat, rest);
        assert(c.adv(1).adv(width as int) == c.past(index_bits(x, width)));
    }
}

#[verifier::rlimit(50)]
proof fn lemma_entry_text(x: Changed, last: int, width: u32, fixed: bool, size: u32, c: Cursor, rest: Seq<bool>)
    requires
        changed_fits(x, last, width, fixed, size),
        c.holds(text_bits(x) + rest),
    ensures
        past_string(c) == Some(c.past(text_bits(x))),
        c.past(text_bits(x)).holds(rest),
{
    reveal(text_bits);
    lemma2_to64();
    vstd::arithmetic::power2::lemma_pow2_adds(8, 2);
    match x.text {
        None => c.lemma_flag(false, rest),
        Some((None, s)) => {
            let b = bits_of_text(s);
            assert(text_bits(x) + rest =~= flag(true) + (flag(false) + (b + rest)));
            c.lemma_flag(true, flag(false) + (b + rest));
            c.adv(1).lemma_flag(false, b + rest);
            assert(c.adv(1).adv(1) == c.adv(2));
            c.adv(2).law_text_reads(s, 1024, rest);
            assert(c.adv(2).past(b) == c.past(text_bits(x)));
        },
        Some((Some(from), s)) => {
            let (a, b) = (bits_of(from, 10), bits_of_text(s));
            lemma_bits_len(from, 10);
            assert(text_bits(x) + rest =~= flag(true) + (flag(true) + (a + (b + rest))));
            c.lemma_flag(true, flag(true) + (a + (b + rest)));
            c.adv(1).lemma_flag(true, a + (b + rest));
            assert(c.adv(1).adv(1) == c.adv(2));
            c.adv(2).lemma_number(from, 10, b + rest);
            c.adv(2).adv(10).law_text_reads(s, 1024, rest);
            assert(c.adv(2).adv(10).past(b) == c.past(text_bits(x)));
        },
    }
}

#[verifier::rlimit(50)]
proof fn lemma_data(x: Changed, last: int, width: u32, fixed: bool, size: u32, c: Cursor, rest: Seq<bool>)
    requires
        changed_fits(x, last, width, fixed, size),
        c.holds(data_bits(x, fixed) + rest),
    ensures
        userdata_at(c, fixed, size) == Some((x.data, c.past(data_bits(x, fixed)))),
        c.past(data_bits(x, fixed)).holds(rest),
{
    reveal(data_bits);
    lemma2_to64();
    vstd::arithmetic::power2::lemma_pow2_adds(8, 6);
    match x.data {
        None => c.lemma_flag(false, rest),
        Some(d) => {
            let b = bits_of_bytes(d);
            lemma_bytes_len(d);
            let n = d.len() as int;
            if fixed {
                assert(data_bits(x, fixed) + rest =~= flag(true) + (b + rest));
                c.lemma_flag(true, b + rest);
                let c1 = c.adv(1);
                c1.law_bytes_read(d, rest);
                assert(c1.packed((8 * n) as nat) =~= c1.byte_seq(d.len()));
                assert(c1.adv(8 * n) == c.past(data_bits(x, fixed)));
            } else {
                lemma_bits_len(n, 14);
                assert(data_bits(x, fixed) + rest =~= flag(true) + (bits_of(n, 14) + (b + rest)));
                c.lemma_flag(true, bits_of(n, 14) + (b + rest));
                c.adv(1).lemma_number(n, 14, b + rest);
                let c1 = c.adv(1).adv(14);
                c1.law_bytes_read(d, rest);
                assert(c1.packed((8 * n) as nat) =~= c1.byte_seq(d.len()));
                assert(c1.adv(8 * n) == c.past(data_bits(x, fixed)));
            }
        },
    }
}

pub open spec fn changes_bits(xs: Seq<Changed>, width: u32, fixed: bool) -> Seq<bool>
    decreases xs.len(),
{
    if xs.len() == 0 {
        Seq::empty()
    } else {
        changed_bits(xs[0], width, fixed) + changes_bits(xs.drop_first(), width, fixed)
    }
}

pub open spec fn changes_fit(xs: Seq<Changed>, last: int, width: u32, fixed: bool, size: u32) -> bool
    decreases xs.len(),
{
    xs.len() == 0 || (changed_fits(xs[0], last, width, fixed, size) && changes_fit(
        xs.drop_first(),
        xs[0].index,
        width,
        fixed,
        size,
    ))
}

/// The players after an entry: its record is that of the player whose number is one more
/// than the entry's.
#[verifier::opaque]
pub open spec fn after_changed(names: Map<u32, PlayerView>, x: Changed) -> Map<u32, PlayerView> {
    let id = (x.index + 1) as u32;
    match x.data {
        Some(d) => match blob_player(d) {
            Some(p) => names.insert(id, renamed(names, id, p)),
            None => names,
        },
        None => names,
    }
}

/// The players after entries, one after another.
pub open spec fn after_changes(names: Map<u32, PlayerView>, xs: Seq<Changed>) -> Map<u32, PlayerView>
    decreases xs.len(),
{
    if xs.len() == 0 {
        names
    } else {
        after_changes(after_changed(names, xs[0]), xs.drop_first())
    }
}

proof fn lemma_changed(x: Changed, last: int, t: TableView, c: Cursor, rest: Seq<bool>)
    requires
        changed_fits(x, last, t.entry_bits, t.fixed, t.size_bits),
        c.holds(changed_bits(x, t.entry_bits, t.fixed) + rest),
    ensures
        ({
            let c1 = c.past(index_bits(x, t.entry_bits));
            let c2 = c1.past(text_bits(x));
            &&& entry_index(c, last, t.entry_bits) == Some((x.index, c1))
            &&& past_string(c1) == Some(c2)
            &&& userdata_at(c2, t.fixed, t.size_bits) == Some(
                (x.data, c.past(changed_bits(x, t.entry_bits, t.fixed))),
            )
        }),
        c.past(changed_bits(x, t.entry_bits, t.fixed)).holds(rest),
        (x.index + 1) % 0x1_0000_0000 == x.index + 1,
{
    let (w, f, z) = (t.entry_bits, t.fixed, t.size_bits);
    let (a, b, e) = (index_bits(x, w), text_bits(x), data_bits(x, f));
    assert(changed_bits(x, w, f) + rest =~= a + (b + (e + rest)));
    lemma_index(x, last, w, f, z, c, b + (e + rest));
    lemma_entry_text(x, last, w, f, z, c.past(a), e + rest);
    lemma_data(x, last, w, f, z, c.past(a).past(b), rest);
    assert(c.past(a).past(b).past(e) == c.past(changed_bits(x, w, f)));
}

/// Entries that were written are read back.
pub proof fn law_changes_round_trip(
    xs: Seq<Changed>,
    last: int,
    t: TableView,
    names: Map<u32, PlayerView>,
    c: Cursor,
    rest: Seq<bool>,
)
    requires
        changes_fit(xs, last, t.entry_bits, t.fixed, t.size_bits),
        c.holds(changes_bits(xs, t.entry_bits, t.fixed) + rest),
    ensures
        entries_from(c, xs.len() as int, last, t, names) == after_changes(names, xs),
    decreases xs.len(),
{
    if xs.len() > 0 {
        let (w, f) = (t.entry_bits, t.fixed);
        let (a, b) = (changed_bits(xs[0], w, f), changes_bits(xs.drop_first(), w, f));
        assert(changes_bits(xs, w, f) + rest =~= a + (b + rest));
        lemma_changed(xs[0], last, t, c, b + rest);
        reveal(after_changed);
        let after = after_changed(names, xs[0]);
        law_changes_round_trip(xs.drop_first(), xs[0].index, t, after, c.past(a), rest);
    }
}

proof fn lemma_slot(x: Changed, last: int, names: Map<u32, PlayerView>, c: Cursor, rest: Seq<bool>)
    requires
        changed_fits(x, last, 8, false, 0),
        c.holds(changed_bits(x, 8, false) + rest),
    ensures
        slot_at(c, last, names) == Some(
            (x.index, after_changed(names, x), c.past(changed_bits(x, 8, false))),
        ),
        c.past(changed_bits(x, 8, false)).holds(rest),
{
    let t = TableView { name: Seq::empty(), entry_bits: 8, fixed: false, size_bits: 0 };
    lemma_changed(x, last, t, c, rest);
    reveal(after_changed);
    reveal(slot_at);
}

/// The same in the change of a table of 256 entries, whose bits are counted.
pub proof fn law_slots_round_trip(
    xs: Seq<Changed>,
    last: int,
    stop: int,
    names: Map<u32, PlayerView>,
    c: Cursor,
    rest: Seq<bool>,
)
    requires
        changes_fit(xs, last, 8, false, 0),
        c.holds(changes_bits(xs, 8, false) + rest),
        stop == c.pos + changes_bits(xs, 8, false).len(),
    ensures
        slots_from(c, stop, xs.len() as int, last, names) == after_changes(names, xs),
    decreases xs.len(),
{
    if xs.len() > 0 {
        let (a, b) = (changed_bits(xs[0], 8, false), changes_bits(xs.drop_first(), 8, false));
        assert(changes_bits(xs, 8, false) + rest =~= a + (b + rest));
        lemma_slot(xs[0], last, names, c, b + rest);
        assert(a.len() > 0) by {
            reveal(index_bits);
        }
        assert(changes_bits(xs, 8, false).len() == a.len() + b.len());
        let after = after_changed(names, xs[0]);
        law_slots_round_trip(xs.drop_first(), xs[0].index, stop, after, c.past(a), rest);
    }
}

} // verus!
