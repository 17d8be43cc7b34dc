//! Player records in string tables.
use crate::bits::{countable, BitReader, Cursor};
use crate::bytes::{find_zero, le_u32, u32_at, until_zero};
use crate::text::{is_empty_text, lossy, lossy_chars, str_eq, texts};
use std::collections::HashMap;
use vstd::arithmetic::power2::lemma2_to64;
use vstd::prelude::*;

verus! {

#[derive(Debug, Clone)]
pub struct PlayerInfo {
    pub name: String,
    pub user_id: u32,
    pub steam_id: String,
    pub is_fake: bool,
    pub is_hltv: bool,
    /// Every distinct name that the slot has had, the first one first.
    pub aliases: Vec<String>,
}

/// What a `PlayerInfo` says.
pub struct PlayerView {
    pub name: Seq<char>,
    pub user_id: u32,
    pub steam_id: Seq<char>,
    pub is_fake: bool,
    pub is_hltv: bool,
    pub aliases: Seq<Seq<char>>,
}

impl PlayerInfo {
    pub open spec fn view(&self) -> PlayerView {
        PlayerView {
            name: self.name@,
            user_id: self.user_id,
            steam_id: self.steam_id@,
            is_fake: self.is_fake,
            is_hltv: self.is_hltv,
            aliases: texts(self.aliases@),
        }
    }
}

pub open spec fn players_view(m: Map<u32, PlayerInfo>) -> Map<u32, PlayerView> {
    m.map_values(|p: PlayerInfo| p@)
}

pub proof fn lemma_players_insert(m: Map<u32, PlayerInfo>, k: u32, p: PlayerInfo)
    ensures
        players_view(m.insert(k, p)) == players_view(m).insert(k, p@),
{
    assert(players_view(m.insert(k, p)) =~= players_view(m).insert(k, p@));
}

pub open spec fn printable(b: u8) -> bool {
    0x20 <= b <= 0x7e
}

/// Bytes of a blob's name field: 128 in the long CS:GO layout, else 32.
pub open spec fn name_width(b: Seq<u8>) -> int {
    if b.len() >= 200 {
        128
    } else {
        32
    }
}

pub open spec fn name_may_start(b: Seq<u8>, off: int) -> bool {
    b.len() >= off + name_width(b) + 4 && printable(b[off])
}

/// Where a blob's name starts, by the first byte that reads as text.
pub open spec fn name_offset(b: Seq<u8>) -> int {
    if b.len() >= 200 {
        if name_may_start(b, 16) {
            16
        } else if name_may_start(b, 8) {
            8
        } else {
            0
        }
    } else if name_may_start(b, 0) {
        0
    } else if name_may_start(b, 8) {
        8
    } else if name_may_start(b, 16) {
        16
    } else {
        0
    }
}

/// One character for each byte.
pub open spec fn latin1(b: Seq<u8>) -> Seq<char> {
    b.map_values(|x: u8| x as char)
}

/// The player that a blob describes; none where it is too short or has no name.
pub open spec fn blob_player(b: Seq<u8>) -> Option<PlayerView> {
    let long = b.len() >= 200;
    let w = name_width(b);
    let o = name_offset(b);
    let name = lossy_chars(until_zero(b.subrange(o, o + w)));
    let id = o + w;
    let guid_end = if id + 37 <= b.len() {
        id + 37
    } else {
        b.len() as int
    };
    if b.len() < o + w + 4 || name.len() == 0 {
        None
    } else {
        Some(
            PlayerView {
                name,
                user_id: if long {
                    (0x100_0000 * b[id] + 0x1_0000 * b[id + 1] + 0x100 * b[id + 2] + b[id + 3]) as u32
                } else {
                    u32_at(b, id) as u32
                },
                steam_id: latin1(until_zero(b.subrange(id + 4, guid_end))),
                is_fake: !long && b.len() > o + 108 && b[o + 108] != 0,
                is_hltv: !long && b.len() > o + 109 && b[o + 109] != 0,
                aliases: seq![name],
            },
        )
    }
}

fn starts_name(b: &[u8], off: usize, w: usize) -> (r: bool)
    requires
        w == name_width(b@),
        off <= 16,
    ensures
        r == name_may_start(b@, off as int),
{
    b.len() >= off + w + 4 && 0x20 <= b[off] && b[off] <= 0x7e
}

fn latin1_text(b: &[u8]) -> (s: String)
    ensures
        s@ == latin1(b@),
{
    let mut out = String::new();
    let mut i: usize = 0;
    assert(out@ =~= latin1(b@.take(0)));
    while i < b.len()
        invariant
            i <= b@.len(),
            out@ == latin1(b@.take(i as int)),
        decreases b@.len() - i,
    {
        out.push(b[i] as char);
        i += 1;
        assert(latin1(b@.take(i as int)) =~= latin1(b@.take(i - 1)).push(b@[i - 1] as char));
    }
    assert(b@.take(i as int) =~= b@);
    out
}

/// Reads the record of a player.
pub fn parse_player_info_blob(bytes: &[u8]) -> (r: Option<PlayerInfo>)
    ensures
        match (r, blob_player(bytes@)) {
            (Some(p), Some(v)) => p@ == v,
            (None, None) => true,
            _ => false,
        },
{
    let long = bytes.len() >= 200;
    let w: usize = if long {
        128
    } else {
        32
    };
    let o: usize = if long {
        if starts_name(bytes, 16, w) {
            16
        } else if starts_name(bytes, 8, w) {
            8
        } else {
            0
        }
    } else if starts_name(bytes, 0, w) {
        0
    } else if starts_name(bytes, 8, w) {
        8
    } else if starts_name(bytes, 16, w) {
        16
    } else {
        0
    };
    if bytes.len() < o + w + 4 {
        return None;
    }
    let id: usize = o + w;
    let user_id: u32 = if long {
        0x100_0000 * (bytes[id] as u32) + 0x1_0000 * (bytes[id + 1] as u32) + 0x100 * (bytes[id
            + 2] as u32) + bytes[id + 3] as u32
    } else {
        le_u32(bytes, id)
    };
    let is_fake = !long && bytes.len() > o + 108 && bytes[o + 108] != 0;
    let is_hltv = !long && bytes.len() > o + 109 && bytes[o + 109] != 0;
    let field = vstd::slice::slice_subrange(bytes, o, o + w);
    let n: usize = find_zero(field);
    assert(field@.take(n as int) =~= field@.subrange(0, n as int));
    let name = lossy(vstd::slice::slice_subrange(field, 0, n));
    if is_empty_text(name.as_str()) {
        return None;
    }
    let guid_end: usize = if bytes.len() - id >= 37 {
        id + 37
    } else {
        bytes.len()
    };
    let guid = vstd::slice::slice_subrange(bytes, id + 4, guid_end);
    let g: usize = find_zero(guid);
    assert(guid@.take(g as int) =~= guid@.subrange(0, g as int));
    let steam_id = latin1_text(vstd::slice::slice_subrange(guid, 0, g));
    let mut aliases: Vec<String> = Vec::new();
    aliases.push(name.clone());
    assert(texts(aliases@) =~= seq![name@]);
    Some(PlayerInfo { name, user_id, steam_id, is_fake, is_hltv, aliases })
}

/// What a string-table snapshot holds.
pub struct StringTablesParse {
    pub players: HashMap<u32, PlayerInfo>,
    /// The tables' names in order; a table's number is its place in this list.
    pub table_names: Vec<String>,
}

/// The players found so far and where the reader stands.
pub struct Scan {
    pub c: Cursor,
    pub players: Map<u32, PlayerView>,
}

/// One string of a table; a userinfo string's data names the player in that slot.
pub open spec fn scan_string(s: Scan, slot: int, userinfo: bool) -> Option<Scan> {
    match s.c.cstring(512) {
        None => None,
        Some((_, c)) => if !c.has(1) {
            None
        } else if c.val(1) != 1 {
            Some(Scan { c: c.adv(1), ..s })
        } else if !c.adv(1).has(16) || !c.adv(17).has(8 * c.adv(1).val(16)) {
            None
        } else {
            let len = c.adv(1).val(16);
            let next = c.adv(17).adv(8 * len);
            if userinfo && len >= 36 {
                match blob_player(c.adv(17).byte_seq(len as nat)) {
                    Some(p) => Some(
                        Scan { c: next, players: s.players.insert((slot + 1) as u32, p) },
                    ),
                    None => Some(Scan { c: next, ..s }),
                }
            } else {
                Some(Scan { c: next, ..s })
            }
        },
    }
}

pub open spec fn scan_strings(s: Scan, slot: int, n: int, userinfo: bool) -> Option<Scan>
    decreases n - slot,
{
    if slot >= n {
        Some(s)
    } else {
        match scan_string(s, slot, userinfo) {
            None => None,
            Some(s) => scan_strings(s, slot + 1, n, userinfo),
        }
    }
}

/// One table: its name, and what is known behind it.
pub open spec fn scan_table(s: Scan) -> Option<(Seq<char>, Scan)> {
    match s.c.cstring(128) {
        None => None,
        Some((name, c)) => if !c.has(16) {
            None
        } else {
            match scan_strings(
                Scan { c: c.adv(16), ..s },
                0,
                c.val(16),
                lossy_chars(name) == "userinfo"@,
            ) {
                None => None,
                Some(s) => if !s.c.has(1) {
                    None
                } else if s.c.val(1) != 1 {
                    Some((lossy_chars(name), Scan { c: s.c.adv(1), ..s }))
                } else if !s.c.adv(1).has(16) {
                    None
                } else {
                    match crate::packets::client_strings(s.c.adv(17), s.c.adv(1).val(16)) {
                        None => None,
                        Some(c) => Some((lossy_chars(name), Scan { c, ..s })),
                    }
                },
            }
        },
    }
}

pub open spec fn scan_tables(s: Scan, n: int) -> Option<(Seq<Seq<char>>, Map<u32, PlayerView>)>
    decreases n,
{
    if n <= 0 {
        Some((Seq::empty(), s.players))
    } else {
        match scan_table(s) {
            None => None,
            Some((name, s)) => match scan_tables(s, n - 1) {
                None => None,
                Some((names, players)) => Some((seq![name] + names, players)),
            },
        }
    }
}

/// The table names and the players, by slot plus one, of a snapshot; none where
/// it does not parse to its end.
pub open spec fn snapshot_of(d: Seq<u8>) -> Option<(Seq<Seq<char>>, Map<u32, PlayerView>)> {
    let c = Cursor { d, pos: 0, end: 8 * d.len() as int };
    if !c.has(8) || c.val(8) == 0 || c.val(8) > 64 {
        None
    } else {
        scan_tables(Scan { c: c.adv(8), players: Map::empty() }, c.val(8))
    }
}

fn read_string(
    br: &mut BitReader,
    slot: usize,
    userinfo: bool,
    players: &mut HashMap<u32, PlayerInfo>,
) -> (ok: bool)
    requires
        old(br).wf(),
        slot < 0x1_0000,
    ensures
        final(br).wf(),
        match scan_string(
            Scan { c: old(br)@, players: players_view(old(players)@) },
            slot as int,
            userinfo,
        ) {
            Some(s) => ok && final(br)@ == s.c && players_view(final(players)@) == s.players,
            None => !ok,
        },
{
    broadcast use vstd::std_specs::hash::group_hash_axioms;

    proof {
        lemma2_to64();
    }
    match br.read_cstring_bytes(512) {
        Some(_) => {},
        None => {
            return false;
        },
    }
    let has_data = match br.read_bool() {
        Some(b) => b,
        None => {
            return false;
        },
    };
    if has_data {
        let len: usize = match br.read_bits(16) {
            Some(v) => v as usize,
            None => {
                return false;
            },
        };
        let b = match br.read_byte_vec(len) {
            Some(b) => b,
            None => {
                return false;
            },
        };
        if userinfo && len >= 36 {
            match parse_player_info_blob(b.as_slice()) {
                Some(p) => {
                    proof {
                        lemma_players_insert(players@, (slot + 1) as u32, p);
                    }
                    players.insert(slot as u32 + 1, p);
                },
                None => {},
            }
        }
    }
    true
}

fn read_table(br: &mut BitReader, players: &mut HashMap<u32, PlayerInfo>) -> (r: Option<String>)
    requires
        old(br).wf(),
    ensures
        final(br).wf(),
        match (r, scan_table(Scan { c: old(br)@, players: players_view(old(players)@) })) {
            (Some(name), Some((n, s))) => name@ == n && final(br)@ == s.c && players_view(
                final(players)@,
            ) == s.players,
            (None, None) => true,
            _ => false,
        },
{
    let ghost s0 = Scan { c: br@, players: players_view(players@) };
    proof {
        lemma2_to64();
    }
    let name = match br.read_cstring_any(128) {
        Some(s) => s,
        None => {
            return None;
        },
    };
    let n: usize = match br.read_bits(16) {
        Some(v) => v as usize,
        None => {
            return None;
        },
    };
    let userinfo = str_eq(name.as_str(), "userinfo");
    let ghost start = Scan { c: br@, players: players_view(players@) };
    let mut slot: usize = 0;
    while slot < n
        invariant
            br.wf(),
            slot <= n < 0x1_0000,
            s0 == (Scan { c: old(br)@, players: players_view(old(players)@) }),
            scan_strings(start, 0, n as int, userinfo) is None ==> scan_table(s0) is None,
            scan_strings(start, 0, n as int, userinfo) == scan_strings(
                Scan { c: br@, players: players_view(players@) },
                slot as int,
                n as int,
                userinfo,
            ),
        decreases n - slot,
    {
        if !read_string(br, slot, userinfo, players) {
            return None;
        }
        slot += 1;
    }
    match br.read_bool() {
        Some(has) => {
            if has {
                match br.read_bits(16) {
                    Some(m) => {
                        if crate::packets::skip_client_strings(br, m as usize) {
                            Some(name)
                        } else {
                            None
                        }
                    },
                    None => None,
                }
            } else {
                Some(name)
            }
        },
        None => None,
    }
}

/// Reads the players of the string tables.
pub fn parse_userinfo(payload: &[u8]) -> (r: Option<StringTablesParse>)
    requires
        countable(payload@),
    ensures
        match (r, snapshot_of(payload@)) {
            (Some(p), Some((names, players))) => texts(p.table_names@) == names && players_view(
                p.players@,
            ) == players,
            (None, None) => true,
            _ => false,
        },
{
    broadcast use vstd::std_specs::hash::group_hash_axioms;

    proof {
        lemma2_to64();
    }
    let mut br = BitReader::new(payload);
    let n: usize = match br.read_bits(8) {
        Some(v) => v as usize,
        None => {
            return None;
        },
    };
    if n == 0 || n > 64 {
        return None;
    }
    let mut players: HashMap<u32, PlayerInfo> = HashMap::new();
    let mut table_names: Vec<String> = Vec::new();
    let mut i: usize = 0;
    let ghost start = Scan { c: br@, players: Map::empty() };
    proof {
        assert(players_view(players@) =~= Map::empty());
        assert(texts(table_names@) =~= Seq::empty());
        match scan_tables(start, n as int) {
            Some((names, _)) => {
                assert(texts(table_names@) + names =~= names);
            },
            None => {},
        }
    }
    while i < n
        invariant
            br.wf(),
            i <= n <= 64,
            snapshot_of(payload@) == scan_tables(start, n as int),
            match (
                scan_tables(start, n as int),
                scan_tables(Scan { c: br@, players: players_view(players@) }, n - i),
            ) {
                (Some((all, p)), Some((rest, q))) => all == texts(table_names@) + rest && p == q,
                (None, None) => true,
                _ => false,
            },
        decreases n - i,
    {
        let ghost done = texts(table_names@);
        match read_table(&mut br, &mut players) {
            Some(name) => {
                proof {
                    match scan_tables(
                        Scan { c: br@, players: players_view(players@) },
                        n - i - 1,
                    ) {
                        Some((rest, _)) => {
                            assert(done + (seq![name@] + rest) =~= done.push(name@) + rest);
                        },
                        None => {},
                    }
                    assert(texts(table_names@.push(name)) =~= done.push(name@));
                }
                table_names.push(name);
            },
            None => {
                return None;
            },
        }
        i += 1;
    }
    assert(texts(table_names@) + Seq::<Seq<char>>::empty() =~= texts(table_names@));
    Some(StringTablesParse { players, table_names })
}

} // verus!
