//! The messages of a packet, as far as they tell of players.
use crate::bits::{countable, lemma_bits_bound, BitReader, Cursor};
use crate::protobuf::reader::{lemma_continued, varint};
use crate::source::csgo::entities::{decode_packet_entities, world_of};
use crate::source::csgo::message::{frame_at, frames_from, lemma_frame_progress, scan_payload, Frame,
    MsgKind, NetMessage};
use crate::source::csgo::stringtables::{change_of, creation_of, table_of, userinfo_after,
    StringTables, TableView};
use crate::source::datatable::{DataTables, TablesView};
use crate::source::messages::{canonical, canonical_id, further, is_plain, lemma_plain_onward,
    past_bits, past_sized, plain, plain_end, reached, skip_plain, skip_sized};
use crate::source::packetentities::{parse_entity_updates, prop_order, world_after, Entity,
    EntityWorld, Layout, PropOrder};
use crate::source::player_tracks::messages::{class_info, lemma_others_onward, new_table,
    read_table_change, skip_class_info, skip_new_table, table_change};
use crate::source::player_tracks::scan::{scrape_player_state, scraped, Known, Record};
use crate::source::stringtable::{players_view, PlayerInfo, PlayerView};
use std::collections::HashMap;
use vstd::arithmetic::power2::lemma2_to64;
use vstd::prelude::*;

verus! {

/// How the packets of a demo are written.
#[derive(Debug, Clone, Copy, PartialEq, Eq, Structural)]
pub struct Engine {
    /// Whether the demo is of protocol 4 or above.
    pub newer: bool,
    /// Whether the messages have the numbers of the newer games.
    pub remap: bool,
    /// Whether the length of a message to the user takes twelve bits.
    pub wide: bool,
    /// How many bits the number of an entity takes.
    pub edict_bits: u32,
}

impl Engine {
    /// Entities have numbers of 11 bits, or of 13.
    pub open spec fn wf(self) -> bool {
        self.edict_bits == 11 || self.edict_bits == 13
    }

    /// Whether entities and string tables are written as with 13 bits.
    pub open spec fn large(self) -> bool {
        self.edict_bits == 13
    }

    pub open spec fn layout(self) -> Layout {
        Layout {
            proto4: self.newer,
            order: prop_order(false, self.newer),
            edict_bits: self.edict_bits,
        }
    }
}

/// What a packet is read by: its tick, the tables if they are known, and the number of
/// the table of players.
pub struct Reading {
    pub tick: i32,
    pub engine: Engine,
    pub live: bool,
    pub tables: TablesView,
    pub class_bits: int,
    pub userinfo: Option<usize>,
}

/// What is known while a packet is read.
pub struct Scene {
    pub names: Map<u32, PlayerView>,
    pub ents: Map<u16, Entity>,
    pub rec: Known,
}

/// The head of the entities of a packet: whether they refer to a tick, how many they
/// are, how many bits they take, and where they start.
pub open spec fn entities_head(c: Cursor, e: Engine) -> Option<(bool, int, int, Cursor)> {
    match past_bits(Some(c), e.edict_bits as int) {
        None => None,
        Some(c1) => match c1.take(1) {
            None => None,
            Some((delta, c2)) => match past_bits(
                if delta == 1 {
                    past_bits(Some(c2), 32)
                } else {
                    Some(c2)
                },
                1,
            ) {
                None => None,
                Some(c3) => match c3.take(e.edict_bits as nat) {
                    None => None,
                    Some((count, c4)) => match c4.take(
                        if e.large() {
                            24
                        } else {
                            20
                        },
                    ) {
                        None => None,
                        Some((length, c5)) => match past_bits(Some(c5), 1) {
                            None => None,
                            Some(c6) => Some((delta == 1, count, length, c6)),
                        },
                    },
                },
            },
        },
    }
}

/// The scene after the entities of a packet, and what follows them, if there is that
/// much. Entities change even where what follows cannot be read; the players are
/// looked at only where it can.
pub open spec fn entities_at(c: Cursor, s: Scene, r: Reading) -> (Scene, Option<Cursor>) {
    match entities_head(c, r.engine) {
        None => (s, None),
        Some((delta, count, length, e)) => {
            let after = past_bits(Some(e), length);
            if !r.live {
                (s, after)
            } else {
                let ents = world_after(
                    c.d,
                    e.pos,
                    length,
                    count,
                    delta,
                    s.ents,
                    r.tables,
                    r.class_bits,
                    r.engine.layout(),
                ).0;
                if after is None {
                    (Scene { ents, ..s }, None)
                } else {
                    (
                        Scene {
                            ents,
                            rec: scraped(s.rec, r.tick, ents, r.tables, false),
                            ..s
                        },
                        after,
                    )
                }
            }
        },
    }
}

/// A message: the scene after it, and what follows it. Nothing follows a message that
/// is not known.
#[verifier::opaque]
pub open spec fn message_at(c: Cursor, s: Scene, r: Reading) -> (Scene, Option<Cursor>) {
    match c.take(6) {
        None => (s, None),
        Some((raw, c1)) => {
            let t = canonical(raw as u32, r.engine.remap);
            if is_plain(t) {
                (s, plain_end(c1, t, r.engine.newer))
            } else if t == 10 {
                (s, class_info(c1, r.tables.classes.len() as int))
            } else if t == 12 {
                (s, new_table(c1, r.engine.large()))
            } else if t == 13 {
                let (names, e) = table_change(c1, s.names, r.userinfo);
                (Scene { names, ..s }, e)
            } else if t == 23 {
                (
                    s,
                    past_sized(
                        past_bits(Some(c1), 8),
                        if r.engine.wide {
                            12
                        } else {
                            11
                        },
                        1,
                    ),
                )
            } else if t == 25 {
                (s, past_sized(Some(c1), 11, 1))
            } else if t == 26 {
                entities_at(c1, s, r)
            } else {
                (s, None)
            }
        },
    }
}

proof fn lemma_message_onward(c: Cursor, s: Scene, r: Reading)
    ensures
        message_at(c, s, r).1 matches Some(e) ==> c.pos < c.end && e.d == c.d && e.end == c.end
            && e.pos > c.pos,
{
    reveal(message_at);
    lemma2_to64();
    match c.take(6) {
        None => {},
        Some((raw, c1)) => {
            let t = canonical(raw as u32, r.engine.remap);
            lemma_plain_onward(c1, t, r.engine.newer);
            lemma_others_onward(
                c1,
                r.tables.classes.len() as int,
                r.engine.large(),
                s.names,
                r.userinfo,
            );
            lemma_bits_bound(c1.d, c1.pos + 8, 12);
            lemma_bits_bound(c1.d, c1.pos + 8, 11);
            lemma_bits_bound(c1.d, c1.pos, 11);
            match entities_head(c1, r.engine) {
                None => {},
                Some((_, _, length, e)) => {
                    lemma_bits_bound(e.d, e.pos - 21, 20);
                    lemma_bits_bound(e.d, e.pos - 25, 24);
                    assert(length >= 0 && further(c1, e));
                },
            }
        },
    }
}

/// The scene after the messages from a bit on.
pub open spec fn messages_from(c: Cursor, s: Scene, r: Reading) -> Scene
    decreases
            if c.pos < c.end {
                c.end - c.pos
            } else {
                0
            },
    via messages_from_decreases
{
    match message_at(c, s, r) {
        (after, None) => after,
        (after, Some(e)) => messages_from(e, after, r),
    }
}

#[via_fn]
proof fn messages_from_decreases(c: Cursor, s: Scene, r: Reading) {
    lemma_message_onward(c, s, r);
}

/// The scene after a packet.
pub open spec fn game_packet(d: Seq<u8>, s: Scene, r: Reading) -> Scene {
    messages_from(Cursor { d, pos: 0, end: 8 * d.len() as int }, s, r)
}

pub open spec fn scene(
    names: Map<u32, PlayerInfo>,
    ents: Map<u16, Entity>,
    rec: Known,
) -> Scene {
    Scene { names: players_view(names), ents, rec }
}

fn read_head(br: &mut BitReader, e: Engine) -> (r: Option<(bool, u32, u32)>)
    requires
        old(br).wf(),
        e.wf(),
    ensures
        final(br).wf(),
        match (r, entities_head(old(br)@, e)) {
            (Some(h), Some((delta, count, length, c))) => h.0 == delta && h.1 == count && h.2
                == length && final(br)@ == c && further(old(br)@, c) && c.pos <= c.end && h.2
                < 0x100_0000,
            (None, None) => true,
            _ => false,
        },
{
    proof {
        lemma2_to64();
    }
    if !br.skip(e.edict_bits) {
        return None;
    }
    let delta: u32 = match br.read_bits(1) {
        Some(v) => v,
        None => {
            return None;
        },
    };
    if delta == 1 && !br.skip(32) {
        return None;
    }
    if !br.skip(1) {
        return None;
    }
    let count: u32 = match br.read_bits(e.edict_bits) {
        Some(v) => v,
        None => {
            return None;
        },
    };
    let width: u32 = if e.edict_bits == 13 {
        24
    } else {
        20
    };
    let length: u32 = match br.read_bits(width) {
        Some(v) => v,
        None => {
            return None;
        },
    };
    if !br.skip(1) {
        return None;
    }
    Some((delta == 1, count, length))
}

fn read_entities(
    payload: &[u8],
    br: &mut BitReader,
    tick: i32,
    engine: Engine,
    live: bool,
    data: &DataTables,
    world: &mut EntityWorld,
    rec: &mut Record,
    Ghost(names): Ghost<Map<u32, PlayerView>>,
    Ghost(r): Ghost<Reading>,
) -> (ok: bool)
    requires
        old(br).wf(),
        countable(payload@),
        old(br)@.d == payload@,
        old(br)@.end == 8 * payload@.len(),
        engine.wf(),
        data.wf(),
        old(world).wf(),
        r.tick == tick && r.engine == engine && r.live == live && r.tables == data@ && r.class_bits
            == old(world).class_bits,
    ensures
        final(br).wf(),
        final(world).wf(),
        final(world).class_bits == old(world).class_bits,
        ({
            let (s, e) = entities_at(
                old(br)@,
                Scene { names, ents: old(world)@, rec: old(rec)@ },
                r,
            );
            s == (Scene { names, ents: final(world)@, rec: final(rec)@ }) && reached(
                ok,
                final(br)@,
                e,
            )
        }),
{
    let (delta, count, length) = match read_head(br, engine) {
        Some(h) => h,
        None => {
            return false;
        },
    };
    if !live {
        return br.skip(length);
    }
    proof {
        br.lemma_wf();
    }
    let order = if engine.newer {
        PropOrder::Mixed
    } else {
        PropOrder::Gapped
    };
    let layout = Layout { proto4: engine.newer, order, edict_bits: engine.edict_bits };
    parse_entity_updates(
        payload,
        br.bit_pos(),
        length as u64,
        count,
        delta,
        world,
        data,
        layout,
    );
    if !br.skip(length) {
        return false;
    }
    scrape_player_state(tick, world, data, rec, false);
    true
}

fn read_message(
    payload: &[u8],
    br: &mut BitReader,
    tick: i32,
    engine: Engine,
    live: bool,
    data: &DataTables,
    world: &mut EntityWorld,
    rec: &mut Record,
    userinfo: Option<usize>,
    names: &mut HashMap<u32, PlayerInfo>,
    Ghost(r): Ghost<Reading>,
) -> (ok: bool)
    requires
        old(br).wf(),
        countable(payload@),
        old(br)@.d == payload@,
        old(br)@.end == 8 * payload@.len(),
        engine.wf(),
        data.wf(),
        old(world).wf(),
        r == (Reading {
            tick,
            engine,
            live,
            tables: data@,
            class_bits: old(world).class_bits as int,
            userinfo,
        }),
    ensures
        final(br).wf(),
        final(world).wf(),
        final(world).class_bits == old(world).class_bits,
        ({
            let (s, e) = message_at(old(br)@, scene(old(names)@, old(world)@, old(rec)@), r);
            s == scene(final(names)@, final(world)@, final(rec)@) && reached(
                ok,
                final(br)@,
                e,
            )
        }),
{
    reveal(message_at);
    let raw: u32 = match br.read_bits(6) {
        Some(v) => v,
        None => {
            return false;
        },
    };
    let t: u32 = canonical_id(raw, engine.remap);
    if plain(t) {
        return skip_plain(br, t, engine.newer);
    }
    match t {
        10 => skip_class_info(br, data.server_classes.len() as u32),
        12 => skip_new_table(br, engine.edict_bits == 13),
        13 => read_table_change(payload, br, userinfo, names),
        23 => {
            let w: u32 = if engine.wide {
                12
            } else {
                11
            };
            br.skip(8) && skip_sized(br, w, 1)
        },
        25 => skip_sized(br, 11, 1),
        26 => read_entities(
            payload,
            br,
            tick,
            engine,
            live,
            data,
            world,
            rec,
            Ghost(players_view(names@)),
            Ghost(r),
        ),
        _ => false,
    }
}

/// Reads the messages of a packet. The tables and entities count only where they are
/// `live`.
pub fn scan_game_payload(
    payload: &[u8],
    tick: i32,
    engine: Engine,
    live: bool,
    data: &DataTables,
    world: &mut EntityWorld,
    rec: &mut Record,
    userinfo_table_id: Option<usize>,
    names: &mut HashMap<u32, PlayerInfo>,
)
    requires
        countable(payload@),
        engine.wf(),
        data.wf(),
        old(world).wf(),
    ensures
        final(world).wf(),
        final(world).class_bits == old(world).class_bits,
        scene(final(names)@, final(world)@, final(rec)@) == game_packet(
            payload@,
            scene(old(names)@, old(world)@, old(rec)@),
            (Reading {
                tick,
                engine,
                live,
                tables: data@,
                class_bits: old(world).class_bits as int,
                userinfo: userinfo_table_id,
            }),
        ),
{
    let ghost bits = world.class_bits;
    let ghost r = Reading {
        tick,
        engine,
        live,
        tables: data@,
        class_bits: bits as int,
        userinfo: userinfo_table_id,
    };
    let ghost goal = game_packet(payload@, scene(names@, world@, rec@), r);
    let mut br = BitReader::new(payload);
    loop
        invariant
            br.wf(),
            countable(payload@),
            br@.d == payload@,
            br@.end == 8 * payload@.len(),
            engine.wf(),
            data.wf(),
            world.wf(),
            world.class_bits == bits,
            bits == old(world).class_bits,
            r == (Reading {
                tick,
                engine,
                live,
                tables: data@,
                class_bits: bits as int,
                userinfo: userinfo_table_id,
            }),
            goal == messages_from(br@, scene(names@, world@, rec@), r),
            goal == game_packet(
                payload@,
                scene(old(names)@, old(world)@, old(rec)@),
                r,
            ),
        decreases
                if br@.pos < br@.end {
                    br@.end - br@.pos
                } else {
                    0
                },
    {
        proof {
            lemma_message_onward(br@, scene(names@, world@, rec@), r);
        }
        if !read_message(
            payload,
            &mut br,
            tick,
            engine,
            live,
            data,
            world,
            rec,
            userinfo_table_id,
            names,
            Ghost(r),
        ) {
            return;
        }
    }
}

/// The string tables of a CS:GO demo, and the players in them.
pub struct Roster {
    pub tables: Seq<TableView>,
    pub names: Map<u32, PlayerView>,
}

pub open spec fn after_creation(s: Roster, body: Seq<u8>) -> Roster {
    match creation_of(body) {
        Some(c) => Roster {
            tables: s.tables.push(table_of(c)),
            names: if c.name == "userinfo"@ {
                userinfo_after(c.data, c.num_entries, table_of(c), s.names)
            } else {
                s.names
            },
        },
        None => s,
    }
}

pub open spec fn after_change(s: Roster, body: Seq<u8>) -> Roster {
    match change_of(body) {
        Some(u) => if u.table_id < s.tables.len() && s.tables[u.table_id as int].name
            == "userinfo"@ {
            Roster {
                names: userinfo_after(
                    u.data,
                    u.num_changed,
                    s.tables[u.table_id as int],
                    s.names,
                ),
                ..s
            }
        } else {
            s
        },
        None => s,
    }
}

/// The string tables after the first `n` messages.
pub open spec fn after_tables(s: Roster, fs: Seq<Frame>, n: int) -> Roster
    decreases n,
{
    if n <= 0 {
        s
    } else {
        let before = after_tables(s, fs, n - 1);
        if fs[n - 1].id == 12 {
            after_creation(before, fs[n - 1].body)
        } else if fs[n - 1].id == 13 {
            after_change(before, fs[n - 1].body)
        } else {
            before
        }
    }
}

/// The entities after the first `n` messages, and whether a message of theirs could
/// be read whole.
pub open spec fn after_entities(
    ents: Map<u16, Entity>,
    fs: Seq<Frame>,
    t: TablesView,
    class_bits: int,
    n: int,
) -> (Map<u16, Entity>, bool)
    decreases n,
{
    if n <= 0 {
        (ents, false)
    } else {
        let (before, any) = after_entities(ents, fs, t, class_bits, n - 1);
        if fs[n - 1].id == 26 {
            let (m, ok) = world_of(fs[n - 1].body, before, t, class_bits);
            (m, any || ok)
        } else {
            (before, any)
        }
    }
}

/// The scene after a packet of CS:GO: first its string tables and then, where the
/// tables are known, its entities.
pub open spec fn csgo_packet(
    d: Seq<u8>,
    s: Scene,
    tables: Seq<TableView>,
    tick: i32,
    live: bool,
    t: TablesView,
    class_bits: int,
) -> (Scene, Seq<TableView>) {
    let fs = frames_from(d, 0);
    let n = fs.len() as int;
    let roster = after_tables(Roster { tables, names: s.names }, fs, n);
    if !live {
        (Scene { names: roster.names, ..s }, roster.tables)
    } else {
        let (ents, any) = after_entities(s.ents, fs, t, class_bits, n);
        (
            Scene {
                names: roster.names,
                ents,
                rec: if any {
                    scraped(s.rec, tick, ents, t, true)
                } else {
                    s.rec
                },
            },
            roster.tables,
        )
    }
}

proof fn lemma_frames_short(d: Seq<u8>, pos: int)
    ensures
        forall|i: int|
            0 <= i < frames_from(d, pos).len() ==> (#[trigger] frames_from(d, pos)[i]).body.len()
                <= d.len(),
    decreases d.len() - pos,
{
    match frame_at(d, pos) {
        Some((f, p)) => {
            lemma_frame_progress(d, pos);
            lemma_frames_short(d, p);
            lemma_continued(d, pos);
            lemma_continued(d, varint(d, pos).1);
            assert(f.body.len() <= d.len());
            let rest = frames_from(d, p);
            assert forall|i: int| 0 <= i < frames_from(d, pos).len() implies (
            #[trigger] frames_from(d, pos)[i]).body.len() <= d.len() by {
                if i > 0 {
                    assert(frames_from(d, pos)[i] == rest[i - 1]);
                }
            }
        },
        None => {},
    }
}

fn read_tables(
    ms: &Vec<NetMessage>,
    string_tables: &mut StringTables,
    names: &mut HashMap<u32, PlayerInfo>,
    Ghost(fs): Ghost<Seq<Frame>>,
)
    requires
        fs == ms@.map_values(|m: NetMessage| m@),
        forall|i: int| 0 <= i < ms@.len() ==> (#[trigger] ms@[i]).wf(),
        forall|i: int| 0 <= i < ms@.len() ==> countable((#[trigger] ms@[i]).body@),
        old(string_tables).wf(),
    ensures
        final(string_tables).wf(),
        (Roster { tables: final(string_tables)@, names: players_view(final(names)@) })
            == after_tables(
            Roster { tables: old(string_tables)@, names: players_view(old(names)@) },
            fs,
            fs.len() as int,
        ),
{
    let ghost s = Roster { tables: string_tables@, names: players_view(names@) };
    let mut i: usize = 0;
    while i < ms.len()
        invariant
            i <= ms@.len(),
            fs == ms@.map_values(|m: NetMessage| m@),
            forall|i: int| 0 <= i < ms@.len() ==> (#[trigger] ms@[i]).wf(),
            forall|i: int| 0 <= i < ms@.len() ==> countable((#[trigger] ms@[i]).body@),
            string_tables.wf(),
            (Roster { tables: string_tables@, names: players_view(names@) }) == after_tables(
                s,
                fs,
                i as int,
            ),
        decreases ms@.len() - i,
    {
        let m = &ms[i];
        assert(fs[i as int] == m@);
        assert(ms@[i as int].wf());
        match m.kind {
            MsgKind::SvcCreateStringTable => {
                string_tables.handle_create(m.body, names);
            },
            MsgKind::SvcUpdateStringTable => {
                string_tables.handle_update(m.body, names);
            },
            _ => {
                assert(MsgKind::named(12) && MsgKind::named(13));
            },
        }
        i += 1;
    }
}

/// Reads the messages of a packet of CS:GO.
pub fn scan_csgo_payload(
    payload: &[u8],
    tick: i32,
    live: bool,
    data: &DataTables,
    world: &mut EntityWorld,
    rec: &mut Record,
    string_tables: &mut StringTables,
    names: &mut HashMap<u32, PlayerInfo>,
)
    requires
        countable(payload@),
        data.wf(),
        old(world).wf(),
        old(string_tables).wf(),
    ensures
        final(world).wf(),
        final(world).class_bits == old(world).class_bits,
        final(string_tables).wf(),
        (scene(final(names)@, final(world)@, final(rec)@), final(string_tables)@) == csgo_packet(
            payload@,
            scene(old(names)@, old(world)@, old(rec)@),
            old(string_tables)@,
            tick,
            live,
            data@,
            old(world).class_bits as int,
        ),
{
    let ms = scan_payload(payload);
    let ghost fs = frames_from(payload@, 0);
    proof {
        lemma_frames_short(payload@, 0);
        assert forall|i: int| 0 <= i < ms@.len() implies countable((#[trigger] ms@[i]).body@) by {
            assert(fs[i] == ms@[i]@);
        }
    }
    read_tables(&ms, string_tables, names, Ghost(fs));
    if !live {
        return;
    }
    let ghost ents = world@;
    let ghost bits = world.class_bits;
    let mut updated = false;
    let mut i: usize = 0;
    while i < ms.len()
        invariant
            i <= ms@.len(),
            fs == ms@.map_values(|m: NetMessage| m@),
            forall|i: int| 0 <= i < ms@.len() ==> (#[trigger] ms@[i]).wf(),
            forall|i: int| 0 <= i < ms@.len() ==> countable((#[trigger] ms@[i]).body@),
            data.wf(),
            world.wf(),
            world.class_bits == bits,
            (world@, updated) == after_entities(ents, fs, data@, bits as int, i as int),
        decreases ms@.len() - i,
    {
        let m = &ms[i];
        assert(fs[i as int] == m@);
        assert(ms@[i as int].wf());
        match m.kind {
            MsgKind::SvcPacketEntities => {
                if decode_packet_entities(m.body, world, data) {
                    updated = true;
                }
            },
            _ => {
                assert(MsgKind::named(26));
            },
        }
        i += 1;
    }
    if updated {
        scrape_player_state(tick, world, data, rec, true);
    }
}

} // verus!
