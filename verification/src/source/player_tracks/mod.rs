//! The tracks of the players of a demo: the walk over its commands, the messages in
//! its packets, and what the entities say of the players.
pub mod board;
pub mod messages;
pub mod named;
pub mod paths;
pub mod payloads;
pub mod scan;
pub mod sent;

use crate::bits::countable;
use crate::bytes::{ahead, cstr_at, fits, i32_at, le_i32, le_u32, u32_at};
use crate::constants::HEADER_SIZE;
use crate::header::DemoHeader;
use crate::maps::{are_keys, lists, sorted_keys};
use crate::multi_player::{Change, Point, Turn};
use crate::packets::{detect_splitscreen, splitscreen};
use crate::source::csgo::stringtables::{StringTables, TableView};
use crate::source::datatable::{DataTables, TablesView};
use crate::source::packetentities::{class_width, EntityWorld};
use crate::source::player_tracks::board::PlayerEcon;
use crate::source::player_tracks::paths::Paths;
use crate::source::player_tracks::payloads::{csgo_packet, game_packet, scan_csgo_payload,
    scan_game_payload, scene, Engine, Reading, Scene};
use crate::source::player_tracks::scan::{all_seen, class_names, nothing_known, Known, Record,
    Sighting};
use crate::source::stringtable::{parse_userinfo, players_view, snapshot_of, PlayerInfo, PlayerView};
use crate::text::{chars_of, letters_eq, lossy_chars, same_letters, str_eq, texts};
use std::collections::HashMap;
use vstd::prelude::*;

verus! {

broadcast use vstd::std_specs::hash::group_hash_axioms;

/// Where the walk over a demo stands, and what is known there.
pub struct Journey {
    /// The next command.
    pub off: int,
    pub csgo: bool,
    /// How many bytes of camera data each packet starts with.
    pub info: int,
    pub engine: Engine,
    /// Whether the tables have been read.
    pub live: bool,
    pub tables: TablesView,
    pub class_bits: int,
    pub scene: Scene,
    pub strings: Seq<TableView>,
    pub userinfo: Option<usize>,
    pub angles: Seq<Turn>,
}

pub open spec fn no_tables() -> TablesView {
    TablesView { classes: Seq::empty(), flat: Map::empty() }
}

/// Whether a demo is of CS:GO, by its game or its protocols.
pub open spec fn is_csgo(game: Seq<char>, proto: i32, net: i32) -> bool {
    same_letters(game, "csgo"@) || (proto >= 4 && 13000 <= net < 14000)
}

/// How the packets of a demo are written. Where entities have more bits, the limit of
/// their number was raised.
pub open spec fn engine_of(game: Seq<char>, proto: i32, p2_engine: bool) -> Engine {
    Engine {
        newer: proto >= 4,
        remap: p2_engine || game == "left4dead"@ || game == "left4dead2"@,
        wide: p2_engine,
        edict_bits: if same_letters(game, "garrysmod"@) {
            13
        } else {
            11
        },
    }
}

/// The start of the walk over a demo.
pub open spec fn set_out(d: Seq<u8>, p2_engine: bool) -> Journey {
    let proto = i32_at(d, 8) as i32;
    let game = lossy_chars(cstr_at(d, 796, 260));
    Journey {
        off: HEADER_SIZE as int,
        csgo: is_csgo(game, proto, i32_at(d, 12) as i32),
        info: 76 * splitscreen(d, proto, p2_engine),
        engine: engine_of(game, proto, p2_engine),
        live: false,
        tables: no_tables(),
        class_bits: class_width(0),
        scene: Scene { names: Map::empty(), ents: Map::empty(), rec: nothing_known() },
        strings: Seq::empty(),
        userinfo: None,
        angles: Seq::empty(),
    }
}

/// What a step of the walk comes to: its end, the next command, or the tables of the
/// demo in a range of its bytes.
#[derive(Debug, Clone, Copy, PartialEq, Eq, Structural)]
pub enum Step {
    Done,
    More,
    Tables(usize, usize),
}

/// A length of a block, `at` bytes behind `o`, whose head has `head` bytes; none where
/// the head is not there or the length is negative.
pub open spec fn length_at(d: Seq<u8>, o: int, at: int, head: int) -> Option<int> {
    if o + head > d.len() || i32_at(d, o + at) < 0 {
        None
    } else {
        Some(i32_at(d, o + at))
    }
}

/// Whether the bits of a number are those of a finite one.
pub open spec fn finite(b: u32) -> bool {
    b % 0x8000_0000 < 0x7f80_0000
}

/// The meaning of a command in the older protocols: the newer ones put another at 8
/// and moved that of the string tables to 9.
pub open spec fn command_of(raw: u8, newer: bool) -> u8 {
    if newer && raw == 9 {
        8
    } else if newer && raw == 8 {
        99
    } else {
        raw
    }
}

/// After a packet: its camera, if it is one of the game and it is finite, and its
/// messages.
pub open spec fn after_packet(d: Seq<u8>, j: Journey, raw: u8, tick: i32, o: int, end: int) -> Journey {
    let payload = d.subrange(o + j.info + 12, end);
    let pitch = u32_at(d, o + 16) as u32;
    let yaw = u32_at(d, o + 20) as u32;
    let seen = Journey {
        off: end,
        angles: if raw == 2 && finite(pitch) && finite(yaw) {
            j.angles.push((tick, pitch, yaw))
        } else {
            j.angles
        },
        ..j
    };
    if j.csgo {
        let (s, strings) = csgo_packet(
            payload,
            j.scene,
            j.strings,
            tick,
            j.live,
            j.tables,
            j.class_bits,
        );
        Journey { scene: s, strings, ..seen }
    } else {
        Journey {
            scene: game_packet(
                payload,
                j.scene,
                Reading {
                    tick,
                    engine: j.engine,
                    live: j.live,
                    tables: j.tables,
                    class_bits: j.class_bits,
                    userinfo: j.userinfo,
                },
            ),
            ..seen
        }
    }
}

/// The first place of a text.
pub open spec fn index_from(names: Seq<Seq<char>>, s: Seq<char>, i: int) -> Option<usize>
    decreases names.len() - i,
{
    if i < 0 || i >= names.len() {
        None
    } else if names[i] == s {
        Some(i as usize)
    } else {
        index_from(names, s, i + 1)
    }
}

/// After the string tables of a demo: the players in them, and the number of theirs.
pub open spec fn after_strings(j: Journey, payload: Seq<u8>) -> Journey {
    match snapshot_of(payload) {
        Some((names, players)) => Journey {
            scene: Scene { names: j.scene.names.union_prefer_right(players), ..j.scene },
            userinfo: index_from(names, "userinfo"@, 0),
            ..j
        },
        None => j,
    }
}

pub open spec fn at_most(n: int, most: int) -> int {
    if n <= most {
        n
    } else {
        most
    }
}

/// A step of the walk: the command at its place.
pub open spec fn walked(d: Seq<u8>, j: Journey) -> (Journey, Step) {
    if j.off + 5 > d.len() {
        (j, Step::Done)
    } else {
        let raw = d[j.off];
        let tick = i32_at(d, j.off + 1) as i32;
        let cmd = command_of(raw, j.engine.newer);
        let o = j.off + if j.engine.newer {
            6int
        } else {
            5
        };
        if cmd == 3 {
            (Journey { off: at_most(o, d.len() as int), ..j }, Step::More)
        } else if cmd == 1 || cmd == 2 {
            match length_at(d, o, j.info + 8, j.info + 12) {
                Some(n) => if o + j.info + 12 + n <= d.len() {
                    (after_packet(d, j, raw, tick, o, o + j.info + 12 + n), Step::More)
                } else {
                    (j, Step::Done)
                },
                None => (j, Step::Done),
            }
        } else if cmd == 4 {
            match length_at(d, o, 0, 4) {
                Some(n) => (
                    Journey { off: at_most(o + 4 + n, d.len() as int), ..j },
                    Step::More,
                ),
                None => (j, Step::Done),
            }
        } else if cmd == 5 || cmd == 99 {
            match length_at(d, o, 4, 8) {
                Some(n) => (
                    Journey { off: at_most(o + 8 + n, d.len() as int), ..j },
                    Step::More,
                ),
                None => (j, Step::Done),
            }
        } else if cmd == 6 {
            match length_at(d, o, 0, 4) {
                Some(n) => {
                    let end = at_most(o + 4 + n, d.len() as int);
                    (Journey { off: end, ..j }, Step::Tables((o + 4) as usize, end as usize))
                },
                None => (j, Step::Done),
            }
        } else if cmd == 8 {
            match length_at(d, o, 0, 4) {
                Some(n) => {
                    let end = at_most(o + 4 + n, d.len() as int);
                    (
                        Journey {
                            off: end,
                            ..after_strings(j, d.subrange(o + 4, end))
                        },
                        Step::More,
                    )
                },
                None => (j, Step::Done),
            }
        } else {
            (j, Step::Done)
        }
    }
}

/// The walk once its tables are read: no entity is there yet.
pub open spec fn with_tables(j: Journey, t: TablesView) -> Journey {
    Journey {
        live: true,
        tables: t,
        class_bits: class_width(t.classes.len() as int),
        scene: Scene { ents: Map::empty(), ..j.scene },
        ..j
    }
}

/// A walk over the commands of a demo.
pub struct Walk {
    off: usize,
    csgo: bool,
    info: usize,
    engine: Engine,
    live: bool,
    tables: DataTables,
    world: EntityWorld,
    names: HashMap<u32, PlayerInfo>,
    record: Record,
    strings: StringTables,
    userinfo: Option<usize>,
    view_angles: Vec<Turn>,
}

fn is_folded(a: &str, b: &str) -> (r: bool)
    ensures
        r == same_letters(a@, b@),
{
    let x = chars_of(a);
    let y = chars_of(b);
    letters_eq(x.as_slice(), y.as_slice())
}

fn read_at(d: &[u8], o: usize, at: usize, head: usize) -> (r: Option<usize>)
    requires
        at + 4 <= head,
    ensures
        match (r, length_at(d@, o as int, at as int, head as int)) {
            (Some(n), Some(m)) => n == m && n <= 0x7fff_ffff && o + head <= d@.len(),
            (None, None) => true,
            _ => false,
        },
{
    if !fits(d, o, head) {
        return None;
    }
    let n: i32 = le_i32(d, o + at);
    if n < 0 {
        None
    } else {
        Some(n as usize)
    }
}

fn find_text(v: &Vec<String>, s: &str) -> (r: Option<usize>)
    ensures
        r == index_from(texts(v@), s@, 0),
{
    let mut i: usize = 0;
    while i < v.len()
        invariant
            i <= v@.len(),
            index_from(texts(v@), s@, 0) == index_from(texts(v@), s@, i as int),
        decreases v@.len() - i,
    {
        assert(texts(v@)[i as int] == v@[i as int]@);
        if str_eq(v[i].as_str(), s) {
            return Some(i);
        }
        i += 1;
    }
    None
}

fn add_players(names: &mut HashMap<u32, PlayerInfo>, players: HashMap<u32, PlayerInfo>)
    ensures
        players_view(final(names)@) == players_view(old(names)@).union_prefer_right(
            players_view(players@),
        ),
{
    let ghost n0 = names@;
    let ghost p0 = players@;
    let mut players = players;
    let ks = sorted_keys(&players);
    let mut i: usize = 0;
    while i < ks.len()
        invariant
            i <= ks@.len(),
            are_keys(ks@, p0.dom()),
            forall|x: u32|
                #[trigger] players@.contains_key(x) <==> p0.contains_key(x) && !ks@.take(
                    i as int,
                ).contains(x),
            forall|x: u32| players@.contains_key(x) ==> #[trigger] players@[x] == p0[x],
            forall|x: u32|
                #[trigger] names@.contains_key(x) <==> n0.contains_key(x) || ks@.take(
                    i as int,
                ).contains(x),
            forall|x: u32|
                names@.contains_key(x) ==> #[trigger] names@[x] == if ks@.take(i as int).contains(
                    x,
                ) {
                    p0[x]
                } else {
                    n0[x]
                },
        decreases ks@.len() - i,
    {
        let k: u32 = ks[i];
        let ghost before = ks@.take(i as int);
        let ghost after = ks@.take(i + 1);
        proof {
            assert(after =~= before.push(k));
            assert(ks@.contains(k));
            assert forall|x: u32| #[trigger] after.contains(x) <==> before.contains(x) || x == k by {
                if x == k {
                    assert(after[i as int] == k);
                }
                if before.contains(x) {
                    let q = choose|q: int| 0 <= q < before.len() && before[q] == x;
                    assert(after[q] == x);
                }
                if after.contains(x) && x != k {
                    let q = choose|q: int| 0 <= q < after.len() && after[q] == x;
                    assert(before[q] == x);
                }
            }
            if before.contains(k) {
                let q = choose|q: int| 0 <= q < before.len() && before[q] == k;
                assert(ks@[q] < ks@[i as int]);
            }
        }
        match players.remove(&k) {
            Some(p) => {
                names.insert(k, p);
            },
            None => {},
        }
        i += 1;
    }
    assert(ks@.take(i as int) =~= ks@);
    assert(names@ =~= n0.union_prefer_right(p0));
    assert(players_view(names@) =~= players_view(n0).union_prefer_right(players_view(p0)));
}

impl Walk {
    pub closed spec fn view(&self) -> Journey {
        Journey {
            off: self.off as int,
            csgo: self.csgo,
            info: self.info as int,
            engine: self.engine,
            live: self.live,
            tables: self.tables@,
            class_bits: self.world.class_bits as int,
            scene: scene(self.names@, self.world@, self.record@),
            strings: self.strings@,
            userinfo: self.userinfo,
            angles: self.view_angles@,
        }
    }

    pub closed spec fn wf(&self) -> bool {
        &&& self.engine.wf()
        &&& self.tables.wf()
        &&& self.world.wf()
        &&& self.strings.wf()
        &&& 12 <= self.info <= 304
    }

    /// The start of the walk over a demo, if its header is that of one.
    pub fn new(data: &[u8], header: &DemoHeader, p2_engine: bool) -> (w: Self)
        requires
            header.is_of(data@),
        ensures
            w.wf(),
            w@ == set_out(data@, p2_engine),
    {
        let slots: usize = detect_splitscreen(data, header.demo_protocol, p2_engine);
        let game = header.game_dir.as_str();
        let tables = DataTables { server_classes: Vec::new(), flat_props: HashMap::new() };
        let world = EntityWorld::new(&tables);
        assert(tables@.classes =~= Seq::empty());
        assert(tables@.flat =~= Map::empty());
        let edict_bits: u32 = if is_folded(game, "garrysmod") {
            13
        } else {
            11
        };
        let names: HashMap<u32, PlayerInfo> = HashMap::new();
        assert(players_view(names@) =~= Map::empty());
        Walk {
            off: HEADER_SIZE,
            csgo: is_folded(game, "csgo") || (header.demo_protocol >= 4 && 13000
                <= header.net_protocol && header.net_protocol < 14000),
            info: 76 * slots,
            engine: Engine {
                newer: header.demo_protocol >= 4,
                remap: p2_engine || str_eq(game, "left4dead") || str_eq(game, "left4dead2"),
                wide: p2_engine,
                edict_bits,
            },
            live: false,
            tables,
            world,
            names,
            record: Record::new(),
            strings: StringTables::new(),
            userinfo: None,
            view_angles: Vec::new(),
        }
    }

    fn read_packet(&mut self, data: &[u8], raw: u8, tick: i32, o: usize, end: usize)
        requires
            old(self).wf(),
            o + old(self)@.info + 12 <= end <= data@.len(),
            end - o <= i32::MAX + old(self)@.info + 12,
        ensures
            final(self).wf(),
            final(self)@ == after_packet(
                data@,
                old(self)@,
                raw,
                tick,
                o as int,
                end as int,
            ),
    {
        let ghost j = self@;
        if raw == 2 {
            let pitch: u32 = le_u32(data, o + 16);
            let yaw: u32 = le_u32(data, o + 20);
            if pitch % 0x8000_0000 < 0x7f80_0000 && yaw % 0x8000_0000 < 0x7f80_0000 {
                self.view_angles.push((tick, pitch, yaw));
            }
        }
        let payload = vstd::slice::slice_subrange(data, o + self.info + 12, end);
        if self.csgo {
            scan_csgo_payload(
                payload,
                tick,
                self.live,
                &self.tables,
                &mut self.world,
                &mut self.record,
                &mut self.strings,
                &mut self.names,
            );
        } else {
            scan_game_payload(
                payload,
                tick,
                self.engine,
                self.live,
                &self.tables,
                &mut self.world,
                &mut self.record,
                self.userinfo,
                &mut self.names,
            );
        }
        self.off = end;
    }

    fn read_strings(&mut self, payload: &[u8])
        requires
            countable(payload@),
            old(self).wf(),
        ensures
            final(self).wf(),
            final(self)@ == after_strings(old(self)@, payload@),
    {
        match parse_userinfo(payload) {
            Some(p) => {
                self.userinfo = find_text(&p.table_names, "userinfo");
                add_players(&mut self.names, p.players);
            },
            None => {},
        }
    }

    /// Takes the next command of a demo.
    pub fn step(&mut self, data: &[u8]) -> (s: Step)
        requires
            old(self).wf(),
        ensures
            final(self).wf(),
            (final(self)@, s) == walked(data@, old(self)@),
    {
        if self.off >= data.len() || data.len() - self.off < 5 {
            return Step::Done;
        }
        let raw: u8 = data[self.off];
        let tick: i32 = le_i32(data, self.off + 1);
        let newer = self.engine.newer;
        let head: usize = if newer {
            6
        } else {
            5
        };
        let o: usize = ahead(self.off, head);
        let cmd: u8 = if newer && raw == 9 {
            8
        } else if newer && raw == 8 {
            99
        } else {
            raw
        };
        match cmd {
            3 => {
                self.off = if o <= data.len() {
                    o
                } else {
                    data.len()
                };
                Step::More
            },
            1 | 2 => match read_at(data, o, self.info + 8, self.info + 12) {
                Some(n) => {
                    let start: usize = o + self.info + 12;
                    if n <= data.len() - start {
                        self.read_packet(data, raw, tick, o, start + n);
                        Step::More
                    } else {
                        Step::Done
                    }
                },
                None => Step::Done,
            },
            4 => match read_at(data, o, 0, 4) {
                Some(n) => {
                    self.off = if n <= data.len() - (o + 4) {
                        o + 4 + n
                    } else {
                        data.len()
                    };
                    Step::More
                },
                None => Step::Done,
            },
            5 | 99 => match read_at(data, o, 4, 8) {
                Some(n) => {
                    self.off = if n <= data.len() - (o + 8) {
                        o + 8 + n
                    } else {
                        data.len()
                    };
                    Step::More
                },
                None => Step::Done,
            },
            6 => match read_at(data, o, 0, 4) {
                Some(n) => {
                    let end: usize = if n <= data.len() - (o + 4) {
                        o + 4 + n
                    } else {
                        data.len()
                    };
                    self.off = end;
                    Step::Tables(o + 4, end)
                },
                None => Step::Done,
            },
            8 => match read_at(data, o, 0, 4) {
                Some(n) => {
                    let end: usize = if n <= data.len() - (o + 4) {
                        o + 4 + n
                    } else {
                        data.len()
                    };
                    self.read_strings(vstd::slice::slice_subrange(data, o + 4, end));
                    self.off = end;
                    Step::More
                },
                None => Step::Done,
            },
            _ => Step::Done,
        }
    }

    /// Gives the walk the tables that a step found.
    pub fn give_tables(&mut self, tables: DataTables)
        requires
            old(self).wf(),
            tables.wf(),
        ensures
            final(self).wf(),
            final(self)@ == with_tables(old(self)@, tables@),
    {
        self.world = EntityWorld::new(&tables);
        self.tables = tables;
        self.live = true;
    }

    /// The players seen since this was asked last.
    pub fn take_sightings(&mut self) -> (v: Vec<Sighting>)
        requires
            old(self).wf(),
        ensures
            final(self).wf(),
            all_seen(v@) == old(self)@.scene.rec.seen,
            final(self)@ == (Journey {
                scene: Scene {
                    rec: Known { seen: Seq::empty(), ..old(self)@.scene.rec },
                    ..old(self)@.scene
                },
                ..old(self)@
            }),
    {
        let mut v: Vec<Sighting> = Vec::new();
        std::mem::swap(&mut v, &mut self.record.sightings);
        assert(all_seen(self.record.sightings@) =~= Seq::empty());
        v
    }

    /// What a walk and the paths of the players come to.
    pub fn finish(self, header: DemoHeader, paths: Paths) -> (r: PlayerTrackData)
        ensures
            r@ == (TrackView {
                map: header.map_name@,
                server: header.server_name@,
                duration: header.playback_time,
                ticks: header.ticks,
                demo_protocol: header.demo_protocol,
                net_protocol: header.net_protocol,
                client_name: header.client_name@,
                game_dir: header.game_dir@,
                tracks: paths@.tracks,
                yaws: paths@.yaws,
                names: self@.scene.names,
                rec: Known { seen: Seq::empty(), ..self@.scene.rec },
                angles: self@.angles,
            }),
    {
        let (tracks, yaws) = paths.into_lists();
        PlayerTrackData {
            map: header.map_name,
            server: header.server_name,
            duration: header.playback_time,
            ticks: header.ticks,
            demo_protocol: header.demo_protocol,
            net_protocol: header.net_protocol,
            client_name: header.client_name,
            game_dir: header.game_dir,
            tracks,
            life_states: self.record.life_states,
            observer_modes: self.record.observer_modes,
            yaws,
            weapons: self.record.weapons,
            weapon_classes: self.record.weapon_classes,
            names: self.names,
            econ: self.record.econ,
            view_angles: self.view_angles,
        }
    }
}

/// A step that does not end the walk takes it on, past the head of its command at
/// least: a walk ends.
pub proof fn law_step_advances(d: Seq<u8>, j: Journey)
    requires
        0 <= j.off,
        0 <= j.info,
    ensures
        !(walked(d, j).1 is Done) ==> walked(d, j).0.off >= j.off + 5,
{
}

/// What a step learns of the tables it learns for good: no step takes them away.
pub proof fn law_tables_stay(d: Seq<u8>, j: Journey)
    ensures
        walked(d, j).0.live == j.live,
        walked(d, j).0.tables == j.tables,
        walked(d, j).0.engine == j.engine,
{
}

/// The tracks of the players of a demo. Numbers that are not whole are the bits of
/// IEEE-754 ones.
pub struct PlayerTrackData {
    pub map: String,
    pub server: String,
    pub duration: u32,
    pub ticks: i32,
    pub demo_protocol: i32,
    pub net_protocol: i32,
    pub client_name: String,
    pub game_dir: String,
    pub tracks: HashMap<u32, Vec<Point>>,
    pub life_states: HashMap<u32, Vec<Change>>,
    /// 0 while a player plays, anything else while they watch.
    pub observer_modes: HashMap<u32, Vec<Change>>,
    /// Yaw and pitch.
    pub yaws: HashMap<u32, Vec<Turn>>,
    /// The entity of the weapon in hand.
    pub weapons: HashMap<u32, Vec<(i32, i32)>>,
    pub weapon_classes: HashMap<i32, String>,
    pub names: HashMap<u32, PlayerInfo>,
    pub econ: HashMap<u32, PlayerEcon>,
    /// Pitch and yaw of the camera that recorded.
    pub view_angles: Vec<Turn>,
}

/// What `PlayerTrackData` say.
pub struct TrackView {
    pub map: Seq<char>,
    pub server: Seq<char>,
    pub duration: u32,
    pub ticks: i32,
    pub demo_protocol: i32,
    pub net_protocol: i32,
    pub client_name: Seq<char>,
    pub game_dir: Seq<char>,
    pub tracks: Map<u32, Seq<Point>>,
    pub yaws: Map<u32, Seq<Turn>>,
    pub names: Map<u32, PlayerView>,
    pub rec: Known,
    pub angles: Seq<Turn>,
}

impl PlayerTrackData {
    pub open spec fn view(&self) -> TrackView {
        TrackView {
            map: self.map@,
            server: self.server@,
            duration: self.duration,
            ticks: self.ticks,
            demo_protocol: self.demo_protocol,
            net_protocol: self.net_protocol,
            client_name: self.client_name@,
            game_dir: self.game_dir@,
            tracks: lists(self.tracks@),
            yaws: lists(self.yaws@),
            names: players_view(self.names@),
            rec: Known {
                life: lists(self.life_states@),
                observed: lists(self.observer_modes@),
                weapons: lists(self.weapons@),
                classes: class_names(self.weapon_classes@),
                econ: self.econ@,
                seen: Seq::empty(),
            },
            angles: self.view_angles@,
        }
    }
}

} // verus!
