//! A second demo over a first one, as ghosts; and names for players that have none.
use crate::constants::{source_magic, HEADER_SIZE};
use crate::header::parse_header;
use crate::maps::{are_keys, in_order, increasing, lemma_in_order, list_of, lists, sorted_keys};
use crate::multi_player::{metas, strided, Change, MetaView, MultiPlayerData, PlayerMeta, Point,
    Turn};
use crate::session::{read_recording, recorded_in, Recorded};
use crate::source::events::{events_of, EventOf, EventValue, FieldOf, GameEvent, SampledCmd, ValueOf};
use crate::text::{decimal, is_empty_text, push_decimal, str_eq, texts, trim, trimmed};
use std::collections::HashMap;
use vstd::prelude::*;

verus! {

broadcast use vstd::std_specs::hash::group_hash_axioms;

/// What a player who connects says: the last name, place and number that is given.
pub struct Connect {
    pub name: Option<Seq<char>>,
    pub index: Option<i32>,
    pub user: Option<i32>,
}

/// What the first `n` fields of an event say of a player who connects.
pub open spec fn connect_of(fs: Seq<FieldOf>, n: int) -> Connect
    decreases n,
{
    if n <= 0 {
        Connect { name: None, index: None, user: None }
    } else {
        let c = connect_of(fs, n - 1);
        let f = fs[n - 1];
        match f.value {
            ValueOf::Str(s) => if f.name == "name"@ {
                Connect { name: Some(s), ..c }
            } else {
                c
            },
            ValueOf::Int(v) => if f.name == "index"@ {
                Connect { index: Some(v), ..c }
            } else if f.name == "userid"@ {
                Connect { user: Some(v), ..c }
            } else {
                c
            },
            _ => c,
        }
    }
}

/// A player who is known by a name and perhaps a number alone.
pub open spec fn bare_player(name: Seq<char>, user: Option<i32>) -> MetaView {
    MetaView {
        name,
        steam_id: Seq::empty(),
        user_id: match user {
            Some(v) => if v > 0 {
                v as u32
            } else {
                0
            },
            None => 0,
        },
        is_fake: false,
        is_hltv: false,
        aliases: seq![name],
    }
}

/// The names after a player connects: theirs is that of the entity behind their place,
/// if that has a track and no name yet.
pub open spec fn after_connect(
    names: Map<u32, MetaView>,
    tracks: Set<u32>,
    e: EventOf,
) -> Map<u32, MetaView> {
    let c = connect_of(e.fields, e.fields.len() as int);
    if e.event != "player_connect"@ {
        names
    } else {
        match (c.name, c.index) {
            (Some(name), Some(i)) => {
                let id = (i + 1) as u32;
                if name.len() > 0 && 0 <= i < 64 && tracks.contains(id) && !(names.contains_key(id)
                    && names[id].name.len() > 0) {
                    names.insert(id, bare_player(name, c.user))
                } else {
                    names
                }
            },
            _ => names,
        }
    }
}

/// The names after the first `n` events.
pub open spec fn backfilled(
    names: Map<u32, MetaView>,
    tracks: Set<u32>,
    es: Seq<EventOf>,
    n: int,
) -> Map<u32, MetaView>
    decreases n,
{
    if n <= 0 {
        names
    } else {
        after_connect(backfilled(names, tracks, es, n - 1), tracks, es[n - 1])
    }
}

/// A name that is there is never replaced.
pub proof fn law_names_stay(
    names: Map<u32, MetaView>,
    tracks: Set<u32>,
    es: Seq<EventOf>,
    n: int,
    k: u32,
)
    requires
        names.contains_key(k),
        names[k].name.len() > 0,
    ensures
        backfilled(names, tracks, es, n).contains_key(k),
        backfilled(names, tracks, es, n)[k] == names[k],
    decreases n,
{
    if n > 0 {
        law_names_stay(names, tracks, es, n - 1, k);
    }
}

fn read_connect(e: &GameEvent) -> (r: (Option<String>, Option<i32>, Option<i32>))
    ensures
        ({
            let c = connect_of(e@.fields, e@.fields.len() as int);
            c.index == r.1 && c.user == r.2 && match (r.0, c.name) {
                (Some(s), Some(t)) => s@ == t,
                (None, None) => true,
                _ => false,
            }
        }),
{
    let ghost fs = e@.fields;
    let mut name: Option<String> = None;
    let mut index: Option<i32> = None;
    let mut user: Option<i32> = None;
    let mut i: usize = 0;
    while i < e.fields.len()
        invariant
            i <= e.fields@.len(),
            fs == e@.fields,
            connect_of(fs, i as int).index == index,
            connect_of(fs, i as int).user == user,
            match (name, connect_of(fs, i as int).name) {
                (Some(s), Some(t)) => s@ == t,
                (None, None) => true,
                _ => false,
            },
        decreases e.fields@.len() - i,
    {
        let f = &e.fields[i];
        assert(fs[i as int] == f@);
        match &f.value {
            EventValue::Str(s) => {
                if str_eq(f.name.as_str(), "name") {
                    name = Some(s.clone());
                }
            },
            EventValue::Int(v) => {
                if str_eq(f.name.as_str(), "index") {
                    index = Some(*v);
                } else if str_eq(f.name.as_str(), "userid") {
                    user = Some(*v);
                }
            },
            _ => {},
        }
        i += 1;
    }
    (name, index, user)
}

fn name_player(names: &mut HashMap<u32, PlayerMeta>, id: u32, name: String, user: Option<i32>)
    ensures
        metas(final(names)@) == metas(old(names)@).insert(id, bare_player(name@, user)),
{
    let ghost m0 = names@;
    let ghost s = name@;
    let user_id: u32 = match user {
        Some(v) => if v > 0 {
            v as u32
        } else {
            0
        },
        None => 0,
    };
    let mut aliases: Vec<String> = Vec::new();
    aliases.push(name.clone());
    assert(texts(aliases@) =~= seq![s]);
    let p = PlayerMeta {
        name,
        steam_id: String::new(),
        user_id,
        is_fake: false,
        is_hltv: false,
        aliases,
    };
    assert(p@ =~= bare_player(s, user));
    names.insert(id, p);
    assert(metas(names@) =~= metas(m0).insert(id, p@));
}

/// Names the players that have a track and no name by the events of those who connect.
pub fn backfill_names_from_connects(
    names: &mut HashMap<u32, PlayerMeta>,
    tracks: &HashMap<u32, Vec<Point>>,
    events: &Vec<GameEvent>,
)
    ensures
        metas(final(names)@) == backfilled(
            metas(old(names)@),
            tracks@.dom(),
            events_of(events@),
            events@.len() as int,
        ),
{
    let ghost m0 = metas(names@);
    let ghost es = events_of(events@);
    let mut i: usize = 0;
    while i < events.len()
        invariant
            i <= events@.len(),
            es == events_of(events@),
            metas(names@) == backfilled(m0, tracks@.dom(), es, i as int),
        decreases events@.len() - i,
    {
        let e = &events[i];
        assert(es[i as int] == e@);
        if str_eq(e.event.as_str(), "player_connect") {
            let (name, index, user) = read_connect(e);
            match name {
                Some(s) => match index {
                    Some(v) => {
                        if !is_empty_text(s.as_str()) && 0 <= v && v < 64 {
                            let id: u32 = (v + 1) as u32;
                            let named = match names.get(&id) {
                                Some(p) => {
                                    assert(metas(names@)[id] == p@);
                                    !is_empty_text(p.name.as_str())
                                },
                                None => false,
                            };
                            if tracks.contains_key(&id) && !named {
                                name_player(names, id, s, user);
                            }
                        }
                    },
                    None => {},
                },
                None => {},
            }
        }
        i += 1;
    }
}

/// The number of the first ghost, less one: none of a demo's own entities has one as
/// high.
pub const GHOST_BASE: u32 = 900_000;

/// A player of a second demo.
#[derive(Debug)]
pub struct Ghostly {
    pub eid: u32,
    pub name: String,
    pub samples: Vec<Point>,
    pub yaws: Vec<Turn>,
    pub life: Vec<Change>,
}

/// What a `Ghostly` says.
pub struct GhostOf {
    pub eid: u32,
    pub name: Seq<char>,
    pub samples: Seq<Point>,
    pub yaws: Seq<Turn>,
    pub life: Seq<Change>,
}

impl Ghostly {
    pub open spec fn view(&self) -> GhostOf {
        GhostOf {
            eid: self.eid,
            name: self.name@,
            samples: self.samples@,
            yaws: self.yaws@,
            life: self.life@,
        }
    }
}

pub open spec fn ghosts_view(v: Seq<Ghostly>) -> Seq<GhostOf> {
    v.map_values(|g: Ghostly| g@)
}

/// What a player is called: their name, or their number where that is blank.
pub open spec fn called(names: Map<u32, MetaView>, k: u32) -> Seq<char> {
    if names.contains_key(k) && trimmed(names[k].name).len() > 0 {
        names[k].name
    } else {
        "e"@ + decimal(k as nat)
    }
}

/// A ghost of a player.
pub open spec fn ghost_of(
    k: u32,
    tracks: Map<u32, Seq<Point>>,
    names: Map<u32, MetaView>,
    yaws: Map<u32, Seq<Turn>>,
    life: Map<u32, Seq<Change>>,
) -> GhostOf {
    GhostOf {
        eid: (GHOST_BASE + k) as u32,
        name: "\u{25c6} "@ + called(names, k),
        samples: list_of(tracks, k),
        yaws: list_of(yaws, k),
        life: list_of(life, k),
    }
}

/// The ghosts of the first `n` players that have a track of at least two points.
pub open spec fn ghosts_to(
    ks: Seq<u32>,
    tracks: Map<u32, Seq<Point>>,
    names: Map<u32, MetaView>,
    yaws: Map<u32, Seq<Turn>>,
    life: Map<u32, Seq<Change>>,
    n: int,
) -> Seq<GhostOf>
    decreases n,
{
    if n <= 0 {
        Seq::empty()
    } else {
        let before = ghosts_to(ks, tracks, names, yaws, life, n - 1);
        if list_of(tracks, ks[n - 1]).len() < 2 {
            before
        } else {
            before.push(ghost_of(ks[n - 1], tracks, names, yaws, life))
        }
    }
}

/// The ghosts of the players of a demo.
pub open spec fn player_ghosts(m: MultiPlayerData) -> Seq<GhostOf> {
    let ks = in_order(m.tracks@.dom());
    ghosts_to(
        ks,
        lists(m.tracks@),
        metas(m.names@),
        lists(m.yaws@),
        lists(m.life_states@),
        ks.len() as int,
    )
}

pub open spec fn looks(cmds: Seq<SampledCmd>) -> Seq<Turn> {
    cmds.map_values(|c: SampledCmd| (c.tick, c.yaw, c.pitch))
}

/// What a demo records, where its header is that of one.
pub open spec fn recorded_path(d: Seq<u8>, p2_engine: bool) -> Option<Recorded> {
    if d.len() >= HEADER_SIZE && source_magic(d) {
        Some(
            recorded_in(
                d,
                crate::bytes::i32_at(d, 8) as i32,
                crate::bytes::i32_at(d, 12) as i32,
                p2_engine,
                false,
            ),
        )
    } else {
        None
    }
}

/// The ghost of the one who recorded a demo, if they went anywhere.
pub open spec fn recorder_ghosts(d: Seq<u8>, name: Seq<char>, p2_engine: bool) -> Seq<GhostOf> {
    match recorded_path(d, p2_engine) {
        Some(r) => if r.positions.len() >= 2 {
            seq![
                GhostOf {
                    eid: (GHOST_BASE + 1) as u32,
                    name: "\u{25c6} "@ + name,
                    samples: r.positions,
                    yaws: looks(r.cmds),
                    life: Seq::empty(),
                },
            ]
        } else {
            Seq::empty()
        },
        None => Seq::empty(),
    }
}

/// The ghosts of a demo: those of its players or, where there are none, that of the
/// one who recorded it.
pub open spec fn ghosts_of(
    m: Option<MultiPlayerData>,
    d: Seq<u8>,
    name: Seq<char>,
    p2_engine: bool,
) -> Seq<GhostOf> {
    let players = match m {
        Some(p) => player_ghosts(p),
        None => Seq::empty(),
    };
    if players.len() > 0 {
        players
    } else {
        recorder_ghosts(d, name, p2_engine)
    }
}

fn copy_list<T: Copy>(m: &HashMap<u32, Vec<T>>, k: u32) -> (r: Vec<T>)
    ensures
        r@ == list_of(lists(m@), k),
{
    let mut out: Vec<T> = Vec::new();
    match m.get(&k) {
        Some(l) => {
            assert(lists(m@)[k] == l@);
            let mut i: usize = 0;
            while i < l.len()
                invariant
                    i <= l@.len(),
                    out@ == l@.take(i as int),
                decreases l@.len() - i,
            {
                out.push(l[i]);
                assert(l@.take(i + 1) =~= l@.take(i as int).push(l@[i as int]));
                i += 1;
            }
            assert(l@.take(i as int) =~= l@);
        },
        None => {},
    }
    out
}

fn call(names: &HashMap<u32, PlayerMeta>, k: u32) -> (s: String)
    ensures
        s@ == called(metas(names@), k),
{
    match names.get(&k) {
        Some(p) => {
            assert(metas(names@)[k] == p@);
            let t = trim(p.name.as_str());
            if !is_empty_text(t.as_str()) {
                return p.name.clone();
            }
        },
        None => {},
    }
    let mut s = "e".to_string();
    push_decimal(&mut s, k as u64);
    s
}

fn ghostly_name(name: &str) -> (s: String)
    ensures
        s@ == "\u{25c6} "@ + name@,
{
    let mut s = "\u{25c6} ".to_string();
    s.push_str(name);
    s
}

fn read_player_ghosts(m: &MultiPlayerData) -> (r: Vec<Ghostly>)
    requires
        forall|k: u32| m.tracks@.contains_key(k) ==> k <= u32::MAX - GHOST_BASE,
    ensures
        ghosts_view(r@) == player_ghosts(*m),
{
    let ks = sorted_keys(&m.tracks);
    let ghost tracks = lists(m.tracks@);
    let ghost names = metas(m.names@);
    let ghost yaws = lists(m.yaws@);
    let ghost life = lists(m.life_states@);
    let mut out: Vec<Ghostly> = Vec::new();
    assert(ghosts_view(out@) =~= Seq::empty());
    let mut i: usize = 0;
    while i < ks.len()
        invariant
            i <= ks@.len(),
            are_keys(ks@, m.tracks@.dom()),
            forall|k: u32| m.tracks@.contains_key(k) ==> k <= u32::MAX - GHOST_BASE,
            tracks == lists(m.tracks@),
            names == metas(m.names@),
            yaws == lists(m.yaws@),
            life == lists(m.life_states@),
            ghosts_view(out@) == ghosts_to(ks@, tracks, names, yaws, life, i as int),
        decreases ks@.len() - i,
    {
        let k: u32 = ks[i];
        assert(ks@.contains(k));
        assert(m.tracks@.contains_key(k));
        let samples = copy_list(&m.tracks, k);
        if samples.len() >= 2 {
            let name = call(&m.names, k);
            let g = Ghostly {
                eid: GHOST_BASE + k,
                name: ghostly_name(name.as_str()),
                samples,
                yaws: copy_list(&m.yaws, k),
                life: copy_list(&m.life_states, k),
            };
            let ghost before = ghosts_view(out@);
            let ghost x = g@;
            out.push(g);
            assert(ghosts_view(out@) =~= before.push(x));
        }
        i += 1;
    }
    out
}

fn read_looks(cmds: &Vec<SampledCmd>) -> (r: Vec<Turn>)
    ensures
        r@ == looks(cmds@),
{
    let mut out: Vec<Turn> = Vec::new();
    let mut i: usize = 0;
    while i < cmds.len()
        invariant
            i <= cmds@.len(),
            out@.len() == i,
            forall|k: int|
                0 <= k < i ==> #[trigger] out@[k] == (cmds@[k].tick, cmds@[k].yaw, cmds@[k].pitch),
        decreases cmds@.len() - i,
    {
        out.push((cmds[i].tick, cmds[i].yaw, cmds[i].pitch));
        i += 1;
    }
    assert(out@ =~= looks(cmds@));
    out
}

/// The path of the one who recorded a demo: where the camera was, and where they
/// looked.
pub fn extract_recorder_path(data: &[u8], p2_engine: bool) -> (r: Option<(Vec<Point>, Vec<Turn>)>)
    ensures
        match (r, recorded_path(data@, p2_engine)) {
            (Some(p), Some(s)) => p.0@ == s.positions && p.1@ == looks(s.cmds),
            (None, None) => true,
            _ => false,
        },
{
    match parse_header(data) {
        None => None,
        Some(h) => {
            let r = read_recording(data, &h, p2_engine, false);
            let turns = read_looks(&r.cmds);
            Some((r.positions, turns))
        },
    }
}

/// The ghosts of a demo, given the tracks of its players if they could be read.
pub fn extract_ghosts(m: Option<&MultiPlayerData>, data: &[u8], name: &str, p2_engine: bool) -> (r:
    Vec<Ghostly>)
    requires
        m matches Some(p) ==> forall|k: u32|
            p.tracks@.contains_key(k) ==> k <= u32::MAX - GHOST_BASE,
    ensures
        ghosts_view(r@) == ghosts_of(
            match m {
                Some(p) => Some(*p),
                None => None,
            },
            data@,
            name@,
            p2_engine,
        ),
{
    match m {
        Some(p) => {
            let v = read_player_ghosts(p);
            if v.len() > 0 {
                assert(ghosts_view(v@).len() > 0);
                return v;
            }
        },
        None => {},
    }
    let mut out: Vec<Ghostly> = Vec::new();
    match extract_recorder_path(data, p2_engine) {
        Some((positions, turns)) => {
            if positions.len() >= 2 {
                out.push(
                    Ghostly {
                        eid: GHOST_BASE + 1,
                        name: ghostly_name(name),
                        samples: positions,
                        yaws: turns,
                        life: Vec::new(),
                    },
                );
            }
        },
        None => {},
    }
    assert(ghosts_view(out@) =~= recorder_ghosts(data@, name@, p2_engine));
    out
}

/// The first tick of a demo: of its inputs or, without any, of its camera.
pub open spec fn first_tick(cmds: Seq<SampledCmd>, positions: Seq<Point>) -> int {
    if cmds.len() > 0 {
        cmds[0].tick as int
    } else if positions.len() > 0 {
        positions[0].0 as int
    } else {
        0
    }
}

/// The first tick of the first `n` ghosts, if they have one.
pub open spec fn ghost_tick(gs: Seq<GhostOf>, n: int) -> Option<i32>
    decreases n,
{
    if n <= 0 {
        None
    } else if gs[n - 1].samples.len() == 0 {
        ghost_tick(gs, n - 1)
    } else {
        match ghost_tick(gs, n - 1) {
            Some(t) => if t <= gs[n - 1].samples[0].0 {
                Some(t)
            } else {
                Some(gs[n - 1].samples[0].0)
            },
            None => Some(gs[n - 1].samples[0].0),
        }
    }
}

/// By how many ticks the ghosts are moved, so that both demos start together.
pub open spec fn shift_of(cmds: Seq<SampledCmd>, positions: Seq<Point>, gs: Seq<GhostOf>) -> int {
    first_tick(cmds, positions) - match ghost_tick(gs, gs.len() as int) {
        Some(t) => t as int,
        None => 0,
    }
}

/// How far ghosts are moved in time so that they start with the first demo.
pub fn ghost_shift(cmds: &Vec<SampledCmd>, positions: &Vec<Point>, ghosts: &Vec<Ghostly>) -> (r: i64)
    ensures
        r == shift_of(cmds@, positions@, ghosts_view(ghosts@)),
        -0x1_0000_0000 <= r <= 0x1_0000_0000,
{
    let first: i32 = if cmds.len() > 0 {
        cmds[0].tick
    } else if positions.len() > 0 {
        positions[0].0
    } else {
        0
    };
    let ghost gs = ghosts_view(ghosts@);
    let mut low: Option<i32> = None;
    let mut i: usize = 0;
    while i < ghosts.len()
        invariant
            i <= ghosts@.len(),
            gs == ghosts_view(ghosts@),
            low == ghost_tick(gs, i as int),
        decreases ghosts@.len() - i,
    {
        assert(gs[i as int] == ghosts@[i as int]@);
        if ghosts[i].samples.len() > 0 {
            let t: i32 = ghosts[i].samples[0].0;
            low = match low {
                Some(x) => if x <= t {
                    Some(x)
                } else {
                    Some(t)
                },
                None => Some(t),
            };
        }
        i += 1;
    }
    let other: i32 = match low {
        Some(t) => t,
        None => 0,
    };
    first as i64 - other as i64
}

proof fn lemma_ghost_tick(gs: Seq<GhostOf>, n: int, i: int)
    requires
        0 <= i < n <= gs.len(),
        gs[i].samples.len() > 0,
    ensures
        ghost_tick(gs, n) matches Some(t) && t <= gs[i].samples[0].0,
    decreases n,
{
    if i < n - 1 {
        lemma_ghost_tick(gs, n - 1, i);
    }
}

/// No ghost starts before the first demo does, once they are moved.
pub proof fn law_ghosts_start_together(
    cmds: Seq<SampledCmd>,
    positions: Seq<Point>,
    gs: Seq<GhostOf>,
    i: int,
)
    requires
        0 <= i < gs.len(),
        gs[i].samples.len() > 0,
    ensures
        gs[i].samples[0].0 + shift_of(cmds, positions, gs) >= first_tick(cmds, positions),
{
    lemma_ghost_tick(gs, gs.len() as int, i);
}

/// The angles of a ghost: about 6000 of them.
pub open spec fn ghost_turns(v: Seq<Turn>) -> Seq<Turn> {
    strided(
        v,
        if v.len() / 6000 > 1 {
            (v.len() / 6000) as int
        } else {
            1
        },
        0,
    )
}

/// Thins the angles of a ghost.
pub fn thin_ghost_turns(v: &Vec<Turn>) -> (r: Vec<Turn>)
    ensures
        r@ == ghost_turns(v@),
{
    let n: usize = v.len();
    let stride: usize = if n / 6000 > 1 {
        n / 6000
    } else {
        1
    };
    let mut out: Vec<Turn> = Vec::new();
    let ghost all = strided(v@, stride as int, 0);
    assert(out@ + all =~= all);
    let mut i: usize = 0;
    while i < n
        invariant
            n == v@.len(),
            stride >= 1,
            all == out@ + strided(v@, stride as int, i as int),
        decreases n - i,
    {
        proof {
            let rest = strided(v@, stride as int, i + stride);
            assert(out@ + (seq![v@[i as int]] + rest) =~= out@.push(v@[i as int]) + rest);
        }
        out.push(v[i]);
        if stride >= n - i {
            proof {
                let rest = strided(v@, stride as int, i + stride);
                assert(rest =~= Seq::empty());
                assert(strided(v@, stride as int, n as int) =~= Seq::empty());
                assert(out@ + rest =~= out@);
            }
            i = n;
        } else {
            i = i + stride;
        }
    }
    assert(all =~= out@);
    out
}

proof fn lemma_ghosts_apart(
    ks: Seq<u32>,
    tracks: Map<u32, Seq<Point>>,
    names: Map<u32, MetaView>,
    yaws: Map<u32, Seq<Turn>>,
    life: Map<u32, Seq<Change>>,
    n: int,
)
    requires
        increasing(ks),
        n <= ks.len(),
        forall|i: int| 0 <= i < ks.len() ==> #[trigger] ks[i] <= u32::MAX - GHOST_BASE,
    ensures
        apart(ghosts_to(ks, tracks, names, yaws, life, n)),
        n > 0 ==> forall|i: int|
            0 <= i < ghosts_to(ks, tracks, names, yaws, life, n).len() ==> (#[trigger] ghosts_to(
                ks,
                tracks,
                names,
                yaws,
                life,
                n,
            )[i]).eid <= GHOST_BASE + ks[n - 1],
    decreases n,
{
    if n > 0 {
        lemma_ghosts_apart(ks, tracks, names, yaws, life, n - 1);
        if n > 1 {
            assert(ks[n - 2] < ks[n - 1]);
        }
    }
}

/// Whether ghosts have numbers of their own, beyond those of players.
pub open spec fn apart(gs: Seq<GhostOf>) -> bool {
    &&& forall|i: int| 0 <= i < gs.len() ==> (#[trigger] gs[i]).eid >= GHOST_BASE
    &&& forall|i: int, j: int|
        0 <= i < j < gs.len() ==> (#[trigger] gs[i]).eid < (#[trigger] gs[j]).eid
}

/// Ghosts never collide: each has a number of its own, beyond those of the players that
/// they are shown with.
pub proof fn law_ghosts_apart(
    m: Option<MultiPlayerData>,
    d: Seq<u8>,
    name: Seq<char>,
    p2_engine: bool,
)
    requires
        m matches Some(p) ==> forall|k: u32|
            p.tracks@.contains_key(k) ==> k <= u32::MAX - GHOST_BASE,
    ensures
        apart(ghosts_of(m, d, name, p2_engine)),
{
    if m is Some {
        let p = m->0;
        let ks = in_order(p.tracks@.dom());
        lemma_in_order(p.tracks@.dom());
        assert forall|i: int| 0 <= i < ks.len() implies #[trigger] ks[i] <= u32::MAX - GHOST_BASE by {
            assert(ks.contains(ks[i]));
        }
        lemma_ghosts_apart(
            ks,
            lists(p.tracks@),
            metas(p.names@),
            lists(p.yaws@),
            lists(p.life_states@),
            ks.len() as int,
        );
    }
}

} // verus!
