//! The page of a demo of Source 1, and the page that shows two of them.
use crate::bytes::{cstr_at, i32_at, u32_at};
use crate::constants::{source_magic, HEADER_SIZE};
use crate::header::{parse_header, DemoHeader};
use crate::json::{array, break_texts, breaks_to_json, classes_text, cmd_rows, cmds_to_json,
    event_rows, events_to_json, interval_rows, intervals_to_json, items_text, merge_json_obj,
    meta_entry, meta_text, meta_to_json, moved_rows, multi_life_states_to_json,
    multi_names_to_json, multi_observer_modes_to_json, multi_tracks_to_json,
    multi_weapon_classes_to_json, multi_weapons_to_json, multi_yaws_to_json, names_text,
    player_json, point_rows, points_json, put_first, spawn_row, spawn_to_json, states_json,
    states_text, tracks_text, turn_rows, turns_json, view_angles_to_json, view_text,
    world_positions_to_json, yaws_text};
use crate::multi_player::{subsample, thinned, MetaView, MultiPlayerData, People, PlayerMeta};
use crate::overlay::{backfill_names_from_connects, backfilled, extract_ghosts, ghost_shift,
    ghost_turns, ghosts_of, ghosts_view, shift_of, thin_ghost_turns, GhostOf, Ghostly, GHOST_BASE};
use crate::packets::{away_intervals, extract_svc_setview, most_viewed, packets_of, setviews,
    spectator_switch_intervals};
use crate::page::{
    dual_slots, filled, lemma_page_slots, page_slots, primary_json, primary_text, render, render_dual,
    PageOf, PageTexts,
};
use crate::report::{
    all_ranges, are_shown, demo_events, map_to_sampled, packet_ranges, sample_cmds, sample_places,
    sampled, shown_places, source_events,
};
use crate::session::{read_recording, recorded_in, Recorded, Recording};
use crate::source::events::{breaks_at, cmd_ticks, compute_life_breaks, events_of, spawns_most,
    EventOf, GameEvent, SampledCmd};
use crate::text::{decimal, lossy_chars, texts};
use vstd::prelude::*;

verus! {

broadcast use vstd::std_specs::hash::group_hash_axioms;

/// A map to show: its buffers in base64, and the bits of the place to spawn at.
#[derive(Debug)]
pub struct MapTexts {
    pub verts: String,
    pub indices: String,
    pub spawn: (u32, u32, u32),
}

/// A demo to show: its bytes, the bits of its ticks in a second, its map, its name and,
/// if they could be read, its players.
pub struct Demo<'a> {
    pub data: &'a [u8],
    pub p2_engine: bool,
    pub rate: u32,
    pub map: MapTexts,
    pub name: &'a str,
    pub players: Option<MultiPlayerData>,
}

impl<'a> Demo<'a> {
    pub open spec fn story(&self) -> Story {
        story_of(self.data@, self.p2_engine)
    }

    pub open spec fn is_source(&self) -> bool {
        self.data@.len() >= HEADER_SIZE && source_magic(self.data@)
    }

    /// The end of the recorder's last view is a tick.
    pub open spec fn fits(&self) -> bool {
        self.story().views.len() > 0 ==> self.story().views.last().0 < i32::MAX
    }
}

/// A second demo to show: its players if they could be read, its bytes and its name.
pub struct Second<'a> {
    pub players: Option<&'a MultiPlayerData>,
    pub data: &'a [u8],
    pub name: &'a str,
    pub p2_engine: bool,
}

impl<'a> Second<'a> {
    pub open spec fn ghosts(&self) -> Seq<GhostOf> {
        ghosts_of(
            match self.players {
                Some(p) => Some(*p),
                None => None,
            },
            self.data@,
            self.name@,
            self.p2_engine,
        )
    }

    /// The ghosts' numbers fit.
    pub open spec fn fits(&self) -> bool {
        self.players matches Some(p) ==> forall|k: u32|
            p.tracks@.contains_key(k) ==> k <= u32::MAX - GHOST_BASE
    }
}

pub open spec fn ghosts_in(second: Option<Second>) -> Seq<GhostOf> {
    match second {
        Some(s) => s.ghosts(),
        None => Seq::empty(),
    }
}

/// What is read from a demo: what it records, its events and the recorder's switches.
pub struct Story {
    pub recorded: Recorded,
    pub events: Seq<EventOf>,
    pub views: Seq<(i32, u16)>,
}

pub open spec fn game_of(d: Seq<u8>) -> Seq<char> {
    lossy_chars(cstr_at(d, 796, 260))
}

pub open spec fn story_of(d: Seq<u8>, p2_engine: bool) -> Story {
    let proto = i32_at(d, 8) as i32;
    let recorded = recorded_in(d, proto, i32_at(d, 12) as i32, p2_engine, true);
    Story {
        recorded,
        events: demo_events(d, proto, game_of(d), p2_engine, recorded.console),
        views: setviews(d, all_ranges(packets_of(d, proto, p2_engine), 2)),
    }
}

/// The samples at which lives end and at which the player is teleported, and the
/// intervals in which the recorder viewed somebody else. The local player, and the
/// entity viewed most, are any of those that tie.
pub struct Marks {
    pub lives: Seq<usize>,
    pub teleports: Seq<usize>,
    pub switches: Seq<(i32, i32)>,
}

pub open spec fn breaks_fit(
    m: Marks,
    s: Story,
    all: Seq<usize>,
    teleports: Seq<usize>,
    local: Option<i32>,
) -> bool {
    let places = shown_places(s.recorded.cmds.len() as int);
    &&& spawns_most(s.events, local)
    &&& breaks_at(all, teleports, cmd_ticks(s.recorded.cmds), s.events, local)
    &&& are_shown(m.lives, all, places)
    &&& are_shown(m.teleports, teleports, places)
}

pub open spec fn marks_fit(m: Marks, s: Story) -> bool {
    &&& exists|all: Seq<usize>, teleports: Seq<usize>, local: Option<i32>| #[trigger]
        breaks_fit(m, s, all, teleports, local)
    &&& s.views.len() < 5 ==> m.switches == Seq::<(i32, i32)>::empty()
    &&& s.views.len() >= 5 ==> exists|primary: u16|
        most_viewed(s.views, primary) && m.switches == #[trigger] away_intervals(s.views, primary)
}

/// What the page shows of the players.
pub struct Cast {
    pub tracks: Seq<char>,
    pub names: Seq<char>,
    pub life_states: Seq<char>,
    pub observer_modes: Seq<char>,
    pub yaws: Seq<char>,
    pub weapons: Seq<char>,
    pub weapon_classes: Seq<char>,
    pub primary: Option<u32>,
    pub view_angles: Seq<char>,
}

pub open spec fn cast_of(p: People) -> Cast {
    Cast {
        tracks: tracks_text(p),
        names: names_text(p.names),
        life_states: states_text(p.life_states),
        observer_modes: states_text(p.observer_modes),
        yaws: yaws_text(p.yaws),
        weapons: items_text(p.weapons),
        weapon_classes: classes_text(p.weapon_classes),
        primary: p.primary,
        view_angles: view_text(p.view_angles),
    }
}

pub open spec fn no_cast() -> Cast {
    Cast {
        tracks: "{}"@,
        names: "{}"@,
        life_states: "{}"@,
        observer_modes: "{}"@,
        yaws: "{}"@,
        weapons: "{}"@,
        weapon_classes: "{}"@,
        primary: None,
        view_angles: "[]"@,
    }
}

/// The players with the names that events give them.
pub open spec fn named(p: People, es: Seq<EventOf>) -> People {
    People { names: backfilled(p.names, p.tracks.dom(), es, es.len() as int), ..p }
}

/// A player who is known by a name alone.
pub open spec fn plain_player(name: Seq<char>, id: u32) -> MetaView {
    MetaView {
        name,
        steam_id: Seq::empty(),
        user_id: id,
        is_fake: false,
        is_hltv: false,
        aliases: seq![name],
    }
}

/// The players and a ghost.
pub open spec fn with_ghost(c: Cast, g: GhostOf, shift: int) -> Cast {
    Cast {
        tracks: put_first(
            c.tracks,
            g.eid as int,
            array(point_rows(thinned(g.samples, 6000), shift)),
        ),
        yaws: put_first(c.yaws, g.eid as int, array(turn_rows(ghost_turns(g.yaws), 1, shift))),
        names: put_first(c.names, g.eid as int, meta_entry(plain_player(g.name, g.eid))),
        life_states: if g.life.len() > 0 {
            put_first(c.life_states, g.eid as int, array(moved_rows(g.life, shift)))
        } else {
            c.life_states
        },
        ..c
    }
}

/// The players and the first `n` ghosts.
pub open spec fn with_ghosts(c: Cast, gs: Seq<GhostOf>, n: int, shift: int) -> Cast
    decreases n,
{
    if n <= 0 {
        c
    } else {
        with_ghost(with_ghosts(c, gs, n - 1, shift), gs[n - 1], shift)
    }
}

pub open spec fn ghost_ids(gs: Seq<GhostOf>) -> Seq<Seq<char>> {
    gs.map_values(|g: GhostOf| decimal(g.eid as nat))
}

/// The page of a demo.
pub open spec fn source_page(demo: Demo, s: Story, m: Marks, jump: u32, gs: Seq<GhostOf>) -> PageOf {
    let d = demo.data@;
    let cast = match demo.players {
        Some(p) => cast_of(named(p@, s.events)),
        None => no_cast(),
    };
    let cast = with_ghosts(
        cast,
        gs,
        gs.len() as int,
        shift_of(s.recorded.cmds, s.recorded.positions, gs),
    );
    let n = s.recorded.cmds.len();
    PageOf {
        name: demo.name@,
        meta: meta_text(
            lossy_chars(cstr_at(d, 536, 260)),
            lossy_chars(cstr_at(d, 276, 260)),
            lossy_chars(cstr_at(d, 16, 260)),
            game_of(d),
            i32_at(d, 8),
            u32_at(d, 1056) as u32,
            n,
            demo.rate,
            jump,
        ),
        cmds: array(cmd_rows(sampled(s.recorded.cmds, shown_places(n as int)))),
        life_breaks: array(break_texts(m.lives)),
        teleport_breaks: array(break_texts(m.teleports)),
        events: array(event_rows(s.events)),
        positions: array(point_rows(s.recorded.positions, 0)),
        map_verts: demo.map.verts@,
        map_indices: demo.map.indices@,
        spawn: spawn_row(demo.map.spawn),
        tracks: cast.tracks,
        names: cast.names,
        life_states: cast.life_states,
        observer_modes: cast.observer_modes,
        yaws: cast.yaws,
        weapons: cast.weapons,
        weapon_classes: cast.weapon_classes,
        buttons: "{}"@,
        primary: primary_text(cast.primary),
        view_angles: cast.view_angles,
        view_switches: array(interval_rows(m.switches)),
        ghosts: array(ghost_ids(gs)),
    }
}

/// The texts of the players.
struct CastTexts {
    tracks: String,
    names: String,
    life_states: String,
    observer_modes: String,
    yaws: String,
    weapons: String,
    weapon_classes: String,
    primary: Option<u32>,
    view_angles: String,
}

impl CastTexts {
    spec fn view(&self) -> Cast {
        Cast {
            tracks: self.tracks@,
            names: self.names@,
            life_states: self.life_states@,
            observer_modes: self.observer_modes@,
            yaws: self.yaws@,
            weapons: self.weapons@,
            weapon_classes: self.weapon_classes@,
            primary: self.primary,
            view_angles: self.view_angles@,
        }
    }
}

fn write_cast(p: &MultiPlayerData) -> (c: CastTexts)
    ensures
        c@ == cast_of(p@),
{
    CastTexts {
        tracks: multi_tracks_to_json(p),
        names: multi_names_to_json(p),
        life_states: multi_life_states_to_json(p),
        observer_modes: multi_observer_modes_to_json(p),
        yaws: multi_yaws_to_json(p),
        weapons: multi_weapons_to_json(p),
        weapon_classes: multi_weapon_classes_to_json(p),
        primary: p.primary_entity,
        view_angles: view_angles_to_json(p),
    }
}

fn write_players(players: Option<MultiPlayerData>, events: &Vec<GameEvent>) -> (c: CastTexts)
    ensures
        c@ == match players {
            Some(p) => cast_of(named(p@, events_of(events@))),
            None => no_cast(),
        },
{
    match players {
        Some(p) => {
            let mut p = p;
            let ghost old_p = p@;
            assert(old_p.tracks.dom() =~= p.tracks@.dom());
            backfill_names_from_connects(&mut p.names, &p.tracks, events);
            assert(events_of(events@).len() == events@.len());
            assert(p@ == named(old_p, events_of(events@)));
            write_cast(&p)
        },
        None => CastTexts {
            tracks: "{}".to_string(),
            names: "{}".to_string(),
            life_states: "{}".to_string(),
            observer_modes: "{}".to_string(),
            yaws: "{}".to_string(),
            weapons: "{}".to_string(),
            weapon_classes: "{}".to_string(),
            primary: None,
            view_angles: "[]".to_string(),
        },
    }
}

pub(crate) fn plain_player_json(name: &str, id: u32) -> (r: String)
    ensures
        r@ == meta_entry(plain_player(name@, id)),
{
    let mut aliases: Vec<String> = Vec::new();
    aliases.push(name.to_string());
    assert(texts(aliases@) =~= seq![name@]);
    let p = PlayerMeta {
        name: name.to_string(),
        steam_id: String::new(),
        user_id: id,
        is_fake: false,
        is_hltv: false,
        aliases,
    };
    assert(p@ =~= plain_player(name@, id));
    player_json(&p)
}

fn add_ghost(c: &mut CastTexts, g: &Ghostly, shift: i64)
    requires
        -0x1_0000_0000 <= shift <= 0x1_0000_0000,
    ensures
        final(c)@ == with_ghost(old(c)@, g@, shift as int),
{
    let few = subsample(g.samples.as_slice(), 6000);
    let points = points_json(&few, shift);
    c.tracks = merge_json_obj(c.tracks.as_str(), g.eid, points.as_str());
    let few = thin_ghost_turns(&g.yaws);
    let turns = turns_json(&few, 1, shift);
    c.yaws = merge_json_obj(c.yaws.as_str(), g.eid, turns.as_str());
    let player = plain_player_json(g.name.as_str(), g.eid);
    c.names = merge_json_obj(c.names.as_str(), g.eid, player.as_str());
    if g.life.len() > 0 {
        let states = states_json(&g.life, shift);
        c.life_states = merge_json_obj(c.life_states.as_str(), g.eid, states.as_str());
    }
}

fn add_ghosts(c: &mut CastTexts, gs: &Vec<Ghostly>, shift: i64)
    requires
        -0x1_0000_0000 <= shift <= 0x1_0000_0000,
    ensures
        final(c)@ == with_ghosts(
            old(c)@,
            ghosts_view(gs@),
            gs@.len() as int,
            shift as int,
        ),
{
    let ghost v = ghosts_view(gs@);
    let ghost c0 = c@;
    let mut i: usize = 0;
    while i < gs.len()
        invariant
            -0x1_0000_0000 <= shift <= 0x1_0000_0000,
            i <= gs@.len(),
            v == ghosts_view(gs@),
            c@ == with_ghosts(c0, v, i as int, shift as int),
        decreases gs@.len() - i,
    {
        assert(v[i as int] == gs@[i as int]@);
        add_ghost(c, &gs[i], shift);
        i += 1;
    }
}

fn ghost_ids_json(gs: &Vec<Ghostly>) -> (r: String)
    ensures
        r@ == array(ghost_ids(ghosts_view(gs@))),
{
    let mut ids: Vec<usize> = Vec::new();
    let mut i: usize = 0;
    while i < gs.len()
        invariant
            i <= gs@.len(),
            ids@.len() == i,
            forall|k: int| 0 <= k < i ==> #[trigger] ids@[k] == gs@[k].eid,
        decreases gs@.len() - i,
    {
        ids.push(gs[i].eid as usize);
        i += 1;
    }
    assert(break_texts(ids@) =~= ghost_ids(ghosts_view(gs@)));
    breaks_to_json(&ids)
}

/// What is read from a demo.
struct Parts {
    recording: Recording,
    events: Vec<GameEvent>,
    switches: Vec<(i32, i32)>,
    shown: Vec<SampledCmd>,
    lives: Vec<usize>,
    teleports: Vec<usize>,
}

impl Parts {
    spec fn marks(&self) -> Marks {
        Marks {
            lives: self.lives@,
            teleports: self.teleports@,
            switches: self.switches@,
        }
    }
}

fn read_parts(data: &[u8], header: &DemoHeader, p2_engine: bool) -> (r: Parts)
    requires
        header.is_of(data@),
        story_of(data@, p2_engine).views.len() > 0 ==> story_of(
            data@,
            p2_engine,
        ).views.last().0 < i32::MAX,
    ensures
        r.recording@ == story_of(data@, p2_engine).recorded,
        events_of(r.events@) == story_of(data@, p2_engine).events,
        r.shown@ == sampled(
            r.recording@.cmds,
            shown_places(r.recording@.cmds.len() as int),
        ),
        marks_fit(r.marks(), story_of(data@, p2_engine)),
{
    let ghost story = story_of(data@, p2_engine);
    let recording = read_recording(data, header, p2_engine, true);
    let events = source_events(data, header, p2_engine, &recording.console);
    assert(recording@ == story.recorded);
    assert(events_of(events@) == story.events);
    let (_, play) = packet_ranges(data, header.demo_protocol, p2_engine);
    let views = extract_svc_setview(data, play.as_slice());
    assert(views@ == story.views);
    let switches = spectator_switch_intervals(views.as_slice());
    let places = sample_places(recording.cmds.len());
    let shown = sample_cmds(&recording.cmds, &places);
    let (all, jumps) = compute_life_breaks(&recording.cmds, &events);
    let lives = map_to_sampled(&all, &places);
    let teleports = map_to_sampled(&jumps, &places);
    let ghost m = Marks { lives: lives@, teleports: teleports@, switches: switches@ };
    proof {
        let local = choose|local: Option<i32>| #[trigger]
            spawns_most(story.events, local) && breaks_at(
                all@,
                jumps@,
                cmd_ticks(story.recorded.cmds),
                story.events,
                local,
            );
        assert(breaks_fit(m, story, all@, jumps@, local));
        assert(marks_fit(m, story));
    }
    Parts { recording, events, switches, shown, lives, teleports }
}

/// A page whose encoding might not fit in memory.
pub open spec fn too_long(t: Seq<char>) -> bool {
    vstd::utf8::encode_utf8(t).len() > usize::MAX / 2
}

/// Whether a text is the page of a demo.
pub open spec fn is_page(
    t: Seq<char>,
    template: Seq<char>,
    demo: Demo,
    jump: u32,
    gs: Seq<GhostOf>,
) -> bool {
    exists|m: Marks| #[trigger]
        marks_fit(m, demo.story()) && t == filled(
            template,
            page_slots(source_page(demo, demo.story(), m, jump, gs), false),
            22,
        )
}

/// Writes the page of a demo; none where the file is not one. `jump` is the bits of the
/// distance at which a path is cut.
pub fn generate_html_string(template: &str, demo: Demo, jump: u32, second: Option<Second>) -> (r:
    Option<String>)
    requires
        demo.fits(),
        second matches Some(s) ==> s.fits(),
    ensures
        r is Some <==> demo.is_source(),
        r matches Some(t) ==> is_page(t@, template@, demo, jump, ghosts_in(second)),
{
    let ghost d0 = demo;
    let Demo { data, p2_engine, rate, map, name, players } = demo;
    let header = match parse_header(data) {
        Some(h) => h,
        None => {
            return None;
        },
    };
    let ghost d = data@;
    let ghost story = story_of(d, p2_engine);
    let ghost whole = ghosts_in(second);
    let parts = read_parts(data, &header, p2_engine);
    let ghost m = parts.marks();
    let Parts { recording, events, switches, shown, lives, teleports } = parts;
    let mut cast = write_players(players, &events);
    let ghosts: Vec<Ghostly> = match second {
        Some(s) => extract_ghosts(s.players, s.data, s.name, s.p2_engine),
        None => Vec::new(),
    };
    assert(ghosts_view(ghosts@) =~= whole);
    let shift: i64 = ghost_shift(&recording.cmds, &recording.positions, &ghosts);
    assert(whole.len() == ghosts@.len());
    add_ghosts(&mut cast, &ghosts, shift);
    let texts = PageTexts {
        name: name.to_string(),
        meta: meta_to_json(
            header.map_name.as_str(),
            header.client_name.as_str(),
            header.server_name.as_str(),
            header.game_dir.as_str(),
            header.demo_protocol,
            header.playback_time,
            recording.cmds.len(),
            rate,
            jump,
        ),
        cmds: cmds_to_json(&shown),
        life_breaks: breaks_to_json(&lives),
        teleport_breaks: breaks_to_json(&teleports),
        events: events_to_json(&events),
        positions: world_positions_to_json(&recording.positions),
        spawn: spawn_to_json(map.spawn),
        map_verts: map.verts,
        map_indices: map.indices,
        tracks: cast.tracks,
        names: cast.names,
        life_states: cast.life_states,
        observer_modes: cast.observer_modes,
        yaws: cast.yaws,
        weapons: cast.weapons,
        weapon_classes: cast.weapon_classes,
        buttons: "{}".to_string(),
        primary: primary_json(cast.primary),
        view_angles: cast.view_angles,
        view_switches: intervals_to_json(&switches),
        ghosts: ghost_ids_json(&ghosts),
    };
    assert(texts@ =~= source_page(d0, story, m, jump, whole));
    proof {
        lemma_page_slots(texts@, false);
    }
    Some(render(template, texts, false))
}

/// Writes the page with two viewers; none where a file is not a demo, or where a page is
/// too long to be encoded.
pub fn generate_dual_html_string(template: &str, shell: &str, a: Demo, b: Demo, jump: u32) -> (r:
    Option<String>)
    requires
        a.fits(),
        b.fits(),
    ensures
        match r {
            Some(t) => {
                &&& a.is_source() && b.is_source()
                &&& exists|x: Seq<char>, y: Seq<char>| #[trigger]
                    is_page(x, template@, a, jump, Seq::empty()) && #[trigger] is_page(
                        y,
                        template@,
                        b,
                        jump,
                        Seq::empty(),
                    ) && t@ == filled(shell@, dual_slots(x, y, a.name@, b.name@), 4)
            },
            None => a.is_source() && b.is_source() ==> exists|x: Seq<char>| #[trigger]
                too_long(x) && (is_page(x, template@, a, jump, Seq::empty()) || is_page(
                    x,
                    template@,
                    b,
                    jump,
                    Seq::empty(),
                )),
        },
{
    let name_a = a.name;
    let name_b = b.name;
    let x = match generate_html_string(template, a, jump, None) {
        Some(t) => t,
        None => {
            return None;
        },
    };
    let y = match generate_html_string(template, b, jump, None) {
        Some(t) => t,
        None => {
            return None;
        },
    };
    if x.as_str().as_bytes().len() > usize::MAX / 2 {
        assert(too_long(x@));
        return None;
    }
    if y.as_str().as_bytes().len() > usize::MAX / 2 {
        assert(too_long(y@));
        return None;
    }
    Some(render_dual(shell, x.as_str(), y.as_str(), name_a, name_b))
}

} // verus!
