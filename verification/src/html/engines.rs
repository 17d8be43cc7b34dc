//! The pages of the demos of the older engines.
use crate::json::{
    array, classes_text, entry, entry_json, items_text, meta_entry, meta_text, meta_to_json,
    multi_life_states_to_json, multi_names_to_json, multi_observer_modes_to_json,
    multi_tracks_to_json, multi_weapon_classes_to_json, multi_weapons_to_json, multi_yaws_to_json,
    names_text, object, object_json, point_rows, points_json, spawn_row, spawn_to_json, states_text,
    tracks_text, turn_rows, turns_json, view_angles_to_json, view_text, world_positions_to_json,
    yaws_text,
};
use crate::goldsrc::GoldSrcMeta;
use crate::html::source::{plain_player, plain_player_json, MapTexts};
use crate::maps::{in_order, lists, sorted_keys};
use crate::multi_player::{copied, Point, Turn};
use crate::page::{filled, lemma_page_slots, page_slots, primary_json, primary_text, render, PageOf,
    PageTexts};
use crate::quake::QuakeDemo;
use crate::text::{decimal, push_decimal, texts};
use std::collections::HashMap;
use vstd::prelude::*;

verus! {

broadcast use vstd::std_specs::hash::group_hash_axioms;

/// The track of the followed entity.
pub open spec fn primary_track(tracks: Map<u32, Seq<Point>>, primary: Option<u32>) -> Seq<Point> {
    match primary {
        Some(k) => if tracks.dom().contains(k) {
            tracks[k]
        } else {
            Seq::empty()
        },
        None => Seq::empty(),
    }
}

/// The page of a Quake demo.
pub open spec fn quake_page(
    demo: QuakeDemo,
    duration: u32,
    rate: u32,
    map: MapTexts,
    name: Seq<char>,
) -> PageOf {
    let p = demo.mpd@;
    let meta = demo.meta;
    PageOf {
        name,
        meta: meta_text(
            meta.map@,
            meta.client@,
            meta.server@,
            meta.game@,
            meta.protocol as int,
            duration,
            meta.ncmds as nat,
            rate,
            0,
        ),
        cmds: "[]"@,
        life_breaks: "[]"@,
        teleport_breaks: "[]"@,
        events: "[]"@,
        positions: array(point_rows(primary_track(p.tracks, p.primary), 0)),
        map_verts: map.verts@,
        map_indices: map.indices@,
        spawn: spawn_row(map.spawn),
        tracks: tracks_text(p),
        names: names_text(p.names),
        life_states: states_text(p.life_states),
        observer_modes: states_text(p.observer_modes),
        yaws: yaws_text(p.yaws),
        weapons: items_text(p.weapons),
        weapon_classes: classes_text(p.weapon_classes),
        buttons: "{}"@,
        primary: primary_text(p.primary),
        view_angles: view_text(p.view_angles),
        view_switches: "[]"@,
        ghosts: "[]"@,
    }
}

fn primary_positions(demo: &QuakeDemo) -> (r: String)
    ensures
        r@ == array(point_rows(primary_track(demo.mpd@.tracks, demo.mpd@.primary), 0)),
{
    let none: Vec<Point> = Vec::new();
    assert(demo.mpd@.tracks.dom() =~= demo.mpd.tracks@.dom());
    match demo.mpd.primary_entity {
        Some(k) => match demo.mpd.tracks.get(&k) {
            Some(l) => {
                assert(demo.mpd@.tracks[k] == l@);
                world_positions_to_json(l)
            },
            None => world_positions_to_json(&none),
        },
        None => world_positions_to_json(&none),
    }
}

/// Writes the page of a Quake demo. `duration` and `rate` are the bits of its length in
/// seconds and of its ticks in a second.
pub fn generate_quake_html(
    template: &str,
    demo: &QuakeDemo,
    duration: u32,
    rate: u32,
    map: MapTexts,
    name: &str,
) -> (r: String)
    ensures
        r@ == filled(
            template@,
            page_slots(quake_page(*demo, duration, rate, map, name@), true),
            22,
        ),
{
    let ghost world = map;
    let meta = &demo.meta;
    let mpd = &demo.mpd;
    let texts = PageTexts {
        name: name.to_string(),
        meta: meta_to_json(
            meta.map.as_str(),
            meta.client.as_str(),
            meta.server.as_str(),
            meta.game.as_str(),
            meta.protocol,
            duration,
            meta.ncmds,
            rate,
            0,
        ),
        cmds: "[]".to_string(),
        life_breaks: "[]".to_string(),
        teleport_breaks: "[]".to_string(),
        events: "[]".to_string(),
        positions: primary_positions(demo),
        spawn: spawn_to_json(map.spawn),
        map_verts: map.verts,
        map_indices: map.indices,
        tracks: multi_tracks_to_json(mpd),
        names: multi_names_to_json(mpd),
        life_states: multi_life_states_to_json(mpd),
        observer_modes: multi_observer_modes_to_json(mpd),
        yaws: multi_yaws_to_json(mpd),
        weapons: multi_weapons_to_json(mpd),
        weapon_classes: multi_weapon_classes_to_json(mpd),
        buttons: "{}".to_string(),
        primary: primary_json(mpd.primary_entity),
        view_angles: view_angles_to_json(mpd),
        view_switches: "[]".to_string(),
        ghosts: "[]".to_string(),
    };
    assert(texts@ =~= quake_page(*demo, duration, rate, world, name@));
    proof {
        lemma_page_slots(texts@, true);
    }
    render(template, texts, true)
}

/// Where a camera was: its tick, and the bits of its place, pitch and yaw.
pub type Eye = (i32, u32, u32, u32, u32, u32);

/// The players of a GoldSrc demo, at ticks.
pub struct Walkers {
    pub tracks: HashMap<u32, Vec<Point>>,
    pub yaws: HashMap<u32, Vec<Turn>>,
    pub names: HashMap<u32, String>,
}

/// What a `Walkers` says.
pub struct Walking {
    pub tracks: Map<u32, Seq<Point>>,
    pub yaws: Map<u32, Seq<Turn>>,
    pub names: Map<u32, Seq<char>>,
}

pub open spec fn name_texts(m: Map<u32, String>) -> Map<u32, Seq<char>> {
    m.map_values(|s: String| s@)
}

impl Walkers {
    pub open spec fn view(&self) -> Walking {
        Walking {
            tracks: lists(self.tracks@),
            yaws: lists(self.yaws@),
            names: name_texts(self.names@),
        }
    }
}

/// The positions among the first `n` that come after all kept before them.
pub open spec fn steady_points(s: Seq<Point>, n: int) -> Seq<Point>
    decreases n,
{
    if n <= 0 {
        Seq::empty()
    } else {
        let r = steady_points(s, n - 1);
        let last = if r.len() > 0 {
            r.last().0
        } else {
            i32::MIN
        };
        if s[n - 1].0 > last {
            r.push(s[n - 1])
        } else {
            r
        }
    }
}

/// The angles among the first `n` that come after all kept before them.
pub open spec fn steady_turns(s: Seq<Turn>, n: int) -> Seq<Turn>
    decreases n,
{
    if n <= 0 {
        Seq::empty()
    } else {
        let r = steady_turns(s, n - 1);
        let last = if r.len() > 0 {
            r.last().0
        } else {
            i32::MIN
        };
        if s[n - 1].0 > last {
            r.push(s[n - 1])
        } else {
            r
        }
    }
}

/// A shown track has one position at a tick, in the order of the ticks.
pub proof fn law_steady_points(s: Seq<Point>, n: int)
    requires
        n <= s.len(),
    ensures
        forall|i: int, j: int|
            0 <= i < j < steady_points(s, n).len() ==> (#[trigger] steady_points(s, n)[i]).0 < (
            #[trigger] steady_points(s, n)[j]).0,
    decreases n,
{
    if n > 0 {
        law_steady_points(s, n - 1);
        let r = steady_points(s, n - 1);
        let all = steady_points(s, n);
        assert forall|i: int, j: int| 0 <= i < j < all.len() implies (#[trigger] all[i]).0 < (
        #[trigger] all[j]).0 by {
            assert(all[i] == r[i]);
            if j < r.len() {
                assert(all[j] == r[j]);
            } else if i < r.len() - 1 {
                assert(r[i].0 < r[r.len() - 1].0);
            }
        }
    }
}

/// Shown angles are those of one tick each, in the order of the ticks.
pub proof fn law_steady_turns(s: Seq<Turn>, n: int)
    requires
        n <= s.len(),
    ensures
        forall|i: int, j: int|
            0 <= i < j < steady_turns(s, n).len() ==> (#[trigger] steady_turns(s, n)[i]).0 < (
            #[trigger] steady_turns(s, n)[j]).0,
    decreases n,
{
    if n > 0 {
        law_steady_turns(s, n - 1);
        let r = steady_turns(s, n - 1);
        let all = steady_turns(s, n);
        assert forall|i: int, j: int| 0 <= i < j < all.len() implies (#[trigger] all[i]).0 < (
        #[trigger] all[j]).0 by {
            assert(all[i] == r[i]);
            if j < r.len() {
                assert(all[j] == r[j]);
            } else if i < r.len() - 1 {
                assert(r[i].0 < r[r.len() - 1].0);
            }
        }
    }
}

/// Keeps the positions that are later than all before them.
pub fn keep_steady_points(s: &Vec<Point>) -> (r: Vec<Point>)
    ensures
        r@ == steady_points(s@, s@.len() as int),
{
    let mut out: Vec<Point> = Vec::new();
    let mut last: i32 = i32::MIN;
    let mut i: usize = 0;
    while i < s.len()
        invariant
            i <= s@.len(),
            out@ == steady_points(s@, i as int),
            last == if out@.len() > 0 {
                out@.last().0
            } else {
                i32::MIN
            },
        decreases s@.len() - i,
    {
        let p = s[i];
        if p.0 > last {
            last = p.0;
            out.push(p);
        }
        i += 1;
    }
    out
}

/// Keeps the angles that are later than all before them.
pub fn keep_steady_turns(s: &Vec<Turn>) -> (r: Vec<Turn>)
    ensures
        r@ == steady_turns(s@, s@.len() as int),
{
    let mut out: Vec<Turn> = Vec::new();
    let mut last: i32 = i32::MIN;
    let mut i: usize = 0;
    while i < s.len()
        invariant
            i <= s@.len(),
            out@ == steady_turns(s@, i as int),
            last == if out@.len() > 0 {
                out@.last().0
            } else {
                i32::MIN
            },
        decreases s@.len() - i,
    {
        let t = s[i];
        if t.0 > last {
            last = t.0;
            out.push(t);
        }
        i += 1;
    }
    out
}

pub open spec fn eye_points(cam: Seq<Eye>) -> Seq<Point> {
    cam.map_values(|e: Eye| (e.0, e.1, e.2, e.3))
}

/// Pitch and yaw.
pub open spec fn eye_views(cam: Seq<Eye>) -> Seq<Turn> {
    cam.map_values(|e: Eye| (e.0, e.4, e.5))
}

/// Yaw and pitch.
pub open spec fn eye_yaws(cam: Seq<Eye>) -> Seq<Turn> {
    cam.map_values(|e: Eye| (e.0, e.5, e.4))
}

fn split_eyes(cam: &Vec<Eye>) -> (r: (Vec<Point>, Vec<Turn>, Vec<Turn>))
    ensures
        r.0@ == eye_points(cam@),
        r.1@ == eye_views(cam@),
        r.2@ == eye_yaws(cam@),
{
    let mut points: Vec<Point> = Vec::new();
    let mut views: Vec<Turn> = Vec::new();
    let mut yaws: Vec<Turn> = Vec::new();
    let mut i: usize = 0;
    while i < cam.len()
        invariant
            i <= cam@.len(),
            points@ == eye_points(cam@).take(i as int),
            views@ == eye_views(cam@).take(i as int),
            yaws@ == eye_yaws(cam@).take(i as int),
        decreases cam@.len() - i,
    {
        let (t, x, y, z, pitch, yaw) = cam[i];
        points.push((t, x, y, z));
        views.push((t, pitch, yaw));
        yaws.push((t, yaw, pitch));
        i += 1;
        assert(points@ =~= eye_points(cam@).take(i as int));
        assert(views@ =~= eye_views(cam@).take(i as int));
        assert(yaws@ =~= eye_yaws(cam@).take(i as int));
    }
    assert(points@ =~= eye_points(cam@));
    assert(views@ =~= eye_views(cam@));
    assert(yaws@ =~= eye_yaws(cam@));
    (points, views, yaws)
}

/// What the one who recorded a demo is called.
pub open spec fn recorder_name(game: Seq<char>) -> Seq<char> {
    if game.len() == 0 {
        "recorder"@
    } else {
        game + " recorder"@
    }
}

fn write_recorder_name(game: &str) -> (r: String)
    ensures
        r@ == recorder_name(game@),
{
    if crate::text::is_empty_text(game) {
        "recorder".to_string()
    } else {
        let mut s = String::new();
        s.push_str(game);
        s.push_str(" recorder");
        assert(s@ =~= recorder_name(game@));
        s
    }
}

/// The players with the one who recorded the demo as the first, unless they are known.
pub open spec fn with_recorder(w: Walking, cam: Seq<Eye>, name: Seq<char>) -> Walking {
    Walking {
        tracks: if w.tracks.dom().contains(1) {
            w.tracks
        } else {
            w.tracks.insert(1, eye_points(cam))
        },
        yaws: if w.yaws.dom().contains(1) {
            w.yaws
        } else {
            w.yaws.insert(1, eye_yaws(cam))
        },
        names: if w.names.dom().contains(1) {
            w.names
        } else {
            w.names.insert(1, name)
        },
    }
}

pub open spec fn track_entry(k: u32, s: Seq<Point>) -> Seq<char> {
    entry(k as int, array(point_rows(steady_points(s, s.len() as int), 0)))
}

pub open spec fn turn_entry(k: u32, s: Seq<Turn>) -> Seq<char> {
    entry(k as int, array(turn_rows(steady_turns(s, s.len() as int), 1, 0)))
}

pub open spec fn named_as(names: Map<u32, Seq<char>>, k: u32) -> Seq<char> {
    if names.dom().contains(k) {
        names[k]
    } else {
        "player "@ + decimal(k as nat)
    }
}

pub open spec fn name_entry(k: u32, name: Seq<char>) -> Seq<char> {
    entry(k as int, meta_entry(plain_player(name, k)))
}

pub open spec fn walker_tracks(w: Walking, ks: Seq<u32>) -> Seq<Seq<char>> {
    ks.map_values(|k: u32| track_entry(k, w.tracks[k]))
}

/// The angles of those of the first `n` players that have any.
pub open spec fn walker_turns(w: Walking, ks: Seq<u32>, n: int) -> Seq<Seq<char>>
    decreases n,
{
    if n <= 0 {
        Seq::empty()
    } else if w.yaws.dom().contains(ks[n - 1]) {
        walker_turns(w, ks, n - 1).push(turn_entry(ks[n - 1], w.yaws[ks[n - 1]]))
    } else {
        walker_turns(w, ks, n - 1)
    }
}

pub open spec fn walker_names(w: Walking, ks: Seq<u32>) -> Seq<Seq<char>> {
    ks.map_values(|k: u32| name_entry(k, named_as(w.names, k)))
}

/// What the page shows of the players: tracks, names, angles and whom it follows.
pub struct Shown {
    pub tracks: Seq<char>,
    pub names: Seq<char>,
    pub yaws: Seq<char>,
    pub primary: Seq<char>,
}

/// The players with the one who recorded the demo; without any players the recorder
/// alone, and without a camera nobody.
pub open spec fn shown_walkers(w: Walking, cam: Seq<Eye>, name: Seq<char>) -> Shown {
    if exists|k: u32| w.tracks.dom().contains(k) {
        let all = with_recorder(w, cam, name);
        let ks = in_order(all.tracks.dom());
        Shown {
            tracks: object(walker_tracks(all, ks)),
            names: object(walker_names(all, ks)),
            yaws: object(walker_turns(all, ks, ks.len() as int)),
            primary: "1"@,
        }
    } else if steady_points(eye_points(cam), cam.len() as int).len() > 0 {
        Shown {
            tracks: object(seq![track_entry(1, eye_points(cam))]),
            names: object(seq![name_entry(1, name)]),
            yaws: object(seq![turn_entry(1, eye_yaws(cam))]),
            primary: "1"@,
        }
    } else {
        Shown { tracks: "{}"@, names: "{}"@, yaws: "{}"@, primary: "null"@ }
    }
}

/// The page of a GoldSrc demo.
pub open spec fn goldsrc_page(
    meta: GoldSrcMeta,
    rate: u32,
    cam: Seq<Eye>,
    w: Walking,
    map: MapTexts,
    name: Seq<char>,
) -> PageOf {
    let points = steady_points(eye_points(cam), cam.len() as int);
    let called = recorder_name(meta.game_dir@);
    let shown = shown_walkers(w, cam, called);
    PageOf {
        name,
        meta: meta_text(
            meta.map_name@,
            called,
            Seq::empty(),
            meta.game_dir@,
            meta.demo_protocol as int,
            meta.play.duration,
            points.len(),
            rate,
            0,
        ),
        cmds: "[]"@,
        life_breaks: "[]"@,
        teleport_breaks: "[]"@,
        events: "[]"@,
        positions: array(point_rows(points, 0)),
        map_verts: map.verts@,
        map_indices: map.indices@,
        spawn: spawn_row(map.spawn),
        tracks: shown.tracks,
        names: shown.names,
        life_states: "{}"@,
        observer_modes: "{}"@,
        yaws: shown.yaws,
        weapons: "{}"@,
        weapon_classes: "{}"@,
        buttons: "{}"@,
        primary: shown.primary,
        view_angles: array(turn_rows(steady_turns(eye_views(cam), cam.len() as int), 2, 0)),
        view_switches: "[]"@,
        ghosts: "[]"@,
    }
}

struct ShownTexts {
    tracks: String,
    names: String,
    yaws: String,
    primary: String,
}

impl ShownTexts {
    spec fn view(&self) -> Shown {
        Shown {
            tracks: self.tracks@,
            names: self.names@,
            yaws: self.yaws@,
            primary: self.primary@,
        }
    }
}

fn write_track_entry(k: u32, s: &Vec<Point>) -> (r: String)
    ensures
        r@ == track_entry(k, s@),
{
    let few = keep_steady_points(s);
    let body = points_json(&few, 0);
    entry_json(k as i64, body.as_str())
}

fn write_turn_entry(k: u32, s: &Vec<Turn>) -> (r: String)
    ensures
        r@ == turn_entry(k, s@),
{
    let few = keep_steady_turns(s);
    let body = turns_json(&few, 1, 0);
    entry_json(k as i64, body.as_str())
}

fn write_name_entry(k: u32, name: &str) -> (r: String)
    ensures
        r@ == name_entry(k, name@),
{
    let body = plain_player_json(name, k);
    entry_json(k as i64, body.as_str())
}

fn write_named_as(names: &HashMap<u32, String>, k: u32) -> (r: String)
    ensures
        r@ == named_as(name_texts(names@), k),
{
    assert(name_texts(names@).dom() =~= names@.dom());
    match names.get(&k) {
        Some(s) => s.clone(),
        None => {
            let mut s = String::new();
            s.push_str("player ");
            push_decimal(&mut s, k as u64);
            assert(s@ =~= "player "@ + decimal(k as nat));
            s
        },
    }
}

fn write_walkers(w: &Walkers) -> (r: ShownTexts)
    ensures
        r@ == ({
            let ks = in_order(w@.tracks.dom());
            Shown {
                tracks: object(walker_tracks(w@, ks)),
                names: object(walker_names(w@, ks)),
                yaws: object(walker_turns(w@, ks, ks.len() as int)),
                primary: "1"@,
            }
        }),
{
    let ghost v = w@;
    assert(v.tracks.dom() =~= w.tracks@.dom());
    assert(v.yaws.dom() =~= w.yaws@.dom());
    let ks = sorted_keys(&w.tracks);
    let mut tracks: Vec<String> = Vec::new();
    let mut names: Vec<String> = Vec::new();
    let mut yaws: Vec<String> = Vec::new();
    assert(texts(yaws@) =~= walker_turns(v, ks@, 0));
    let mut i: usize = 0;
    while i < ks.len()
        invariant
            i <= ks@.len(),
            v == w@,
            v.yaws.dom() == w.yaws@.dom(),
            forall|k: u32| ks@.contains(k) ==> w.tracks@.dom().contains(k),
            tracks@.len() == i,
            names@.len() == i,
            forall|j: int|
                0 <= j < i ==> (#[trigger] tracks@[j])@ == track_entry(ks@[j], v.tracks[ks@[j]]),
            forall|j: int|
                0 <= j < i ==> (#[trigger] names@[j])@ == name_entry(
                    ks@[j],
                    named_as(v.names, ks@[j]),
                ),
            texts(yaws@) == walker_turns(v, ks@, i as int),
        decreases ks@.len() - i,
    {
        let k: u32 = ks[i];
        assert(ks@.contains(ks@[i as int]));
        match w.tracks.get(&k) {
            Some(s) => {
                assert(v.tracks[k] == s@);
                tracks.push(write_track_entry(k, s));
            },
            None => {},
        }
        match w.yaws.get(&k) {
            Some(s) => {
                assert(v.yaws[k] == s@);
                let e = write_turn_entry(k, s);
                assert(texts(yaws@.push(e)) =~= texts(yaws@).push(e@));
                yaws.push(e);
            },
            None => {},
        }
        let name = write_named_as(&w.names, k);
        names.push(write_name_entry(k, name.as_str()));
        i += 1;
    }
    assert(texts(tracks@) =~= walker_tracks(v, ks@));
    assert(texts(names@) =~= walker_names(v, ks@));
    ShownTexts {
        tracks: object_json(&tracks),
        names: object_json(&names),
        yaws: object_json(&yaws),
        primary: "1".to_string(),
    }
}

fn add_recorder(w: Walkers, points: &Vec<Point>, yaws: &Vec<Turn>, name: &str, Ghost(cam): Ghost<
    Seq<Eye>,
>) -> (r: Walkers)
    requires
        points@ == eye_points(cam),
        yaws@ == eye_yaws(cam),
    ensures
        r@ == with_recorder(w@, cam, name@),
{
    let mut w = w;
    let ghost v = w@;
    assert(v.tracks.dom() =~= w.tracks@.dom());
    assert(v.yaws.dom() =~= w.yaws@.dom());
    assert(v.names.dom() =~= w.names@.dom());
    if !w.tracks.contains_key(&1) {
        let ghost m = w.tracks@;
        w.tracks.insert(1, copied(points.as_slice()));
        assert(lists(w.tracks@) =~= lists(m).insert(1, points@));
    }
    if !w.yaws.contains_key(&1) {
        let ghost m = w.yaws@;
        w.yaws.insert(1, copied(yaws.as_slice()));
        assert(lists(w.yaws@) =~= lists(m).insert(1, yaws@));
    }
    if !w.names.contains_key(&1) {
        let ghost m = w.names@;
        w.names.insert(1, name.to_string());
        assert(name_texts(w.names@) =~= name_texts(m).insert(1, name@));
    }
    w
}

fn show_walkers(
    w: Walkers,
    points: &Vec<Point>,
    yaws: &Vec<Turn>,
    name: &str,
    Ghost(cam): Ghost<Seq<Eye>>,
) -> (r: ShownTexts)
    requires
        points@ == eye_points(cam),
        yaws@ == eye_yaws(cam),
    ensures
        r@ == shown_walkers(w@, cam, name@),
{
    let keys = sorted_keys(&w.tracks);
    let ghost v = w@;
    assert(v.tracks.dom() =~= w.tracks@.dom());
    assert(points@.len() == cam.len());
    if keys.len() > 0 {
        assert(keys@.contains(keys@[0]));
        assert(v.tracks.dom().contains(keys@[0]));
        let all = add_recorder(w, points, yaws, name, Ghost(cam));
        return write_walkers(&all);
    }
    assert forall|k: u32| !v.tracks.dom().contains(k) by {
        assert(!keys@.contains(k));
    }
    let few = keep_steady_points(points);
    if few.len() > 0 {
        let mut tracks: Vec<String> = Vec::new();
        tracks.push(write_track_entry(1, points));
        assert(texts(tracks@) =~= seq![track_entry(1, points@)]);
        let mut names: Vec<String> = Vec::new();
        names.push(write_name_entry(1, name));
        assert(texts(names@) =~= seq![name_entry(1, name@)]);
        let mut turns: Vec<String> = Vec::new();
        turns.push(write_turn_entry(1, yaws));
        assert(texts(turns@) =~= seq![turn_entry(1, yaws@)]);
        ShownTexts {
            tracks: object_json(&tracks),
            names: object_json(&names),
            yaws: object_json(&turns),
            primary: "1".to_string(),
        }
    } else {
        ShownTexts {
            tracks: "{}".to_string(),
            names: "{}".to_string(),
            yaws: "{}".to_string(),
            primary: "null".to_string(),
        }
    }
}

/// Writes the page of a GoldSrc demo. `rate` is the bits of its ticks in a second.
pub fn generate_goldsrc_html(
    template: &str,
    meta: &GoldSrcMeta,
    rate: u32,
    camera: &Vec<Eye>,
    players: Walkers,
    map: MapTexts,
    name: &str,
) -> (r: String)
    ensures
        r@ == filled(
            template@,
            page_slots(goldsrc_page(*meta, rate, camera@, players@, map, name@), true),
            22,
        ),
{
    let ghost world = map;
    let ghost w = players@;
    let (points, views, yaws) = split_eyes(camera);
    let few = keep_steady_points(&points);
    let few_views = keep_steady_turns(&views);
    let called = write_recorder_name(meta.game_dir.as_str());
    assert(points@.len() == camera@.len());
    assert(views@.len() == camera@.len());
    let shown = show_walkers(players, &points, &yaws, called.as_str(), Ghost(camera@));
    let texts = PageTexts {
        name: name.to_string(),
        meta: meta_to_json(
            meta.map_name.as_str(),
            called.as_str(),
            "",
            meta.game_dir.as_str(),
            meta.demo_protocol,
            meta.play.duration,
            few.len(),
            rate,
            0,
        ),
        cmds: "[]".to_string(),
        life_breaks: "[]".to_string(),
        teleport_breaks: "[]".to_string(),
        events: "[]".to_string(),
        positions: world_positions_to_json(&few),
        spawn: spawn_to_json(map.spawn),
        map_verts: map.verts,
        map_indices: map.indices,
        tracks: shown.tracks,
        names: shown.names,
        life_states: "{}".to_string(),
        observer_modes: "{}".to_string(),
        yaws: shown.yaws,
        weapons: "{}".to_string(),
        weapon_classes: "{}".to_string(),
        buttons: "{}".to_string(),
        primary: shown.primary,
        view_angles: turns_json(&few_views, 2, 0),
        view_switches: "[]".to_string(),
        ghosts: "[]".to_string(),
    };
    proof {
        reveal_strlit("");
        assert(""@ =~= Seq::empty());
        assert(texts@ =~= goldsrc_page(*meta, rate, camera@, w, world, name@));
        lemma_page_slots(texts@, true);
    }
    render(template, texts, true)
}

} // verus!
