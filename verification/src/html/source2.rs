//! The page of a demo of Source 2.
use crate::html::engines::{keep_steady_points, keep_steady_turns, steady_points, steady_turns};
use crate::html::source::MapTexts;
use crate::json::{array, array_json, entry, entry_json, escape_json_str, escaped, event_json,
    event_rows, event_text, item_rows, items_json, meta_text, meta_to_json, object, object_json,
    point_rows, points_json, spawn_row, spawn_to_json, turn_rows, turns_json};
use crate::multi_player::{Point, Turn};
use crate::page::{filled, lemma_page_slots, page_slots, render, PageOf, PageTexts};
use crate::source::events::{events_of, GameEvent};
use crate::text::{decimal, is_empty_text, push_decimal, push_signed, signed_decimal, str_eq, texts,
    trim, trimmed};
use vstd::prelude::*;

verus! {

/// What a player scored.
#[derive(Debug, Clone, Copy, PartialEq, Eq, Structural)]
pub struct Score {
    pub kills: i32,
    pub deaths: i32,
    pub assists: i32,
    pub money: i32,
    pub score: i32,
    pub team: i32,
}

/// A player: their entity, positions and, as far as they are known, their angles, name,
/// score and the states of their life.
#[derive(Debug)]
pub struct Pawn {
    pub eid: i32,
    pub track: Vec<Point>,
    pub yaws: Option<Vec<Turn>>,
    pub name: Option<String>,
    pub score: Option<Score>,
    pub life: Option<Vec<(i32, i32)>>,
}

/// What a `Pawn` says.
#[verifier::ext_equal]
pub struct PawnOf {
    pub eid: i32,
    pub track: Seq<Point>,
    pub yaws: Option<Seq<Turn>>,
    pub name: Option<Seq<char>>,
    pub score: Option<Score>,
    pub life: Option<Seq<(i32, i32)>>,
}

impl Pawn {
    pub open spec fn view(&self) -> PawnOf {
        PawnOf {
            eid: self.eid,
            track: self.track@,
            yaws: match self.yaws {
                Some(v) => Some(v@),
                None => None,
            },
            name: match self.name {
                Some(s) => Some(s@),
                None => None,
            },
            score: self.score,
            life: match self.life {
                Some(v) => Some(v@),
                None => None,
            },
        }
    }
}

pub open spec fn pawns_of(v: Seq<Pawn>) -> Seq<PawnOf> {
    v.map_values(|p: Pawn| p@)
}

/// What is read from a demo of Source 2: what it says of itself, the players, the events, how many rounds were played at ticks, the weapons that players
/// held and what they are called, and the buttons that players pressed.
pub struct Source2Demo {
    /// The map by the header, which may be blank.
    pub header_map: String,
    /// The map by the server's first message, which may be blank.
    pub server_map: String,
    pub client_name: String,
    pub server_name: String,
    pub game_directory: String,
    pub network_protocol: i32,
    /// The bits of the length in seconds.
    pub playback_time: u32,
    pub playback_frames: i32,
    pub pawns: Vec<Pawn>,
    pub events: Vec<GameEvent>,
    pub rounds: Vec<(i32, i32)>,
    pub weapons: Vec<(i32, Vec<(i32, i32)>)>,
    pub weapon_names: Vec<(i32, String)>,
    pub buttons: Vec<(i32, Vec<(i32, u64)>)>,
}

/// A player behind those whose entities are no higher.
pub open spec fn put_in(ps: Seq<PawnOf>, p: PawnOf) -> Seq<PawnOf>
    decreases ps.len(),
{
    if ps.len() == 0 || ps.last().eid <= p.eid {
        ps.push(p)
    } else {
        put_in(ps.drop_last(), p).push(ps.last())
    }
}

/// The first `n` players in the order of their entities.
pub open spec fn by_entity(ps: Seq<PawnOf>, n: int) -> Seq<PawnOf>
    decreases n,
{
    if n <= 0 {
        Seq::empty()
    } else {
        put_in(by_entity(ps, n - 1), ps[n - 1])
    }
}

/// All players in the order of their entities.
pub open spec fn in_turn(ps: Seq<PawnOf>) -> Seq<PawnOf> {
    by_entity(ps, ps.len() as int)
}

pub open spec fn rising_entities(ps: Seq<PawnOf>) -> bool {
    forall|i: int, j: int| 0 <= i <= j < ps.len() ==> (#[trigger] ps[i]).eid <= (
    #[trigger] ps[j]).eid
}

proof fn lemma_put_in(ps: Seq<PawnOf>, p: PawnOf)
    requires
        rising_entities(ps),
    ensures
        rising_entities(put_in(ps, p)),
        put_in(ps, p).to_multiset() == ps.to_multiset().insert(p),
        put_in(ps, p).len() == ps.len() + 1,
        ps.len() > 0 ==> put_in(ps, p).last().eid == if ps.last().eid <= p.eid {
            p.eid
        } else {
            ps.last().eid
        },
    decreases ps.len(),
{
    broadcast use vstd::seq_lib::group_to_multiset_ensures;

    if ps.len() == 0 || ps.last().eid <= p.eid {
        assert(ps.push(p).to_multiset() =~= ps.to_multiset().insert(p));
    } else {
        let a = ps.drop_last();
        let z = ps.last();
        lemma_put_in(a, p);
        assert(ps =~= a.push(z));
        let b = put_in(a, p);
        assert(b.push(z).to_multiset() =~= b.to_multiset().insert(z));
        assert(a.push(z).to_multiset() =~= a.to_multiset().insert(z));
        assert(put_in(ps, p).to_multiset() =~= ps.to_multiset().insert(p));
        assert forall|i: int, j: int| 0 <= i <= j < b.push(z).len() implies (
        #[trigger] b.push(z)[i]).eid <= (#[trigger] b.push(z)[j]).eid by {
            if j == b.len() && i < j {
                assert(b[i].eid <= b.last().eid);
                if a.len() > 0 {
                    assert(a.last().eid <= z.eid);
                } else {
                    assert(b =~= seq![p]);
                }
            }
        }
    }
}

/// Players are shown in the order of their entities, and none is lost or added.
pub proof fn law_in_turn(ps: Seq<PawnOf>, n: int)
    requires
        0 <= n <= ps.len(),
    ensures
        rising_entities(by_entity(ps, n)),
        by_entity(ps, n).to_multiset() == ps.take(n).to_multiset(),
    decreases n,
{
    broadcast use vstd::seq_lib::group_to_multiset_ensures;

    if n > 0 {
        law_in_turn(ps, n - 1);
        lemma_put_in(by_entity(ps, n - 1), ps[n - 1]);
        assert(ps.take(n) =~= ps.take(n - 1).push(ps[n - 1]));
        assert(ps.take(n - 1).push(ps[n - 1]).to_multiset() =~= ps.take(
            n - 1,
        ).to_multiset().insert(ps[n - 1]));
    } else {
        assert(ps.take(0) =~= Seq::empty());
    }
}

pub open spec fn refs_of(v: Seq<&Pawn>) -> Seq<PawnOf> {
    v.map_values(|p: &Pawn| p@)
}

fn put_pawn<'a>(v: &mut Vec<&'a Pawn>, p: &'a Pawn)
    ensures
        refs_of(final(v)@) == put_in(refs_of(old(v)@), p@),
{
    let ghost ps = refs_of(v@);
    let mut later: Vec<&'a Pawn> = Vec::new();
    assert(put_in(ps, p@) + refs_of(later@.reverse()) =~= put_in(ps, p@));
    let ghost all = put_in(ps, p@);
    while v.len() > 0 && v[v.len() - 1].eid > p.eid
        invariant
            all == put_in(refs_of(v@), p@) + refs_of(later@.reverse()),
        decreases v@.len(),
    {
        let ghost before = v@;
        let ghost l0 = later@;
        match v.pop() {
            Some(x) => {
                later.push(x);
                proof {
                    assert(refs_of(before).drop_last() =~= refs_of(v@));
                    assert(refs_of(before).last() == x@);
                    assert(later@.reverse() =~= seq![x] + l0.reverse());
                    assert(refs_of(later@.reverse()) =~= seq![x@] + refs_of(l0.reverse()));
                    assert(put_in(refs_of(v@), p@).push(x@) + refs_of(l0.reverse()) =~= put_in(
                        refs_of(v@),
                        p@,
                    ) + refs_of(later@.reverse()));
                }
            },
            None => {},
        }
    }
    proof {
        if v@.len() > 0 {
            assert(refs_of(v@).last() == v@[v@.len() - 1]@);
        }
    }
    let ghost v0 = v@;
    v.push(p);
    assert(refs_of(v@) =~= refs_of(v0).push(p@));
    while later.len() > 0
        invariant
            all == refs_of(v@) + refs_of(later@.reverse()),
        decreases later@.len(),
    {
        let ghost l0 = later@;
        let ghost v1 = v@;
        match later.pop() {
            Some(x) => {
                v.push(x);
                proof {
                    assert(l0 =~= later@.push(x));
                    assert(l0.reverse() =~= seq![x] + later@.reverse());
                    assert(refs_of(v1) + refs_of(l0.reverse()) =~= refs_of(v@) + refs_of(
                        later@.reverse(),
                    ));
                }
            },
            None => {},
        }
    }
    assert(refs_of(v@) =~= all);
}

fn sort_pawns<'a>(pawns: &'a Vec<Pawn>) -> (r: Vec<&'a Pawn>)
    ensures
        refs_of(r@) == in_turn(pawns_of(pawns@)),
{
    let ghost ps = pawns_of(pawns@);
    let mut out: Vec<&'a Pawn> = Vec::new();
    assert(refs_of(out@) =~= Seq::empty());
    let mut i: usize = 0;
    while i < pawns.len()
        invariant
            i <= pawns@.len(),
            ps == pawns_of(pawns@),
            refs_of(out@) == by_entity(ps, i as int),
        decreases pawns@.len() - i,
    {
        assert(ps[i as int] == pawns@[i as int]@);
        put_pawn(&mut out, &pawns[i]);
        i += 1;
    }
    out
}

pub open spec fn track_row(p: PawnOf) -> Seq<char> {
    entry(
        p.eid as int,
        array(point_rows(steady_points(p.track, p.track.len() as int), 0)),
    )
}

pub open spec fn track_rows(ps: Seq<PawnOf>) -> Seq<Seq<char>> {
    ps.map_values(|p: PawnOf| track_row(p))
}

/// The angles of those of the first `n` players that have any.
pub open spec fn yaw_rows(ps: Seq<PawnOf>, n: int) -> Seq<Seq<char>>
    decreases n,
{
    if n <= 0 {
        Seq::empty()
    } else {
        match ps[n - 1].yaws {
            Some(v) => yaw_rows(ps, n - 1).push(
                entry(
                    ps[n - 1].eid as int,
                    array(turn_rows(steady_turns(v, v.len() as int), 1, 0)),
                ),
            ),
            None => yaw_rows(ps, n - 1),
        }
    }
}

/// The states of the lives of those of the first `n` players that have any.
pub open spec fn life_rows(ps: Seq<PawnOf>, n: int) -> Seq<Seq<char>>
    decreases n,
{
    if n <= 0 {
        Seq::empty()
    } else {
        match ps[n - 1].life {
            Some(v) => life_rows(ps, n - 1).push(entry(ps[n - 1].eid as int, array(item_rows(v)))),
            None => life_rows(ps, n - 1),
        }
    }
}

pub open spec fn pawn_name(p: PawnOf) -> Seq<char> {
    match p.name {
        Some(s) => s,
        None => "player "@ + signed_decimal(p.eid as int),
    }
}

pub open spec fn score_of(p: PawnOf) -> Score {
    match p.score {
        Some(s) => s,
        None => Score { kills: 0, deaths: 0, assists: 0, money: 0, score: 0, team: 0 },
    }
}

pub open spec fn pawn_text(p: PawnOf) -> Seq<char> {
    let s = score_of(p);
    "{\"name\":\""@ + escaped(pawn_name(p)) + "\",\"steam_id\":\"\",\"user_id\":"@ + signed_decimal(
        p.eid as int,
    ) + ",\"is_fake\":false,\"is_hltv\":false,\"aliases\":[\""@ + escaped(pawn_name(p))
        + "\"],\"kills\":"@ + signed_decimal(s.kills as int) + ",\"deaths\":"@ + signed_decimal(
        s.deaths as int,
    ) + ",\"assists\":"@ + signed_decimal(s.assists as int) + ",\"money\":"@ + signed_decimal(
        s.money as int,
    ) + ",\"score\":"@ + signed_decimal(s.score as int) + ",\"team\":"@ + signed_decimal(
        s.team as int,
    ) + seq!['}']
}

pub open spec fn pawn_rows(ps: Seq<PawnOf>) -> Seq<Seq<char>> {
    ps.map_values(|p: PawnOf| entry(p.eid as int, pawn_text(p)))
}

pub open spec fn round_text(r: (i32, i32)) -> Seq<char> {
    "{\"event\":\"round_end\",\"tick\":"@ + signed_decimal(r.0 as int) + ",\"round\":"@
        + signed_decimal(r.1 as int) + seq!['}']
}

/// The ends of the rounds among the first `n` counts: every count but zero.
pub open spec fn round_rows(rs: Seq<(i32, i32)>, n: int) -> Seq<Seq<char>>
    decreases n,
{
    if n <= 0 {
        Seq::empty()
    } else if rs[n - 1].1 > 0 {
        round_rows(rs, n - 1).push(round_text(rs[n - 1]))
    } else {
        round_rows(rs, n - 1)
    }
}

/// The weapons of those of the first `n` players that held any.
pub open spec fn weapon_rows(ws: Seq<(i32, Vec<(i32, i32)>)>, n: int) -> Seq<Seq<char>>
    decreases n,
{
    if n <= 0 {
        Seq::empty()
    } else if ws[n - 1].1@.len() > 0 {
        weapon_rows(ws, n - 1).push(entry(ws[n - 1].0 as int, array(item_rows(ws[n - 1].1@))))
    } else {
        weapon_rows(ws, n - 1)
    }
}

/// The names of those of the first `n` weapons that have one.
pub open spec fn class_rows(ws: Seq<(i32, String)>, n: int) -> Seq<Seq<char>>
    decreases n,
{
    if n <= 0 {
        Seq::empty()
    } else if ws[n - 1].1@.len() > 0 {
        class_rows(ws, n - 1).push(
            entry(ws[n - 1].0 as int, seq!['"'] + escaped(ws[n - 1].1@) + seq!['"']),
        )
    } else {
        class_rows(ws, n - 1)
    }
}

pub open spec fn press_row(p: (i32, u64)) -> Seq<char> {
    seq!['['] + signed_decimal(p.0 as int) + seq![','] + decimal(p.1 as nat) + seq![']']
}

pub open spec fn press_rows(v: Seq<(i32, u64)>) -> Seq<Seq<char>> {
    v.map_values(|p: (i32, u64)| press_row(p))
}

/// The buttons of those of the first `n` players that pressed any.
pub open spec fn button_rows(bs: Seq<(i32, Vec<(i32, u64)>)>, n: int) -> Seq<Seq<char>>
    decreases n,
{
    if n <= 0 {
        Seq::empty()
    } else if bs[n - 1].1@.len() > 0 {
        button_rows(bs, n - 1).push(entry(bs[n - 1].0 as int, array(press_rows(bs[n - 1].1@))))
    } else {
        button_rows(bs, n - 1)
    }
}

/// The first player from the `i`-th on of a name.
pub open spec fn bearer(ps: Seq<PawnOf>, name: Seq<char>, i: int) -> Option<i32>
    decreases ps.len() - i,
{
    if i < 0 || i >= ps.len() {
        None
    } else if ps[i].name == Some(name) {
        Some(ps[i].eid)
    } else {
        bearer(ps, name, i + 1)
    }
}

/// Who is followed at first: the one who recorded the demo or, where no player has that
/// name, the first.
pub open spec fn followed(ps: Seq<PawnOf>, client: Seq<char>) -> Option<i32> {
    match bearer(ps, trimmed(client), 0) {
        Some(k) => Some(k),
        None => if ps.len() > 0 {
            Some(ps[0].eid)
        } else {
            None
        },
    }
}

/// The map of a demo: what the server says, or else the header.
pub open spec fn map_of(demo: Source2Demo) -> Seq<char> {
    if demo.server_map@.len() > 0 {
        demo.server_map@
    } else {
        demo.header_map@
    }
}

/// An object, or an empty one where nobody was tracked.
pub open spec fn if_seen(ps: Seq<PawnOf>, rows: Seq<Seq<char>>) -> Seq<char> {
    if ps.len() > 0 {
        object(rows)
    } else {
        "{}"@
    }
}

pub open spec fn source2_page(demo: Source2Demo, rate: u32, map: MapTexts, name: Seq<char>) -> PageOf {
    let ps = in_turn(pawns_of(demo.pawns@));
    PageOf {
        name,
        meta: meta_text(
            map_of(demo),
            demo.client_name@,
            demo.server_name@,
            demo.game_directory@,
            demo.network_protocol as int,
            demo.playback_time,
            if demo.playback_frames > 0 {
                demo.playback_frames as nat
            } else {
                0
            },
            rate,
            0,
        ),
        cmds: "[]"@,
        life_breaks: "[]"@,
        teleport_breaks: "[]"@,
        events: array(
            event_rows(events_of(demo.events@)) + round_rows(
                demo.rounds@,
                demo.rounds@.len() as int,
            ),
        ),
        positions: "[]"@,
        map_verts: map.verts@,
        map_indices: map.indices@,
        spawn: spawn_row((0, 0, 0)),
        tracks: if_seen(ps, track_rows(ps)),
        names: if_seen(ps, pawn_rows(ps)),
        life_states: if_seen(ps, life_rows(ps, ps.len() as int)),
        observer_modes: "{}"@,
        yaws: if_seen(ps, yaw_rows(ps, ps.len() as int)),
        weapons: if_seen(ps, weapon_rows(demo.weapons@, demo.weapons@.len() as int)),
        weapon_classes: if_seen(
            ps,
            class_rows(demo.weapon_names@, demo.weapon_names@.len() as int),
        ),
        buttons: if_seen(ps, button_rows(demo.buttons@, demo.buttons@.len() as int)),
        primary: match followed(ps, demo.client_name@) {
            Some(k) => signed_decimal(k as int),
            None => "null"@,
        },
        view_angles: "[]"@,
        view_switches: "[]"@,
        ghosts: "[]"@,
    }
}

fn push_pawn_name(p: &Pawn, out: &mut String)
    ensures
        final(out)@ == old(out)@ + escaped(pawn_name(p@)),
{
    let name = match &p.name {
        Some(s) => s.clone(),
        None => {
            let mut s = String::new();
            s.push_str("player ");
            push_signed(&mut s, p.eid as i64);
            assert(s@ =~= "player "@ + signed_decimal(p.eid as int));
            s
        },
    };
    assert(name@ == pawn_name(p@));
    out.push_str(escape_json_str(name.as_str()).as_str());
}

fn pawn_json(p: &Pawn) -> (r: String)
    ensures
        r@ == pawn_text(p@),
{
    let s: Score = match p.score {
        Some(s) => s,
        None => Score { kills: 0, deaths: 0, assists: 0, money: 0, score: 0, team: 0 },
    };
    let mut out = String::new();
    out.push_str("{\"name\":\"");
    push_pawn_name(p, &mut out);
    out.push_str("\",\"steam_id\":\"\",\"user_id\":");
    push_signed(&mut out, p.eid as i64);
    out.push_str(",\"is_fake\":false,\"is_hltv\":false,\"aliases\":[\"");
    push_pawn_name(p, &mut out);
    out.push_str("\"],\"kills\":");
    push_signed(&mut out, s.kills as i64);
    out.push_str(",\"deaths\":");
    push_signed(&mut out, s.deaths as i64);
    out.push_str(",\"assists\":");
    push_signed(&mut out, s.assists as i64);
    out.push_str(",\"money\":");
    push_signed(&mut out, s.money as i64);
    out.push_str(",\"score\":");
    push_signed(&mut out, s.score as i64);
    out.push_str(",\"team\":");
    push_signed(&mut out, s.team as i64);
    out.push('}');
    assert(out@ =~= pawn_text(p@));
    out
}

struct PawnTexts {
    tracks: String,
    names: String,
    life_states: String,
    yaws: String,
}

fn write_pawns(pawns: &Vec<&Pawn>) -> (r: PawnTexts)
    ensures
        r.tracks@ == object(track_rows(refs_of(pawns@))),
        r.names@ == object(pawn_rows(refs_of(pawns@))),
        r.life_states@ == object(life_rows(refs_of(pawns@), pawns@.len() as int)),
        r.yaws@ == object(yaw_rows(refs_of(pawns@), pawns@.len() as int)),
{
    let ghost ps = refs_of(pawns@);
    let mut tracks: Vec<String> = Vec::new();
    let mut names: Vec<String> = Vec::new();
    let mut lives: Vec<String> = Vec::new();
    let mut yaws: Vec<String> = Vec::new();
    assert(texts(lives@) =~= life_rows(ps, 0));
    assert(texts(yaws@) =~= yaw_rows(ps, 0));
    let mut i: usize = 0;
    while i < pawns.len()
        invariant
            i <= pawns@.len(),
            ps == refs_of(pawns@),
            tracks@.len() == i,
            names@.len() == i,
            forall|k: int| 0 <= k < i ==> (#[trigger] tracks@[k])@ == track_row(ps[k]),
            forall|k: int|
                0 <= k < i ==> (#[trigger] names@[k])@ == entry(
                    ps[k].eid as int,
                    pawn_text(ps[k]),
                ),
            texts(lives@) == life_rows(ps, i as int),
            texts(yaws@) == yaw_rows(ps, i as int),
        decreases pawns@.len() - i,
    {
        let p = pawns[i];
        assert(ps[i as int] == p@);
        let id: i64 = p.eid as i64;
        let few = keep_steady_points(&p.track);
        tracks.push(entry_json(id, points_json(&few, 0).as_str()));
        names.push(entry_json(id, pawn_json(p).as_str()));
        match &p.yaws {
            Some(v) => {
                let few = keep_steady_turns(v);
                let e = entry_json(id, turns_json(&few, 1, 0).as_str());
                assert(texts(yaws@.push(e)) =~= texts(yaws@).push(e@));
                yaws.push(e);
            },
            None => {},
        }
        match &p.life {
            Some(v) => {
                let e = entry_json(id, items_json(v).as_str());
                assert(texts(lives@.push(e)) =~= texts(lives@).push(e@));
                lives.push(e);
            },
            None => {},
        }
        i += 1;
    }
    assert(texts(tracks@) =~= track_rows(ps));
    assert(texts(names@) =~= pawn_rows(ps));
    PawnTexts {
        tracks: object_json(&tracks),
        names: object_json(&names),
        life_states: object_json(&lives),
        yaws: object_json(&yaws),
    }
}

fn round_json(r: (i32, i32)) -> (s: String)
    ensures
        s@ == round_text(r),
{
    let mut out = String::new();
    out.push_str("{\"event\":\"round_end\",\"tick\":");
    push_signed(&mut out, r.0 as i64);
    out.push_str(",\"round\":");
    push_signed(&mut out, r.1 as i64);
    out.push('}');
    assert(out@ =~= round_text(r));
    out
}

fn write_events(events: &Vec<GameEvent>, rounds: &Vec<(i32, i32)>) -> (r: String)
    ensures
        r@ == array(
            event_rows(events_of(events@)) + round_rows(rounds@, rounds@.len() as int),
        ),
{
    let ghost head = event_rows(events_of(events@));
    let mut items: Vec<String> = Vec::new();
    let mut i: usize = 0;
    while i < events.len()
        invariant
            i <= events@.len(),
            items@.len() == i,
            forall|k: int| 0 <= k < i ==> (#[trigger] items@[k])@ == event_text(events@[k]@),
        decreases events@.len() - i,
    {
        items.push(event_json(&events[i]));
        i += 1;
    }
    assert(texts(items@) =~= head);
    assert(head + round_rows(rounds@, 0) =~= head);
    let mut i: usize = 0;
    while i < rounds.len()
        invariant
            i <= rounds@.len(),
            texts(items@) == head + round_rows(rounds@, i as int),
        decreases rounds@.len() - i,
    {
        if rounds[i].1 > 0 {
            let e = round_json(rounds[i]);
            let ghost before = texts(items@);
            items.push(e);
            assert(texts(items@) =~= before.push(e@));
            assert(before.push(e@) =~= head + round_rows(rounds@, i + 1));
        }
        i += 1;
    }
    array_json(&items)
}

fn write_weapons(ws: &Vec<(i32, Vec<(i32, i32)>)>) -> (r: String)
    ensures
        r@ == object(weapon_rows(ws@, ws@.len() as int)),
{
    let mut rows: Vec<String> = Vec::new();
    assert(texts(rows@) =~= weapon_rows(ws@, 0));
    let mut i: usize = 0;
    while i < ws.len()
        invariant
            i <= ws@.len(),
            texts(rows@) == weapon_rows(ws@, i as int),
        decreases ws@.len() - i,
    {
        if ws[i].1.len() > 0 {
            let e = entry_json(ws[i].0 as i64, items_json(&ws[i].1).as_str());
            assert(texts(rows@.push(e)) =~= texts(rows@).push(e@));
            rows.push(e);
        }
        i += 1;
    }
    object_json(&rows)
}

fn write_classes(ws: &Vec<(i32, String)>) -> (r: String)
    ensures
        r@ == object(class_rows(ws@, ws@.len() as int)),
{
    let mut rows: Vec<String> = Vec::new();
    assert(texts(rows@) =~= class_rows(ws@, 0));
    let mut i: usize = 0;
    while i < ws.len()
        invariant
            i <= ws@.len(),
            texts(rows@) == class_rows(ws@, i as int),
        decreases ws@.len() - i,
    {
        if !is_empty_text(ws[i].1.as_str()) {
            let mut name = String::new();
            name.push('"');
            name.push_str(escape_json_str(ws[i].1.as_str()).as_str());
            name.push('"');
            assert(name@ =~= seq!['"'] + escaped(ws@[i as int].1@) + seq!['"']);
            let e = entry_json(ws[i].0 as i64, name.as_str());
            assert(texts(rows@.push(e)) =~= texts(rows@).push(e@));
            rows.push(e);
        }
        i += 1;
    }
    object_json(&rows)
}

fn presses_json(v: &Vec<(i32, u64)>) -> (r: String)
    ensures
        r@ == array(press_rows(v@)),
{
    let mut items: Vec<String> = Vec::new();
    let mut i: usize = 0;
    while i < v.len()
        invariant
            i <= v@.len(),
            items@.len() == i,
            forall|k: int| 0 <= k < i ==> (#[trigger] items@[k])@ == press_row(v@[k]),
        decreases v@.len() - i,
    {
        let mut s = String::new();
        s.push('[');
        push_signed(&mut s, v[i].0 as i64);
        s.push(',');
        push_decimal(&mut s, v[i].1);
        s.push(']');
        assert(s@ =~= press_row(v@[i as int]));
        items.push(s);
        i += 1;
    }
    assert(texts(items@) =~= press_rows(v@));
    array_json(&items)
}

fn write_buttons(bs: &Vec<(i32, Vec<(i32, u64)>)>) -> (r: String)
    ensures
        r@ == object(button_rows(bs@, bs@.len() as int)),
{
    let mut rows: Vec<String> = Vec::new();
    assert(texts(rows@) =~= button_rows(bs@, 0));
    let mut i: usize = 0;
    while i < bs.len()
        invariant
            i <= bs@.len(),
            texts(rows@) == button_rows(bs@, i as int),
        decreases bs@.len() - i,
    {
        if bs[i].1.len() > 0 {
            let e = entry_json(bs[i].0 as i64, presses_json(&bs[i].1).as_str());
            assert(texts(rows@.push(e)) =~= texts(rows@).push(e@));
            rows.push(e);
        }
        i += 1;
    }
    object_json(&rows)
}

/// Whom the page follows at first.
fn find_followed(pawns: &Vec<&Pawn>, client: &str) -> (r: Option<i32>)
    ensures
        r == followed(refs_of(pawns@), client@),
{
    let name = trim(client);
    let ghost ps = refs_of(pawns@);
    let mut i: usize = 0;
    while i < pawns.len()
        invariant
            i <= pawns@.len(),
            ps == refs_of(pawns@),
            name@ == trimmed(client@),
            bearer(ps, name@, 0) == bearer(ps, name@, i as int),
        decreases pawns@.len() - i,
    {
        assert(ps[i as int] == pawns@[i as int]@);
        match &pawns[i].name {
            Some(s) => {
                if str_eq(s.as_str(), name.as_str()) {
                    return Some(pawns[i].eid);
                }
            },
            None => {},
        }
        i += 1;
    }
    if pawns.len() > 0 {
        assert(ps[0] == pawns@[0]@);
        Some(pawns[0].eid)
    } else {
        None
    }
}

fn when_seen(seen: bool, text: String) -> (r: String)
    ensures
        r@ == if seen {
            text@
        } else {
            "{}"@
        },
{
    if seen {
        text
    } else {
        "{}".to_string()
    }
}

/// Writes the page of a demo of Source 2. `rate` is the bits of its ticks in a second.
pub fn generate_source2_html(
    template: &str,
    demo: &Source2Demo,
    rate: u32,
    map: MapTexts,
    name: &str,
) -> (r: String)
    ensures
        r@ == filled(template@, page_slots(source2_page(*demo, rate, map, name@), true), 22),
{
    let ghost world = map;
    let pawns = sort_pawns(&demo.pawns);
    let ghost ps = in_turn(pawns_of(demo.pawns@));
    assert(ps.len() == pawns@.len());
    let seen = pawns.len() > 0;
    let rows = write_pawns(&pawns);
    let map_name = if is_empty_text(demo.server_map.as_str()) {
        demo.header_map.as_str()
    } else {
        demo.server_map.as_str()
    };
    let frames: usize = if demo.playback_frames > 0 {
        demo.playback_frames as usize
    } else {
        0
    };
    let primary = match find_followed(&pawns, demo.client_name.as_str()) {
        Some(k) => {
            let mut s = String::new();
            push_signed(&mut s, k as i64);
            assert(s@ =~= signed_decimal(k as int));
            s
        },
        None => "null".to_string(),
    };
    let texts = PageTexts {
        name: name.to_string(),
        meta: meta_to_json(
            map_name,
            demo.client_name.as_str(),
            demo.server_name.as_str(),
            demo.game_directory.as_str(),
            demo.network_protocol,
            demo.playback_time,
            frames,
            rate,
            0,
        ),
        cmds: "[]".to_string(),
        life_breaks: "[]".to_string(),
        teleport_breaks: "[]".to_string(),
        events: write_events(&demo.events, &demo.rounds),
        positions: "[]".to_string(),
        spawn: spawn_to_json((0, 0, 0)),
        map_verts: map.verts,
        map_indices: map.indices,
        tracks: when_seen(seen, rows.tracks),
        names: when_seen(seen, rows.names),
        life_states: when_seen(seen, rows.life_states),
        observer_modes: "{}".to_string(),
        yaws: when_seen(seen, rows.yaws),
        weapons: when_seen(seen, write_weapons(&demo.weapons)),
        weapon_classes: when_seen(seen, write_classes(&demo.weapon_names)),
        buttons: when_seen(seen, write_buttons(&demo.buttons)),
        primary,
        view_angles: "[]".to_string(),
        view_switches: "[]".to_string(),
        ghosts: "[]".to_string(),
    };
    assert(texts@ =~= source2_page(*demo, rate, world, name@));
    proof {
        lemma_page_slots(texts@, true);
    }
    render(template, texts, true)
}

} // verus!
