//! What each player has and has done, as the entities of a demo say it.
use crate::source::datatable::{ClassView, DataTables, ServerClass, TablesView};
use crate::source::packetentities::{Entity, EntityState, EntityWorld};
use crate::source::sendprop::{int_of, PropView, SendPropDef};
use crate::text::{parse_u32, str_eq, whole_number};
use std::collections::HashMap;
use vstd::prelude::*;
use vstd::std_specs::iter::IteratorSpec;

verus! {

broadcast use vstd::std_specs::hash::group_hash_axioms;

/// What a player has and has done, as it was said last.
#[derive(Debug, Clone, Copy, PartialEq, Eq, Structural)]
pub struct PlayerEcon {
    pub money: i32,
    pub kills: i32,
    pub deaths: i32,
    pub assists: i32,
    pub score: i32,
    pub mvps: i32,
    pub team: i32,
}

pub open spec fn no_econ() -> PlayerEcon {
    PlayerEcon { money: 0, kills: 0, deaths: 0, assists: 0, score: 0, mvps: 0, team: 0 }
}

impl Default for PlayerEcon {
    fn default() -> (e: Self)
        ensures
            e == no_econ(),
    {
        PlayerEcon { money: 0, kills: 0, deaths: 0, assists: 0, score: 0, mvps: 0, team: 0 }
    }
}

pub type Board = Map<u32, PlayerEcon>;

pub open spec fn econ_of(b: Board, k: u32) -> PlayerEcon {
    if b.contains_key(k) {
        b[k]
    } else {
        no_econ()
    }
}

pub(crate) fn get_econ(m: &HashMap<u32, PlayerEcon>, k: u32) -> (e: PlayerEcon)
    ensures
        e == econ_of(m@, k),
{
    match m.get(&k) {
        Some(e) => *e,
        None => PlayerEcon::default(),
    }
}

/// The first class of a number.
pub open spec fn class_from(cs: Seq<ClassView>, id: u16, i: int) -> Option<ClassView>
    decreases cs.len() - i,
{
    if i < 0 || i >= cs.len() {
        None
    } else if cs[i].id == id {
        Some(cs[i])
    } else {
        class_from(cs, id, i + 1)
    }
}

pub open spec fn class_of(t: TablesView, id: u16) -> Option<ClassView> {
    class_from(t.classes, id, 0)
}

pub(crate) fn find_class<'a>(data: &'a DataTables, id: u16) -> (r: Option<&'a ServerClass>)
    ensures
        match (r, class_of(data@, id)) {
            (Some(c), Some(v)) => c@ == v,
            (None, None) => true,
            _ => false,
        },
{
    let ghost cs = data@.classes;
    let mut i: usize = 0;
    while i < data.server_classes.len()
        invariant
            i <= data.server_classes@.len(),
            cs == data@.classes,
            class_of(data@, id) == class_from(cs, id, i as int),
        decreases data.server_classes@.len() - i,
    {
        assert(cs[i as int] == data.server_classes@[i as int]@);
        if data.server_classes[i].id == id {
            return Some(&data.server_classes[i]);
        }
        i += 1;
    }
    None
}

/// Whether a number is that of the class that keeps the score.
pub open spec fn keeps_score(t: TablesView, id: u16) -> bool {
    exists|i: int|
        0 <= i < t.classes.len() && (#[trigger] t.classes[i]).id == id && t.classes[i].name
            == "CCSPlayerResource"@
}

fn is_scorer(data: &DataTables, id: u16) -> (r: bool)
    ensures
        r == keeps_score(data@, id),
{
    let ghost cs = data@.classes;
    let mut i: usize = 0;
    while i < data.server_classes.len()
        invariant
            i <= data.server_classes@.len(),
            cs == data@.classes,
            forall|k: int|
                0 <= k < i ==> !((#[trigger] cs[k]).id == id && cs[k].name
                    == "CCSPlayerResource"@),
        decreases data.server_classes@.len() - i,
    {
        assert(cs[i as int] == data.server_classes@[i as int]@);
        if data.server_classes[i].id == id && str_eq(
            data.server_classes[i].name.as_str(),
            "CCSPlayerResource",
        ) {
            assert(data@.classes[i as int].id == id);
            return true;
        }
        i += 1;
    }
    false
}

/// Whether an entity keeps the score, and none of a lower number does.
pub open spec fn is_board(ents: Map<u16, Entity>, t: TablesView, k: u16) -> bool {
    &&& ents.contains_key(k) && keeps_score(t, ents[k].class_id)
    &&& forall|x: u16|
        #[trigger] ents.contains_key(x) && keeps_score(t, ents[x].class_id) ==> k <= x
}

/// The entity that keeps the score: the one of the lowest number that does.
pub open spec fn board_of(ents: Map<u16, Entity>, t: TablesView) -> Option<u16> {
    if exists|k: u16| is_board(ents, t, k) {
        Some(choose|k: u16| is_board(ents, t, k))
    } else {
        None
    }
}

spec fn scorer_among(
    all: Seq<&u16>,
    n: int,
    ents: Map<u16, Entity>,
    t: TablesView,
    low: Option<u16>,
) -> bool {
    match low {
        Some(k) => ents.contains_key(k) && keeps_score(t, ents[k].class_id) && forall|j: int|
            0 <= j < n && keeps_score(t, ents[*(#[trigger] all[j])].class_id) ==> k <= *all[j],
        None => forall|j: int|
            0 <= j < n ==> !keeps_score(t, ents[*(#[trigger] all[j])].class_id),
    }
}

fn find_board(world: &EntityWorld, data: &DataTables) -> (r: Option<u16>)
    ensures
        r == board_of(world@, data@),
        r matches Some(k) ==> world@.contains_key(k),
{
    let mut low: Option<u16> = None;
    let m = &world.entities;
    let ghost ents = world@;
    let ghost t = data@;
    let ghost all = vstd::std_specs::hash::spec_keys_iter(m).remaining();
    let ghost keys = all.unref();
    assert(keys.to_set() == m@.dom());
    for k in it: m.keys()
        invariant
            it.seq() == all,
            keys == all.unref(),
            keys.to_set() == m@.dom(),
            m == &world.entities,
            ents == world@,
            t == data@,
            scorer_among(all, it.index() as int, ents, t, low),
    {
        let ghost n = it.index() as int;
        assert(*all[n] == *k);
        assert(keys[n] == *k);
        assert(m@.dom().contains(*k));
        match m.get(k) {
            Some(e) => {
                assert(ents[*k] == e@);
                if is_scorer(data, e.class_id) {
                    match low {
                        Some(l) => {
                            if *k < l {
                                low = Some(*k);
                            }
                        },
                        None => {
                            low = Some(*k);
                        },
                    }
                }
            },
            None => {},
        }
    }
    proof {
        assert forall|x: u16| ents.contains_key(x) implies exists|j: int|
            0 <= j < all.len() && *(#[trigger] all[j]) == x by {
            assert(m@.dom().contains(x));
            assert(keys.to_set().contains(x));
            assert(keys.contains(x));
            let j = choose|j: int| 0 <= j < keys.len() && keys[j] == x;
            assert(*all[j] == x);
        }
        match low {
            Some(l) => {
                assert forall|x: u16| #[trigger]
                    ents.contains_key(x) && keeps_score(t, ents[x].class_id) implies l <= x by {
                    let j = choose|j: int| 0 <= j < all.len() && *(#[trigger] all[j]) == x;
                    assert(*all[j] == x);
                }
                assert(is_board(ents, t, l));
                let k = choose|k: u16| is_board(ents, t, k);
                assert(is_board(ents, t, k));
                assert(k <= l && l <= k);
            },
            None => {
                assert forall|k: u16| !is_board(ents, t, k) by {
                    if ents.contains_key(k) {
                        let j = choose|j: int| 0 <= j < all.len() && *(#[trigger] all[j]) == k;
                        assert(*all[j] == k);
                    }
                }
            },
        }
    }
    low
}

/// The scores that have been read: the board, and the players whose score was among
/// them.
pub struct Scored {
    pub board: Board,
    pub touched: Seq<u32>,
}

/// What an entry of an array says of a player.
pub open spec fn score_entry(s: Scored, parent: Seq<char>, slot: u32, v: i32) -> Scored {
    let e = econ_of(s.board, slot);
    if parent == "m_iScore"@ {
        Scored {
            board: s.board.insert(slot, PlayerEcon { score: v, ..e }),
            touched: s.touched.push(slot),
        }
    } else {
        Scored {
            board: s.board.insert(
                slot,
                if parent == "m_iKills"@ {
                    PlayerEcon { kills: v, ..e }
                } else if parent == "m_iDeaths"@ {
                    PlayerEcon { deaths: v, ..e }
                } else if parent == "m_iAssists"@ {
                    PlayerEcon { assists: v, ..e }
                } else if parent == "m_iMVPs"@ {
                    PlayerEcon { mvps: v, ..e }
                } else if parent == "m_iTeam"@ && e.team == 0 {
                    PlayerEcon { team: v, ..e }
                } else {
                    e
                },
            ),
            ..s
        }
    }
}

/// The player that an entry is of: its name is their number, up to 64.
pub open spec fn slot_of(name: Seq<char>) -> Option<u32> {
    match whole_number(name, false) {
        Some(n) => if 1 <= n <= 64 {
            Some(n as u32)
        } else {
            None
        },
        None => None,
    }
}

pub open spec fn prop_int(props: Map<usize, PropView>, i: int) -> Option<i64> {
    if props.contains_key(i as usize) {
        int_of(props[i as usize])
    } else {
        None
    }
}

/// The scores that the first `n` properties say.
pub open spec fn scores(
    b: Board,
    flat: Seq<SendPropDef>,
    props: Map<usize, PropView>,
    n: int,
) -> Scored
    decreases n,
{
    if n <= 0 {
        Scored { board: b, touched: Seq::empty() }
    } else {
        let before = scores(b, flat, props, n - 1);
        let p = flat[n - 1];
        match (p.array_parent, slot_of(p.name@), prop_int(props, n - 1)) {
            (Some(parent), Some(slot), Some(v)) => score_entry(before, parent@, slot, v as i32),
            _ => before,
        }
    }
}

/// Whether the kills of the players are among the properties.
pub open spec fn tells_kills(flat: Seq<SendPropDef>) -> bool {
    exists|i: int|
        0 <= i < flat.len() && ((#[trigger] flat[i]).array_parent matches Some(p) && p@
            == "m_iKills"@)
}

/// Where they are not, the score is what a player's kills are, unless they have some.
pub open spec fn kills_from_score(b: Board, touched: Seq<u32>, n: int) -> Board
    decreases n,
{
    if n <= 0 {
        b
    } else {
        let before = kills_from_score(b, touched, n - 1);
        let k = touched[n - 1];
        if before.contains_key(k) && before[k].kills == 0 {
            before.insert(k, PlayerEcon { kills: before[k].score, ..before[k] })
        } else {
            before
        }
    }
}

pub open spec fn board_scores(
    b: Board,
    flat: Seq<SendPropDef>,
    props: Map<usize, PropView>,
) -> Board {
    let s = scores(b, flat, props, flat.len() as int);
    if tells_kills(flat) {
        s.board
    } else {
        kills_from_score(s.board, s.touched, s.touched.len() as int)
    }
}

/// The board after what the entity that keeps the score says.
pub open spec fn scoreboard(b: Board, ents: Map<u16, Entity>, t: TablesView) -> Board {
    match board_of(ents, t) {
        Some(k) => if t.flat.contains_key(ents[k].class_id) {
            board_scores(b, t.flat[ents[k].class_id], ents[k].props)
        } else {
            b
        },
        None => b,
    }
}

pub(crate) fn get_int(e: &EntityState, i: usize) -> (r: Option<i64>)
    ensures
        r == prop_int(e@.props, i as int),
{
    match e.props.get(&i) {
        Some(v) => v.as_i64(),
        None => None,
    }
}

fn read_slot(name: &str) -> (r: Option<u32>)
    ensures
        r == slot_of(name@),
{
    match parse_u32(name) {
        Some(n) => if 1 <= n && n <= 64 {
            Some(n)
        } else {
            None
        },
        None => None,
    }
}

fn put_score(econ: &mut HashMap<u32, PlayerEcon>, touched: &mut Vec<u32>, parent: &str, slot: u32, v: i32)
    ensures
        (Scored { board: final(econ)@, touched: final(touched)@ }) == score_entry(
            Scored { board: old(econ)@, touched: old(touched)@ },
            parent@,
            slot,
            v,
        ),
{
    let mut e = get_econ(econ, slot);
    if str_eq(parent, "m_iScore") {
        e.score = v;
        touched.push(slot);
    } else if str_eq(parent, "m_iKills") {
        e.kills = v;
    } else if str_eq(parent, "m_iDeaths") {
        e.deaths = v;
    } else if str_eq(parent, "m_iAssists") {
        e.assists = v;
    } else if str_eq(parent, "m_iMVPs") {
        e.mvps = v;
    } else if str_eq(parent, "m_iTeam") && e.team == 0 {
        e.team = v;
    }
    econ.insert(slot, e);
}

fn has_kills(flat: &Vec<SendPropDef>) -> (r: bool)
    ensures
        r == tells_kills(flat@),
{
    let mut i: usize = 0;
    while i < flat.len()
        invariant
            i <= flat@.len(),
            forall|k: int|
                0 <= k < i ==> !((#[trigger] flat@[k]).array_parent matches Some(p) && p@
                    == "m_iKills"@),
        decreases flat@.len() - i,
    {
        match &flat[i].array_parent {
            Some(p) => {
                if str_eq(p.as_str(), "m_iKills") {
                    assert(flat@[i as int].array_parent matches Some(q) && q@ == "m_iKills"@);
                    return true;
                }
            },
            None => {},
        }
        i += 1;
    }
    false
}

/// Reads the scores of the players off the entity that keeps them.
pub(crate) fn scrape_resource_scoreboard(
    world: &EntityWorld,
    data: &DataTables,
    econ: &mut HashMap<u32, PlayerEcon>,
)
    ensures
        final(econ)@ == scoreboard(old(econ)@, world@, data@),
{
    let k: u16 = match find_board(world, data) {
        Some(k) => k,
        None => {
            return;
        },
    };
    let state = match world.entities.get(&k) {
        Some(s) => s,
        None => {
            return;
        },
    };
    assert(world@[k] == state@);
    let flat = match data.flat_props.get(&state.class_id) {
        Some(f) => f,
        None => {
            return;
        },
    };
    assert(data@.flat[state.class_id] == flat@);
    let ghost b = econ@;
    let mut touched: Vec<u32> = Vec::new();
    let mut i: usize = 0;
    while i < flat.len()
        invariant
            i <= flat@.len(),
            (Scored { board: econ@, touched: touched@ }) == scores(
                b,
                flat@,
                state@.props,
                i as int,
            ),
        decreases flat@.len() - i,
    {
        match &flat[i].array_parent {
            Some(parent) => match read_slot(flat[i].name.as_str()) {
                Some(slot) => match get_int(state, i) {
                    Some(v) => {
                        put_score(econ, &mut touched, parent.as_str(), slot, v as i32);
                    },
                    None => {},
                },
                None => {},
            },
            None => {},
        }
        i += 1;
    }
    if !has_kills(flat) {
        let ghost b1 = econ@;
        let mut j: usize = 0;
        while j < touched.len()
            invariant
                j <= touched@.len(),
                econ@ == kills_from_score(b1, touched@, j as int),
            decreases touched@.len() - j,
        {
            let slot: u32 = touched[j];
            match econ.get(&slot) {
                Some(e) => {
                    if e.kills == 0 {
                        let mut e2 = *e;
                        e2.kills = e2.score;
                        econ.insert(slot, e2);
                    }
                },
                None => {},
            }
            j += 1;
        }
    }
}

/// Where the kills are not told, a player whose score was read and who has no kills
/// has their score for them; nothing else changes.
pub proof fn law_kills_fall_back(b: Board, touched: Seq<u32>, n: int, k: u32)
    requires
        0 <= n <= touched.len(),
        b.contains_key(k),
    ensures
        kills_from_score(b, touched, n).contains_key(k),
        kills_from_score(b, touched, n)[k] == if touched.take(n).contains(k) && b[k].kills == 0 {
            PlayerEcon { kills: b[k].score, ..b[k] }
        } else {
            b[k]
        },
    decreases n,
{
    if n > 0 {
        law_kills_fall_back(b, touched, n - 1, k);
        let a = touched.take(n - 1);
        let z = touched.take(n);
        assert(z =~= a.push(touched[n - 1]));
        if touched[n - 1] == k {
            assert(z[n - 1] == k);
        } else {
            if a.contains(k) {
                let j = choose|j: int| 0 <= j < a.len() && a[j] == k;
                assert(z[j] == k);
            }
            if z.contains(k) {
                let j = choose|j: int| 0 <= j < z.len() && z[j] == k;
                assert(a[j] == k);
            }
        }
    }
}

} // verus!
