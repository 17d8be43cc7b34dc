//! What the packets of a demo say of its players, message by message.
use crate::maps::{list_of, lists, push_to, pushed};
use crate::multi_player::Change;
use crate::source::datatable::{DataTables, TablesView};
use crate::source::packetentities::{Entity, EntityState, EntityWorld};
use crate::source::player_tracks::board::{class_of, econ_of, find_class, get_econ,
    scoreboard, scrape_resource_scoreboard, Board, PlayerEcon};
use crate::source::sendprop::{int_of, real_of, vector_of, vector_xy_of, PropView, Real,
    SendPropDef};
use crate::text::{holds, str_eq, text_holds};
use std::collections::HashMap;
use vstd::prelude::*;

verus! {

broadcast use vstd::std_specs::hash::group_hash_axioms;

/// A place as far as it is given.
pub type Origin = (Option<Real>, Option<Real>, Option<Real>);

/// What the properties of a player's entity say. A player has several places, of
/// which only one is kept up.
pub struct Fields {
    pub origins: Seq<Origin>,
    pub life: Option<u8>,
    pub yaw: Option<Real>,
    pub pitch: Option<Real>,
    pub observing: Option<u8>,
    pub weapon: Option<i32>,
    pub money: Option<i32>,
    pub team: Option<i32>,
}

pub open spec fn no_fields() -> Fields {
    Fields {
        origins: Seq::empty(),
        life: None,
        yaw: None,
        pitch: None,
        observing: None,
        weapon: None,
        money: None,
        team: None,
    }
}

/// A place that a property gives, in two parts or in three.
pub open spec fn origin_of(v: Option<PropView>) -> Origin {
    match v {
        None => (None, None, None),
        Some(p) => match vector_xy_of(p) {
            Some((x, y)) => (Some(x), Some(y), None),
            None => match vector_of(p) {
                Some((x, y, z)) => (Some(x), Some(y), Some(z)),
                None => (None, None, None),
            },
        },
    }
}

pub open spec fn number_of(v: Option<PropView>) -> Option<i64> {
    match v {
        Some(p) => int_of(p),
        None => None,
    }
}

pub open spec fn part_of(v: Option<PropView>) -> Option<Real> {
    match v {
        Some(p) => real_of(p),
        None => None,
    }
}

/// A height belongs to the place before it.
pub open spec fn with_height(origins: Seq<Origin>, z: Option<Real>) -> Seq<Origin> {
    if z is Some && origins.len() > 0 {
        origins.update(origins.len() - 1, (origins.last().0, origins.last().1, z))
    } else {
        origins
    }
}

/// The entity that a handle names: its low eleven bits.
pub open spec fn handle_entity(n: i64) -> i32 {
    (n as i32) & 0x7ff
}

/// What one property adds.
pub open spec fn with_prop(f: Fields, name: Seq<char>, v: Option<PropView>) -> Fields {
    if name == "m_vecOrigin"@ {
        Fields { origins: f.origins.push(origin_of(v)), ..f }
    } else if name == "m_vecOrigin[2]"@ {
        Fields { origins: with_height(f.origins, part_of(v)), ..f }
    } else if name == "m_angEyeAngles[1]"@ || name == "m_angRotation[1]"@ {
        Fields {
            yaw: if part_of(v) is Some {
                part_of(v)
            } else {
                f.yaw
            },
            ..f
        }
    } else if name == "m_angEyeAngles[0]"@ || name == "m_angRotation[0]"@ {
        Fields {
            pitch: if part_of(v) is Some {
                part_of(v)
            } else {
                f.pitch
            },
            ..f
        }
    } else {
        match number_of(v) {
            None => f,
            Some(n) => if name == "m_lifeState"@ {
                Fields { life: Some(n as u8), ..f }
            } else if name == "m_iObserverMode"@ {
                Fields { observing: Some(n as u8), ..f }
            } else if name == "m_hActiveWeapon"@ {
                Fields { weapon: Some(handle_entity(n)), ..f }
            } else if name == "m_iAccount"@ {
                Fields { money: Some(n as i32), ..f }
            } else if name == "m_iTeamNum"@ {
                Fields { team: Some(n as i32), ..f }
            } else {
                f
            },
        }
    }
}

pub open spec fn prop_of(props: Map<usize, PropView>, i: int) -> Option<PropView> {
    if props.contains_key(i as usize) {
        Some(props[i as usize])
    } else {
        None
    }
}

/// What the first `n` properties of an entity say.
pub open spec fn fields_of(flat: Seq<SendPropDef>, props: Map<usize, PropView>, n: int) -> Fields
    decreases n,
{
    if n <= 0 {
        no_fields()
    } else {
        with_prop(fields_of(flat, props, n - 1), flat[n - 1].name@, prop_of(props, n - 1))
    }
}

struct Found {
    origins: Vec<Origin>,
    life: Option<u8>,
    yaw: Option<Real>,
    pitch: Option<Real>,
    observing: Option<u8>,
    weapon: Option<i32>,
    money: Option<i32>,
    team: Option<i32>,
}

impl Found {
    spec fn view(&self) -> Fields {
        Fields {
            origins: self.origins@,
            life: self.life,
            yaw: self.yaw,
            pitch: self.pitch,
            observing: self.observing,
            weapon: self.weapon,
            money: self.money,
            team: self.team,
        }
    }
}

fn read_part(state: &EntityState, i: usize) -> (r: Option<Real>)
    ensures
        r == part_of(prop_of(state@.props, i as int)),
{
    match state.props.get(&i) {
        Some(v) => v.as_f32(),
        None => None,
    }
}

fn read_origin(state: &EntityState, i: usize) -> (r: Origin)
    ensures
        r == origin_of(prop_of(state@.props, i as int)),
{
    match state.props.get(&i) {
        Some(v) => match v.as_vector_xy() {
            Some((x, y)) => (Some(x), Some(y), None),
            None => match v.as_vector() {
                Some((x, y, z)) => (Some(x), Some(y), Some(z)),
                None => (None, None, None),
            },
        },
        None => (None, None, None),
    }
}

fn read_number(state: &EntityState, i: usize) -> (r: Option<i64>)
    ensures
        r == number_of(prop_of(state@.props, i as int)),
{
    match state.props.get(&i) {
        Some(v) => v.as_i64(),
        None => None,
    }
}

fn read_prop(f: &mut Found, name: &str, state: &EntityState, i: usize)
    ensures
        final(f)@ == with_prop(old(f)@, name@, prop_of(state@.props, i as int)),
{
    if str_eq(name, "m_vecOrigin") {
        f.origins.push(read_origin(state, i));
    } else if str_eq(name, "m_vecOrigin[2]") {
        match read_part(state, i) {
            Some(z) => {
                let n: usize = f.origins.len();
                if n > 0 {
                    let o = f.origins[n - 1];
                    f.origins.set(n - 1, (o.0, o.1, Some(z)));
                }
            },
            None => {},
        }
    } else if str_eq(name, "m_angEyeAngles[1]") || str_eq(name, "m_angRotation[1]") {
        let v = read_part(state, i);
        if v.is_some() {
            f.yaw = v;
        }
    } else if str_eq(name, "m_angEyeAngles[0]") || str_eq(name, "m_angRotation[0]") {
        let v = read_part(state, i);
        if v.is_some() {
            f.pitch = v;
        }
    } else {
        match read_number(state, i) {
            None => {},
            Some(n) => {
                if str_eq(name, "m_lifeState") {
                    f.life = Some(n as u8);
                } else if str_eq(name, "m_iObserverMode") {
                    f.observing = Some(n as u8);
                } else if str_eq(name, "m_hActiveWeapon") {
                    f.weapon = Some((n as i32) & 0x7ff);
                } else if str_eq(name, "m_iAccount") {
                    f.money = Some(n as i32);
                } else if str_eq(name, "m_iTeamNum") {
                    f.team = Some(n as i32);
                }
            },
        }
    }
}

fn find_fields(flat: &Vec<SendPropDef>, state: &EntityState) -> (f: Found)
    ensures
        f@ == fields_of(flat@, state@.props, flat@.len() as int),
{
    let mut f = Found {
        origins: Vec::new(),
        life: None,
        yaw: None,
        pitch: None,
        observing: None,
        weapon: None,
        money: None,
        team: None,
    };
    assert(f@.origins =~= Seq::empty());
    let mut i: usize = 0;
    while i < flat.len()
        invariant
            i <= flat@.len(),
            f@ == fields_of(flat@, state@.props, i as int),
        decreases flat@.len() - i,
    {
        read_prop(&mut f, flat[i].name.as_str(), state, i);
        i += 1;
    }
    f
}

/// A player as an entity shows them at a tick: where they may be and where they look.
/// Whether a height that changes alone is believed goes with it.
#[derive(Debug)]
pub struct Sighting {
    pub tick: i32,
    pub player: u32,
    pub origins: Vec<Origin>,
    pub yaw: Option<Real>,
    pub pitch: Option<Real>,
    pub gated: bool,
}

/// What a `Sighting` says.
pub struct Seen {
    pub tick: i32,
    pub player: u32,
    pub origins: Seq<Origin>,
    pub yaw: Option<Real>,
    pub pitch: Option<Real>,
    pub gated: bool,
}

impl Sighting {
    pub open spec fn view(&self) -> Seen {
        Seen {
            tick: self.tick,
            player: self.player,
            origins: self.origins@,
            yaw: self.yaw,
            pitch: self.pitch,
            gated: self.gated,
        }
    }
}

pub open spec fn all_seen(v: Seq<Sighting>) -> Seq<Seen> {
    v.map_values(|s: Sighting| s@)
}

/// What has been found out about the players, apart from where they are.
pub struct Record {
    pub life_states: HashMap<u32, Vec<Change>>,
    pub observer_modes: HashMap<u32, Vec<Change>>,
    pub weapons: HashMap<u32, Vec<(i32, i32)>>,
    pub weapon_classes: HashMap<i32, String>,
    pub econ: HashMap<u32, PlayerEcon>,
    pub sightings: Vec<Sighting>,
}

/// What a `Record` says.
pub struct Known {
    pub life: Map<u32, Seq<Change>>,
    pub observed: Map<u32, Seq<Change>>,
    pub weapons: Map<u32, Seq<(i32, i32)>>,
    pub classes: Map<i32, Seq<char>>,
    pub econ: Board,
    pub seen: Seq<Seen>,
}

pub open spec fn class_names(m: Map<i32, String>) -> Map<i32, Seq<char>> {
    m.map_values(|s: String| s@)
}

pub open spec fn nothing_known() -> Known {
    Known {
        life: Map::empty(),
        observed: Map::empty(),
        weapons: Map::empty(),
        classes: Map::empty(),
        econ: Map::empty(),
        seen: Seq::empty(),
    }
}

impl Record {
    pub open spec fn view(&self) -> Known {
        Known {
            life: lists(self.life_states@),
            observed: lists(self.observer_modes@),
            weapons: lists(self.weapons@),
            classes: class_names(self.weapon_classes@),
            econ: self.econ@,
            seen: all_seen(self.sightings@),
        }
    }

    pub fn new() -> (r: Self)
        ensures
            r@ == nothing_known(),
    {
        let r = Record {
            life_states: HashMap::new(),
            observer_modes: HashMap::new(),
            weapons: HashMap::new(),
            weapon_classes: HashMap::new(),
            econ: HashMap::new(),
            sightings: Vec::new(),
        };
        assert(r@.life =~= Map::empty());
        assert(r@.observed =~= Map::empty());
        assert(r@.weapons =~= Map::empty());
        assert(r@.classes =~= Map::empty());
        assert(r@.seen =~= Seq::empty());
        r
    }
}

/// A state is noted at a tick where it is not what was noted last.
pub open spec fn noted<T>(m: Map<u32, Seq<(i32, T)>>, k: u32, tick: i32, v: T) -> Map<
    u32,
    Seq<(i32, T)>,
> {
    let l = list_of(m, k);
    if l.len() > 0 && l.last().1 == v {
        m
    } else {
        pushed(m, k, (tick, v))
    }
}

pub open spec fn noted_if<T>(m: Map<u32, Seq<(i32, T)>>, k: u32, tick: i32, v: Option<T>) -> Map<
    u32,
    Seq<(i32, T)>,
> {
    match v {
        Some(x) => noted(m, k, tick, x),
        None => m,
    }
}

/// The class of a weapon is learnt when a player takes it up, if it is not known.
pub open spec fn with_weapon(
    r: Known,
    k: u32,
    tick: i32,
    weapon: Option<i32>,
    ents: Map<u16, Entity>,
    t: TablesView,
) -> Known {
    match weapon {
        None => r,
        Some(w) => {
            let weapons = noted(r.weapons, k, tick, w);
            Known {
                weapons,
                classes: if weapons != r.weapons && 0 < w < 65535 && !r.classes.contains_key(w)
                    && ents.contains_key(w as u16) {
                    match class_of(t, ents[w as u16].class_id) {
                        Some(c) => r.classes.insert(w, c.name),
                        None => r.classes,
                    }
                } else {
                    r.classes
                },
                ..r
            }
        },
    }
}

pub open spec fn with_econ(b: Board, k: u32, money: Option<i32>, team: Option<i32>) -> Board {
    if money is None && team is None {
        b
    } else {
        let e = econ_of(b, k);
        b.insert(
            k,
            PlayerEcon {
                money: match money {
                    Some(m) => m,
                    None => e.money,
                },
                team: match team {
                    Some(m) => m,
                    None => e.team,
                },
                ..e
            },
        )
    }
}

/// What the properties of a player's entity add.
pub open spec fn with_fields(
    r: Known,
    k: u32,
    tick: i32,
    f: Fields,
    ents: Map<u16, Entity>,
    t: TablesView,
    gated: bool,
) -> Known {
    let r1 = Known {
        seen: r.seen.push(
            Seen { tick, player: k, origins: f.origins, yaw: f.yaw, pitch: f.pitch, gated },
        ),
        life: noted_if(r.life, k, tick, f.life),
        observed: noted_if(r.observed, k, tick, f.observing),
        econ: with_econ(r.econ, k, f.money, f.team),
        ..r
    };
    with_weapon(r1, k, tick, f.weapon, ents, t)
}

/// Whether an entity is a player: its class is known, has properties and has a name
/// that says so.
pub open spec fn is_player(ents: Map<u16, Entity>, t: TablesView, k: u16) -> bool {
    &&& ents.contains_key(k)
    &&& class_of(t, ents[k].class_id) matches Some(c) && holds(c.name, "Player"@)
    &&& t.flat.contains_key(ents[k].class_id)
}

/// What is known after the players among the entities up to number `n`.
pub open spec fn with_players(
    r: Known,
    tick: i32,
    ents: Map<u16, Entity>,
    t: TablesView,
    gated: bool,
    n: int,
) -> Known
    decreases n,
{
    if n <= 0 {
        r
    } else {
        let before = with_players(r, tick, ents, t, gated, n - 1);
        let k = n as u16;
        if is_player(ents, t, k) {
            let flat = t.flat[ents[k].class_id];
            with_fields(
                before,
                k as u32,
                tick,
                fields_of(flat, ents[k].props, flat.len() as int),
                ents,
                t,
                gated,
            )
        } else {
            before
        }
    }
}

/// What is known after the entities of a tick: of the players, whose entities have
/// the numbers up to 64, and of the score.
pub open spec fn scraped(
    r: Known,
    tick: i32,
    ents: Map<u16, Entity>,
    t: TablesView,
    gated: bool,
) -> Known {
    let after = with_players(r, tick, ents, t, gated, 64);
    Known { econ: scoreboard(after.econ, ents, t), ..after }
}

fn note_state(m: &mut HashMap<u32, Vec<(i32, u8)>>, k: u32, tick: i32, v: u8) -> (new: bool)
    ensures
        lists(final(m)@) == noted(lists(old(m)@), k, tick, v),
        new == (lists(final(m)@) != lists(old(m)@)),
{
    let ghost m0 = lists(m@);
    let same = match m.get(&k) {
        Some(l) => {
            let n: usize = l.len();
            assert(m0[k] == l@);
            n > 0 && l[n - 1].1 == v
        },
        None => false,
    };
    if !same {
        push_to(m, k, (tick, v));
        assert(lists(m@)[k].len() == list_of(m0, k).len() + 1);
        assert(lists(m@) != m0);
    }
    !same
}

fn note_item(m: &mut HashMap<u32, Vec<(i32, i32)>>, k: u32, tick: i32, v: i32) -> (new: bool)
    ensures
        lists(final(m)@) == noted(lists(old(m)@), k, tick, v),
        new == (lists(final(m)@) != lists(old(m)@)),
{
    let ghost m0 = lists(m@);
    let same = match m.get(&k) {
        Some(l) => {
            let n: usize = l.len();
            assert(m0[k] == l@);
            n > 0 && l[n - 1].1 == v
        },
        None => false,
    };
    if !same {
        push_to(m, k, (tick, v));
        assert(lists(m@)[k].len() == list_of(m0, k).len() + 1);
        assert(lists(m@) != m0);
    }
    !same
}

fn note_weapon(
    rec: &mut Record,
    k: u32,
    tick: i32,
    w: i32,
    world: &EntityWorld,
    data: &DataTables,
)
    ensures
        final(rec)@ == with_weapon(old(rec)@, k, tick, Some(w), world@, data@),
{
    let ghost r0 = rec@;
    if !note_item(&mut rec.weapons, k, tick, w) {
        return;
    }
    if 0 < w && w < 65535 && !rec.weapon_classes.contains_key(&w) {
        match world.entities.get(&(w as u16)) {
            Some(e) => {
                assert(world@[w as u16] == e@);
                match find_class(data, e.class_id) {
                    Some(c) => {
                        let ghost before = rec.weapon_classes@;
                        let name = c.name.clone();
                        let ghost s = name@;
                        rec.weapon_classes.insert(w, name);
                        assert(class_names(rec.weapon_classes@) =~= class_names(before).insert(
                            w,
                            s,
                        ));
                    },
                    None => {},
                }
            },
            None => {},
        }
    }
}

fn note_player(
    rec: &mut Record,
    k: u32,
    tick: i32,
    f: Found,
    world: &EntityWorld,
    data: &DataTables,
    gated: bool,
)
    ensures
        final(rec)@ == with_fields(old(rec)@, k, tick, f@, world@, data@, gated),
{
    let ghost r0 = rec@;
    match f.life {
        Some(v) => {
            note_state(&mut rec.life_states, k, tick, v);
        },
        None => {},
    }
    match f.observing {
        Some(v) => {
            note_state(&mut rec.observer_modes, k, tick, v);
        },
        None => {},
    }
    if f.money.is_some() || f.team.is_some() {
        let mut e = get_econ(&rec.econ, k);
        match f.money {
            Some(m) => {
                e.money = m;
            },
            None => {},
        }
        match f.team {
            Some(m) => {
                e.team = m;
            },
            None => {},
        }
        rec.econ.insert(k, e);
    }
    let s = Sighting {
        tick,
        player: k,
        origins: f.origins,
        yaw: f.yaw,
        pitch: f.pitch,
        gated,
    };
    let ghost seen = rec.sightings@;
    rec.sightings.push(s);
    assert(all_seen(rec.sightings@) =~= all_seen(seen).push(s@));
    match f.weapon {
        Some(w) => {
            note_weapon(rec, k, tick, w, world, data);
        },
        None => {},
    }
}

/// Notes what the entities say of the players and the score.
pub(crate) fn scrape_player_state(
    tick: i32,
    world: &EntityWorld,
    data: &DataTables,
    rec: &mut Record,
    gated: bool,
)
    ensures
        final(rec)@ == scraped(old(rec)@, tick, world@, data@, gated),
{
    let ghost r0 = rec@;
    let mut k: u16 = 0;
    while k < 64
        invariant
            k <= 64,
            rec@ == with_players(r0, tick, world@, data@, gated, k as int),
        decreases 64 - k,
    {
        k += 1;
        match world.entities.get(&k) {
            None => {},
            Some(state) => {
                assert(world@[k] == state@);
                match find_class(data, state.class_id) {
                    None => {},
                    Some(class) => {
                        if text_holds(class.name.as_str(), "Player") {
                            match data.flat_props.get(&state.class_id) {
                                None => {},
                                Some(flat) => {
                                    assert(data@.flat[state.class_id] == flat@);
                                    let f = find_fields(flat, state);
                                    note_player(rec, k as u32, tick, f, world, data, gated);
                                },
                            }
                        }
                    },
                }
            },
        }
    }
    scrape_resource_scoreboard(world, data, &mut rec.econ);
}

/// What is noted changes from one note to the next.
pub open spec fn alternates<T>(l: Seq<(i32, T)>) -> bool {
    forall|i: int| 0 < i < l.len() ==> (#[trigger] l[i]).1 != l[i - 1].1
}

/// Notes of a state stay changes: no two in a row are the same.
pub proof fn law_notes_alternate<T>(m: Map<u32, Seq<(i32, T)>>, k: u32, tick: i32, v: T, j: u32)
    requires
        forall|x: u32| #[trigger] m.contains_key(x) ==> alternates(m[x]),
    ensures
        noted(m, k, tick, v).contains_key(j) ==> alternates(noted(m, k, tick, v)[j]),
{
}

} // verus!
