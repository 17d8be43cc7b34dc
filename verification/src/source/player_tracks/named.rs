//! Which property of an entity says what of a player.
use super::board::{econ_of, score_entry, PlayerEcon, Scored};
use super::paths::{moved_to, Place};
use super::scan::{fields_of, handle_entity, number_of, origin_of, part_of, prop_of, with_fields,
    Fields, Known, Seen};
use crate::maps::list_of;
use crate::source::packetentities::Entity;
use crate::source::sendprop::{PropView, Real, SendPropDef};
use vstd::prelude::*;

verus! {

/// Whether, among the first `n` properties, the `i`-th is the last of a name.
pub open spec fn last_named(flat: Seq<SendPropDef>, n: int, i: int, name: Seq<char>) -> bool {
    &&& 0 <= i < n <= flat.len()
    &&& flat[i].name@ == name
    &&& forall|j: int| i < j < n ==> (#[trigger] flat[j]).name@ != name
}

/// Whether no property among the first `n` has a name.
pub open spec fn not_named(flat: Seq<SendPropDef>, n: int, name: Seq<char>) -> bool {
    forall|j: int| 0 <= j < n ==> (#[trigger] flat[j]).name@ != name
}

proof fn lemma_names()
    ensures
        "m_vecOrigin"@.len() == 11,
        "m_vecOrigin[2]"@.len() == 14,
        "m_angEyeAngles[1]"@ != "m_angEyeAngles[0]"@,
        "m_angEyeAngles[1]"@.len() == 17,
        "m_angEyeAngles[0]"@.len() == 17,
        "m_angRotation[1]"@ != "m_angRotation[0]"@,
        "m_angRotation[1]"@.len() == 16,
        "m_angRotation[0]"@.len() == 16,
        "m_lifeState"@.len() == 11,
        "m_lifeState"@ != "m_vecOrigin"@,
        "m_iObserverMode"@.len() == 15,
        "m_hActiveWeapon"@.len() == 15,
        "m_iObserverMode"@ != "m_hActiveWeapon"@,
        "m_iAccount"@.len() == 10,
        "m_iTeamNum"@.len() == 10,
        "m_iAccount"@ != "m_iTeamNum"@,
{
    reveal_strlit("m_vecOrigin");
    reveal_strlit("m_vecOrigin[2]");
    reveal_strlit("m_angEyeAngles[1]");
    reveal_strlit("m_angEyeAngles[0]");
    reveal_strlit("m_angRotation[1]");
    reveal_strlit("m_angRotation[0]");
    reveal_strlit("m_lifeState");
    reveal_strlit("m_iObserverMode");
    reveal_strlit("m_hActiveWeapon");
    reveal_strlit("m_iAccount");
    reveal_strlit("m_iTeamNum");
    assert("m_angEyeAngles[1]"@[15] != "m_angEyeAngles[0]"@[15]);
    assert("m_angRotation[1]"@[14] != "m_angRotation[0]"@[14]);
    assert("m_lifeState"@[2] != "m_vecOrigin"@[2]);
    assert("m_iObserverMode"@[2] != "m_hActiveWeapon"@[2]);
    assert("m_iAccount"@[3] != "m_iTeamNum"@[3]);
}

/// The life of a player is what `m_lifeState` says, its way to watch `m_iObserverMode`, its
/// money `m_iAccount`, its team `m_iTeamNum` and its weapon what `m_hActiveWeapon` leads
/// to; whatever other properties there are.
pub proof fn law_numbers_by_name(flat: Seq<SendPropDef>, props: Map<usize, PropView>, n: int, i: int, v: i64)
    requires
        0 <= i < n <= flat.len(),
        number_of(prop_of(props, i)) == Some(v),
    ensures
        last_named(flat, n, i, "m_lifeState"@) ==> fields_of(flat, props, n).life == Some(v as u8),
        last_named(flat, n, i, "m_iObserverMode"@) ==> fields_of(flat, props, n).observing == Some(
            v as u8,
        ),
        last_named(flat, n, i, "m_hActiveWeapon"@) ==> fields_of(flat, props, n).weapon == Some(
            handle_entity(v),
        ),
        last_named(flat, n, i, "m_iAccount"@) ==> fields_of(flat, props, n).money == Some(v as i32),
        last_named(flat, n, i, "m_iTeamNum"@) ==> fields_of(flat, props, n).team == Some(v as i32),
    decreases n,
{
    lemma_names();
    if n - 1 > i {
        law_numbers_by_name(flat, props, n - 1, i, v);
        let x = flat[n - 1].name@;
        assert(last_named(flat, n, i, "m_lifeState"@) ==> last_named(flat, n - 1, i, "m_lifeState"@) && x
            != "m_lifeState"@);
        assert(last_named(flat, n, i, "m_iObserverMode"@) ==> last_named(
            flat,
            n - 1,
            i,
            "m_iObserverMode"@,
        ) && x != "m_iObserverMode"@);
        assert(last_named(flat, n, i, "m_hActiveWeapon"@) ==> last_named(
            flat,
            n - 1,
            i,
            "m_hActiveWeapon"@,
        ) && x != "m_hActiveWeapon"@);
        assert(last_named(flat, n, i, "m_iAccount"@) ==> last_named(flat, n - 1, i, "m_iAccount"@) && x
            != "m_iAccount"@);
        assert(last_named(flat, n, i, "m_iTeamNum"@) ==> last_named(flat, n - 1, i, "m_iTeamNum"@) && x
            != "m_iTeamNum"@);
    }
}

/// The yaw of a player is what `m_angEyeAngles[1]` says, and its pitch what
/// `m_angEyeAngles[0]` does, where nothing says the same in the angles of the body.
pub proof fn law_angles_by_name(flat: Seq<SendPropDef>, props: Map<usize, PropView>, n: int, i: int, v: Real)
    requires
        0 <= i < n <= flat.len(),
        part_of(prop_of(props, i)) == Some(v),
        not_named(flat, n, "m_angRotation[0]"@),
        not_named(flat, n, "m_angRotation[1]"@),
    ensures
        last_named(flat, n, i, "m_angEyeAngles[1]"@) ==> fields_of(flat, props, n).yaw == Some(v),
        last_named(flat, n, i, "m_angEyeAngles[0]"@) ==> fields_of(flat, props, n).pitch == Some(v),
    decreases n,
{
    lemma_names();
    let x = flat[n - 1].name@;
    assert(x != "m_angRotation[0]"@ && x != "m_angRotation[1]"@);
    if n - 1 > i {
        law_angles_by_name(flat, props, n - 1, i, v);
        assert(last_named(flat, n, i, "m_angEyeAngles[1]"@) ==> last_named(
            flat,
            n - 1,
            i,
            "m_angEyeAngles[1]"@,
        ) && x != "m_angEyeAngles[1]"@);
        assert(last_named(flat, n, i, "m_angEyeAngles[0]"@) ==> last_named(
            flat,
            n - 1,
            i,
            "m_angEyeAngles[0]"@,
        ) && x != "m_angEyeAngles[0]"@);
    }
}

/// The places of a player: those of `m_vecOrigin`, and the height of one that has none of
/// its own is what the `m_vecOrigin[2]` behind it says.
pub proof fn law_origin_by_name(
    flat: Seq<SendPropDef>,
    props: Map<usize, PropView>,
    n: int,
    i: int,
    k: int,
    z: Real,
)
    requires
        0 <= i < k < n <= flat.len(),
        flat[i].name@ == "m_vecOrigin"@,
        flat[k].name@ == "m_vecOrigin[2]"@,
        forall|j: int| 0 <= j < n && j != i ==> (#[trigger] flat[j]).name@ != "m_vecOrigin"@,
        forall|j: int| 0 <= j < n && j != k ==> (#[trigger] flat[j]).name@ != "m_vecOrigin[2]"@,
        part_of(prop_of(props, k)) == Some(z),
    ensures
        fields_of(flat, props, n).origins == seq![
            (origin_of(prop_of(props, i)).0, origin_of(prop_of(props, i)).1, Some(z)),
        ],
    decreases n,
{
    lemma_origins(flat, props, n, i, k);
}

proof fn lemma_origins(flat: Seq<SendPropDef>, props: Map<usize, PropView>, n: int, i: int, k: int)
    requires
        0 <= n <= flat.len(),
        0 <= i < k < flat.len(),
        flat[i].name@ == "m_vecOrigin"@,
        flat[k].name@ == "m_vecOrigin[2]"@,
        forall|j: int| 0 <= j < n && j != i ==> (#[trigger] flat[j]).name@ != "m_vecOrigin"@,
        forall|j: int| 0 <= j < n && j != k ==> (#[trigger] flat[j]).name@ != "m_vecOrigin[2]"@,
    ensures
        n <= i ==> fields_of(flat, props, n).origins =~= Seq::empty(),
        i < n <= k ==> fields_of(flat, props, n).origins =~= seq![origin_of(prop_of(props, i))],
        k < n && part_of(prop_of(props, k)) is Some ==> fields_of(flat, props, n).origins =~= seq![
            (
                origin_of(prop_of(props, i)).0,
                origin_of(prop_of(props, i)).1,
                part_of(prop_of(props, k)),
            ),
        ],
    decreases n,
{
    lemma_names();
    if n > 0 {
        lemma_origins(flat, props, n - 1, i, k);
    }
}

/// A player that is looked at is noted with just that: where it is and where it looks at
/// this tick, and its life, its way to watch, its money and its team, where they are said.
pub proof fn law_player_is_noted(
    r: Known,
    k: u32,
    tick: i32,
    f: Fields,
    ents: Map<u16, Entity>,
    t: crate::source::datatable::TablesView,
    gated: bool,
)
    ensures
        ({
            let a = with_fields(r, k, tick, f, ents, t, gated);
            &&& a.seen == r.seen.push(
                Seen { tick, player: k, origins: f.origins, yaw: f.yaw, pitch: f.pitch, gated },
            )
            &&& f.life matches Some(v) ==> list_of(a.life, k).len() > 0 && list_of(a.life, k).last().1
                == v
            &&& f.life is None ==> a.life == r.life
            &&& f.observing matches Some(v) ==> list_of(a.observed, k).len() > 0 && list_of(
                a.observed,
                k,
            ).last().1 == v
            &&& f.observing is None ==> a.observed == r.observed
            &&& f.weapon matches Some(v) ==> list_of(a.weapons, k).len() > 0 && list_of(
                a.weapons,
                k,
            ).last().1 == v
            &&& f.weapon is None ==> a.weapons == r.weapons
            &&& f.money matches Some(v) ==> econ_of(a.econ, k).money == v
            &&& f.money is None ==> econ_of(a.econ, k).money == econ_of(r.econ, k).money
            &&& f.team matches Some(v) ==> econ_of(a.econ, k).team == v
            &&& f.team is None ==> econ_of(a.econ, k).team == econ_of(r.econ, k).team
            &&& econ_of(a.econ, k).kills == econ_of(r.econ, k).kills
            &&& econ_of(a.econ, k).deaths == econ_of(r.econ, k).deaths
            &&& forall|j: u32| j != k ==> #[trigger] econ_of(a.econ, j) == econ_of(r.econ, j)
        }),
{
}

/// What an entry of the score board is of goes by the name of its list, and nothing else
/// of the player's changes; no other player's does either.
pub proof fn law_scores_by_name(s: Scored, slot: u32, v: i32, j: u32)
    ensures
        econ_of(score_entry(s, "m_iScore"@, slot, v).board, slot) == (PlayerEcon {
            score: v,
            ..econ_of(s.board, slot)
        }),
        econ_of(score_entry(s, "m_iKills"@, slot, v).board, slot) == (PlayerEcon {
            kills: v,
            ..econ_of(s.board, slot)
        }),
        econ_of(score_entry(s, "m_iDeaths"@, slot, v).board, slot) == (PlayerEcon {
            deaths: v,
            ..econ_of(s.board, slot)
        }),
        econ_of(score_entry(s, "m_iAssists"@, slot, v).board, slot) == (PlayerEcon {
            assists: v,
            ..econ_of(s.board, slot)
        }),
        econ_of(score_entry(s, "m_iMVPs"@, slot, v).board, slot) == (PlayerEcon {
            mvps: v,
            ..econ_of(s.board, slot)
        }),
        econ_of(s.board, slot).team == 0 ==> econ_of(
            score_entry(s, "m_iTeam"@, slot, v).board,
            slot,
        ) == (PlayerEcon { team: v, ..econ_of(s.board, slot) }),
        forall|name: Seq<char>|
            j != slot ==> econ_of(#[trigger] score_entry(s, name, slot, v).board, j) == econ_of(
                s.board,
                j,
            ),
{
    reveal_strlit("m_iScore");
    reveal_strlit("m_iKills");
    reveal_strlit("m_iDeaths");
    reveal_strlit("m_iAssists");
    reveal_strlit("m_iMVPs");
    reveal_strlit("m_iTeam");
    assert("m_iScore"@.len() == 8 && "m_iKills"@.len() == 8 && "m_iDeaths"@.len() == 9);
    assert("m_iAssists"@.len() == 10 && "m_iMVPs"@.len() == 7 && "m_iTeam"@.len() == 7);
    assert("m_iScore"@[3] != "m_iKills"@[3]);
    assert("m_iMVPs"@[3] != "m_iTeam"@[3]);
}

/// A player that goes to another place is there: each coordinate that is given is taken
/// as that one.
pub proof fn law_moved_to_is_there(was: Place, x: u32, y: u32, z: u32, gated: bool)
    requires
        x != was.0,
        y != was.1,
        z != was.2,
        0 < x < 0x7f80_0000,
        0 < y < 0x7f80_0000,
        0 < z < 0x7f80_0000,
    ensures
        moved_to(was, (Some(x), Some(y), Some(z)), gated) == ((x, y, z), true),
        moved_to(was, (Some(x), None, None), gated) == ((x, was.1, was.2), true),
        moved_to(was, (None, Some(y), None), gated) == ((was.0, y, was.2), true),
        moved_to(was, (None, None, Some(z)), false) == ((was.0, was.1, z), true),
        moved_to(was, (None, None, None), gated) == (was, false),
{
}

} // verus!
