//! The tracks of all the players of a demo, whatever engine wrote it.
use crate::maps::{are_keys, is_lowest, lists, lowest_key, sorted_keys};
use crate::source::player_tracks::scan::class_names;
use crate::source::player_tracks::PlayerTrackData;
use crate::source::stringtable::{players_view, PlayerInfo, PlayerView};
use crate::text::{is_empty_text, str_eq, texts, trim, trimmed};
use std::collections::HashMap;
use vstd::prelude::*;

verus! {

broadcast use vstd::std_specs::hash::group_hash_axioms;

/// A position: its tick, and the bits of its coordinates.
pub type Point = (i32, u32, u32, u32);

/// Two angles: their tick, and their bits.
pub type Turn = (i32, u32, u32);

/// A state from a tick on.
pub type Change = (i32, u8);

#[derive(Debug)]
pub struct PlayerMeta {
    pub name: String,
    pub steam_id: String,
    pub user_id: u32,
    pub is_fake: bool,
    pub is_hltv: bool,
    pub aliases: Vec<String>,
}

/// What a `PlayerMeta` says.
#[verifier::ext_equal]
pub struct MetaView {
    pub name: Seq<char>,
    pub steam_id: Seq<char>,
    pub user_id: u32,
    pub is_fake: bool,
    pub is_hltv: bool,
    pub aliases: Seq<Seq<char>>,
}

impl PlayerMeta {
    pub open spec fn view(&self) -> MetaView {
        MetaView {
            name: self.name@,
            steam_id: self.steam_id@,
            user_id: self.user_id,
            is_fake: self.is_fake,
            is_hltv: self.is_hltv,
            aliases: texts(self.aliases@),
        }
    }
}

pub open spec fn metas(m: Map<u32, PlayerMeta>) -> Map<u32, MetaView> {
    m.map_values(|p: PlayerMeta| p@)
}

/// What is known of the players of a demo. Yaws hold yaw and pitch, the view
/// angles of the recorder pitch and yaw.
pub struct MultiPlayerData {
    pub map: String,
    pub server: String,
    pub ticks: i32,
    pub tracks: HashMap<u32, Vec<Point>>,
    pub names: HashMap<u32, PlayerMeta>,
    pub life_states: HashMap<u32, Vec<Change>>,
    pub observer_modes: HashMap<u32, Vec<Change>>,
    pub yaws: HashMap<u32, Vec<Turn>>,
    pub weapons: HashMap<u32, Vec<(i32, i32)>>,
    pub weapon_classes: HashMap<i32, String>,
    pub primary_entity: Option<u32>,
    pub view_angles: Vec<Turn>,
}

/// What a `MultiPlayerData` says.
pub struct People {
    pub tracks: Map<u32, Seq<Point>>,
    pub names: Map<u32, MetaView>,
    pub life_states: Map<u32, Seq<Change>>,
    pub observer_modes: Map<u32, Seq<Change>>,
    pub yaws: Map<u32, Seq<Turn>>,
    pub weapons: Map<u32, Seq<(i32, i32)>>,
    pub weapon_classes: Map<i32, Seq<char>>,
    pub primary: Option<u32>,
    pub view_angles: Seq<Turn>,
}

impl MultiPlayerData {
    pub open spec fn view(&self) -> People {
        People {
            tracks: lists(self.tracks@),
            names: metas(self.names@),
            life_states: lists(self.life_states@),
            observer_modes: lists(self.observer_modes@),
            yaws: lists(self.yaws@),
            weapons: lists(self.weapons@),
            weapon_classes: class_names(self.weapon_classes@),
            primary: self.primary_entity,
            view_angles: self.view_angles@,
        }
    }
}

/// What is known of a player, as a table of players has it.
pub open spec fn meta_of(p: PlayerView) -> MetaView {
    MetaView {
        name: p.name,
        steam_id: p.steam_id,
        user_id: p.user_id,
        is_fake: p.is_fake,
        is_hltv: p.is_hltv,
        aliases: p.aliases,
    }
}

impl From<PlayerInfo> for PlayerMeta {
    fn from(p: PlayerInfo) -> (m: PlayerMeta)
        ensures
            m@ == meta_of(p@),
    {
        PlayerMeta {
            name: p.name,
            steam_id: p.steam_id,
            user_id: p.user_id,
            is_fake: p.is_fake,
            is_hltv: p.is_hltv,
            aliases: p.aliases,
        }
    }
}

impl vstd::std_specs::convert::FromSpecImpl<PlayerInfo> for PlayerMeta {
    open spec fn obeys_from_spec() -> bool {
        true
    }

    open spec fn from_spec(p: PlayerInfo) -> PlayerMeta {
        PlayerMeta {
            name: p.name,
            steam_id: p.steam_id,
            user_id: p.user_id,
            is_fake: p.is_fake,
            is_hltv: p.is_hltv,
            aliases: p.aliases,
        }
    }
}

pub open spec fn metas_of(m: Map<u32, PlayerView>) -> Map<u32, MetaView> {
    m.map_values(|p: PlayerView| meta_of(p))
}

/// Whether a player has or had a name, apart from blanks around it.
pub open spec fn was_called(p: MetaView, nick: Seq<char>) -> bool {
    nick.len() > 0 && exists|i: int|
        0 <= i < p.aliases.len() && trimmed(#[trigger] p.aliases[i]) == nick
}

/// The players that have or had a name.
pub open spec fn called(m: Map<u32, MetaView>, nick: Seq<char>) -> Set<u32> {
    Set::new(|k: u32| m.contains_key(k) && was_called(m[k], nick))
}

/// Whether a player is the one whose demo it is: the first, by number, that has or had
/// the name in its header; without such a one player 1, if they have a track, or else
/// the first that has.
pub open spec fn is_primary(
    r: Option<u32>,
    names: Map<u32, MetaView>,
    tracks: Set<u32>,
    nick: Seq<char>,
) -> bool {
    if exists|k: u32| called(names, nick).contains(k) {
        r is Some && is_lowest(called(names, nick), r)
    } else if tracks.contains(1) {
        r == Some(1u32)
    } else {
        is_lowest(tracks, r)
    }
}

fn has_alias(p: &PlayerMeta, nick: &str) -> (r: bool)
    ensures
        r == was_called(p@, nick@),
{
    if is_empty_text(nick) {
        return false;
    }
    let mut i: usize = 0;
    while i < p.aliases.len()
        invariant
            i <= p.aliases@.len(),
            nick@.len() > 0,
            forall|k: int| 0 <= k < i ==> trimmed(#[trigger] p@.aliases[k]) != nick@,
        decreases p.aliases@.len() - i,
    {
        assert(p@.aliases[i as int] == p.aliases@[i as int]@);
        let t = trim(p.aliases[i].as_str());
        if str_eq(t.as_str(), nick) {
            return true;
        }
        i += 1;
    }
    false
}

fn find_called(names: &HashMap<u32, PlayerMeta>, nick: &str) -> (r: Option<u32>)
    ensures
        match r {
            Some(k) => is_lowest(called(metas(names@), nick@), r),
            None => forall|k: u32| !called(metas(names@), nick@).contains(k),
        },
{
    let ks = sorted_keys(names);
    let ghost all = called(metas(names@), nick@);
    let mut i: usize = 0;
    while i < ks.len()
        invariant
            i <= ks@.len(),
            are_keys(ks@, names@.dom()),
            all == called(metas(names@), nick@),
            forall|q: int| 0 <= q < i ==> !all.contains(#[trigger] ks@[q]),
        decreases ks@.len() - i,
    {
        assert(ks@.contains(ks@[i as int]));
        match names.get(&ks[i]) {
            Some(p) => {
                assert(metas(names@)[ks@[i as int]] == p@);
                if has_alias(p, nick) {
                    assert forall|x: u32| all.contains(x) implies ks@[i as int] <= x by {
                        assert(ks@.contains(x));
                        let q = choose|q: int| 0 <= q < ks@.len() && ks@[q] == x;
                        assert(!all.contains(ks@[q]) || q >= i);
                    }
                    return Some(ks[i]);
                }
            },
            None => {},
        }
        i += 1;
    }
    assert forall|k: u32| !all.contains(k) by {
        if all.contains(k) {
            assert(ks@.contains(k));
            let q = choose|q: int| 0 <= q < ks@.len() && ks@[q] == k;
            assert(!all.contains(ks@[q]));
        }
    }
    None
}

fn to_metas(names: HashMap<u32, PlayerInfo>) -> (r: HashMap<u32, PlayerMeta>)
    ensures
        metas(r@) == metas_of(players_view(names@)),
{
    let ghost n0 = names@;
    let mut names = names;
    let mut out: HashMap<u32, PlayerMeta> = HashMap::new();
    let ks = sorted_keys(&names);
    let mut i: usize = 0;
    while i < ks.len()
        invariant
            i <= ks@.len(),
            are_keys(ks@, n0.dom()),
            forall|q: int|
                i <= q < ks@.len() ==> names@.contains_key(#[trigger] ks@[q]) && names@[ks@[q]]
                    == n0[ks@[q]],
            forall|q: int|
                0 <= q < i ==> out@.contains_key(#[trigger] ks@[q]) && out@[ks@[q]]@ == meta_of(
                    n0[ks@[q]]@,
                ),
            forall|x: u32| #[trigger] out@.contains_key(x) ==> ks@.contains(x),
        decreases ks@.len() - i,
    {
        let k: u32 = ks[i];
        assert(names@.contains_key(ks@[i as int]));
        match names.remove(&k) {
            Some(p) => {
                out.insert(k, PlayerMeta::from(p));
            },
            None => {},
        }
        assert(ks@.contains(k));
        i += 1;
    }
    proof {
        let want = metas_of(players_view(n0));
        assert forall|x: u32| metas(out@).contains_key(x) <==> want.contains_key(x) by {
            if want.contains_key(x) {
                assert(ks@.contains(x));
                let q = choose|q: int| 0 <= q < ks@.len() && ks@[q] == x;
                assert(out@.contains_key(ks@[q]));
            }
        }
        assert forall|x: u32| want.contains_key(x) implies metas(out@)[x] == want[x] by {
            assert(ks@.contains(x));
            let q = choose|q: int| 0 <= q < ks@.len() && ks@[q] == x;
            assert(out@.contains_key(ks@[q]));
        }
        assert(metas(out@) =~= want);
    }
    out
}

/// The tracks of a demo as those of any engine, with the player whose demo it is.
pub fn wrap_raw(raw: PlayerTrackData) -> (r: MultiPlayerData)
    ensures
        r.map@ == raw.map@,
        r.server@ == raw.server@,
        r.ticks == raw.ticks,
        r.tracks@ == raw.tracks@,
        metas(r.names@) == metas_of(players_view(raw.names@)),
        r.life_states@ == raw.life_states@,
        r.observer_modes@ == raw.observer_modes@,
        r.yaws@ == raw.yaws@,
        r.weapons@ == raw.weapons@,
        r.weapon_classes@ == raw.weapon_classes@,
        r.view_angles@ == raw.view_angles@,
        is_primary(
            r.primary_entity,
            metas_of(players_view(raw.names@)),
            raw.tracks@.dom(),
            trimmed(raw.client_name@),
        ),
{
    let names = to_metas(raw.names);
    let nick = trim(raw.client_name.as_str());
    let primary_entity: Option<u32> = match find_called(&names, nick.as_str()) {
        Some(k) => {
            assert(called(metas(names@), nick@).contains(k));
            Some(k)
        },
        None => {
            if raw.tracks.contains_key(&1) {
                Some(1)
            } else {
                lowest_key(&raw.tracks)
            }
        },
    };
    MultiPlayerData {
        map: raw.map,
        server: raw.server,
        ticks: raw.ticks,
        tracks: raw.tracks,
        names,
        life_states: raw.life_states,
        observer_modes: raw.observer_modes,
        yaws: raw.yaws,
        weapons: raw.weapons,
        weapon_classes: raw.weapon_classes,
        primary_entity,
        view_angles: raw.view_angles,
    }
}

/// The places that are kept when every `stride`-th of `len` is.
pub open spec fn strided<T>(track: Seq<T>, stride: int, i: int) -> Seq<T>
    decreases
            if i < track.len() {
                track.len() - i
            } else {
                0
            },
{
    if stride <= 0 || i < 0 || i >= track.len() {
        Seq::empty()
    } else {
        seq![track[i]] + strided(track, stride, i + stride)
    }
}

/// A track thinned to about `target` points: every so many-th one, and the last
/// where the last kept one has another tick.
pub open spec fn thinned(track: Seq<Point>, target: int) -> Seq<Point> {
    if track.len() <= target {
        track
    } else {
        let kept = strided(track, (track.len() + target - 1) / target, 0);
        if kept.last().0 != track.last().0 {
            kept.push(track.last())
        } else {
            kept
        }
    }
}

proof fn lemma_strided_some<T>(track: Seq<T>, stride: int, i: int)
    requires
        stride > 0,
        0 <= i < track.len(),
    ensures
        strided(track, stride, i).len() > 0,
{
}

/// How far apart the places are that are kept when about `target` of `len` are.
pub open spec fn stride_of(len: int, target: int) -> int {
    (len + target - 1) / target
}

proof fn lemma_stride(n: int, target: int)
    requires
        0 < target < n,
    ensures
        stride_of(n, target) == if n % target == 0 {
            n / target
        } else {
            n / target + 1
        },
        1 <= n / target,
        n % target != 0 ==> n / target < n,
{
    let q = n / target;
    let r = n % target;
    vstd::arithmetic::div_mod::lemma_fundamental_div_mod(n, target);
    assert(q >= 1) by (nonlinear_arith)
        requires
            n == target * q + r,
            0 < target < n,
            r < target,
    ;
    if r == 0 {
        assert(n + target - 1 == target * q + (target - 1));
        vstd::arithmetic::div_mod::lemma_fundamental_div_mod_converse(
            n + target - 1,
            target,
            q,
            target - 1,
        );
    } else {
        assert(n + target - 1 == target * (q + 1) + (r - 1)) by (nonlinear_arith)
            requires
                n == target * q + r,
        ;
        vstd::arithmetic::div_mod::lemma_fundamental_div_mod_converse(
            n + target - 1,
            target,
            q + 1,
            r - 1,
        );
        assert(q < n) by (nonlinear_arith)
            requires
                n == target * q + r,
                r >= 1,
                target >= 1,
                q >= 1,
        ;
    }
}

/// Every so many-th item of a list, for about `target` of them.
fn keep_strided<T: Copy>(track: &[T], target: usize) -> (out: Vec<T>)
    requires
        0 < target < track.len(),
    ensures
        out@ == strided(track@, stride_of(track@.len() as int, target as int), 0),
        out@.len() > 0,
{
    let mut out: Vec<T> = Vec::new();
    let n: usize = track.len();
    proof {
        lemma_stride(n as int, target as int);
    }
    let stride: usize = if n % target == 0 {
        n / target
    } else {
        n / target + 1
    };
    let ghost all = strided(track@, stride as int, 0);
    let mut i: usize = 0;
    proof {
        lemma_strided_some(track@, stride as int, 0);
        assert(out@ + all =~= all);
    }
    while i < n
        invariant
            n == track@.len(),
            stride >= 1,
            all == out@ + strided(track@, stride as int, i as int),
        decreases n - i,
    {
        proof {
            let rest = strided(track@, stride as int, i + stride);
            assert(out@ + (seq![track@[i as int]] + rest) =~= out@.push(track@[i as int]) + rest);
        }
        out.push(track[i]);
        if stride >= n - i {
            proof {
                let rest = strided(track@, stride as int, i + stride);
                assert(out@ + rest =~= out@);
                assert(strided(track@, stride as int, n as int) =~= Seq::empty());
                assert(out@ + Seq::<T>::empty() =~= out@);
            }
            i = n;
        } else {
            i = i + stride;
        }
    }
    assert(all =~= out@);
    out
}

pub(crate) fn copied<T: Copy>(track: &[T]) -> (out: Vec<T>)
    ensures
        out@ == track@,
{
    let mut out: Vec<T> = Vec::new();
    let mut i: usize = 0;
    while i < track.len()
        invariant
            i <= track@.len(),
            out@ == track@.take(i as int),
        decreases track@.len() - i,
    {
        out.push(track[i]);
        i += 1;
        assert(track@.take(i as int) =~= track@.take(i - 1).push(track@[i - 1]));
    }
    assert(track@.take(i as int) =~= track@);
    out
}

/// Thins a track.
pub fn subsample(track: &[Point], target: usize) -> (out: Vec<Point>)
    requires
        target > 0 || track@.len() == 0,
    ensures
        out@ == thinned(track@, target as int),
{
    if track.len() <= target {
        return copied(track);
    }
    let mut out = keep_strided(track, target);
    let last = track[track.len() - 1];
    if out[out.len() - 1].0 != last.0 {
        out.push(last);
    }
    out
}

/// Angles thinned to about `target`: every so many-th, and the last again.
pub open spec fn thinned_turns(v: Seq<Turn>, target: int) -> Seq<Turn> {
    if v.len() <= target {
        v
    } else {
        strided(v, stride_of(v.len() as int, target), 0).push(v.last())
    }
}

/// Thins a list of angles.
pub fn subsample_turns(v: &[Turn], target: usize) -> (out: Vec<Turn>)
    requires
        target > 0 || v@.len() == 0,
    ensures
        out@ == thinned_turns(v@, target as int),
{
    if v.len() <= target {
        return copied(v);
    }
    let mut out = keep_strided(v, target);
    out.push(v[v.len() - 1]);
    out
}

proof fn lemma_strided_len<T>(track: Seq<T>, stride: int, i: int)
    requires
        stride > 0,
        0 <= i,
    ensures
        i < track.len() ==> (strided(track, stride, i).len() - 1) * stride < track.len() - i,
        i >= track.len() ==> strided(track, stride, i).len() == 0,
    decreases
            if i < track.len() {
                track.len() - i
            } else {
                0
            },
{
    if i < track.len() {
        lemma_strided_len(track, stride, i + stride);
        let k = strided(track, stride, i + stride).len() as int;
        if i + stride < track.len() {
            assert(k * stride == (k - 1) * stride + stride) by (nonlinear_arith);
        }
    }
}

/// A thinned track has at most one point more than was asked for, starts where the
/// track does, and ends at the tick at which it does.
pub proof fn law_thinned(track: Seq<Point>, target: int)
    requires
        target > 0,
        track.len() > 0,
    ensures
        thinned(track, target).len() <= target + 1,
        thinned(track, target)[0] == track[0],
        thinned(track, target).last().0 == track.last().0,
{
    if track.len() > target {
        let n = track.len() as int;
        let stride = (n + target - 1) / target;
        vstd::arithmetic::div_mod::lemma_fundamental_div_mod(n + target - 1, target);
        let rem = (n + target - 1) % target;
        assert(stride > 0 && stride * target >= n) by (nonlinear_arith)
            requires
                n + target - 1 == target * stride + rem,
                0 <= rem < target,
                n > target,
                target > 0,
        ;
        lemma_strided_len(track, stride, 0);
        let k = strided(track, stride, 0).len() as int;
        assert(k - 1 < target) by (nonlinear_arith)
            requires
                (k - 1) * stride < n,
                stride * target >= n,
                stride > 0,
        ;
    }
}

} // verus!
