//! Where the players are and where they look. Coordinates and angles are the bits of
//! IEEE-754 numbers; how far two of them are apart is for others to say.
use crate::maps::{list_of, lists, push_to, pushed};
use crate::multi_player::{Point, Turn};
use std::collections::HashMap;
use vstd::prelude::*;

verus! {

broadcast use vstd::std_specs::hash::group_hash_axioms;

pub type Place = (u32, u32, u32);

/// A place as far as it is given.
pub type Spot = (Option<u32>, Option<u32>, Option<u32>);

/// For each place that an entity gives: what it was last, and how often it moved. The
/// one that moves most is where the player is.
#[derive(Debug)]
pub struct OriginTracker {
    pub last: Vec<Option<Place>>,
    pub changes: Vec<u32>,
}

/// What an `OriginTracker` says.
#[verifier::ext_equal]
pub struct Tracker {
    pub last: Seq<Option<Place>>,
    pub changes: Seq<u32>,
}

impl OriginTracker {
    pub open spec fn view(&self) -> Tracker {
        Tracker { last: self.last@, changes: self.changes@ }
    }
}

pub open spec fn no_tracker() -> Tracker {
    Tracker { last: Seq::empty(), changes: Seq::empty() }
}

/// A tracker of at least `n` places.
pub open spec fn grown(t: Tracker, n: nat) -> Tracker {
    if t.last.len() >= n {
        t
    } else {
        Tracker {
            last: t.last + Seq::new((n - t.last.len()) as nat, |i: int| None),
            changes: t.changes + Seq::new((n - t.last.len()) as nat, |i: int| 0u32),
        }
    }
}

/// After the first `n` places: each that is given is the last one, and one that moved
/// since it was given before has moved once more. Counts do not go beyond `u32::MAX`.
pub open spec fn weighed(t: Tracker, spots: Seq<Spot>, moved: Seq<bool>, n: int) -> Tracker
    decreases n,
{
    if n <= 0 {
        t
    } else {
        let b = weighed(t, spots, moved, n - 1);
        let k = n - 1;
        match (spots[k].0, spots[k].1) {
            (Some(x), Some(y)) => Tracker {
                last: b.last.update(
                    k,
                    Some(
                        (
                            x,
                            y,
                            match spots[k].2 {
                                Some(z) => z,
                                None => 0,
                            },
                        ),
                    ),
                ),
                changes: if moved[k] && b.last[k] is Some && b.changes[k] < u32::MAX {
                    b.changes.update(k, (b.changes[k] + 1) as u32)
                } else {
                    b.changes
                },
            },
            _ => b,
        }
    }
}

/// The first of the first `n` that moved most often.
pub open spec fn liveliest(changes: Seq<u32>, n: int) -> int
    decreases n,
{
    if n <= 1 {
        0
    } else {
        let b = liveliest(changes, n - 1);
        if changes[n - 1] > changes[b] {
            n - 1
        } else {
            b
        }
    }
}

/// The place that is kept up: of those that moved most often the first.
pub proof fn law_liveliest(changes: Seq<u32>, n: int)
    requires
        0 < n <= changes.len(),
    ensures
        0 <= liveliest(changes, n) < n,
        forall|i: int| 0 <= i < n ==> #[trigger] changes[i] <= changes[liveliest(changes, n)],
        forall|i: int|
            0 <= i < liveliest(changes, n) ==> #[trigger] changes[i] < changes[liveliest(
                changes,
                n,
            )],
    decreases n,
{
    if n > 1 {
        law_liveliest(changes, n - 1);
    }
}

/// The place that is kept up, if it is given.
pub open spec fn live_spot(t: Tracker, spots: Seq<Spot>) -> Spot {
    let b = liveliest(t.changes, t.changes.len() as int);
    if 0 <= b < spots.len() {
        spots[b]
    } else {
        (None, None, None)
    }
}

/// A number without its sign.
pub open spec fn magnitude(b: u32) -> u32 {
    (b % 0x8000_0000) as u32
}

/// Whether two numbers differ, by their bits: one is not a number, or they have other
/// bits and are not both zero.
pub open spec fn differs(a: u32, b: u32) -> bool {
    ||| magnitude(a) > 0x7f80_0000
    ||| magnitude(b) > 0x7f80_0000
    ||| a != b && !(magnitude(a) == 0 && magnitude(b) == 0)
}

fn differ(a: u32, b: u32) -> (r: bool)
    ensures
        r == differs(a, b),
{
    let x: u32 = a % 0x8000_0000;
    let y: u32 = b % 0x8000_0000;
    x > 0x7f80_0000 || y > 0x7f80_0000 || (a != b && !(x == 0 && y == 0))
}

/// A coordinate as it is now, and whether it changed.
pub open spec fn coordinate(was: u32, now: Option<u32>) -> (u32, bool) {
    match now {
        Some(v) => if differs(was, v) {
            (v, true)
        } else {
            (was, false)
        },
        None => (was, false),
    }
}

/// A place as it is now, and whether it changed. Where heights are `gated`, one that
/// changes alone is not believed.
pub open spec fn moved_to(was: Place, spot: Spot, gated: bool) -> (Place, bool) {
    let (x, a) = coordinate(was.0, spot.0);
    let (y, b) = coordinate(was.1, spot.1);
    if gated && !a && !b {
        ((x, y, was.2), false)
    } else {
        let (z, c) = coordinate(was.2, spot.2);
        ((x, y, z), a || b || c)
    }
}

/// A height that changes alone is believed only where heights are not gated.
pub proof fn law_gate(was: Place, spot: Spot)
    requires
        !coordinate(was.0, spot.0).1,
        !coordinate(was.1, spot.1).1,
    ensures
        moved_to(was, spot, true) == (was, false),
        moved_to(was, spot, false).1 == coordinate(was.2, spot.2).1,
{
}

/// Where the players have been.
pub struct Paths {
    places: HashMap<u32, Place>,
    origins: HashMap<u32, OriginTracker>,
    tracks: HashMap<u32, Vec<Point>>,
    yaws: HashMap<u32, Vec<Turn>>,
}

/// What `Paths` say.
pub struct Trails {
    pub places: Map<u32, Place>,
    pub origins: Map<u32, Tracker>,
    pub tracks: Map<u32, Seq<Point>>,
    pub yaws: Map<u32, Seq<Turn>>,
}

pub open spec fn trackers(m: Map<u32, OriginTracker>) -> Map<u32, Tracker> {
    m.map_values(|t: OriginTracker| t@)
}

pub open spec fn tracker_of(t: Trails, k: u32) -> Tracker {
    if t.origins.contains_key(k) {
        t.origins[k]
    } else {
        no_tracker()
    }
}

/// Where a player was last; at the origin before they are seen.
pub open spec fn place_of(t: Trails, k: u32) -> Place {
    if t.places.contains_key(k) {
        t.places[k]
    } else {
        (0, 0, 0)
    }
}

pub open spec fn tracker_after(t: Trails, k: u32, spots: Seq<Spot>, moved: Seq<bool>) -> Tracker {
    weighed(grown(tracker_of(t, k), spots.len()), spots, moved, spots.len() as int)
}

/// After a player is seen, and where they are then, if that changed.
pub open spec fn placed(t: Trails, k: u32, spots: Seq<Spot>, moved: Seq<bool>, gated: bool) -> (
    Trails,
    Option<Place>,
) {
    let tracker = tracker_after(t, k, spots, moved);
    let (at, changed) = moved_to(place_of(t, k), live_spot(tracker, spots), gated);
    (
        Trails { places: t.places.insert(k, at), origins: t.origins.insert(k, tracker), ..t },
        if changed {
            Some(at)
        } else {
            None
        },
    )
}

/// A place becomes a point of a player's track unless it is close to the last one, or
/// would be the first one and is near the origin. The track exists in any case.
pub open spec fn recorded(
    m: Map<u32, Seq<Point>>,
    k: u32,
    tick: i32,
    at: Place,
    near: bool,
    close: bool,
) -> Map<u32, Seq<Point>> {
    let l = list_of(m, k);
    if (near && l.len() == 0) || (close && l.len() > 0) {
        m.insert(k, l)
    } else {
        m.insert(k, l.push((tick, at.0, at.1, at.2)))
    }
}

/// Angles are noted where they are the first, or far from the last.
pub open spec fn turned(m: Map<u32, Seq<Turn>>, k: u32, t: Turn, far: bool) -> Map<u32, Seq<Turn>> {
    if far || list_of(m, k).len() == 0 {
        pushed(m, k, t)
    } else {
        m
    }
}

impl Paths {
    pub closed spec fn view(&self) -> Trails {
        Trails {
            places: self.places@,
            origins: trackers(self.origins@),
            tracks: lists(self.tracks@),
            yaws: lists(self.yaws@),
        }
    }

    /// Each place of a tracker has its count.
    pub closed spec fn wf(&self) -> bool {
        forall|k: u32|
            #[trigger] self.origins@.contains_key(k) ==> self.origins@[k].last@.len()
                == self.origins@[k].changes@.len()
    }

    pub fn new() -> (p: Self)
        ensures
            p.wf(),
            p@ == (Trails {
                places: Map::empty(),
                origins: Map::empty(),
                tracks: Map::empty(),
                yaws: Map::empty(),
            }),
    {
        let p = Paths {
            places: HashMap::new(),
            origins: HashMap::new(),
            tracks: HashMap::new(),
            yaws: HashMap::new(),
        };
        assert(p@.places =~= Map::empty());
        assert(p@.origins =~= Map::empty());
        assert(p@.tracks =~= Map::empty());
        assert(p@.yaws =~= Map::empty());
        p
    }

    /// What a player's places were last, in the order in which they are given.
    pub fn last_spots(&self, player: u32) -> (r: Vec<Option<Place>>)
        ensures
            r@ == tracker_of(self@, player).last,
    {
        let mut out: Vec<Option<Place>> = Vec::new();
        match self.origins.get(&player) {
            Some(t) => {
                let mut i: usize = 0;
                while i < t.last.len()
                    invariant
                        i <= t.last@.len(),
                        out@ == t.last@.take(i as int),
                    decreases t.last@.len() - i,
                {
                    out.push(t.last[i]);
                    assert(t.last@.take(i + 1) =~= t.last@.take(i as int).push(t.last@[i as int]));
                    i += 1;
                }
                assert(t.last@.take(i as int) =~= t.last@);
                assert(self@.origins[player] == t@);
            },
            None => {},
        }
        out
    }

    /// Sees a player: `spots` are the places that the entity gives, `moved` whether
    /// each is away from what it was last.
    pub fn place(&mut self, player: u32, spots: &Vec<Spot>, moved: &Vec<bool>, gated: bool) -> (at:
        Option<Place>)
        requires
            old(self).wf(),
            moved@.len() == spots@.len(),
        ensures
            final(self).wf(),
            (final(self)@, at) == placed(old(self)@, player, spots@, moved@, gated),
    {
        let ghost t0 = self@;
        let mut t = match self.origins.remove(&player) {
            Some(t) => t,
            None => OriginTracker { last: Vec::new(), changes: Vec::new() },
        };
        assert(t@ =~= tracker_of(t0, player));
        let ghost g0 = t@;
        while t.last.len() < spots.len()
            invariant
                t.last@.len() == t.changes@.len(),
                t.last@.len() >= g0.last.len(),
                g0.last.len() == g0.changes.len(),
                t.last@.len() > g0.last.len() ==> t.last@.len() <= spots@.len(),
                t@ == grown(g0, t.last@.len()),
            decreases spots@.len() - t.last@.len(),
        {
            t.last.push(None);
            t.changes.push(0);
            assert(t@ =~= grown(g0, t.last@.len()));
        }
        let ghost g = t@;
        assert(g == grown(g0, spots@.len()));
        let mut i: usize = 0;
        while i < spots.len()
            invariant
                i <= spots@.len(),
                moved@.len() == spots@.len(),
                t.last@.len() == t.changes@.len(),
                t.last@.len() >= spots@.len(),
                t@ == weighed(g, spots@, moved@, i as int),
            decreases spots@.len() - i,
        {
            let s = spots[i];
            match s.0 {
                Some(x) => match s.1 {
                    Some(y) => {
                        let z: u32 = match s.2 {
                            Some(z) => z,
                            None => 0,
                        };
                        if moved[i] && t.last[i].is_some() && t.changes[i] < u32::MAX {
                            let c: u32 = t.changes[i] + 1;
                            t.changes.set(i, c);
                        }
                        t.last.set(i, Some((x, y, z)));
                    },
                    None => {},
                },
                None => {},
            }
            i += 1;
        }
        let n: usize = t.changes.len();
        let mut best: usize = 0;
        let mut k: usize = 1;
        while k < n
            invariant
                n == t.changes@.len(),
                k >= 1,
                n == 0 || k <= n,
                n == 0 || best < n,
                best == liveliest(t.changes@, k as int),
            decreases n - k,
        {
            if t.changes[k] > t.changes[best] {
                best = k;
            }
            k += 1;
        }
        let spot: Spot = if best < spots.len() {
            spots[best]
        } else {
            (None, None, None)
        };
        assert(spot == live_spot(t@, spots@));
        let was: Place = match self.places.get(&player) {
            Some(p) => *p,
            None => (0, 0, 0),
        };
        let mut at = was;
        let mut level = false;
        match spot.0 {
            Some(x) => {
                if differ(was.0, x) {
                    at.0 = x;
                    level = true;
                }
            },
            None => {},
        }
        match spot.1 {
            Some(y) => {
                if differ(was.1, y) {
                    at.1 = y;
                    level = true;
                }
            },
            None => {},
        }
        let mut changed = level;
        if !gated || level {
            match spot.2 {
                Some(z) => {
                    if differ(was.2, z) {
                        at.2 = z;
                        changed = true;
                    }
                },
                None => {},
            }
        }
        let ghost tv = t@;
        self.places.insert(player, at);
        self.origins.insert(player, t);
        assert(self@.origins =~= t0.origins.insert(player, tv));
        if changed {
            Some(at)
        } else {
            None
        }
    }

    /// The last point of a player's track.
    pub fn last_point(&self, player: u32) -> (r: Option<Point>)
        ensures
            r == if list_of(self@.tracks, player).len() > 0 {
                Some(list_of(self@.tracks, player).last())
            } else {
                None
            },
    {
        match self.tracks.get(&player) {
            Some(l) => {
                assert(self@.tracks[player] == l@);
                let n: usize = l.len();
                if n > 0 {
                    Some(l[n - 1])
                } else {
                    None
                }
            },
            None => None,
        }
    }

    /// Records where a player is, given whether that is near the origin and whether it
    /// is close to the last point of their track.
    pub fn record(&mut self, tick: i32, player: u32, at: Place, near: bool, close: bool)
        requires
            old(self).wf(),
        ensures
            final(self).wf(),
            final(self)@ == (Trails {
                tracks: recorded(old(self)@.tracks, player, tick, at, near, close),
                ..old(self)@
            }),
    {
        let ghost m0 = lists(self.tracks@);
        let mut l = match self.tracks.remove(&player) {
            Some(l) => l,
            None => Vec::new(),
        };
        assert(l@ =~= list_of(m0, player));
        let skip = (near && l.len() == 0) || (close && l.len() > 0);
        if !skip {
            l.push((tick, at.0, at.1, at.2));
        }
        let ghost s = l@;
        self.tracks.insert(player, l);
        assert(lists(self.tracks@) =~= m0.insert(player, s));
    }

    /// The last angles of a player.
    pub fn last_turn(&self, player: u32) -> (r: Option<Turn>)
        ensures
            r == if list_of(self@.yaws, player).len() > 0 {
                Some(list_of(self@.yaws, player).last())
            } else {
                None
            },
    {
        match self.yaws.get(&player) {
            Some(l) => {
                assert(self@.yaws[player] == l@);
                let n: usize = l.len();
                if n > 0 {
                    Some(l[n - 1])
                } else {
                    None
                }
            },
            None => None,
        }
    }

    /// Records where a player looks, given whether that is far from where they looked
    /// last.
    pub fn turn(&mut self, player: u32, t: Turn, far: bool)
        requires
            old(self).wf(),
        ensures
            final(self).wf(),
            final(self)@ == (Trails {
                yaws: turned(old(self)@.yaws, player, t, far),
                ..old(self)@
            }),
    {
        if far || self.last_turn(player).is_none() {
            push_to(&mut self.yaws, player, t);
        }
    }

    /// The tracks and the angles of the players.
    pub fn into_lists(self) -> (r: (HashMap<u32, Vec<Point>>, HashMap<u32, Vec<Turn>>))
        ensures
            lists(r.0@) == self@.tracks,
            lists(r.1@) == self@.yaws,
    {
        (self.tracks, self.yaws)
    }
}

} // verus!
