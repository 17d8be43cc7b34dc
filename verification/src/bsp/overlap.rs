//! Faces of a map that lie in one plane and on each other, and how they are moved apart.
use crate::bsp::Tri;
use std::collections::HashMap;
use vstd::prelude::*;

verus! {

broadcast use vstd::std_specs::hash::group_hash_axioms;

/// The plane of a triangle, rounded: its normal and its distance.
pub type Plane = (i32, i32, i32, i32);

/// The first `n` triangles that lie in a plane.
pub open spec fn in_plane(planes: Seq<Option<Plane>>, p: Plane, n: int) -> Seq<usize>
    decreases n,
{
    if n <= 0 {
        Seq::empty()
    } else if planes[n - 1] == Some(p) {
        in_plane(planes, p, n - 1).push((n - 1) as usize)
    } else {
        in_plane(planes, p, n - 1)
    }
}

/// The planes of the first `n` triangles, in the order in which they come up.
pub open spec fn planes_met(planes: Seq<Option<Plane>>, n: int) -> Seq<Plane>
    decreases n,
{
    if n <= 0 {
        Seq::empty()
    } else {
        match planes[n - 1] {
            Some(p) => if in_plane(planes, p, n - 1).len() == 0 {
                planes_met(planes, n - 1).push(p)
            } else {
                planes_met(planes, n - 1)
            },
            None => planes_met(planes, n - 1),
        }
    }
}

/// The triangles of those of the first `n` planes that hold at least two and not too
/// many.
pub open spec fn crowds(planes: Seq<Option<Plane>>, met: Seq<Plane>, n: int) -> Seq<Seq<usize>>
    decreases n,
{
    if n <= 0 {
        Seq::empty()
    } else {
        let g = in_plane(planes, met[n - 1], planes.len() as int);
        if 2 <= g.len() <= 4000 {
            crowds(planes, met, n - 1).push(g)
        } else {
            crowds(planes, met, n - 1)
        }
    }
}

/// The groups of triangles that are to be looked at: those in one plane.
pub open spec fn plane_groups(planes: Seq<Option<Plane>>) -> Seq<Seq<usize>> {
    let met = planes_met(planes, planes.len() as int);
    crowds(planes, met, met.len() as int)
}

spec fn packed(p: Plane) -> u128 {
    ((p.0 + 0x8000_0000) * 0x1_0000_0000_0000_0000_0000_0000 + (p.1 + 0x8000_0000)
        * 0x1_0000_0000_0000_0000 + (p.2 + 0x8000_0000) * 0x1_0000_0000 + (p.3 + 0x8000_0000)) as u128
}

fn pack(p: Plane) -> (k: u128)
    ensures
        k == packed(p),
{
    let a: u128 = (p.0 as i64 + 0x8000_0000) as u128;
    let b: u128 = (p.1 as i64 + 0x8000_0000) as u128;
    let c: u128 = (p.2 as i64 + 0x8000_0000) as u128;
    let d: u128 = (p.3 as i64 + 0x8000_0000) as u128;
    a * 0x1_0000_0000_0000_0000_0000_0000 + b * 0x1_0000_0000_0000_0000 + c * 0x1_0000_0000 + d
}

proof fn lemma_packed(p: Plane, q: Plane)
    requires
        packed(p) == packed(q),
    ensures
        p == q,
{
    let (a, b, c, d) = (
        p.0 + 0x8000_0000,
        p.1 + 0x8000_0000,
        p.2 + 0x8000_0000,
        p.3 + 0x8000_0000,
    );
    let (e, f, g, h) = (
        q.0 + 0x8000_0000,
        q.1 + 0x8000_0000,
        q.2 + 0x8000_0000,
        q.3 + 0x8000_0000,
    );
    let x = ((a * 0x1_0000_0000 + b) * 0x1_0000_0000 + c) * 0x1_0000_0000 + d;
    let y = ((e * 0x1_0000_0000 + f) * 0x1_0000_0000 + g) * 0x1_0000_0000 + h;
    assert(x == y);
    assert((a * 0x1_0000_0000 + b) * 0x1_0000_0000 + c == (e * 0x1_0000_0000 + f) * 0x1_0000_0000
        + g);
    assert(a * 0x1_0000_0000 + b == e * 0x1_0000_0000 + f);
}

/// Whether a map holds, by their planes, the first `n` triangles.
spec fn filed(m: Map<u128, Vec<usize>>, planes: Seq<Option<Plane>>, n: int) -> bool {
    forall|p: Plane|
        {
            let g = #[trigger] in_plane(planes, p, n);
            &&& m.contains_key(packed(p)) <==> g.len() > 0
            &&& m.contains_key(packed(p)) ==> m[packed(p)]@ == g
        }
}

fn file_one(m: &mut HashMap<u128, Vec<usize>>, p: Plane, i: usize, Ghost(planes): Ghost<
    Seq<Option<Plane>>,
>) -> (first: bool)
    requires
        i < planes.len(),
        planes[i as int] == Some(p),
        filed(old(m)@, planes, i as int),
    ensures
        filed(final(m)@, planes, i + 1),
        first == (in_plane(planes, p, i as int).len() == 0),
{
    let k: u128 = pack(p);
    let ghost m0 = m@;
    assert(in_plane(planes, p, i as int).len() > 0 <==> m0.contains_key(k));
    let (mut g, first): (Vec<usize>, bool) = match m.remove(&k) {
        Some(g) => (g, false),
        None => (Vec::new(), true),
    };
    assert(g@ =~= in_plane(planes, p, i as int));
    g.push(i);
    let ghost gv = g;
    m.insert(k, g);
    proof {
        assert(m@ =~= m0.insert(k, gv));
        assert forall|q: Plane|
            {
                let s = #[trigger] in_plane(planes, q, i + 1);
                &&& m@.contains_key(packed(q)) <==> s.len() > 0
                &&& m@.contains_key(packed(q)) ==> m@[packed(q)]@ == s
            } by {
            let t = in_plane(planes, q, i as int);
            if packed(q) == k {
                lemma_packed(p, q);
            }
        }
    }
    first
}

/// A plane that came up holds a triangle.
proof fn lemma_met(planes: Seq<Option<Plane>>, n: int, x: int)
    requires
        0 <= n <= planes.len(),
        0 <= x < planes_met(planes, n).len(),
    ensures
        in_plane(planes, planes_met(planes, n)[x], n).len() > 0,
    decreases n,
{
    if n > 0 {
        let before = planes_met(planes, n - 1);
        if x < before.len() {
            lemma_met(planes, n - 1, x);
            assert(planes_met(planes, n)[x] == before[x]);
        }
    }
}

/// Groups the triangles by their planes.
pub fn group_planes(planes: &Vec<Option<Plane>>) -> (r: Vec<Vec<usize>>)
    ensures
        r@.map_values(|g: Vec<usize>| g@) == plane_groups(planes@),
{
    let ghost ps = planes@;
    let mut m: HashMap<u128, Vec<usize>> = HashMap::new();
    let mut met: Vec<Plane> = Vec::new();
    let mut i: usize = 0;
    assert(filed(m@, ps, 0));
    while i < planes.len()
        invariant
            i <= planes@.len(),
            ps == planes@,
            filed(m@, ps, i as int),
            met@ == planes_met(ps, i as int),
        decreases planes@.len() - i,
    {
        match planes[i] {
            Some(p) => {
                let first = file_one(&mut m, p, i, Ghost(ps));
                if first {
                    met.push(p);
                }
            },
            None => {
                assert forall|q: Plane|
                    {
                        let s = #[trigger] in_plane(ps, q, i + 1);
                        &&& m@.contains_key(packed(q)) <==> s.len() > 0
                        &&& m@.contains_key(packed(q)) ==> m@[packed(q)]@ == s
                    } by {
                    let t = in_plane(ps, q, i as int);
                }
            },
        }
        i += 1;
    }
    let mut out: Vec<Vec<usize>> = Vec::new();
    let mut j: usize = 0;
    assert forall|x: int| 0 <= x < met@.len() implies m@.contains_key(
        packed(#[trigger] met@[x]),
    ) by {
        lemma_met(ps, ps.len() as int, x);
    }
    assert(out@.map_values(|g: Vec<usize>| g@) =~= crowds(ps, met@, 0));
    while j < met.len()
        invariant
            j <= met@.len(),
            filed(m@, ps, ps.len() as int),
            forall|x: int|
                j <= x < met@.len() ==> m@.contains_key(packed(#[trigger] met@[x])),
            out@.map_values(|g: Vec<usize>| g@) == crowds(ps, met@, j as int),
        decreases met@.len() - j,
    {
        let k: u128 = pack(met[j]);
        let ghost p = met@[j as int];
        assert(in_plane(ps, p, ps.len() as int).len() >= 0);
        match m.get(&k) {
            Some(g) => {
                if g.len() >= 2 && g.len() <= 4000 {
                    let copy = crate::multi_player::copied(g.as_slice());
                    let ghost before = out@.map_values(|g: Vec<usize>| g@);
                    let ghost c = copy@;
                    out.push(copy);
                    assert(out@.map_values(|g: Vec<usize>| g@) =~= before.push(c));
                }
            },
            None => {},
        }
        j += 1;
    }
    out
}

/// In which of sixteen steps a triangle is moved: by its number, scattered.
pub fn nudge_step(i: usize) -> (r: u8)
    ensures
        r == ((i as u64).wrapping_mul(0x9e37_79b9_7f4a_7c15) >> 28) & 0xf,
        r < 16,
{
    let h: u64 = (i as u64).wrapping_mul(0x9e37_79b9_7f4a_7c15) >> 28;
    assert(h & 0xf < 16) by (bit_vector);
    (h & 0xf) as u8
}

/// The triangles when those in `apart` have vertices of their own, which are numbered from
/// `n` on, three for each in order.
pub open spec fn with_own(tris: Seq<Tri>, apart: Seq<usize>, n: int, k: int) -> Seq<Tri>
    decreases k,
{
    if k <= 0 {
        tris
    } else {
        with_own(tris, apart, n, k - 1).update(
            apart[k - 1] as int,
            (
                (n + 3 * (k - 1)) as u32,
                (n + 3 * (k - 1) + 1) as u32,
                (n + 3 * (k - 1) + 2) as u32,
            ),
        )
    }
}

/// The vertices that the new ones are moved from.
pub open spec fn sources(tris: Seq<Tri>, apart: Seq<usize>, k: int) -> Seq<u32>
    decreases k,
{
    if k <= 0 {
        Seq::empty()
    } else {
        let t = tris[apart[k - 1] as int];
        sources(tris, apart, k - 1).push(t.0).push(t.1).push(t.2)
    }
}

/// Gives triangles vertices of their own, so that moving them drags no neighbours along:
/// the triangles, and for each new vertex the one that it is moved from. No triangle is
/// given them twice.
pub fn give_own(tris: Vec<Tri>, apart: &Vec<usize>, n: usize) -> (r: (Vec<Tri>, Vec<u32>))
    requires
        n + 3 * apart@.len() <= u32::MAX,
        forall|i: int| 0 <= i < apart@.len() ==> #[trigger] apart@[i] < tris@.len(),
        forall|i: int, j: int| 0 <= i < j < apart@.len() ==> apart@[i] != apart@[j],
    ensures
        r.0@ == with_own(tris@, apart@, n as int, apart@.len() as int),
        r.1@ == sources(tris@, apart@, apart@.len() as int),
        r.0@.len() == tris@.len(),
        r.1@.len() == 3 * apart@.len(),
{
    let ghost t0 = tris@;
    let mut tris = tris;
    let mut from: Vec<u32> = Vec::new();
    let mut i: usize = 0;
    while i < apart.len()
        invariant
            i <= apart@.len(),
            n + 3 * apart@.len() <= u32::MAX,
            tris@.len() == t0.len(),
            forall|i: int| 0 <= i < apart@.len() ==> #[trigger] apart@[i] < t0.len(),
            forall|i: int, j: int| 0 <= i < j < apart@.len() ==> apart@[i] != apart@[j],
            forall|j: int|
                i <= j < apart@.len() ==> tris@[#[trigger] apart@[j] as int]
                    == t0[apart@[j] as int],
            tris@ == with_own(t0, apart@, n as int, i as int),
            from@ == sources(t0, apart@, i as int),
            from@.len() == 3 * i,
        decreases apart@.len() - i,
    {
        let j: usize = apart[i];
        assert(apart@[i as int] < t0.len());
        let t = tris[j];
        from.push(t.0);
        from.push(t.1);
        from.push(t.2);
        let base: u32 = (n + 3 * i) as u32;
        tris.set(j, (base, base + 1, base + 2));
        i += 1;
    }
    (tris, from)
}

/// Moving triangles apart leaves the others as they were.
pub proof fn law_others_stay(tris: Seq<Tri>, apart: Seq<usize>, n: int, k: int, i: int)
    requires
        0 <= k <= apart.len(),
        0 <= i < tris.len(),
        forall|j: int| 0 <= j < apart.len() ==> #[trigger] apart[j] < tris.len() && apart[j] != i,
    ensures
        with_own(tris, apart, n, k).len() == tris.len(),
        with_own(tris, apart, n, k)[i] == tris[i],
    decreases k,
{
    if k > 0 {
        law_others_stay(tris, apart, n, k - 1, i);
        assert(apart[k - 1] < tris.len() && apart[k - 1] != i);
    }
}

} // verus!
