//! Map geometry: lumps into triangle meshes, encoded for the viewer.
//!
//! Coordinates are carried as the IEEE-754 bits that the map file holds.
pub mod goldsrc;
pub mod overlap;
pub mod quake;
pub mod sent;
pub mod source;
pub mod spawn;

use crate::bytes::{i32_at, le_i32, le_u16, le_u32, u16_at, u32_at};
use base64::engine::general_purpose::STANDARD;
use base64::Engine as _;
use vstd::prelude::*;

verus! {

/// A position: the bits of its three coordinates.
pub type Vertex = (u32, u32, u32);

/// A triangle: the numbers of its three corners.
pub type Tri = (u32, u32, u32);

/// No more faces are walked once this many triangles are found.
pub const MAX_TRIS: usize = 600_000;

/// The character for a six-bit number in the standard base64 alphabet.
pub open spec fn b64_char(v: int) -> char {
    if v < 26 {
        (65 + v) as char
    } else if v < 52 {
        (97 + v - 26) as char
    } else if v < 62 {
        (48 + v - 52) as char
    } else if v == 62 {
        '+'
    } else {
        '/'
    }
}

/// Standard base64 with padding.
pub open spec fn b64(s: Seq<u8>) -> Seq<char>
    decreases s.len(),
{
    if s.len() == 0 {
        Seq::empty()
    } else if s.len() == 1 {
        seq![b64_char(s[0] as int / 4), b64_char((s[0] as int % 4) * 16), '=', '=']
    } else if s.len() == 2 {
        seq![
            b64_char(s[0] as int / 4),
            b64_char((s[0] as int % 4) * 16 + s[1] as int / 16),
            b64_char((s[1] as int % 16) * 4),
            '=',
        ]
    } else {
        seq![
            b64_char(s[0] as int / 4),
            b64_char((s[0] as int % 4) * 16 + s[1] as int / 16),
            b64_char((s[1] as int % 16) * 4 + s[2] as int / 64),
            b64_char(s[2] as int % 64),
        ] + b64(s.skip(3))
    }
}

/// Calls `base64`'s standard engine: the padded encoding in the standard alphabet.
/// It panics where the encoding's length does not fit a `usize`.
#[verifier::external_body]
pub(crate) fn base64_text(bytes: &[u8]) -> (s: String)
    requires
        4 * ((bytes@.len() + 2) / 3) <= usize::MAX,
    ensures
        s@ == b64(bytes@),
{
    STANDARD.encode(bytes)
}

/// A lump's place, by the directory entry `i` of a directory at `base`; empty
/// where it does not lie within the file.
pub open spec fn lump_at(d: Seq<u8>, base: int, i: int) -> (int, int) {
    let off = i32_at(d, base + 8 * i);
    let len = i32_at(d, base + 8 * i + 4);
    if off < 0 || len < 0 || off + len > d.len() {
        (0, 0)
    } else {
        (off, len)
    }
}

pub(crate) fn lump(d: &[u8], base: usize, i: usize) -> (r: (usize, usize))
    requires
        base <= 8,
        i <= 18,
        base + 8 * i + 8 <= d.len(),
    ensures
        r.0 == lump_at(d@, base as int, i as int).0,
        r.1 == lump_at(d@, base as int, i as int).1,
        r.0 + r.1 <= d.len(),
{
    let off: i32 = le_i32(d, base + 8 * i);
    let len: i32 = le_i32(d, base + 8 * i + 4);
    if off < 0 || len < 0 || off as u64 + len as u64 > d.len() as u64 {
        (0, 0)
    } else {
        (off as usize, len as usize)
    }
}

pub open spec fn vertex_at(d: Seq<u8>, o: int) -> Vertex {
    (u32_at(d, o) as u32, u32_at(d, o + 4) as u32, u32_at(d, o + 8) as u32)
}

/// The positions at the start of `n` records of `stride` bytes.
pub open spec fn vertices(d: Seq<u8>, off: int, stride: int, n: int) -> Seq<Vertex> {
    Seq::new(n as nat, |i: int| vertex_at(d, off + stride * i))
}

pub(crate) fn read_vertices(d: &[u8], off: usize, stride: usize, n: usize) -> (r: Vec<Vertex>)
    requires
        12 <= stride,
        off + stride * n <= d.len(),
    ensures
        r@ == vertices(d@, off as int, stride as int, n as int),
{
    let mut out: Vec<Vertex> = Vec::new();
    let mut i: usize = 0;
    let mut o: usize = off;
    proof {
        assert(stride * 0 == 0) by (nonlinear_arith);
    }
    while i < n
        invariant
            i <= n,
            12 <= stride,
            o == off + stride * i,
            off + stride * n <= d.len(),
            out@.len() == i,
            forall|k: int| 0 <= k < i ==> out@[k] == vertex_at(d@, off + stride * k),
        decreases n - i,
    {
        proof {
            assert(stride * (i + 1) == stride * i + stride) by (nonlinear_arith);
            assert(stride * (i + 1) <= stride * n) by (nonlinear_arith)
                requires
                    i < n,
            ;
        }
        out.push((le_u32(d, o), le_u32(d, o + 4), le_u32(d, o + 8)));
        o = o + stride;
        i += 1;
    }
    assert(out@ =~= vertices(d@, off as int, stride as int, n as int));
    out
}

/// `n` edges: pairs of vertex numbers.
pub open spec fn edge_list(d: Seq<u8>, off: int, n: int) -> Seq<(u16, u16)> {
    Seq::new(n as nat, |i: int| (u16_at(d, off + 4 * i) as u16, u16_at(d, off + 4 * i + 2) as u16))
}

pub(crate) fn read_edges(d: &[u8], off: usize, n: usize) -> (r: Vec<(u16, u16)>)
    requires
        off + 4 * n <= d.len(),
    ensures
        r@ == edge_list(d@, off as int, n as int),
{
    let mut out: Vec<(u16, u16)> = Vec::new();
    let mut i: usize = 0;
    while i < n
        invariant
            i <= n,
            off + 4 * n <= d.len(),
            out@.len() == i,
            forall|k: int|
                0 <= k < i ==> out@[k] == (
                    u16_at(d@, off + 4 * k) as u16,
                    u16_at(d@, off + 4 * k + 2) as u16,
                ),
        decreases n - i,
    {
        out.push((le_u16(d, off + 4 * i), le_u16(d, off + 4 * i + 2)));
        i += 1;
    }
    assert(out@ =~= edge_list(d@, off as int, n as int));
    out
}

/// `n` signed numbers.
pub open spec fn int_list(d: Seq<u8>, off: int, n: int) -> Seq<i32> {
    Seq::new(n as nat, |i: int| i32_at(d, off + 4 * i) as i32)
}

pub(crate) fn read_ints(d: &[u8], off: usize, n: usize) -> (r: Vec<i32>)
    requires
        off + 4 * n <= d.len(),
    ensures
        r@ == int_list(d@, off as int, n as int),
{
    let mut out: Vec<i32> = Vec::new();
    let mut i: usize = 0;
    while i < n
        invariant
            i <= n,
            off + 4 * n <= d.len(),
            out@.len() == i,
            forall|k: int| 0 <= k < i ==> out@[k] == i32_at(d@, off + 4 * k) as i32,
        decreases n - i,
    {
        out.push(le_i32(d, off + 4 * i));
        i += 1;
    }
    assert(out@ =~= int_list(d@, off as int, n as int));
    out
}

/// The faces of the world model: those from `first` on, `count` of them, as far
/// as there are. A negative count reaches to the last face.
pub open spec fn world_end(first: int, count: int, n_faces: int) -> int {
    if first + count < 0 || first + count > n_faces {
        n_faces
    } else {
        first + count
    }
}

pub(crate) fn find_world_end(first: i32, count: i32, n_faces: usize) -> (r: usize)
    ensures
        r == world_end(first as int, count as int, n_faces as int),
{
    let sum: i64 = first as i64 + count as i64;
    if sum < 0 || sum as u64 > n_faces as u64 {
        n_faces
    } else {
        sum as usize
    }
}

/// The corner that a surfedge starts at: its edge's first vertex or, for a
/// negative one, its second. None where there is no such edge.
pub open spec fn surfedge_vertex(s: i32, edges: Seq<(u16, u16)>) -> Option<u32> {
    if s >= 0 {
        if s < edges.len() {
            Some(edges[s as int].0 as u32)
        } else {
            None
        }
    } else if -s < edges.len() {
        Some(edges[-s].1 as u32)
    } else {
        None
    }
}

/// A face's corners: those of its surfedges `first + i` to `first + n`, up to the
/// first one that is not in the list; one without an edge is left out.
pub open spec fn corners(
    se: Seq<i32>,
    edges: Seq<(u16, u16)>,
    first: int,
    i: int,
    n: int,
) -> Seq<u32>
    decreases n - i,
{
    if i >= n || first + i < 0 || first + i >= se.len() {
        Seq::empty()
    } else {
        match surfedge_vertex(se[first + i], edges) {
            Some(v) => seq![v] + corners(se, edges, first, i + 1, n),
            None => corners(se, edges, first, i + 1, n),
        }
    }
}

fn corner_of(s: i32, edges: &Vec<(u16, u16)>) -> (r: Option<u32>)
    ensures
        r == surfedge_vertex(s, edges@),
{
    if s >= 0 {
        if (s as u64) < edges.len() as u64 {
            Some(edges[s as usize].0 as u32)
        } else {
            None
        }
    } else {
        let m: u64 = (-(s as i64)) as u64;
        if m < edges.len() as u64 {
            Some(edges[m as usize].1 as u32)
        } else {
            None
        }
    }
}

pub(crate) fn face_corners(se: &Vec<i32>, edges: &Vec<(u16, u16)>, first: i32, n: i32) -> (r: Vec<
    u32,
>)
    ensures
        r@ == corners(se@, edges@, first as int, 0, n as int),
        forall|k: int| 0 <= k < r@.len() ==> #[trigger] r@[k] < 0x1_0000,
{
    let mut out: Vec<u32> = Vec::new();
    let mut i: i32 = 0;
    let ghost all = corners(se@, edges@, first as int, 0, n as int);
    assert(out@ + all =~= all);
    while i < n
        invariant
            0 <= i,
            i <= n || i == 0,
            all == out@ + corners(se@, edges@, first as int, i as int, n as int),
            all == corners(se@, edges@, first as int, 0, n as int),
            forall|k: int| 0 <= k < out@.len() ==> #[trigger] out@[k] < 0x1_0000,
        decreases n - i,
    {
        let at: i64 = first as i64 + i as i64;
        if at < 0 || at as u64 >= se.len() as u64 {
            assert(out@ + Seq::<u32>::empty() =~= out@);
            return out;
        }
        match corner_of(se[at as usize], edges) {
            Some(v) => {
                proof {
                    let rest = corners(se@, edges@, first as int, i + 1, n as int);
                    assert(out@ + (seq![v] + rest) =~= out@.push(v) + rest);
                }
                out.push(v);
            },
            None => {},
        }
        i += 1;
    }
    assert(out@ + Seq::<u32>::empty() =~= out@);
    out
}

/// A polygon as the triangles from its first corner to each later side.
pub open spec fn fan(fv: Seq<u32>) -> Seq<Tri> {
    Seq::new(
        if fv.len() >= 2 {
            (fv.len() - 2) as nat
        } else {
            0
        },
        |i: int| (fv[0], fv[i + 1], fv[i + 2]),
    )
}

pub(crate) fn push_fan(tris: &mut Vec<Tri>, fv: &Vec<u32>)
    ensures
        final(tris)@ == old(tris)@ + fan(fv@),
{
    let mut i: usize = 1;
    assert(tris@ =~= old(tris)@ + fan(fv@).take(0));
    while fv.len() >= 2 && i < fv.len() - 1
        invariant
            1 <= i,
            fv@.len() >= 2 ==> i <= fv@.len() - 1,
            fv@.len() < 2 ==> i == 1,
            tris@ == old(tris)@ + fan(fv@).take(i - 1),
        decreases fv@.len() - i,
    {
        tris.push((fv[0], fv[i], fv[i + 1]));
        i += 1;
        assert(fan(fv@).take(i - 1) =~= fan(fv@).take(i - 2).push(fan(fv@)[i - 2]));
        assert(tris@ =~= old(tris)@ + fan(fv@).take(i - 1));
    }
    assert(fan(fv@).take(i - 1) =~= fan(fv@));
}

/// Whether a vertex is a corner of some triangle.
pub open spec fn in_mesh(tris: Seq<Tri>, v: u32) -> bool {
    exists|i: int|
        0 <= i < tris.len() && ((#[trigger] tris[i]).0 == v || tris[i].1 == v || tris[i].2 == v)
}

/// The vertices that some triangle has, each once, in increasing order.
pub open spec fn is_used_list(used: Seq<u32>, tris: Seq<Tri>) -> bool {
    &&& forall|i: int, j: int| 0 <= i < j < used.len() ==> used[i] < used[j]
    &&& forall|v: u32| #[trigger] used.contains(v) <==> in_mesh(tris, v)
}

/// The triangles of `tris` with each corner given by its place in `used`.
pub open spec fn is_renumbered(out: Seq<Tri>, tris: Seq<Tri>, used: Seq<u32>) -> bool {
    &&& out.len() == tris.len()
    &&& forall|i: int|
        0 <= i < out.len() ==> {
            let t = #[trigger] out[i];
            &&& t.0 < used.len() && used[t.0 as int] == tris[i].0
            &&& t.1 < used.len() && used[t.1 as int] == tris[i].1
            &&& t.2 < used.len() && used[t.2 as int] == tris[i].2
        }
}

/// A vertex of the pool, or the origin where there is none.
pub open spec fn pooled(verts: Seq<Vertex>, v: u32) -> Vertex {
    if v < verts.len() {
        verts[v as int]
    } else {
        (0, 0, 0)
    }
}

pub open spec fn le_bytes(x: u32) -> Seq<u8> {
    seq![
        (x % 0x100) as u8,
        (x / 0x100 % 0x100) as u8,
        (x / 0x1_0000 % 0x100) as u8,
        (x / 0x100_0000) as u8,
    ]
}

/// Triples of numbers as little-endian bytes.
pub open spec fn triple_bytes(s: Seq<(u32, u32, u32)>) -> Seq<u8>
    decreases s.len(),
{
    if s.len() == 0 {
        Seq::empty()
    } else {
        triple_bytes(s.drop_last()) + le_bytes(s.last().0) + le_bytes(s.last().1) + le_bytes(
            s.last().2,
        )
    }
}

proof fn lemma_triple_len(s: Seq<(u32, u32, u32)>)
    ensures
        triple_bytes(s).len() == 12 * s.len(),
    decreases s.len(),
{
    if s.len() > 0 {
        lemma_triple_len(s.drop_last());
    }
}

fn push_le(out: &mut Vec<u8>, x: u32)
    ensures
        final(out)@ == old(out)@ + le_bytes(x),
{
    out.push((x % 0x100) as u8);
    out.push((x / 0x100 % 0x100) as u8);
    out.push((x / 0x1_0000 % 0x100) as u8);
    out.push((x / 0x100_0000) as u8);
    assert(out@ =~= old(out)@ + le_bytes(x));
}

fn to_bytes(s: &Vec<(u32, u32, u32)>) -> (r: Vec<u8>)
    ensures
        r@ == triple_bytes(s@),
{
    let mut out: Vec<u8> = Vec::new();
    let mut i: usize = 0;
    while i < s.len()
        invariant
            i <= s@.len(),
            out@ == triple_bytes(s@.take(i as int)),
        decreases s@.len() - i,
    {
        let (a, b, c) = s[i];
        push_le(&mut out, a);
        push_le(&mut out, b);
        push_le(&mut out, c);
        i += 1;
        assert(s@.take(i as int).drop_last() =~= s@.take(i - 1));
    }
    assert(s@.take(i as int) =~= s@);
    out
}

/// A map's geometry: base64 of the vertex and index buffers, their counts, and
/// where a player may spawn.
#[derive(Debug)]
pub struct Mesh {
    pub verts_b64: String,
    pub idx_b64: String,
    pub n_verts: usize,
    pub n_tris: usize,
    pub spawns: Vec<spawn::Origin>,
}

/// The mesh of the triangles `tris` over the pool `verts`, the vertices in use
/// renumbered without gaps, followed by separate triangles over their own
/// vertices.
pub open spec fn mesh_of(
    m: &Mesh,
    verts: Seq<Vertex>,
    tris: Seq<Tri>,
    more_verts: Seq<Vertex>,
    more_tris: Seq<Tri>,
) -> bool {
    exists|used: Seq<u32>, out: Seq<Tri>|
        {
            &&& is_used_list(used, tris)
            &&& #[trigger] is_renumbered(out, tris, used)
            &&& {
                let vs = used.map_values(|v: u32| pooled(verts, v)) + more_verts;
                let ts = out + more_tris.map_values(
                    |t: Tri|
                        (
                            (t.0 + used.len()) as u32,
                            (t.1 + used.len()) as u32,
                            (t.2 + used.len()) as u32,
                        ),
                );
                &&& m.verts_b64@ == b64(triple_bytes(vs))
                &&& m.idx_b64@ == b64(triple_bytes(ts))
                &&& m.n_verts == vs.len()
                &&& m.n_tris == ts.len()
            }
        }
}

fn mark_used(tris: &Vec<Tri>, limit: usize) -> (marks: Vec<bool>)
    requires
        limit <= u32::MAX,
        forall|i: int|
            0 <= i < tris@.len() ==> (#[trigger] tris@[i]).0 < limit && tris@[i].1 < limit
                && tris@[i].2 < limit,
    ensures
        marks@.len() == limit,
        forall|v: int| 0 <= v < limit ==> (#[trigger] marks@[v] <==> in_mesh(tris@, v as u32)),
{
    let mut marks: Vec<bool> = vec![false; limit];
    let mut i: usize = 0;
    while i < tris.len()
        invariant
            i <= tris@.len(),
            limit <= u32::MAX,
            marks@.len() == limit,
            forall|i: int|
                0 <= i < tris@.len() ==> (#[trigger] tris@[i]).0 < limit && tris@[i].1 < limit
                    && tris@[i].2 < limit,
            forall|v: int, k: int|
                0 <= v < limit && 0 <= k < i && ((#[trigger] tris@[k]).0 == v || tris@[k].1 == v
                    || tris@[k].2 == v) ==> #[trigger] marks@[v],
            forall|v: int|
                0 <= v < limit && #[trigger] marks@[v] ==> in_mesh(tris@, v as u32),
        decreases tris@.len() - i,
    {
        let (a, b, c) = tris[i];
        assert(in_mesh(tris@, a) && in_mesh(tris@, b) && in_mesh(tris@, c)) by {
            assert(tris@[i as int] == (a, b, c));
        }
        marks.set(a as usize, true);
        marks.set(b as usize, true);
        marks.set(c as usize, true);
        i += 1;
    }
    proof {
        assert forall|v: int| 0 <= v < limit implies (#[trigger] marks@[v] <==> in_mesh(
            tris@,
            v as u32,
        )) by {
            if in_mesh(tris@, v as u32) {
                let k = choose|k: int|
                    0 <= k < tris@.len() && ((#[trigger] tris@[k]).0 == v as u32 || tris@[k].1
                        == v as u32 || tris@[k].2 == v as u32);
                assert(tris@[k].0 == v || tris@[k].1 == v || tris@[k].2 == v);
            }
        }
    }
    marks
}

/// The vertices in use and each one's place among them.
fn number_used(marks: &Vec<bool>) -> (r: (Vec<u32>, Vec<u32>))
    requires
        marks@.len() <= u32::MAX,
    ensures
        r.1@.len() == marks@.len(),
        r.0@.len() <= marks@.len(),
        forall|i: int, j: int| 0 <= i < j < r.0@.len() ==> r.0@[i] < r.0@[j],
        forall|k: int| 0 <= k < r.0@.len() ==> (#[trigger] r.0@[k]) < marks@.len() && marks@[r.0@[k] as int],
        forall|v: int|
            0 <= v < marks@.len() && #[trigger] marks@[v] ==> r.1@[v] < r.0@.len()
                && r.0@[r.1@[v] as int] == v,
{
    let mut used: Vec<u32> = Vec::new();
    let mut place: Vec<u32> = Vec::new();
    let mut v: usize = 0;
    while v < marks.len()
        invariant
            v <= marks@.len() <= u32::MAX,
            place@.len() == v,
            used@.len() <= v,
            forall|i: int, j: int| 0 <= i < j < used@.len() ==> used@[i] < used@[j],
            forall|k: int| 0 <= k < used@.len() ==> (#[trigger] used@[k]) < v && marks@[used@[k] as int],
            forall|x: int|
                0 <= x < v && #[trigger] marks@[x] ==> place@[x] < used@.len()
                    && used@[place@[x] as int] == x,
        decreases marks@.len() - v,
    {
        place.push(used.len() as u32);
        if marks[v] {
            used.push(v as u32);
        }
        v += 1;
    }
    (used, place)
}

/// Encodes a mesh; none where there is no triangle.
pub fn encode_mesh(
    verts: &Vec<Vertex>,
    tris: &Vec<Tri>,
    more_verts: &Vec<Vertex>,
    more_tris: &Vec<Tri>,
    spawns: Vec<spawn::Origin>,
) -> (r: Option<Mesh>)
    requires
        verts@.len() + more_verts@.len() + 0x1_0000 <= u32::MAX,
        verts@.len() + more_verts@.len() + 0x1_0000 <= usize::MAX / 16,
        tris@.len() + more_tris@.len() <= usize::MAX / 16,
        forall|i: int|
            0 <= i < tris@.len() ==> {
                let t = #[trigger] tris@[i];
                &&& t.0 < 0x1_0000 || t.0 < verts@.len()
                &&& t.1 < 0x1_0000 || t.1 < verts@.len()
                &&& t.2 < 0x1_0000 || t.2 < verts@.len()
            },
        forall|i: int|
            0 <= i < more_tris@.len() ==> {
                let t = #[trigger] more_tris@[i];
                t.0 < more_verts@.len() && t.1 < more_verts@.len() && t.2 < more_verts@.len()
            },
    ensures
        r is None <==> tris@.len() == 0 && more_tris@.len() == 0,
        r is Some ==> mesh_of(&r->0, verts@, tris@, more_verts@, more_tris@) && r->0.spawns
            == spawns,
{
    if tris.len() == 0 && more_tris.len() == 0 {
        return None;
    }
    let limit: usize = if verts.len() > 0x1_0000 {
        verts.len()
    } else {
        0x1_0000
    };
    let marks = mark_used(tris, limit);
    let (used, place) = number_used(&marks);
    proof {
        assert forall|v: u32| #[trigger] used@.contains(v) <==> in_mesh(tris@, v) by {
            if used@.contains(v) {
                let k = choose|k: int| 0 <= k < used@.len() && used@[k] == v;
                assert(marks@[used@[k] as int]);
            }
            if in_mesh(tris@, v) {
                let i = choose|i: int|
                    0 <= i < tris@.len() && ((#[trigger] tris@[i]).0 == v || tris@[i].1 == v
                        || tris@[i].2 == v);
                assert(v < limit);
                assert(marks@[v as int]);
                assert(used@[place@[v as int] as int] == v);
            }
        }
    }
    let mut vs: Vec<Vertex> = Vec::new();
    let mut i: usize = 0;
    while i < used.len()
        invariant
            i <= used@.len(),
            vs@.len() == i,
            forall|k: int| 0 <= k < i ==> vs@[k] == pooled(verts@, used@[k]),
        decreases used@.len() - i,
    {
        let v: u32 = used[i];
        vs.push(
            if (v as u64) < verts.len() as u64 {
                verts[v as usize]
            } else {
                (0, 0, 0)
            },
        );
        i += 1;
    }
    let mut ts: Vec<Tri> = Vec::new();
    let mut j: usize = 0;
    while j < tris.len()
        invariant
            j <= tris@.len(),
            ts@.len() == j,
            place@.len() == limit == marks@.len(),
            forall|v: int| 0 <= v < limit ==> (#[trigger] marks@[v] <==> in_mesh(tris@, v as u32)),
            forall|v: int|
                0 <= v < limit && #[trigger] marks@[v] ==> place@[v] < used@.len()
                    && used@[place@[v] as int] == v,
            forall|i: int|
                0 <= i < tris@.len() ==> (#[trigger] tris@[i]).0 < limit && tris@[i].1 < limit
                    && tris@[i].2 < limit,
            is_renumbered(ts@, tris@.take(j as int), used@),
        decreases tris@.len() - j,
    {
        let (a, b, c) = tris[j];
        assert(in_mesh(tris@, a) && in_mesh(tris@, b) && in_mesh(tris@, c)) by {
            assert(tris@[j as int] == (a, b, c));
        }
        assert(marks@[a as int] && marks@[b as int] && marks@[c as int]);
        ts.push((place[a as usize], place[b as usize], place[c as usize]));
        j += 1;
    }
    assert(tris@.take(j as int) =~= tris@);
    let ghost out = ts@;
    let base: u32 = used.len() as u32;
    let mut k: usize = 0;
    while k < more_tris.len()
        invariant
            k <= more_tris@.len(),
            base == used@.len(),
            base + more_verts@.len() <= u32::MAX,
            ts@.len() == out.len() + k,
            forall|i: int| 0 <= i < out.len() ==> ts@[i] == out[i],
            forall|i: int|
                0 <= i < more_tris@.len() ==> {
                    let t = #[trigger] more_tris@[i];
                    t.0 < more_verts@.len() && t.1 < more_verts@.len() && t.2 < more_verts@.len()
                },
            forall|i: int|
                out.len() <= i < out.len() + k ==> #[trigger] ts@[i] == (
                    (more_tris@[i - out.len()].0 + base) as u32,
                    (more_tris@[i - out.len()].1 + base) as u32,
                    (more_tris@[i - out.len()].2 + base) as u32,
                ),
        decreases more_tris@.len() - k,
    {
        let (a, b, c) = more_tris[k];
        assert(more_tris@[k as int] == (a, b, c));
        ts.push((a + base, b + base, c + base));
        k += 1;
    }
    let mut m: usize = 0;
    while m < more_verts.len()
        invariant
            m <= more_verts@.len(),
            vs@.len() == used@.len() + m,
            forall|k: int| 0 <= k < used@.len() ==> vs@[k] == pooled(verts@, used@[k]),
            forall|k: int|
                used@.len() <= k < used@.len() + m ==> #[trigger] vs@[k] == more_verts@[k
                    - used@.len()],
        decreases more_verts@.len() - m,
    {
        vs.push(more_verts[m]);
        m += 1;
    }
    let n_verts: usize = vs.len();
    let n_tris: usize = ts.len();
    proof {
        assert(vs@ =~= used@.map_values(|v: u32| pooled(verts@, v)) + more_verts@);
        assert(ts@ =~= out + more_tris@.map_values(
            |t: Tri|
                (
                    (t.0 + used@.len()) as u32,
                    (t.1 + used@.len()) as u32,
                    (t.2 + used@.len()) as u32,
                ),
        ));
        lemma_triple_len(vs@);
        lemma_triple_len(ts@);
    }
    let v_buf = to_bytes(&vs);
    let i_buf = to_bytes(&ts);
    let mesh = Mesh {
        verts_b64: base64_text(v_buf.as_slice()),
        idx_b64: base64_text(i_buf.as_slice()),
        n_verts,
        n_tris,
        spawns,
    };
    assert(is_used_list(used@, tris@) && is_renumbered(out, tris@, used@));
    Some(mesh)
}

/// A map of any of the four kinds. A Source map's positions are still to be
/// computed.
#[derive(Debug)]
pub enum AnyMap {
    Source(source::Geometry),
    Mesh(Mesh),
}

/// The kind of a map file, by its magic and version.
pub enum MapKind {
    Unknown,
    Source,
    GoldSrc,
    Quake2,
    Quake3,
}

pub open spec fn map_kind(d: Seq<u8>) -> MapKind {
    if d.len() < 8 {
        MapKind::Unknown
    } else if crate::bytes::spells(d, 0, source::vbsp()) {
        MapKind::Source
    } else if crate::bytes::spells(d, 0, quake::ibsp()) {
        if i32_at(d, 4) == 38 {
            MapKind::Quake2
        } else if i32_at(d, 4) == 46 {
            MapKind::Quake3
        } else {
            MapKind::Unknown
        }
    } else if i32_at(d, 0) == 29 || i32_at(d, 0) == 30 {
        MapKind::GoldSrc
    } else {
        MapKind::Unknown
    }
}

/// Reads a map by its magic and version.
pub fn extract_any_bsp(data: &[u8]) -> (r: Option<AnyMap>)
    ensures
        match map_kind(data@) {
            MapKind::Unknown => r is None,
            MapKind::Source => match r {
                Some(AnyMap::Source(g)) => source::has_geometry(data@) && source::geometry_of(
                    &g,
                    source::lumps_of(data@)->0,
                ),
                Some(AnyMap::Mesh(_)) => false,
                None => !source::has_geometry(data@),
            },
            MapKind::GoldSrc => match r {
                Some(AnyMap::Mesh(m)) => goldsrc::has_mesh(data@) && mesh_of(
                    &m,
                    goldsrc::map_vertices(data@),
                    goldsrc::world_tris(data@),
                    Seq::empty(),
                    Seq::empty(),
                ) && spawn::origins(m.spawns@) == goldsrc::entity_spawns(data@),
                Some(AnyMap::Source(_)) => false,
                None => !goldsrc::has_mesh(data@),
            },
            MapKind::Quake2 => match r {
                Some(AnyMap::Mesh(m)) => quake::q2_has_mesh(data@) && mesh_of(
                    &m,
                    quake::q2_vertices(data@),
                    quake::q2_tris(data@),
                    Seq::empty(),
                    Seq::empty(),
                ) && spawn::origins(m.spawns@) == quake::entity_spawns(data@),
                Some(AnyMap::Source(_)) => false,
                None => !quake::q2_has_mesh(data@),
            },
            MapKind::Quake3 => match r {
                Some(AnyMap::Mesh(m)) => quake::q3_has_mesh(data@) && mesh_of(
                    &m,
                    quake::q3_vertices(data@),
                    quake::q3_tris(data@),
                    Seq::empty(),
                    Seq::empty(),
                ) && spawn::origins(m.spawns@) == quake::entity_spawns(data@),
                Some(AnyMap::Source(_)) => false,
                None => !quake::q3_has_mesh(data@),
            },
        },
{
    if data.len() < 8 {
        return None;
    }
    if source::is_vbsp(data) {
        match source::extract_bsp_from_bytes(data) {
            Some(g) => Some(AnyMap::Source(g)),
            None => None,
        }
    } else if quake::is_ibsp(data) {
        let mesh = match le_i32(data, 4) {
            38 => quake::extract_q2_bsp_from_bytes(data),
            46 => quake::extract_q3_bsp_from_bytes(data),
            _ => None,
        };
        match mesh {
            Some(m) => Some(AnyMap::Mesh(m)),
            None => None,
        }
    } else {
        let version: i32 = le_i32(data, 0);
        if version == 29 || version == 30 {
            match goldsrc::extract_goldsrc_bsp_from_bytes(data) {
                Some(m) => Some(AnyMap::Mesh(m)),
                None => None,
            }
        } else {
            None
        }
    }
}

/// The vertices in use are determined by the triangles.
pub proof fn law_used_list_unique(a: Seq<u32>, b: Seq<u32>, tris: Seq<Tri>)
    requires
        is_used_list(a, tris),
        is_used_list(b, tris),
    ensures
        a == b,
    decreases a.len(),
{
    assert forall|i: int| 0 <= i < a.len() && i < b.len() implies a[i] == b[i] by {
        lemma_same_place(a, b, tris, i);
    }
    if a.len() > b.len() {
        let v = a[b.len() as int];
        assert(a.contains(v));
        assert(b.contains(v));
        let k = choose|k: int| 0 <= k < b.len() && b[k] == v;
        assert(a[k] == b[k]);
        assert(false);
    }
    if b.len() > a.len() {
        let v = b[a.len() as int];
        assert(b.contains(v));
        assert(a.contains(v));
        let k = choose|k: int| 0 <= k < a.len() && a[k] == v;
        assert(a[k] == b[k]);
        assert(false);
    }
    assert(a =~= b);
}

proof fn lemma_same_place(a: Seq<u32>, b: Seq<u32>, tris: Seq<Tri>, i: int)
    requires
        is_used_list(a, tris),
        is_used_list(b, tris),
        0 <= i < a.len(),
        i < b.len(),
    ensures
        a[i] == b[i],
    decreases i,
{
    assert forall|j: int| 0 <= j < i implies a[j] == b[j] by {
        lemma_same_place(a, b, tris, j);
    }
    if a[i] < b[i] {
        assert(a.contains(a[i]));
        assert(b.contains(a[i]));
        let k = choose|k: int| 0 <= k < b.len() && b[k] == a[i];
        assert(k < i);
        assert(a[k] == b[k]);
        assert(false);
    }
    if b[i] < a[i] {
        assert(b.contains(b[i]));
        assert(a.contains(b[i]));
        let k = choose|k: int| 0 <= k < a.len() && a[k] == b[i];
        assert(k < i);
        assert(a[k] == b[k]);
        assert(false);
    }
}

/// Renumbering keeps the mesh: each triangle's corners are the same positions as
/// before, and every number is one of a vertex in use.
pub proof fn law_renumbering_keeps_positions(
    out: Seq<Tri>,
    tris: Seq<Tri>,
    used: Seq<u32>,
    verts: Seq<Vertex>,
    i: int,
)
    requires
        is_renumbered(out, tris, used),
        0 <= i < tris.len(),
    ensures
        ({
            let vs = used.map_values(|v: u32| pooled(verts, v));
            &&& out[i].0 < vs.len() && vs[out[i].0 as int] == pooled(verts, tris[i].0)
            &&& out[i].1 < vs.len() && vs[out[i].1 as int] == pooled(verts, tris[i].1)
            &&& out[i].2 < vs.len() && vs[out[i].2 as int] == pooled(verts, tris[i].2)
        }),
{
}

} // verus!
