//! Maps as compilers write them.
use super::goldsrc;
use super::quake;
use super::source::{add_face, cell_tris, corner_order, directory_base, lump_bytes, lumps_of,
    offset_at, patch_at, plain_lump, side_of, Found, Lumps, SKIP_FLAGS};
use super::{b64, b64_char, corners, edge_list, fan, int_list, le_bytes, lump_at, surfedge_vertex,
    triple_bytes, vertex_at, vertices, Vertex};
use crate::bytes::{i32_at, u16_at, u32_at};
use crate::written::{law_short_reads, law_word_reads, le16, le32, lemma_lies, lies};
use vstd::prelude::*;

verus! {

/// Whether an entry of the list of a face's edges goes from a vertex to another: along an
/// edge, or against it where it is negative.
pub open spec fn goes(s: i32, edges: Seq<(u16, u16)>, from: u32, to: u32) -> bool {
    ||| 0 <= s < edges.len() && edges[s as int] == (from as u16, to as u16) && from < 0x1_0000 && to
        < 0x1_0000
    ||| s < 0 && -s < edges.len() && edges[-s] == (to as u16, from as u16) && from < 0x1_0000 && to
        < 0x1_0000
}

/// The edges of a face that go round a polygon give its corners, in their order.
pub proof fn law_corners_of_a_polygon(
    vs: Seq<u32>,
    se: Seq<i32>,
    edges: Seq<(u16, u16)>,
    first: int,
)
    requires
        0 <= first,
        first + vs.len() <= se.len(),
        forall|i: int|
            0 <= i < vs.len() ==> goes(
                se[first + i],
                edges,
                #[trigger] vs[i],
                vs[(i + 1) % (vs.len() as int)],
            ),
    ensures
        corners(se, edges, first, 0, vs.len() as int) == vs,
{
    lemma_corners(vs, se, edges, first, 0);
    assert(vs.skip(0) =~= vs);
}

proof fn lemma_corners(vs: Seq<u32>, se: Seq<i32>, edges: Seq<(u16, u16)>, first: int, k: int)
    requires
        0 <= first,
        0 <= k <= vs.len(),
        first + vs.len() <= se.len(),
        forall|i: int|
            0 <= i < vs.len() ==> goes(
                se[first + i],
                edges,
                #[trigger] vs[i],
                vs[(i + 1) % (vs.len() as int)],
            ),
    ensures
        corners(se, edges, first, k, vs.len() as int) == vs.skip(k),
    decreases vs.len() - k,
{
    if k < vs.len() {
        lemma_corners(vs, se, edges, first, k + 1);
        assert(goes(se[first + k], edges, vs[k], vs[(k + 1) % (vs.len() as int)]));
        assert(surfedge_vertex(se[first + k], edges) == Some(vs[k]));
        assert(seq![vs[k]] + vs.skip(k + 1) =~= vs.skip(k));
    } else {
        assert(vs.skip(k) =~= Seq::empty());
    }
}

/// The triangles of a face: two less than its corners, all round the first one, each
/// joined to the next, from the second corner to the last.
pub proof fn law_fan_covers_the_face(vs: Seq<u32>)
    requires
        vs.len() >= 3,
    ensures
        fan(vs).len() == vs.len() - 2,
        fan(vs)[0].1 == vs[1],
        fan(vs).last().2 == vs.last(),
        forall|i: int| 0 <= i < fan(vs).len() ==> (#[trigger] fan(vs)[i]).0 == vs[0],
        forall|i: int| 0 <= i < fan(vs).len() - 1 ==> (#[trigger] fan(vs)[i]).2 == fan(vs)[i + 1].1,
        forall|i: int| 1 <= i < vs.len() - 1 ==> fan(vs)[i - 1].1 == #[trigger] vs[i],
{
}

/// An entry of the directory of a map: where a lump stands and how long it is.
pub proof fn law_lump_round_trip(d: Seq<u8>, base: int, i: int, off: i32, len: i32)
    requires
        0 <= off,
        0 <= len,
        off + len <= d.len(),
        lies(d, base + 8 * i, le32(off as int) + le32(len as int)),
    ensures
        lump_at(d, base, i) == (off as int, len as int),
{
    lemma_lies(d, base + 8 * i, le32(off as int), le32(len as int));
    law_word_reads(d, base + 8 * i, off as int);
    law_word_reads(d, base + 8 * i + 4, len as int);
}

pub open spec fn vertex_bytes(v: Vertex) -> Seq<u8> {
    le32(v.0 as int) + (le32(v.1 as int) + le32(v.2 as int))
}

proof fn lemma_vertex(d: Seq<u8>, o: int, v: Vertex)
    requires
        lies(d, o, vertex_bytes(v)),
    ensures
        vertex_at(d, o) == v,
{
    lemma_lies(d, o, le32(v.0 as int), le32(v.1 as int) + le32(v.2 as int));
    lemma_lies(d, o + 4, le32(v.1 as int), le32(v.2 as int));
    law_word_reads(d, o, v.0 as int);
    law_word_reads(d, o + 4, v.1 as int);
    law_word_reads(d, o + 8, v.2 as int);
}

/// Vertices that were written one after another, each in a record of its own, are read
/// back.
pub proof fn law_vertices_round_trip(d: Seq<u8>, off: int, stride: int, vs: Seq<Vertex>)
    requires
        forall|i: int| 0 <= i < vs.len() ==> lies(d, off + stride * i, vertex_bytes(#[trigger] vs[i])),
    ensures
        vertices(d, off, stride, vs.len() as int) == vs,
{
    assert forall|i: int| 0 <= i < vs.len() implies vertices(d, off, stride, vs.len() as int)[i]
        == vs[i] by {
        lemma_vertex(d, off + stride * i, vs[i]);
    }
    assert(vertices(d, off, stride, vs.len() as int) =~= vs);
}

/// Edges, each with the numbers of its two vertices.
pub proof fn law_edges_round_trip(d: Seq<u8>, off: int, es: Seq<(u16, u16)>)
    requires
        forall|i: int|
            0 <= i < es.len() ==> lies(
                d,
                off + 4 * i,
                le16((#[trigger] es[i]).0 as int) + le16(es[i].1 as int),
            ),
    ensures
        edge_list(d, off, es.len() as int) == es,
{
    assert forall|i: int| 0 <= i < es.len() implies edge_list(d, off, es.len() as int)[i] == es[i] by {
        let o = off + 4 * i;
        lemma_lies(d, o, le16(es[i].0 as int), le16(es[i].1 as int));
        law_short_reads(d, o, es[i].0 as int);
        law_short_reads(d, o + 2, es[i].1 as int);
    }
    assert(edge_list(d, off, es.len() as int) =~= es);
}

/// Numbers of four bytes.
pub proof fn law_ints_round_trip(d: Seq<u8>, off: int, ns: Seq<i32>)
    requires
        forall|i: int| 0 <= i < ns.len() ==> lies(d, off + 4 * i, le32(#[trigger] ns[i] as int)),
    ensures
        int_list(d, off, ns.len() as int) == ns,
{
    assert forall|i: int| 0 <= i < ns.len() implies int_list(d, off, ns.len() as int)[i] == ns[i] by {
        law_word_reads(d, off + 4 * i, ns[i] as int);
    }
    assert(int_list(d, off, ns.len() as int) =~= ns);
}

/// The head of a face of GoldSrc and Quake 2: its plane and side, the first of its edges
/// and how many they are, and its texture.
pub open spec fn face_head(plane: u16, side: u16, first: i32, n: u16, texture: u16) -> Seq<u8> {
    le16(plane as int) + (le16(side as int) + (le32(first as int) + (le16(n as int) + le16(
        texture as int,
    ))))
}

proof fn lemma_face_head(d: Seq<u8>, o: int, plane: u16, side: u16, first: i32, n: u16, texture: u16)
    requires
        lies(d, o, face_head(plane, side, first, n, texture)),
    ensures
        i32_at(d, o + 4) == first,
        u16_at(d, o + 8) == n,
        u16_at(d, o + 10) == texture,
{
    let t3 = le16(n as int) + le16(texture as int);
    let t2 = le32(first as int) + t3;
    lemma_lies(d, o, le16(plane as int), le16(side as int) + t2);
    lemma_lies(d, o + 2, le16(side as int), t2);
    lemma_lies(d, o + 4, le32(first as int), t3);
    lemma_lies(d, o + 8, le16(n as int), le16(texture as int));
    law_word_reads(d, o + 4, first as int);
    law_short_reads(d, o + 8, n as int);
    law_short_reads(d, o + 10, texture as int);
}

/// A face of GoldSrc that was written is the fan of its corners, unless its texture is one
/// that is not drawn.
pub proof fn law_goldsrc_face_round_trip(
    d: Seq<u8>,
    fi: int,
    plane: u16,
    side: u16,
    first: i32,
    n: u16,
    texture: u16,
    miptex: i32,
)
    requires
        lies(d, lump_at(d, 4, 7).0 + 20 * fi, face_head(plane, side, first, n, texture)),
        texture < lump_at(d, 4, 6).1 / 40,
        lies(d, lump_at(d, 4, 6).0 + 40 * texture + 32, le32(miptex as int)),
    ensures
        goldsrc::face_tris(d, fi) == if n < 3 || goldsrc::is_skip_tex(goldsrc::tex_name(d, miptex as int)) {
            Seq::empty()
        } else {
            fan(corners(goldsrc::map_surfedges(d), goldsrc::map_edges(d), first as int, 0, n as int))
        },
{
    lemma_face_head(d, lump_at(d, 4, 7).0 + 20 * fi, plane, side, first, n, texture);
    law_word_reads(d, lump_at(d, 4, 6).0 + 40 * texture + 32, miptex as int);
    assert(texture * 40 == 40 * texture);
}

/// The same of Quake 2, where flags of the texture say whether it is drawn.
pub proof fn law_quake2_face_round_trip(
    d: Seq<u8>,
    fi: int,
    plane: u16,
    side: u16,
    first: i32,
    n: u16,
    texture: u16,
    flags: u32,
)
    requires
        lies(d, lump_at(d, 8, 6).0 + 20 * fi, face_head(plane, side, first, n, texture)),
        texture < lump_at(d, 8, 5).1 / 76,
        lies(d, lump_at(d, 8, 5).0 + 76 * texture + 32, le32(flags as int)),
    ensures
        quake::q2_face_tris(d, fi) == if n < 3 || flags & 0x84 != 0 {
            Seq::empty()
        } else {
            fan(corners(quake::q2_surfedges(d), quake::q2_edges(d), first as int, 0, n as int))
        },
{
    lemma_face_head(d, lump_at(d, 8, 6).0 + 20 * fi, plane, side, first, n, texture);
    law_word_reads(d, lump_at(d, 8, 5).0 + 76 * texture + 32, flags as int);
    assert(texture * 76 == 76 * texture);
}

/// A face of Quake 3: its shader and effect, its kind, and its vertices and the numbers
/// of their corners, each by the first and their count.
pub open spec fn face3(
    shader: i32,
    effect: i32,
    kind: i32,
    first: i32,
    count: i32,
    first_corner: i32,
    corners: i32,
) -> Seq<u8> {
    le32(shader as int) + (le32(effect as int) + (le32(kind as int) + (le32(first as int) + (le32(
        count as int,
    ) + (le32(first_corner as int) + le32(corners as int))))))
}

pub proof fn law_quake3_face_round_trip(
    d: Seq<u8>,
    fi: int,
    shader: i32,
    effect: i32,
    kind: i32,
    first: i32,
    count: i32,
    first_corner: i32,
    n: i32,
)
    requires
        lies(
            d,
            lump_at(d, 8, 13).0 + 104 * fi,
            face3(shader, effect, kind, first, count, first_corner, n),
        ),
        first >= 0,
        first_corner >= 0,
        n >= 0,
    ensures
        quake::q3_face_tris(d, fi) == if quake::is_skip_shader(quake::shader_name(d, shader as int)) || (kind != 1
            && kind != 3) {
            Seq::empty()
        } else {
            quake::soup_from(d, first as int, first_corner as int, 0, n as int)
        },
{
    let o = lump_at(d, 8, 13).0 + 104 * fi;
    let t5 = le32(first_corner as int) + le32(n as int);
    let t4 = le32(count as int) + t5;
    let t3 = le32(first as int) + t4;
    let t2 = le32(kind as int) + t3;
    let t1 = le32(effect as int) + t2;
    lemma_lies(d, o, le32(shader as int), t1);
    lemma_lies(d, o + 4, le32(effect as int), t2);
    lemma_lies(d, o + 8, le32(kind as int), t3);
    lemma_lies(d, o + 12, le32(first as int), t4);
    lemma_lies(d, o + 16, le32(count as int), t5);
    lemma_lies(d, o + 20, le32(first_corner as int), le32(n as int));
    law_word_reads(d, o, shader as int);
    law_word_reads(d, o + 8, kind as int);
    law_word_reads(d, o + 12, first as int);
    law_word_reads(d, o + 20, first_corner as int);
    law_word_reads(d, o + 24, n as int);
}

/// The faces of the world of GoldSrc and of Quake 2: those that the first model counts.
pub proof fn law_world_faces_round_trip(d: Seq<u8>, first: i32, count: i32)
    requires
        first >= 0,
        count >= 0,
    ensures
        lump_at(d, 4, 14).1 >= 64 && lies(
            d,
            lump_at(d, 4, 14).0 + 56,
            le32(first as int) + le32(count as int),
        ) && first + count <= goldsrc::face_count(d) ==> goldsrc::world_faces(d) == (
            first as int,
            first + count,
        ),
        lump_at(d, 8, 13).1 >= 48 && lies(
            d,
            lump_at(d, 8, 13).0 + 40,
            le32(first as int) + le32(count as int),
        ) && first + count <= quake::q2_face_count(d) ==> quake::q2_world_faces(d) == (
            first as int,
            first + count,
        ),
{
    let a = lump_at(d, 4, 14).0 + 56;
    if lies(d, a, le32(first as int) + le32(count as int)) {
        lemma_lies(d, a, le32(first as int), le32(count as int));
        law_word_reads(d, a, first as int);
        law_word_reads(d, a + 4, count as int);
    }
    let b = lump_at(d, 8, 13).0 + 40;
    if lies(d, b, le32(first as int) + le32(count as int)) {
        lemma_lies(d, b, le32(first as int), le32(count as int));
        law_word_reads(d, b, first as int);
        law_word_reads(d, b + 4, count as int);
    }
}

/// The parts of a map of Source that are read.
pub enum Part {
    Entities,
    Vertices,
    Textures,
    Faces,
    Edges,
    FaceEdges,
    Models,
    Patches,
    PatchVertices,
}

/// The number of a part in the directory.
pub open spec fn part_number(p: Part) -> int {
    match p {
        Part::Entities => 0,
        Part::Vertices => 3,
        Part::Textures => 6,
        Part::Faces => 7,
        Part::Edges => 12,
        Part::FaceEdges => 13,
        Part::Models => 14,
        Part::Patches => 26,
        Part::PatchVertices => 33,
    }
}

/// Whether the directory tells where a part stands, and it is not packed.
pub open spec fn part_lies(d: Seq<u8>, p: Part, b: Seq<u8>, off: i32) -> bool {
    &&& 0 <= off
    &&& b.len() <= i32::MAX
    &&& lies(
        d,
        directory_base(d) + 16 * part_number(p),
        le32(off as int) + le32(b.len() as int),
    )
    &&& lies(d, off as int, b)
    &&& plain_lump(b) == Some(b)
}

proof fn lemma_part(d: Seq<u8>, p: Part, b: Seq<u8>, off: i32)
    requires
        part_lies(d, p, b, off),
    ensures
        lump_bytes(d, part_number(p)) == Some(b),
{
    let o = directory_base(d) + 16 * part_number(p);
    lemma_lies(d, o, le32(off as int), le32(b.len() as int));
    law_word_reads(d, o, off as int);
    law_word_reads(d, o + 4, b.len() as int);
}

/// The parts of a map of Source that were written are read back, each as what it is.
pub proof fn law_parts_round_trip(d: Seq<u8>, l: Lumps, at: spec_fn(Part) -> i32)
    requires
        part_lies(d, Part::Entities, l.entities, at(Part::Entities)),
        part_lies(d, Part::Vertices, l.verts, at(Part::Vertices)),
        part_lies(d, Part::Textures, l.texinfo, at(Part::Textures)),
        part_lies(d, Part::Faces, l.faces, at(Part::Faces)),
        part_lies(d, Part::Edges, l.edges, at(Part::Edges)),
        part_lies(d, Part::FaceEdges, l.surfedges, at(Part::FaceEdges)),
        l.models is Some,
        part_lies(d, Part::Models, l.models->0, at(Part::Models)),
        part_lies(d, Part::Patches, l.dispinfo, at(Part::Patches)),
        part_lies(d, Part::PatchVertices, l.dispverts, at(Part::PatchVertices)),
    ensures
        lumps_of(d) == Some(l),
{
    lemma_part(d, Part::Entities, l.entities, at(Part::Entities));
    lemma_part(d, Part::Vertices, l.verts, at(Part::Vertices));
    lemma_part(d, Part::Textures, l.texinfo, at(Part::Textures));
    lemma_part(d, Part::Faces, l.faces, at(Part::Faces));
    lemma_part(d, Part::Edges, l.edges, at(Part::Edges));
    lemma_part(d, Part::FaceEdges, l.surfedges, at(Part::FaceEdges));
    lemma_part(d, Part::Models, l.models->0, at(Part::Models));
    lemma_part(d, Part::Patches, l.dispinfo, at(Part::Patches));
    lemma_part(d, Part::PatchVertices, l.dispverts, at(Part::PatchVertices));
}

/// The head of a face of Source.
pub open spec fn source_face(plane: u16, side: u8, node: u8, first: i32, n: i16, texture: i16, patch: i16) -> Seq<u8> {
    le16(plane as int) + (seq![side, node] + (le32(first as int) + (le16(n as int) + (le16(
        texture as int,
    ) + le16(patch as int)))))
}

/// A face of Source that was written and is no patch is the fan of its corners, where it
/// has three and its texture is drawn.
pub proof fn law_source_face_round_trip(
    l: Lumps,
    g: Found,
    fi: int,
    plane: u16,
    side: u8,
    node: u8,
    first: i32,
    n: i16,
    texture: i16,
    patch: i16,
    flags: u32,
)
    requires
        lies(l.faces, 56 * fi, source_face(plane, side, node, first, n, texture, patch)),
        0 <= texture < l.texinfo.len() / 72,
        lies(l.texinfo, 72 * texture + 64, le32(flags as int)),
    ensures
        ({
            let fv = corners(
                int_list(l.surfedges, 0, (l.surfedges.len() / 4) as int),
                edge_list(l.edges, 0, (l.edges.len() / 4) as int),
                first as int,
                0,
                n as int,
            );
            let a = add_face(l, fi, g);
            &&& n < 3 || flags & SKIP_FLAGS != 0 ==> a == g
            &&& n >= 3 && flags & SKIP_FLAGS == 0 && patch == -1 ==> a == (Found {
                tris: g.tris + fan(fv),
                ..g
            })
            &&& n == 4 && flags & SKIP_FLAGS == 0 && patch != -1 && fv.len() == 4 ==> a.tris == g.tris
                && a.patches == match patch_at(l, fv, patch as int) {
                Some(p) => g.patches.push(p),
                None => g.patches,
            }
        }),
{
    let o = 56 * fi;
    let t4 = le16(texture as int) + le16(patch as int);
    let t3 = le16(n as int) + t4;
    let t2 = le32(first as int) + t3;
    lemma_lies(l.faces, o, le16(plane as int), seq![side, node] + t2);
    lemma_lies(l.faces, o + 2, seq![side, node], t2);
    lemma_lies(l.faces, o + 4, le32(first as int), t3);
    lemma_lies(l.faces, o + 8, le16(n as int), t4);
    lemma_lies(l.faces, o + 10, le16(texture as int), le16(patch as int));
    law_word_reads(l.faces, o + 4, first as int);
    law_short_reads(l.faces, o + 8, n as int);
    law_short_reads(l.faces, o + 10, texture as int);
    law_short_reads(l.faces, o + 12, patch as int);
    law_word_reads(l.texinfo, 72 * texture + 64, flags as int);
    assert(texture * 72 == 72 * texture);
    assert(fi * 56 == o);
}

/// A patch that was written: where it starts, the first of its vertices and its power.
pub proof fn law_patch_round_trip(
    l: Lumps,
    fv: Seq<u32>,
    di: int,
    start: Vertex,
    first: i32,
    tags: i32,
    power: i32,
)
    requires
        0 <= di < l.dispinfo.len() / 176,
        1 <= power <= 4,
        first >= 0,
        first + side_of(power as int) * side_of(power as int) <= l.dispverts.len() / 20,
        lies(
            l.dispinfo,
            176 * di,
            vertex_bytes(start) + (le32(first as int) + (le32(tags as int) + le32(power as int))),
        ),
    ensures
        patch_at(l, fv, di) matches Some(p) && p.start == start && p.side == side_of(power as int)
            && p.offsets.len() == p.side * p.side && forall|k: int|
            0 <= k < p.offsets.len() ==> #[trigger] p.offsets[k] == offset_at(
                l.dispverts,
                first as int,
                p.side as int,
                k,
            ),
{
    let o = 176 * di;
    let t = le32(tags as int) + le32(power as int);
    lemma_lies(l.dispinfo, o, vertex_bytes(start), le32(first as int) + t);
    lemma_lies(l.dispinfo, o + 12, le32(first as int), t);
    lemma_lies(l.dispinfo, o + 16, le32(tags as int), le32(power as int));
    lemma_vertex(l.dispinfo, o, start);
    law_word_reads(l.dispinfo, o + 12, first as int);
    law_word_reads(l.dispinfo, o + 20, power as int);
    assert(di * 176 == o);
}

/// The side of a patch of a power: one more than two to that power.
pub proof fn law_patch_sides(power: int)
    requires
        1 <= power <= 4,
    ensures
        side_of(power) == vstd::arithmetic::power2::pow2(power as nat) + 1,
{
    vstd::arithmetic::power2::lemma2_to64();
}

/// A vertex of a patch: which way it is moved, how far, and how it is blended. They are
/// written row by row, and kept column by column.
pub proof fn law_offset_round_trip(
    dv: Seq<u8>,
    first: int,
    n: int,
    row: int,
    col: int,
    way: Vertex,
    far: u32,
)
    requires
        0 <= row < n,
        0 <= col < n,
        lies(dv, 20 * (first + row * n + col), vertex_bytes(way) + le32(far as int)),
    ensures
        offset_at(dv, first, n, col * n + row) == (way.0, way.1, way.2, far),
{
    let o = 20 * (first + row * n + col);
    lemma_lies(dv, o, vertex_bytes(way), le32(far as int));
    lemma_vertex(dv, o, way);
    law_word_reads(dv, o + 12, far as int);
    let k = col * n + row;
    vstd::arithmetic::div_mod::lemma_fundamental_div_mod_converse(k, n, col, row);
    assert((first + k / n + (k % n) * n) * 20 == o);
}

/// The corners of a patch start at the one that is told and go on as the face does; the
/// last two are in the order of the rows.
pub proof fn law_patch_corners(start: int)
    requires
        0 <= start < 4,
    ensures
        corner_order(start) == (start, (start + 1) % 4, (start + 3) % 4, (start + 2) % 4),
{
}

/// A cell of a patch is cut in two triangles along one diagonal, and its neighbours along
/// the other: all four corners are there, and the ends of the diagonal twice.
pub proof fn law_cell_is_cut(base: int, n: int, x: int, y: int)
    requires
        n >= 2,
        0 <= x < n - 1,
        0 <= y < n - 1,
        base >= 0,
        base + n * n <= u32::MAX,
    ensures
        ({
            let t = cell_tris(base, n, y * (n - 1) + x);
            let at = |a: int, b: int| (base + b + a * n) as u32;
            &&& t.len() == 2
            &&& t[0].0 == at(x, y)
            &&& t[0].1 == at(x + 1, y)
            &&& t[1].1 == at(x + 1, y + 1)
            &&& t[1].2 == at(x, y + 1)
            &&& (x + y) % 2 == 0 ==> t[0].2 == at(x + 1, y + 1) && t[1].0 == at(x, y)
            &&& (x + y) % 2 == 1 ==> t[0].2 == at(x, y + 1) && t[1].0 == at(x + 1, y)
        }),
{
    let q = y * (n - 1) + x;
    vstd::arithmetic::div_mod::lemma_fundamental_div_mod_converse(q, n - 1, y, x);
    if (x + y) % 2 == 0 {
    } else {
        assert((x + y) % 2 == 1);
    }
}

/// The number that a letter stands for.
pub open spec fn sextet(c: char) -> int {
    if 'A' <= c && c <= 'Z' {
        c as int - 65
    } else if 'a' <= c && c <= 'z' {
        c as int - 97 + 26
    } else if '0' <= c && c <= '9' {
        c as int - 48 + 52
    } else if c == '+' {
        62
    } else {
        63
    }
}

/// The bytes that a text stands for, four letters for three of them.
pub open spec fn unb64(t: Seq<char>) -> Seq<u8>
    decreases t.len(),
{
    if t.len() < 4 {
        Seq::empty()
    } else {
        let a = (sextet(t[0]) * 4 + sextet(t[1]) / 16) as u8;
        let b = (sextet(t[1]) % 16 * 16 + sextet(t[2]) / 4) as u8;
        let c = (sextet(t[2]) % 4 * 64 + sextet(t[3])) as u8;
        if t[2] == '=' {
            seq![a]
        } else if t[3] == '=' {
            seq![a, b]
        } else {
            seq![a, b, c] + unb64(t.skip(4))
        }
    }
}

proof fn lemma_sextet(v: int)
    requires
        0 <= v < 64,
    ensures
        sextet(b64_char(v)) == v,
        b64_char(v) != '=',
{
}

/// The text of bytes gives them back.
#[verifier::rlimit(50)]
pub proof fn law_b64_round_trip(s: Seq<u8>)
    ensures
        unb64(b64(s)) == s,
    decreases s.len(),
{
    if s.len() == 0 {
        assert(s =~= Seq::empty());
    } else {
        let x = s[0] as int;
        lemma_sextet(x / 4);
        if s.len() == 1 {
            lemma_sextet((x % 4) * 16);
            assert(unb64(b64(s)) =~= s);
        } else {
            let y = s[1] as int;
            lemma_sextet((x % 4) * 16 + y / 16);
            if s.len() == 2 {
                lemma_sextet((y % 16) * 4);
                assert(unb64(b64(s)) =~= s);
            } else {
                let z = s[2] as int;
                lemma_sextet((y % 16) * 4 + z / 64);
                lemma_sextet(z % 64);
                law_b64_round_trip(s.skip(3));
                assert(b64(s).skip(4) =~= b64(s.skip(3)));
                assert(seq![s[0], s[1], s[2]] + s.skip(3) =~= s);
            }
        }
    }
}

proof fn lemma_triples(s: Seq<(u32, u32, u32)>)
    ensures
        triple_bytes(s).len() == 12 * s.len(),
    decreases s.len(),
{
    if s.len() > 0 {
        lemma_triples(s.drop_last());
    }
}

/// Triples of numbers that are written are read back.
#[verifier::rlimit(50)]
pub proof fn law_triples_round_trip(s: Seq<(u32, u32, u32)>, i: int)
    requires
        0 <= i < s.len(),
    ensures
        triple_bytes(s).len() == 12 * s.len(),
        vertex_at(triple_bytes(s), 12 * i) == s[i],
    decreases s.len(),
{
    let t = s.drop_last();
    let b = triple_bytes(t);
    let d = triple_bytes(s);
    lemma_triples(s);
    lemma_triples(t);
    if i < t.len() {
        law_triples_round_trip(t, i);
        let o = 12 * i;
        assert(o + 12 <= b.len());
        assert forall|j: int| o <= j < o + 12 implies #[trigger] d[j] == b[j] by {}
        assert(u32_at(d, o) == u32_at(b, o));
        assert(u32_at(d, o + 4) == u32_at(b, o + 4));
        assert(u32_at(d, o + 8) == u32_at(b, o + 8));
    } else {
        let v = s.last();
        assert(le_bytes(v.0) =~= le32(v.0 as int));
        assert(le_bytes(v.1) =~= le32(v.1 as int));
        assert(le_bytes(v.2) =~= le32(v.2 as int));
        assert(d =~= b + vertex_bytes(v));
        assert(d.subrange(0, d.len() as int) =~= d);
        lemma_lies(d, 0, b, vertex_bytes(v));
        lemma_vertex(d, 12 * i, v);
    }
}

} // verus!
