//! Quake 2 and Quake 3 maps: `IBSP` versions 38 and 46.
use super::goldsrc::lemma_corners_len;
use super::spawn::{find_spawns, origins, spawns_from, OriginView};
use super::{corners, edge_list, encode_mesh, face_corners, fan, find_world_end, int_list, lump,
    lump_at, mesh_of, push_fan, read_edges, read_ints, read_vertices, vertices, world_end, Mesh, Tri,
    Vertex, MAX_TRIS};
use crate::bytes::{cstr_at, i32_at, le_i32, le_u16, read_cstring, spells, starts_with_bytes, u16_at};
use crate::text::{holds, is_empty_text, lossy, lossy_chars, lower_chars, lowercase, str_eq,
    text_holds};
use vstd::prelude::*;

verus! {

/// `IBSP`.
pub open spec fn ibsp() -> Seq<u8> {
    seq![0x49, 0x42, 0x53, 0x50]
}

pub(crate) fn is_ibsp(data: &[u8]) -> (r: bool)
    ensures
        r == spells(data@, 0, ibsp()),
{
    let m: [u8; 4] = [0x49, 0x42, 0x53, 0x50];
    assert(m@ =~= ibsp());
    starts_with_bytes(data, m.as_slice())
}

/// The spawn points of the entity lump.
pub open spec fn entity_spawns(d: Seq<u8>) -> Seq<OriginView> {
    let (o, len) = lump_at(d, 8, 0);
    spawns_from(lossy_chars(d.subrange(o, o + len)), 0)
}

/// Surface flags of faces that are not drawn: sky and nodraw.
pub const Q2_SKIP_FLAGS: u32 = 0x84;

pub open spec fn q2_face_count(d: Seq<u8>) -> int {
    lump_at(d, 8, 6).1 / 20
}

pub open spec fn q2_edges(d: Seq<u8>) -> Seq<(u16, u16)> {
    edge_list(d, lump_at(d, 8, 11).0, lump_at(d, 8, 11).1 / 4)
}

pub open spec fn q2_surfedges(d: Seq<u8>) -> Seq<i32> {
    int_list(d, lump_at(d, 8, 12).0, lump_at(d, 8, 12).1 / 4)
}

pub open spec fn q2_vertices(d: Seq<u8>) -> Seq<Vertex> {
    vertices(d, lump_at(d, 8, 2).0, 12, lump_at(d, 8, 2).1 / 12)
}

/// The triangles of face `fi`.
pub open spec fn q2_face_tris(d: Seq<u8>, fi: int) -> Seq<Tri> {
    let b = lump_at(d, 8, 6).0 + fi * 20;
    let n = u16_at(d, b + 8);
    let ti = u16_at(d, b + 10);
    let flags = crate::bytes::u32_at(d, lump_at(d, 8, 5).0 + ti * 76 + 32) as u32;
    if n < 3 || (ti < lump_at(d, 8, 5).1 / 76 && flags & Q2_SKIP_FLAGS != 0) {
        Seq::empty()
    } else {
        fan(corners(q2_surfedges(d), q2_edges(d), i32_at(d, b + 4), 0, n))
    }
}

pub open spec fn q2_faces_from(d: Seq<u8>, fi: int, end: int, acc: Seq<Tri>) -> Seq<Tri>
    decreases end - fi,
{
    if fi < 0 || fi >= end || acc.len() >= MAX_TRIS {
        acc
    } else {
        q2_faces_from(d, fi + 1, end, acc + q2_face_tris(d, fi))
    }
}

pub open spec fn q2_world_faces(d: Seq<u8>) -> (int, int) {
    let (o, len) = lump_at(d, 8, 13);
    if len >= 48 {
        (i32_at(d, o + 40), world_end(i32_at(d, o + 40), i32_at(d, o + 44), q2_face_count(d)))
    } else {
        (0, q2_face_count(d))
    }
}

pub open spec fn q2_tris(d: Seq<u8>) -> Seq<Tri> {
    q2_faces_from(d, q2_world_faces(d).0, q2_world_faces(d).1, Seq::empty())
}

pub open spec fn q2_has_mesh(d: Seq<u8>) -> bool {
    &&& d.len() >= 160
    &&& spells(d, 0, ibsp())
    &&& i32_at(d, 4) == 38
    &&& q2_vertices(d).len() > 0
    &&& q2_face_count(d) > 0
    &&& q2_surfedges(d).len() > 0
    &&& q2_tris(d).len() > 0
}

/// The mesh of a Quake 2 map.
pub fn extract_q2_bsp_from_bytes(data: &[u8]) -> (r: Option<Mesh>)
    ensures
        r is Some <==> q2_has_mesh(data@),
        r is Some ==> mesh_of(&r->0, q2_vertices(data@), q2_tris(data@), Seq::empty(), Seq::empty())
            && origins(r->0.spawns@) == entity_spawns(data@),
{
    if data.len() < 8 + 19 * 8 || !is_ibsp(data) || le_i32(data, 4) != 38 {
        return None;
    }
    let ghost d = data@;
    let (en_off, en_len) = lump(data, 8, 0);
    let (ti_off, ti_len) = lump(data, 8, 5);
    let (f_off, f_len) = lump(data, 8, 6);
    let (e_off, e_len) = lump(data, 8, 11);
    let (se_off, se_len) = lump(data, 8, 12);
    let (m_off, m_len) = lump(data, 8, 13);
    let (v_off, v_len) = lump(data, 8, 2);
    let n_verts: usize = v_len / 12;
    let n_faces: usize = f_len / 20;
    let n_se: usize = se_len / 4;
    let n_ti: usize = ti_len / 76;
    if n_verts == 0 || n_faces == 0 || n_se == 0 {
        return None;
    }
    let verts = read_vertices(data, v_off, 12, n_verts);
    let edges = read_edges(data, e_off, e_len / 4);
    let se = read_ints(data, se_off, n_se);
    let (first, end): (i32, usize) = if m_len >= 48 {
        let ff: i32 = le_i32(data, m_off + 40);
        (ff, find_world_end(ff, le_i32(data, m_off + 44), n_faces))
    } else {
        (0, n_faces)
    };
    let mut tris: Vec<Tri> = Vec::new();
    if first >= 0 {
        let mut fi: usize = first as usize;
        while fi < end && tris.len() < MAX_TRIS
            invariant
                160 <= data.len(),
                d == data@,
                end <= n_faces,
                f_off == lump_at(d, 8, 6).0,
                n_faces == lump_at(d, 8, 6).1 / 20,
                f_off + 20 * n_faces <= data.len(),
                ti_off == lump_at(d, 8, 5).0,
                n_ti == lump_at(d, 8, 5).1 / 76,
                ti_off + 76 * n_ti <= data.len(),
                edges@ == q2_edges(d),
                se@ == q2_surfedges(d),
                end == q2_world_faces(d).1,
                q2_tris(d) == q2_faces_from(d, fi as int, end as int, tris@),
                tris@.len() <= MAX_TRIS + 0x1_0000,
                forall|i: int|
                    0 <= i < tris@.len() ==> (#[trigger] tris@[i]).0 < 0x1_0000 && tris@[i].1
                        < 0x1_0000 && tris@[i].2 < 0x1_0000,
            decreases end - fi,
        {
            let b: usize = f_off + fi * 20;
            let firstedge: i32 = le_i32(data, b + 4);
            let numedges: u16 = le_u16(data, b + 8);
            let ti: usize = le_u16(data, b + 10) as usize;
            let skip = numedges < 3 || (ti < n_ti && crate::bytes::le_u32(
                data,
                ti_off + ti * 76 + 32,
            ) & Q2_SKIP_FLAGS != 0);
            let ghost before = tris@;
            if !skip {
                let fv = face_corners(&se, &edges, firstedge, numedges as i32);
                proof {
                    lemma_corners_len(se@, edges@, firstedge as int, 0, numedges as int);
                }
                push_fan(&mut tris, &fv);
            } else {
                assert(before + Seq::<Tri>::empty() =~= before);
            }
            assert(tris@ == before + q2_face_tris(d, fi as int));
            fi += 1;
        }
    }
    if tris.len() == 0 {
        return None;
    }
    let text = lossy(vstd::slice::slice_subrange(data, en_off, en_off + en_len));
    encode_mesh(&verts, &tris, &Vec::new(), &Vec::new(), find_spawns(text.as_str()))
}

/// A shader's name in lower case; empty where there is none of that number.
pub open spec fn shader_name(d: Seq<u8>, idx: int) -> Seq<char> {
    let (o, len) = lump_at(d, 8, 1);
    if idx < 0 || idx >= len / 72 {
        Seq::empty()
    } else {
        lower_chars(lossy_chars(cstr_at(d, o + idx * 72, 64)))
    }
}

/// Shaders of sky and tool brushes, which are not drawn.
pub open spec fn is_skip_shader(n: Seq<char>) -> bool {
    n.len() == 0 || n == "noshader"@ || holds(n, "common/"@) || holds(n, "sky"@)
}

/// The offset in the mesh-vertex list at place `i`; 0 where the list is shorter.
pub open spec fn meshvert(d: Seq<u8>, i: int) -> int {
    let (o, len) = lump_at(d, 8, 11);
    if i < len / 4 {
        i32_at(d, o + i * 4)
    } else {
        0
    }
}

pub open spec fn q3_vertex_count(d: Seq<u8>) -> int {
    lump_at(d, 8, 10).1 / 44
}

pub open spec fn q3_vertices(d: Seq<u8>) -> Seq<Vertex> {
    vertices(d, lump_at(d, 8, 10).0, 44, q3_vertex_count(d))
}

pub open spec fn q3_face_count(d: Seq<u8>) -> int {
    lump_at(d, 8, 13).1 / 104
}

/// The vertex at place `k` of a face, counted in 32 bits.
pub open spec fn q3_corner(d: Seq<u8>, firstvert: int, k: int) -> int {
    (firstvert + meshvert(d, k)) % 0x1_0000_0000
}

/// The triangles of a face from its mesh vertex `k` on, those over existing
/// vertices.
pub open spec fn soup_from(d: Seq<u8>, firstvert: int, firstmv: int, k: int, n: int) -> Seq<Tri>
    decreases n - k,
{
    if k + 2 >= n {
        Seq::empty()
    } else {
        let a = q3_corner(d, firstvert, firstmv + k);
        let b = q3_corner(d, firstvert, firstmv + k + 1);
        let c = q3_corner(d, firstvert, firstmv + k + 2);
        let rest = soup_from(d, firstvert, firstmv, k + 3, n);
        if a < q3_vertex_count(d) && b < q3_vertex_count(d) && c < q3_vertex_count(d) {
            seq![(a as u32, b as u32, c as u32)] + rest
        } else {
            rest
        }
    }
}

/// The triangles of face `fi`: polygons and meshes only.
pub open spec fn q3_face_tris(d: Seq<u8>, fi: int) -> Seq<Tri> {
    let b = lump_at(d, 8, 13).0 + fi * 104;
    let kind = i32_at(d, b + 8);
    let firstvert = i32_at(d, b + 12);
    let firstmv = i32_at(d, b + 20);
    let n = i32_at(d, b + 24);
    if is_skip_shader(shader_name(d, i32_at(d, b))) || (kind != 1 && kind != 3) || firstvert < 0
        || firstmv < 0 || n < 0 {
        Seq::empty()
    } else {
        soup_from(d, firstvert, firstmv, 0, n)
    }
}

pub open spec fn q3_faces_from(d: Seq<u8>, fi: int, end: int, acc: Seq<Tri>) -> Seq<Tri>
    decreases end - fi,
{
    if fi >= end || acc.len() >= MAX_TRIS {
        acc
    } else {
        q3_faces_from(d, fi + 1, end, acc + q3_face_tris(d, fi))
    }
}

pub open spec fn q3_tris(d: Seq<u8>) -> Seq<Tri> {
    q3_faces_from(d, 0, q3_face_count(d), Seq::empty())
}

/// Whether the file is a map of this kind with something to draw, no more of it
/// than can be encoded.
pub open spec fn q3_has_mesh(d: Seq<u8>) -> bool {
    &&& d.len() >= 144
    &&& spells(d, 0, ibsp())
    &&& i32_at(d, 4) == 46
    &&& q3_vertex_count(d) > 0
    &&& q3_face_count(d) > 0
    &&& 0 < q3_tris(d).len() <= usize::MAX / 16
}

fn shader(d: &[u8], idx: i32) -> (s: String)
    requires
        144 <= d.len(),
    ensures
        s@ == shader_name(d@, idx as int),
{
    let (o, len) = lump(d, 8, 1);
    if idx < 0 || idx as u64 >= (len / 72) as u64 {
        return String::new();
    }
    lowercase(read_cstring(d, o + idx as usize * 72, 64).as_str())
}

fn corner(d: &[u8], firstvert: i32, k: i64) -> (r: u32)
    requires
        144 <= d.len(),
        0 <= firstvert,
        0 <= k,
    ensures
        r == q3_corner(d@, firstvert as int, k as int),
{
    let (o, len) = lump(d, 8, 11);
    let m: i32 = if (k as u64) < (len / 4) as u64 {
        le_i32(d, o + k as usize * 4)
    } else {
        0
    };
    let sum: i64 = firstvert as i64 + m as i64;
    if sum < 0 {
        (sum + 0x1_0000_0000) as u32
    } else {
        sum as u32
    }
}

fn push_soup(d: &[u8], tris: &mut Vec<Tri>, firstvert: i32, firstmv: i32, n: i32)
    requires
        144 <= d.len(),
        0 <= firstvert,
        0 <= firstmv,
        forall|i: int|
            0 <= i < old(tris)@.len() ==> (#[trigger] old(tris)@[i]).0 < q3_vertex_count(d@)
                && old(tris)@[i].1 < q3_vertex_count(d@) && old(tris)@[i].2 < q3_vertex_count(d@),
    ensures
        final(tris)@ == old(tris)@ + soup_from(d@, firstvert as int, firstmv as int, 0, n as int),
        forall|i: int|
            0 <= i < final(tris)@.len() ==> (#[trigger] final(tris)@[i]).0 < q3_vertex_count(d@)
                && final(tris)@[i].1 < q3_vertex_count(d@) && final(tris)@[i].2 < q3_vertex_count(
                d@,
            ),
{
    let n_verts: u64 = (lump(d, 8, 10).1 / 44) as u64;
    let mut k: i64 = 0;
    let ghost want = old(tris)@ + soup_from(d@, firstvert as int, firstmv as int, 0, n as int);
    while k + 2 < n as i64
        invariant
            144 <= d.len(),
            0 <= firstvert,
            0 <= firstmv,
            0 <= k <= n + 3 || k == 0,
            n_verts == q3_vertex_count(d@),
            want == tris@ + soup_from(d@, firstvert as int, firstmv as int, k as int, n as int),
            forall|i: int|
                0 <= i < tris@.len() ==> (#[trigger] tris@[i]).0 < n_verts && tris@[i].1 < n_verts
                    && tris@[i].2 < n_verts,
        decreases n - k,
    {
        let a: u32 = corner(d, firstvert, firstmv as i64 + k);
        let b: u32 = corner(d, firstvert, firstmv as i64 + k + 1);
        let c: u32 = corner(d, firstvert, firstmv as i64 + k + 2);
        if (a as u64) < n_verts && (b as u64) < n_verts && (c as u64) < n_verts {
            proof {
                let rest = soup_from(d@, firstvert as int, firstmv as int, k + 3, n as int);
                assert(tris@ + (seq![(a, b, c)] + rest) =~= tris@.push((a, b, c)) + rest);
            }
            tris.push((a, b, c));
        }
        k += 3;
    }
    assert(tris@ + Seq::<Tri>::empty() =~= tris@);
}

fn shader_skipped(n: &str) -> (r: bool)
    ensures
        r == is_skip_shader(n@),
{
    is_empty_text(n) || str_eq(n, "noshader") || text_holds(n, "common/") || text_holds(n, "sky")
}

/// The mesh of a Quake 3 map. Curved patches are left out.
pub fn extract_q3_bsp_from_bytes(data: &[u8]) -> (r: Option<Mesh>)
    ensures
        r is Some <==> q3_has_mesh(data@),
        r is Some ==> mesh_of(&r->0, q3_vertices(data@), q3_tris(data@), Seq::empty(), Seq::empty())
            && origins(r->0.spawns@) == entity_spawns(data@),
{
    if data.len() < 8 + 17 * 8 || !is_ibsp(data) || le_i32(data, 4) != 46 {
        return None;
    }
    let ghost d = data@;
    let (en_off, en_len) = lump(data, 8, 0);
    let (v_off, v_len) = lump(data, 8, 10);
    let (f_off, f_len) = lump(data, 8, 13);
    let n_verts: usize = v_len / 44;
    let n_faces: usize = f_len / 104;
    if n_verts == 0 || n_faces == 0 {
        return None;
    }
    let verts = read_vertices(data, v_off, 44, n_verts);
    let mut tris: Vec<Tri> = Vec::new();
    let mut fi: usize = 0;
    while fi < n_faces && tris.len() < MAX_TRIS
        invariant
            144 <= data.len(),
            d == data@,
            fi <= n_faces,
            f_off == lump_at(d, 8, 13).0,
            n_faces == q3_face_count(d),
            f_off + 104 * n_faces <= data.len(),
            q3_tris(d) == q3_faces_from(d, fi as int, n_faces as int, tris@),
            forall|i: int|
                0 <= i < tris@.len() ==> (#[trigger] tris@[i]).0 < q3_vertex_count(d) && tris@[i].1
                    < q3_vertex_count(d) && tris@[i].2 < q3_vertex_count(d),
        decreases n_faces - fi,
    {
        let b: usize = f_off + fi * 104;
        let tex: i32 = le_i32(data, b);
        let kind: i32 = le_i32(data, b + 8);
        let firstvert: i32 = le_i32(data, b + 12);
        let firstmv: i32 = le_i32(data, b + 20);
        let n: i32 = le_i32(data, b + 24);
        let ghost before = tris@;
        assert(before + Seq::<Tri>::empty() =~= before);
        if !shader_skipped(shader(data, tex).as_str()) && (kind == 1 || kind == 3) && firstvert >= 0
            && firstmv >= 0 && n >= 0 {
            push_soup(data, &mut tris, firstvert, firstmv, n);
        }
        assert(tris@ == before + q3_face_tris(d, fi as int));
        fi += 1;
    }
    if tris.len() == 0 || tris.len() > usize::MAX / 16 {
        return None;
    }
    let text = lossy(vstd::slice::slice_subrange(data, en_off, en_off + en_len));
    encode_mesh(&verts, &tris, &Vec::new(), &Vec::new(), find_spawns(text.as_str()))
}

} // verus!
