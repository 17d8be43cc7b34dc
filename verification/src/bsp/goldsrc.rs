//! GoldSrc and Quake 1 maps: versions 30 and 29.
use super::spawn::{find_spawns, origins, spawns_from, Origin, OriginView};
use super::{corners, edge_list, encode_mesh, face_corners, fan, find_world_end, int_list, lump,
    lump_at, mesh_of, push_fan, read_edges, read_ints, read_vertices, vertices, world_end, Mesh, Tri,
    Vertex, MAX_TRIS};
use crate::bytes::{cstr_at, i32_at, le_i32, le_u16, u16_at};
use crate::text::{begins, is_empty_text, lossy, lossy_chars, lower_chars, lowercase, str_eq,
    text_begins};
use vstd::prelude::*;

verus! {

/// A texture's name in lower case; empty where the directory does not lead to one.
pub open spec fn tex_name(d: Seq<u8>, miptex: int) -> Seq<char> {
    let (o, len) = lump_at(d, 4, 2);
    let entry = o + 4 + miptex * 4;
    let p = o + i32_at(d, entry);
    if miptex < 0 || len < 4 || miptex >= i32_at(d, o) || entry + 4 > d.len() || i32_at(d, entry)
        < 0 || p + 16 > d.len() {
        Seq::empty()
    } else {
        lower_chars(lossy_chars(cstr_at(d, p, 16)))
    }
}

/// Textures of sky and tool brushes, which are not drawn.
pub open spec fn is_skip_tex(name: Seq<char>) -> bool {
    ||| name.len() == 0
    ||| begins(name, "sky"@)
    ||| begins(name, "aaatrigger"@)
    ||| name == "clip"@
    ||| name == "null"@
    ||| name == "hint"@
    ||| name == "skip"@
    ||| name == "origin"@
    ||| begins(name, "trigger"@)
}

pub open spec fn face_count(d: Seq<u8>) -> int {
    lump_at(d, 4, 7).1 / 20
}

pub open spec fn map_edges(d: Seq<u8>) -> Seq<(u16, u16)> {
    edge_list(d, lump_at(d, 4, 12).0, lump_at(d, 4, 12).1 / 4)
}

pub open spec fn map_surfedges(d: Seq<u8>) -> Seq<i32> {
    int_list(d, lump_at(d, 4, 13).0, lump_at(d, 4, 13).1 / 4)
}

pub open spec fn map_vertices(d: Seq<u8>) -> Seq<Vertex> {
    vertices(d, lump_at(d, 4, 3).0, 12, lump_at(d, 4, 3).1 / 12)
}

/// The triangles of face `fi`: none for a degenerate face or one with a skipped
/// texture.
pub open spec fn face_tris(d: Seq<u8>, fi: int) -> Seq<Tri> {
    let b = lump_at(d, 4, 7).0 + fi * 20;
    let n = u16_at(d, b + 8);
    let ti = u16_at(d, b + 10);
    let skipped = ti < lump_at(d, 4, 6).1 / 40 && is_skip_tex(
        tex_name(d, i32_at(d, lump_at(d, 4, 6).0 + ti * 40 + 32)),
    );
    if n < 3 || skipped {
        Seq::empty()
    } else {
        fan(corners(map_surfedges(d), map_edges(d), i32_at(d, b + 4), 0, n))
    }
}

/// The triangles of faces `fi` to `end` behind `acc`, until there are enough.
pub open spec fn faces_from(d: Seq<u8>, fi: int, end: int, acc: Seq<Tri>) -> Seq<Tri>
    decreases end - fi,
{
    if fi < 0 || fi >= end || acc.len() >= MAX_TRIS {
        acc
    } else {
        faces_from(d, fi + 1, end, acc + face_tris(d, fi))
    }
}

/// The first face of the world and the one behind its last.
pub open spec fn world_faces(d: Seq<u8>) -> (int, int) {
    let (o, len) = lump_at(d, 4, 14);
    if len >= 64 {
        (i32_at(d, o + 56), world_end(i32_at(d, o + 56), i32_at(d, o + 60), face_count(d)))
    } else {
        (0, face_count(d))
    }
}

pub open spec fn world_tris(d: Seq<u8>) -> Seq<Tri> {
    faces_from(d, world_faces(d).0, world_faces(d).1, Seq::empty())
}

/// Whether the file is a map of this kind with something to draw.
pub open spec fn has_mesh(d: Seq<u8>) -> bool {
    &&& d.len() >= 124
    &&& i32_at(d, 0) == 30 || i32_at(d, 0) == 29
    &&& map_vertices(d).len() > 0
    &&& face_count(d) > 0
    &&& map_surfedges(d).len() > 0
    &&& world_tris(d).len() > 0
}

pub open spec fn entity_spawns(d: Seq<u8>) -> Seq<OriginView> {
    let (o, len) = lump_at(d, 4, 0);
    if len > 0 {
        spawns_from(lossy_chars(d.subrange(o, o + len)), 0)
    } else {
        Seq::empty()
    }
}

fn texture(d: &[u8], miptex: i32) -> (s: String)
    requires
        124 <= d.len(),
    ensures
        s@ == tex_name(d@, miptex as int),
{
    let (o, len) = lump(d, 4, 2);
    if miptex < 0 || len < 4 || miptex >= le_i32(d, o) {
        return String::new();
    }
    let entry: u64 = o as u64 + 4 + miptex as u64 * 4;
    if entry + 4 > d.len() as u64 {
        return String::new();
    }
    let rel: i32 = le_i32(d, entry as usize);
    if rel < 0 {
        return String::new();
    }
    let p: u64 = o as u64 + rel as u64;
    if p + 16 > d.len() as u64 {
        return String::new();
    }
    lowercase(crate::bytes::read_cstring(d, p as usize, 16).as_str())
}

fn skips(name: &str) -> (r: bool)
    ensures
        r == is_skip_tex(name@),
{
    is_empty_text(name) || text_begins(name, "sky") || text_begins(name, "aaatrigger") || str_eq(
        name,
        "clip",
    ) || str_eq(name, "null") || str_eq(name, "hint") || str_eq(name, "skip") || str_eq(
        name,
        "origin",
    ) || text_begins(name, "trigger")
}

/// The mesh of a GoldSrc or Quake 1 map.
pub fn extract_goldsrc_bsp_from_bytes(data: &[u8]) -> (r: Option<Mesh>)
    ensures
        r is Some <==> has_mesh(data@),
        r is Some ==> mesh_of(&r->0, map_vertices(data@), world_tris(data@), Seq::empty(), Seq::empty())
            && origins(r->0.spawns@) == entity_spawns(data@),
{
    if data.len() < 4 + 15 * 8 {
        return None;
    }
    let version: i32 = le_i32(data, 0);
    if version != 30 && version != 29 {
        return None;
    }
    let ghost d = data@;
    let (v_off, v_len) = lump(data, 4, 3);
    let (f_off, f_len) = lump(data, 4, 7);
    let (e_off, e_len) = lump(data, 4, 12);
    let (se_off, se_len) = lump(data, 4, 13);
    let (ti_off, ti_len) = lump(data, 4, 6);
    let (m_off, m_len) = lump(data, 4, 14);
    let (en_off, en_len) = lump(data, 4, 0);
    let n_verts: usize = v_len / 12;
    let n_faces: usize = f_len / 20;
    let n_se: usize = se_len / 4;
    let n_ti: usize = ti_len / 40;
    if n_verts == 0 || n_faces == 0 || n_se == 0 {
        return None;
    }
    let verts = read_vertices(data, v_off, 12, n_verts);
    let edges = read_edges(data, e_off, e_len / 4);
    let se = read_ints(data, se_off, n_se);
    let (first, end): (i32, usize) = if m_len >= 64 {
        let ff: i32 = le_i32(data, m_off + 56);
        (ff, find_world_end(ff, le_i32(data, m_off + 60), n_faces))
    } else {
        (0, n_faces)
    };
    let mut tris: Vec<Tri> = Vec::new();
    if first >= 0 {
        let mut fi: usize = first as usize;
        while fi < end && tris.len() < MAX_TRIS
            invariant
                124 <= data.len(),
                d == data@,
                end <= n_faces,
                f_off == lump_at(d, 4, 7).0,
                n_faces == lump_at(d, 4, 7).1 / 20,
                f_off + 20 * n_faces <= data.len(),
                ti_off == lump_at(d, 4, 6).0,
                n_ti == lump_at(d, 4, 6).1 / 40,
                ti_off + 40 * n_ti <= data.len(),
                edges@ == map_edges(d),
                se@ == map_surfedges(d),
                end == world_faces(d).1,
                world_tris(d) == faces_from(d, fi as int, end as int, tris@),
                tris@.len() <= MAX_TRIS + 0x1_0000,
                forall|i: int|
                    0 <= i < tris@.len() ==> (#[trigger] tris@[i]).0 < 0x1_0000 && tris@[i].1
                        < 0x1_0000 && tris@[i].2 < 0x1_0000,
            decreases end - fi,
        {
            let b: usize = f_off + fi * 20;
            let firstedge: i32 = le_i32(data, b + 4);
            let numedges: u16 = le_u16(data, b + 8);
            let ti: usize = le_u16(data, b + 10) as usize;
            let skip = numedges < 3 || (ti < n_ti && skips(
                texture(data, le_i32(data, ti_off + ti * 40 + 32)).as_str(),
            ));
            let ghost before = tris@;
            if !skip {
                let fv = face_corners(&se, &edges, firstedge, numedges as i32);
                proof {
                    lemma_corners_len(se@, edges@, firstedge as int, 0, numedges as int);
                }
                push_fan(&mut tris, &fv);
            } else {
                assert(before + Seq::<Tri>::empty() =~= before);
            }
            assert(tris@ == before + face_tris(d, fi as int));
            fi += 1;
        }
    }
    if tris.len() == 0 {
        return None;
    }
    let spawns: Vec<Origin> = if en_len > 0 {
        let text = lossy(vstd::slice::slice_subrange(data, en_off, en_off + en_len));
        find_spawns(text.as_str())
    } else {
        Vec::new()
    };
    assert(en_len == 0 ==> origins(spawns@) =~= Seq::empty());
    encode_mesh(&verts, &tris, &Vec::new(), &Vec::new(), spawns)
}

pub(crate) proof fn lemma_corners_len(
    se: Seq<i32>,
    edges: Seq<(u16, u16)>,
    first: int,
    i: int,
    n: int,
)
    requires
        0 <= i <= n,
    ensures
        corners(se, edges, first, i, n).len() <= n - i,
    decreases n - i,
{
    if i < n {
        lemma_corners_len(se, edges, first, i + 1, n);
    }
}

} // verus!
