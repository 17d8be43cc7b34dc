//! Source maps: `VBSP`, with compressed lumps and displacement surfaces.
use super::goldsrc::lemma_corners_len;
use super::spawn::{find_spawns, origins, spawns_from, Origin};
use super::{corners, edge_list, face_corners, fan, find_world_end, int_list, pooled, push_fan,
    read_edges, read_ints, read_vertices, vertex_at, vertices, world_end, Tri, Vertex, MAX_TRIS};
use crate::bytes::{i16_at, i32_at, le_i16, le_i32, le_u32, spells, starts_with_bytes, u32_at};
use crate::protobuf::reader::u64_at;
use crate::text::{lossy, lossy_chars};
use vstd::prelude::*;

verus! {

/// `VBSP`.
pub open spec fn vbsp() -> Seq<u8> {
    seq![0x56, 0x42, 0x53, 0x50]
}

/// `LZMA`.
pub open spec fn lzma() -> Seq<u8> {
    seq![0x4c, 0x5a, 0x4d, 0x41]
}

pub(crate) fn is_vbsp(data: &[u8]) -> (r: bool)
    ensures
        r == spells(data@, 0, vbsp()),
{
    let m: [u8; 4] = [0x56, 0x42, 0x53, 0x50];
    assert(m@ =~= vbsp());
    starts_with_bytes(data, m.as_slice())
}

/// What `lzma_rs::lzma_decompress` makes of a stream: nothing where it fails.
pub uninterp spec fn lzma_plain(stream: Seq<u8>) -> Option<Seq<u8>>;

/// Whether the places in a dictionary of `dict` bytes, and of `size` bytes and the
/// longest match behind them, can be counted.
pub open spec fn can_unpack(dict: int, size: int) -> bool {
    dict + size + 273 <= usize::MAX
}

/// Calls `lzma_rs::lzma_decompress` on a stream in the "alone" format: five bytes
/// of properties, of which the last four are the size of the dictionary, the plain
/// size in eight, and the packed data. Its result is a function of the stream; where
/// it succeeds, the plain text has the size that the stream gives. It adds places in
/// the dictionary and in the plain text to the dictionary's size in a `usize`, so the
/// sum has to fit.
#[verifier::external_body]
fn lzma_decode(stream: &[u8]) -> (r: Option<Vec<u8>>)
    requires
        stream@.len() >= 13 ==> can_unpack(u32_at(stream@, 1), u64_at(stream@, 5)),
    ensures
        match (r, lzma_plain(stream@)) {
            (Some(v), Some(s)) => v@ == s,
            (None, None) => true,
            _ => false,
        },
        r is Some ==> stream@.len() >= 13 && r->0@.len() == u64_at(stream@, 5),
{
    let mut input: &[u8] = stream;
    let mut out: Vec<u8> = Vec::new();
    match lzma_rs::lzma_decompress(&mut input, &mut out) {
        Ok(()) => Some(out),
        Err(_) => None,
    }
}

/// The stream that a packed lump stands for: its properties, its plain size
/// widened to eight bytes, and its data.
pub open spec fn alone_stream(s: Seq<u8>) -> Seq<u8> {
    s.subrange(12, 17) + s.subrange(4, 8) + seq![0u8, 0, 0, 0] + s.subrange(17, s.len() as int)
}

/// A lump's plain bytes. A packed lump has none where it is too large to be unpacked.
pub open spec fn plain_lump(s: Seq<u8>) -> Option<Seq<u8>> {
    if s.len() < 4 {
        None
    } else if !spells(s, 0, lzma()) {
        Some(s)
    } else if s.len() < 17 || !can_unpack(u32_at(s, 13), u32_at(s, 4)) {
        None
    } else {
        lzma_plain(alone_stream(s))
    }
}

/// The stream of a packed lump has the size and the dictionary that its head gives.
pub proof fn law_packed_lump_size(s: Seq<u8>)
    requires
        s.len() >= 17,
        spells(s, 0, lzma()),
    ensures
        u64_at(alone_stream(s), 5) == u32_at(s, 4),
        u32_at(alone_stream(s), 1) == u32_at(s, 13),
{
    let a = alone_stream(s);
    assert(a[1] == s[13] && a[2] == s[14] && a[3] == s[15] && a[4] == s[16]);
    assert(a[5] == s[4] && a[6] == s[5] && a[7] == s[6] && a[8] == s[7]);
    assert(a[9] == 0 && a[10] == 0 && a[11] == 0 && a[12] == 0);
}

/// Unpacks a lump that is packed, and copies one that is not.
pub fn decompress_lzma_lump(data: &[u8]) -> (r: Option<Vec<u8>>)
    ensures
        match (r, plain_lump(data@)) {
            (Some(v), Some(s)) => v@ == s,
            (None, None) => true,
            _ => false,
        },
        r is Some && spells(data@, 0, lzma()) ==> r->0@.len() == u32_at(data@, 4),
{
    if data.len() < 4 {
        return None;
    }
    let m: [u8; 4] = [0x4c, 0x5a, 0x4d, 0x41];
    assert(m@ =~= lzma());
    if !starts_with_bytes(data, m.as_slice()) {
        return Some(vstd::slice::slice_to_vec(data));
    }
    if data.len() < 17 {
        return None;
    }
    let dict: u64 = le_u32(data, 13) as u64;
    let size: u64 = le_u32(data, 4) as u64;
    if dict + size + 273 > usize::MAX as u64 {
        return None;
    }
    proof {
        law_packed_lump_size(data@);
    }
    let mut stream: Vec<u8> = Vec::new();
    stream.extend_from_slice(vstd::slice::slice_subrange(data, 12, 17));
    stream.extend_from_slice(vstd::slice::slice_subrange(data, 4, 8));
    stream.push(0);
    stream.push(0);
    stream.push(0);
    stream.push(0);
    stream.extend_from_slice(vstd::slice::slice_subrange(data, 17, data.len()));
    assert(stream@ =~= alone_stream(data@));
    lzma_decode(stream.as_slice())
}

/// Whether a directory entry reads well: a small version, and no data or data
/// within the file.
pub open spec fn sane_entry(d: Seq<u8>, o: int) -> bool {
    let ofs = i32_at(d, o);
    let len = i32_at(d, o + 4);
    &&& 0 <= i32_at(d, o + 8) <= 255
    &&& len == 0 || (ofs > 0 && ofs + len <= d.len())
}

/// How many of the entries from `i` on of a directory at `base` read well.
pub open spec fn sane_count(d: Seq<u8>, base: int, i: int) -> int
    decreases 64 - i,
{
    if i >= 64 || base + 16 * i + 16 > d.len() {
        0
    } else {
        sane_count(d, base, i + 1) + if sane_entry(d, base + 16 * i) {
            1int
        } else {
            0
        }
    }
}

/// Where the lump directory starts: byte 8, or byte 12 where more of its entries
/// read well there.
pub open spec fn directory_base(d: Seq<u8>) -> int {
    if sane_count(d, 12, 0) > sane_count(d, 8, 0) {
        12
    } else {
        8
    }
}

fn count_sane(d: &[u8], base: usize) -> (r: usize)
    requires
        base <= 12,
    ensures
        r == sane_count(d@, base as int, 0),
{
    let mut i: usize = 0;
    let mut ok: usize = 0;
    while i < 64 && base + 16 * i + 16 <= d.len()
        invariant
            base <= 12,
            i <= 64,
            ok <= i,
            sane_count(d@, base as int, 0) == ok + sane_count(d@, base as int, i as int),
        decreases 64 - i,
    {
        let o: usize = base + 16 * i;
        let ofs: i64 = le_i32(d, o) as i64;
        let len: i64 = le_i32(d, o + 4) as i64;
        let ver: i32 = le_i32(d, o + 8);
        if 0 <= ver && ver <= 255 && (len == 0 || (ofs > 0 && (ofs + len < 0 || (ofs + len) as u64
            <= d.len() as u64))) {
            ok += 1;
        }
        i += 1;
    }
    ok
}

/// Finds where the directory of lumps starts: at 12 where more of its entries make
/// sense there than at 8.
pub fn detect_lump_base(data: &[u8]) -> (r: usize)
    ensures
        r == directory_base(data@),
{
    if count_sane(data, 12) > count_sane(data, 8) {
        12
    } else {
        8
    }
}

/// The plain bytes of lump `i`; none where it does not lie within the file or
/// does not unpack.
pub open spec fn lump_bytes(d: Seq<u8>, i: int) -> Option<Seq<u8>> {
    let o = directory_base(d) + 16 * i;
    let off = i32_at(d, o);
    let len = i32_at(d, o + 4);
    if off < 0 || len < 0 || off + len > d.len() {
        None
    } else {
        plain_lump(d.subrange(off, off + len))
    }
}

fn get_lump(d: &[u8], base: usize, i: usize) -> (r: Option<Vec<u8>>)
    requires
        1036 <= d.len(),
        i <= 33,
        base == directory_base(d@),
    ensures
        match (r, lump_bytes(d@, i as int)) {
            (Some(v), Some(s)) => v@ == s,
            (None, None) => true,
            _ => false,
        },
{
    let o: usize = base + 16 * i;
    let off: i32 = le_i32(d, o);
    let len: i32 = le_i32(d, o + 4);
    if off < 0 || len < 0 || off as u64 + len as u64 > d.len() as u64 {
        return None;
    }
    decompress_lzma_lump(vstd::slice::slice_subrange(d, off as usize, off as usize + len as usize))
}

/// The lumps that the geometry is read from.
pub struct Lumps {
    pub entities: Seq<u8>,
    pub verts: Seq<u8>,
    pub texinfo: Seq<u8>,
    pub faces: Seq<u8>,
    pub edges: Seq<u8>,
    pub surfedges: Seq<u8>,
    pub models: Option<Seq<u8>>,
    pub dispinfo: Seq<u8>,
    pub dispverts: Seq<u8>,
}

pub open spec fn or_empty(s: Option<Seq<u8>>) -> Seq<u8> {
    match s {
        Some(s) => s,
        None => Seq::empty(),
    }
}

/// The lumps of a file; none where one that has to be there is not.
pub open spec fn lumps_of(d: Seq<u8>) -> Option<Lumps> {
    match (
        lump_bytes(d, 0),
        lump_bytes(d, 3),
        lump_bytes(d, 6),
        lump_bytes(d, 7),
        lump_bytes(d, 12),
        lump_bytes(d, 13),
    ) {
        (Some(entities), Some(verts), Some(texinfo), Some(faces), Some(edges), Some(surfedges)) => Some(
            Lumps {
                entities,
                verts,
                texinfo,
                faces,
                edges,
                surfedges,
                models: lump_bytes(d, 14),
                dispinfo: or_empty(lump_bytes(d, 26)),
                dispverts: or_empty(lump_bytes(d, 33)),
            },
        ),
        _ => None,
    }
}

/// A displaced quad: its corners, where its first one lies, the vertices along a
/// side, and for each grid vertex the direction and distance that displace it.
#[derive(Debug)]
pub struct Patch {
    pub corners: (Vertex, Vertex, Vertex, Vertex),
    pub start: Vertex,
    pub side: u32,
    pub offsets: Vec<(u32, u32, u32, u32)>,
}

/// What a `Patch` says.
pub struct PatchView {
    pub corners: (Vertex, Vertex, Vertex, Vertex),
    pub start: Vertex,
    pub side: u32,
    pub offsets: Seq<(u32, u32, u32, u32)>,
}

impl Patch {
    pub open spec fn view(&self) -> PatchView {
        PatchView {
            corners: self.corners,
            start: self.start,
            side: self.side,
            offsets: self.offsets@,
        }
    }
}

pub open spec fn patches_view(v: Seq<Patch>) -> Seq<PatchView> {
    v.map_values(|p: Patch| p@)
}

/// The corners in the order (0,0), (1,0), (0,1), (1,1) of the grid, by the corner
/// that the grid starts at.
pub open spec fn corner_order(start: int) -> (int, int, int, int) {
    if start == 0 {
        (0, 1, 3, 2)
    } else if start == 1 {
        (1, 2, 0, 3)
    } else if start == 2 {
        (2, 3, 1, 0)
    } else {
        (3, 0, 2, 1)
    }
}

/// The corners of a patch in the order of its grid, by the one that it starts at.
pub fn grid_corners(start: usize) -> (r: (usize, usize, usize, usize))
    ensures
        (r.0 as int, r.1 as int, r.2 as int, r.3 as int) == corner_order(start as int),
{
    match start {
        0 => (0, 1, 3, 2),
        1 => (1, 2, 0, 3),
        2 => (2, 3, 1, 0),
        _ => (3, 0, 2, 1),
    }
}

/// The geometry found so far.
pub struct Found {
    pub tris: Seq<Tri>,
    pub patches: Seq<PatchView>,
    pub patch_tris: Seq<Tri>,
    pub patch_verts: int,
}

/// Surface flags of faces that are not drawn: sky, trigger, nodraw, hint and skip.
pub const SKIP_FLAGS: u32 = 0x3c6;

pub open spec fn side_of(power: int) -> int {
    if power == 1 {
        3
    } else if power == 2 {
        5
    } else if power == 3 {
        9
    } else {
        17
    }
}

/// Grid vertex `k`, rows first: its direction and distance. The list runs along
/// columns.
pub open spec fn offset_at(dv: Seq<u8>, first: int, n: int, k: int) -> (u32, u32, u32, u32) {
    let o = (first + k / n + (k % n) * n) * 20;
    (
        u32_at(dv, o) as u32,
        u32_at(dv, o + 4) as u32,
        u32_at(dv, o + 8) as u32,
        u32_at(dv, o + 12) as u32,
    )
}

/// The patch of displacement `di` over the corners `fv`, if its data is there.
pub open spec fn patch_at(l: Lumps, fv: Seq<u32>, di: int) -> Option<PatchView> {
    let o = di * 176;
    let first = i32_at(l.dispinfo, o + 12);
    let power = i32_at(l.dispinfo, o + 20);
    let n = side_of(power);
    let verts = vertices(l.verts, 0, 12, (l.verts.len() / 12) as int);
    if di < 0 || di >= l.dispinfo.len() / 176 || !(1 <= power <= 4) || first < 0 || first + n * n
        > l.dispverts.len() / 20 {
        None
    } else {
        Some(
            PatchView {
                corners: (
                    pooled(verts, fv[0]),
                    pooled(verts, fv[1]),
                    pooled(verts, fv[2]),
                    pooled(verts, fv[3]),
                ),
                start: vertex_at(l.dispinfo, o),
                side: n as u32,
                offsets: Seq::new((n * n) as nat, |k: int| offset_at(l.dispverts, first, n, k)),
            },
        )
    }
}

/// The two triangles of grid cell `q`, rows first, of a grid whose vertices are
/// numbered along columns from `base` on; the diagonal alternates.
pub open spec fn cell_tris(base: int, n: int, q: int) -> Seq<Tri> {
    let y = q / (n - 1);
    let x = q % (n - 1);
    let i00 = (base + y + x * n) as u32;
    let i10 = (base + y + (x + 1) * n) as u32;
    let i01 = (base + y + 1 + x * n) as u32;
    let i11 = (base + y + 1 + (x + 1) * n) as u32;
    if (x + y) % 2 == 0 {
        seq![(i00, i10, i11), (i00, i11, i01)]
    } else {
        seq![(i00, i10, i01), (i10, i11, i01)]
    }
}

/// The triangles of the first `q` cells.
pub open spec fn grid_tris(base: int, n: int, q: int) -> Seq<Tri>
    decreases q,
{
    if q <= 0 {
        Seq::empty()
    } else {
        grid_tris(base, n, q - 1) + cell_tris(base, n, q - 1)
    }
}

/// What face `fi` adds.
pub open spec fn add_face(l: Lumps, fi: int, g: Found) -> Found {
    let b = fi * 56;
    let n = i16_at(l.faces, b + 8);
    let ti = i16_at(l.faces, b + 10);
    let disp = i16_at(l.faces, b + 12);
    let flags = u32_at(l.texinfo, ti * 72 + 64) as u32;
    let fv = corners(
        int_list(l.surfedges, 0, (l.surfedges.len() / 4) as int),
        edge_list(l.edges, 0, (l.edges.len() / 4) as int),
        i32_at(l.faces, b + 4),
        0,
        n,
    );
    if ti < 0 || ti >= l.texinfo.len() / 72 || flags & SKIP_FLAGS != 0 || n < 3 {
        g
    } else if disp == -1 {
        Found { tris: g.tris + fan(fv), ..g }
    } else if n != 4 || fv.len() != 4 {
        g
    } else {
        match patch_at(l, fv, disp) {
            None => g,
            Some(p) => Found {
                tris: g.tris,
                patches: g.patches.push(p),
                patch_tris: g.patch_tris + grid_tris(
                    g.patch_verts,
                    p.side as int,
                    (p.side - 1) * (p.side - 1),
                ),
                patch_verts: g.patch_verts + p.side * p.side,
            },
        }
    }
}

pub open spec fn faces_from(l: Lumps, fi: int, end: int, g: Found) -> Found
    decreases end - fi,
{
    if fi < 0 || fi >= end || g.tris.len() + g.patch_tris.len() >= MAX_TRIS {
        g
    } else {
        faces_from(l, fi + 1, end, add_face(l, fi, g))
    }
}

/// The first face of the world and the one behind its last.
pub open spec fn world_faces(l: Lumps) -> (int, int) {
    let n = (l.faces.len() / 56) as int;
    match l.models {
        Some(m) => if m.len() >= 48 {
            (i32_at(m, 40), world_end(i32_at(m, 40), i32_at(m, 44), n))
        } else {
            (0, n)
        },
        None => (0, n),
    }
}

pub open spec fn nothing() -> Found {
    Found {
        tris: Seq::empty(),
        patches: Seq::empty(),
        patch_tris: Seq::empty(),
        patch_verts: 0,
    }
}

pub open spec fn world_of(l: Lumps) -> Found {
    faces_from(l, world_faces(l).0, world_faces(l).1, nothing())
}

/// A Source map's geometry: the pool of positions with the triangles over it, and
/// the patches with the triangles over their grid vertices in order.
#[derive(Debug)]
pub struct Geometry {
    pub verts: Vec<Vertex>,
    pub tris: Vec<Tri>,
    pub patches: Vec<Patch>,
    pub patch_tris: Vec<Tri>,
    pub spawns: Vec<Origin>,
}

/// Whether the file is a map of this kind with something to draw.
pub open spec fn has_geometry(d: Seq<u8>) -> bool {
    &&& d.len() >= 1036
    &&& spells(d, 0, vbsp())
    &&& lumps_of(d) matches Some(l) && l.verts.len() >= 12 && l.faces.len() >= 56 && (world_of(
        l,
    ).tris.len() > 0 || world_of(l).patch_tris.len() > 0)
}

/// The geometry of the lumps `l`.
pub open spec fn geometry_of(g: &Geometry, l: Lumps) -> bool {
    let w = world_of(l);
    &&& g.verts@ == vertices(l.verts, 0, 12, (l.verts.len() / 12) as int)
    &&& g.tris@ == w.tris
    &&& patches_view(g.patches@) == w.patches
    &&& g.patch_tris@ == w.patch_tris
    &&& origins(g.spawns@) == spawns_from(lossy_chars(l.entities), 0)
}

struct LumpSet {
    entities: Vec<u8>,
    verts: Vec<u8>,
    texinfo: Vec<u8>,
    faces: Vec<u8>,
    edges: Vec<u8>,
    surfedges: Vec<u8>,
    models: Option<Vec<u8>>,
    dispinfo: Vec<u8>,
    dispverts: Vec<u8>,
}

impl LumpSet {
    spec fn view(&self) -> Lumps {
        Lumps {
            entities: self.entities@,
            verts: self.verts@,
            texinfo: self.texinfo@,
            faces: self.faces@,
            edges: self.edges@,
            surfedges: self.surfedges@,
            models: match self.models {
                Some(m) => Some(m@),
                None => None,
            },
            dispinfo: self.dispinfo@,
            dispverts: self.dispverts@,
        }
    }
}

fn read_lumps(data: &[u8]) -> (r: Option<LumpSet>)
    requires
        1036 <= data.len(),
    ensures
        match (r, lumps_of(data@)) {
            (Some(s), Some(l)) => s@ == l,
            (None, None) => true,
            _ => false,
        },
{
    let base: usize = detect_lump_base(data);
    let entities = get_lump(data, base, 0)?;
    let verts = get_lump(data, base, 3)?;
    let texinfo = get_lump(data, base, 6)?;
    let faces = get_lump(data, base, 7)?;
    let edges = get_lump(data, base, 12)?;
    let surfedges = get_lump(data, base, 13)?;
    let models = get_lump(data, base, 14);
    let dispinfo = match get_lump(data, base, 26) {
        Some(v) => v,
        None => Vec::new(),
    };
    let dispverts = match get_lump(data, base, 33) {
        Some(v) => v,
        None => Vec::new(),
    };
    let s = LumpSet {
        entities,
        verts,
        texinfo,
        faces,
        edges,
        surfedges,
        models,
        dispinfo,
        dispverts,
    };
    assert(s.dispinfo@ =~= or_empty(lump_bytes(data@, 26)));
    assert(s.dispverts@ =~= or_empty(lump_bytes(data@, 33)));
    Some(s)
}

fn from_pool(verts: &Vec<Vertex>, v: u32) -> (r: Vertex)
    ensures
        r == pooled(verts@, v),
{
    if (v as u64) < verts.len() as u64 {
        verts[v as usize]
    } else {
        (0, 0, 0)
    }
}

proof fn lemma_grid_place(n: int, k: int)
    requires
        3 <= n <= 17,
        0 <= k < n * n,
    ensures
        0 <= k / n < n,
        0 <= k % n < n,
        0 <= k / n + (k % n) * n < n * n,
{
    assert(k / n < n) by (nonlinear_arith)
        requires
            0 <= k < n * n,
            n >= 3,
    ;
    assert(k / n >= 0) by (nonlinear_arith)
        requires
            0 <= k,
            n >= 3,
    ;
    assert(0 <= k % n < n) by (nonlinear_arith)
        requires
            n >= 3,
    ;
    let x = k % n;
    assert(x * n <= (n - 1) * n) by (nonlinear_arith)
        requires
            0 <= x <= n - 1,
            n >= 3,
    ;
    assert(0 <= x * n) by (nonlinear_arith)
        requires
            0 <= x,
            n >= 3,
    ;
    assert((n - 1) * n == n * n - n) by (nonlinear_arith);
}

fn read_offsets(dv: &Vec<u8>, first: usize, n: usize) -> (r: Vec<(u32, u32, u32, u32)>)
    requires
        3 <= n <= 17,
        first + n * n <= dv.len() / 20,
    ensures
        r@ == Seq::new((n * n) as nat, |k: int| offset_at(dv@, first as int, n as int, k)),
{
    let mut out: Vec<(u32, u32, u32, u32)> = Vec::new();
    let mut k: usize = 0;
    assert(n * n <= 289) by (nonlinear_arith)
        requires
            n <= 17,
    ;
    while k < n * n
        invariant
            3 <= n <= 17,
            n * n <= 289,
            k <= n * n,
            first + n * n <= dv.len() / 20,
            out@.len() == k,
            forall|j: int| 0 <= j < k ==> out@[j] == offset_at(dv@, first as int, n as int, j),
        decreases n * n - k,
    {
        proof {
            lemma_grid_place(n as int, k as int);
        }
        let place: usize = k / n + (k % n) * n;
        let o: usize = (first + place) * 20;
        let d = dv.as_slice();
        out.push((le_u32(d, o), le_u32(d, o + 4), le_u32(d, o + 8), le_u32(d, o + 12)));
        k += 1;
    }
    assert(out@ =~= Seq::new((n * n) as nat, |k: int| offset_at(dv@, first as int, n as int, k)));
    out
}

fn read_patch(s: &LumpSet, verts: &Vec<Vertex>, fv: &Vec<u32>, di: i16) -> (r: Option<Patch>)
    requires
        fv@.len() == 4,
        verts@ == vertices(s@.verts, 0, 12, (s@.verts.len() / 12) as int),
    ensures
        match (r, patch_at(s@, fv@, di as int)) {
            (Some(p), Some(v)) => p@ == v,
            (None, None) => true,
            _ => false,
        },
        r is Some ==> r->0.side == 3 || r->0.side == 5 || r->0.side == 9 || r->0.side == 17,
{
    if di < 0 || di as usize >= s.dispinfo.len() / 176 {
        return None;
    }
    let d = s.dispinfo.as_slice();
    let o: usize = di as usize * 176;
    let first: i32 = le_i32(d, o + 12);
    let power: i32 = le_i32(d, o + 20);
    if power < 1 || power > 4 || first < 0 {
        return None;
    }
    let n: usize = if power == 1 {
        3
    } else if power == 2 {
        5
    } else if power == 3 {
        9
    } else {
        17
    };
    assert(n * n == 9 || n * n == 25 || n * n == 81 || n * n == 289) by (nonlinear_arith)
        requires
            n == 3 || n == 5 || n == 9 || n == 17,
    ;
    if first as u64 + (n * n) as u64 > (s.dispverts.len() / 20) as u64 {
        return None;
    }
    let p = Patch {
        corners: (
            from_pool(verts, fv[0]),
            from_pool(verts, fv[1]),
            from_pool(verts, fv[2]),
            from_pool(verts, fv[3]),
        ),
        start: (le_u32(d, o), le_u32(d, o + 4), le_u32(d, o + 8)),
        side: n as u32,
        offsets: read_offsets(&s.dispverts, first as usize, n),
    };
    Some(p)
}

proof fn lemma_cell(n: int, q: int)
    requires
        3 <= n <= 17,
        0 <= q < (n - 1) * (n - 1),
    ensures
        0 <= q / (n - 1) < n - 1,
        0 <= q % (n - 1) < n - 1,
        0 <= (q % (n - 1)) * n,
        (q % (n - 1) + 1) * n == (q % (n - 1)) * n + n,
        q / (n - 1) + 1 + (q % (n - 1) + 1) * n < n * n,
{
    let m = n - 1;
    assert(0 <= q / m < m && 0 <= q % m < m) by (nonlinear_arith)
        requires
            0 <= q < m * m,
            m >= 2,
    ;
    let x = q % m;
    assert((x + 1) * n == x * n + n && 0 <= x * n && x * n + n <= (n - 1) * n) by (nonlinear_arith)
        requires
            0 <= x < n - 1,
            n >= 3,
    ;
    assert((n - 1) * n == n * n - n) by (nonlinear_arith);
}

fn push_grid(tris: &mut Vec<Tri>, base: u32, n: u32)
    requires
        3 <= n <= 17,
        base + n * n <= u32::MAX,
        forall|i: int|
            0 <= i < old(tris)@.len() ==> (#[trigger] old(tris)@[i]).0 < base && old(tris)@[i].1
                < base && old(tris)@[i].2 < base,
    ensures
        final(tris)@ == old(tris)@ + grid_tris(base as int, n as int, (n - 1) * (n - 1)),
        final(tris)@.len() == old(tris)@.len() + 2 * (n - 1) * (n - 1),
        forall|i: int|
            0 <= i < final(tris)@.len() ==> (#[trigger] final(tris)@[i]).0 < base + n * n
                && final(tris)@[i].1 < base + n * n && final(tris)@[i].2 < base + n * n,
{
    let m: u32 = n - 1;
    let mut q: u32 = 0;
    proof {
        assert(m * m <= 256) by (nonlinear_arith)
            requires
                m <= 16,
        ;
        assert(0 < n * n <= 289) by (nonlinear_arith)
            requires
                3 <= n <= 17,
        ;
        assert(2 * m * m == 2 * (m * m)) by (nonlinear_arith);
    }
    assert(tris@ =~= old(tris)@ + grid_tris(base as int, n as int, 0));
    while q < m * m
        invariant
            3 <= n <= 17,
            m == n - 1,
            m * m <= 256,
            0 < n * n <= 289,
            q <= m * m,
            base + n * n <= u32::MAX,
            tris@ == old(tris)@ + grid_tris(base as int, n as int, q as int),
            tris@.len() == old(tris)@.len() + 2 * q,
            forall|i: int|
                0 <= i < tris@.len() ==> (#[trigger] tris@[i]).0 < base + n * n && tris@[i].1 < base
                    + n * n && tris@[i].2 < base + n * n,
        decreases m * m - q,
    {
        proof {
            lemma_cell(n as int, q as int);
        }
        let y: u32 = q / m;
        let x: u32 = q % m;
        let ghost before = tris@;
        let i00: u32 = base + y + x * n;
        let i10: u32 = base + y + (x + 1) * n;
        let i01: u32 = base + y + 1 + x * n;
        let i11: u32 = base + y + 1 + (x + 1) * n;
        if (x + y) % 2 == 0 {
            tris.push((i00, i10, i11));
            tris.push((i00, i11, i01));
        } else {
            tris.push((i00, i10, i01));
            tris.push((i10, i11, i01));
        }
        assert(tris@ =~= before + cell_tris(base as int, n as int, q as int));
        q += 1;
        assert(before + cell_tris(base as int, n as int, q - 1) =~= old(tris)@ + grid_tris(
            base as int,
            n as int,
            q as int,
        ));
    }
}

/// The geometry of a Source map, before positions are computed: displaced grid
/// vertices and overlapping faces are left to the caller.
pub fn extract_bsp_from_bytes(data: &[u8]) -> (r: Option<Geometry>)
    ensures
        r is Some <==> has_geometry(data@),
        r is Some ==> geometry_of(&r->0, lumps_of(data@)->0),
{
    if data.len() < 1036 || !is_vbsp(data) {
        return None;
    }
    let s = read_lumps(data)?;
    let n_verts: usize = s.verts.len() / 12;
    let n_faces: usize = s.faces.len() / 56;
    let n_tinfo: usize = s.texinfo.len() / 72;
    if n_verts == 0 || n_faces == 0 {
        return None;
    }
    let edges = read_edges(s.edges.as_slice(), 0, s.edges.len() / 4);
    let se = read_ints(s.surfedges.as_slice(), 0, s.surfedges.len() / 4);
    let verts = read_vertices(s.verts.as_slice(), 0, 12, n_verts);
    let (first, end): (i32, usize) = match &s.models {
        Some(m) => if m.len() >= 48 {
            let ff: i32 = le_i32(m.as_slice(), 40);
            (ff, find_world_end(ff, le_i32(m.as_slice(), 44), n_faces))
        } else {
            (0, n_faces)
        },
        None => (0, n_faces),
    };
    let mut tris: Vec<Tri> = Vec::new();
    let mut patches: Vec<Patch> = Vec::new();
    let mut patch_tris: Vec<Tri> = Vec::new();
    let mut patch_verts: u32 = 0;
    assert(patches_view(patches@) =~= Seq::empty());
    if first >= 0 {
        let mut fi: usize = first as usize;
        while fi < end && tris.len() + patch_tris.len() < MAX_TRIS
            invariant
                end <= n_faces,
                n_faces == s@.faces.len() / 56,
                n_tinfo == s@.texinfo.len() / 72,
                s.faces@.len() <= usize::MAX,
                s.texinfo@.len() <= usize::MAX,
                edges@ == edge_list(s@.edges, 0, (s@.edges.len() / 4) as int),
                se@ == int_list(s@.surfedges, 0, (s@.surfedges.len() / 4) as int),
                verts@ == vertices(s@.verts, 0, 12, (s@.verts.len() / 12) as int),
                end == world_faces(s@).1,
                tris@.len() <= MAX_TRIS + 0x1_0000,
                patch_tris@.len() <= MAX_TRIS + 0x1_0000,
                8 * patch_verts <= 9 * patch_tris@.len(),
                world_of(s@) == faces_from(
                    s@,
                    fi as int,
                    end as int,
                    Found {
                        tris: tris@,
                        patches: patches_view(patches@),
                        patch_tris: patch_tris@,
                        patch_verts: patch_verts as int,
                    },
                ),
                forall|i: int|
                    0 <= i < patch_tris@.len() ==> (#[trigger] patch_tris@[i]).0 < patch_verts
                        && patch_tris@[i].1 < patch_verts && patch_tris@[i].2 < patch_verts,
            decreases end - fi,
        {
            let f = s.faces.as_slice();
            let b: usize = fi * 56;
            let firstedge: i32 = le_i32(f, b + 4);
            let n: i16 = le_i16(f, b + 8);
            let ti: i16 = le_i16(f, b + 10);
            let disp: i16 = le_i16(f, b + 12);
            let ghost g0 = Found {
                tris: tris@,
                patches: patches_view(patches@),
                patch_tris: patch_tris@,
                patch_verts: patch_verts as int,
            };
            if ti >= 0 && (ti as usize) < n_tinfo && le_u32(
                s.texinfo.as_slice(),
                ti as usize * 72 + 64,
            ) & SKIP_FLAGS == 0 && n >= 3 {
                let fv = face_corners(&se, &edges, firstedge, n as i32);
                proof {
                    lemma_corners_len(se@, edges@, firstedge as int, 0, n as int);
                }
                if disp == -1 {
                    push_fan(&mut tris, &fv);
                } else if n == 4 && fv.len() == 4 {
                    match read_patch(&s, &verts, &fv, disp) {
                        Some(p) => {
                            let side: u32 = p.side;
                            proof {
                                assert(patches_view(patches@.push(p)) =~= patches_view(
                                    patches@,
                                ).push(p@));
                                assert(side * side == 9 || side * side == 25 || side * side == 81
                                    || side * side == 289) by (nonlinear_arith)
                                    requires
                                        side == 3 || side == 5 || side == 9 || side == 17,
                                ;
                                assert(8 * (side * side) <= 9 * (2 * (side - 1) * (side - 1)) && 2
                                    * (side - 1) * (side - 1) <= 512) by (nonlinear_arith)
                                    requires
                                        side == 3 || side == 5 || side == 9 || side == 17,
                                ;
                            }
                            push_grid(&mut patch_tris, patch_verts, side);
                            patch_verts = patch_verts + side * side;
                            patches.push(p);
                        },
                        None => {},
                    }
                }
            }
            proof {
                assert(add_face(s@, fi as int, g0) == (Found {
                    tris: tris@,
                    patches: patches_view(patches@),
                    patch_tris: patch_tris@,
                    patch_verts: patch_verts as int,
                }));
            }
            fi += 1;
        }
    }
    if tris.len() == 0 && patch_tris.len() == 0 {
        return None;
    }
    let text = lossy(s.entities.as_slice());
    let spawns = find_spawns(text.as_str());
    Some(Geometry { verts, tris, patches, patch_tris, spawns })
}

} // verus!
