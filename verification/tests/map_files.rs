//! Whole map files of the four kinds, each a square or a part of one.
use base64::engine::general_purpose::STANDARD;
use base64::Engine as _;
use demoscope::bsp::{extract_any_bsp, AnyMap, Mesh};

fn words(v: &[i32]) -> Vec<u8> {
    v.iter().flat_map(|x| x.to_le_bytes()).collect()
}

fn halves(v: &[u16]) -> Vec<u8> {
    v.iter().flat_map(|x| x.to_le_bytes()).collect()
}

fn numbers(v: &[f32]) -> Vec<u8> {
    v.iter().flat_map(|x| x.to_le_bytes()).collect()
}

/// A file of `n` lumps behind a head, `stride` bytes for each in the directory.
fn file(head: &[u8], n: usize, stride: usize, lumps: &[(usize, Vec<u8>)]) -> Vec<u8> {
    let mut d = head.to_vec();
    d.resize(head.len() + n * stride, 0);
    for (i, bytes) in lumps {
        let at = head.len() + i * stride;
        let start = d.len() as i32;
        d[at..at + 4].copy_from_slice(&start.to_le_bytes());
        d[at + 4..at + 8].copy_from_slice(&(bytes.len() as i32).to_le_bytes());
        d.extend_from_slice(bytes);
    }
    d
}

fn square() -> Vec<u8> {
    numbers(&[9.0, 9.0, 9.0, 0.0, 0.0, 1.0, 8.0, 0.0, 1.0, 8.0, 8.0, 1.0, 0.0, 8.0, 1.0])
}

/// The edges of the square; the third is walked against its direction.
fn edges() -> Vec<u8> {
    halves(&[0, 0, 1, 2, 2, 3, 4, 3, 4, 1])
}

fn surfedges() -> Vec<u8> {
    words(&[1, 2, -3, 4])
}

const SPAWN: &[u8] = b"{ \"classname\" \"info_player_start\" \"origin\" \"1 2 3\" }";

fn triples(text: &str) -> Vec<[u32; 3]> {
    STANDARD
        .decode(text)
        .unwrap()
        .chunks(12)
        .map(|c| {
            let at = |i: usize| u32::from_le_bytes([c[i], c[i + 1], c[i + 2], c[i + 3]]);
            [at(0), at(4), at(8)]
        })
        .collect()
}

fn mesh(d: &[u8]) -> Mesh {
    match extract_any_bsp(d) {
        Some(AnyMap::Mesh(m)) => m,
        _ => panic!("no mesh"),
    }
}

fn is_square(m: &Mesh) {
    assert_eq!((m.n_verts, m.n_tris), (4, 2));
    let at: Vec<[f32; 3]> =
        triples(&m.verts_b64).iter().map(|v| v.map(f32::from_bits)).collect();
    assert_eq!(at, [[0.0, 0.0, 1.0], [8.0, 0.0, 1.0], [8.0, 8.0, 1.0], [0.0, 8.0, 1.0]]);
    assert_eq!(triples(&m.idx_b64), [[0, 1, 2], [0, 2, 3]]);
    assert_eq!(m.spawns.len(), 1);
    assert_eq!((m.spawns[0].x.as_str(), m.spawns[0].z.as_str()), ("1", "3"));
}

/// A face of 20 bytes: four edges, with a texture.
fn face(texinfo: u16) -> Vec<u8> {
    let mut f = vec![0u8; 20];
    f[8] = 4;
    f[10..12].copy_from_slice(&texinfo.to_le_bytes());
    f
}

fn goldsrc(version: u8, first: &str) -> Vec<u8> {
    let mut textures = words(&[2, 12, 28]);
    for name in [first, "SKY_day"] {
        let mut t = name.as_bytes().to_vec();
        t.resize(16, 0);
        textures.extend(t);
    }
    let mut texinfo = vec![0u8; 80];
    texinfo[72] = 1;
    let mut model = vec![0u8; 64];
    model[60] = 2;
    let mut faces = face(1);
    faces.extend(face(0));
    faces.extend(face(0));
    file(
        &[version, 0, 0, 0],
        15,
        8,
        &[
            (0, SPAWN.to_vec()),
            (2, textures),
            (3, square()),
            (6, texinfo),
            (7, faces),
            (12, edges()),
            (13, surfedges()),
            (14, model),
        ],
    )
}

/// Of three faces one is sky and one belongs to another model.
#[test]
fn goldsrc_maps_are_read() {
    is_square(&mesh(&goldsrc(30, "Wall")));
    is_square(&mesh(&goldsrc(29, "Wall")));
    for name in ["", "sky", "AAATRIGGER", "Clip", "null", "hint", "skip", "origin", "trigger_x"] {
        assert!(extract_any_bsp(&goldsrc(30, name)).is_none(), "{}", name);
    }
    is_square(&mesh(&goldsrc(30, "clipped")));
    assert!(extract_any_bsp(&goldsrc(28, "Wall")).is_none());
}

fn quake2(flags: i32) -> Vec<u8> {
    let mut texinfo = vec![0u8; 152];
    texinfo[32..36].copy_from_slice(&flags.to_le_bytes());
    texinfo[76 + 32] = 4;
    let mut faces = face(0);
    faces.extend(face(1));
    file(
        b"IBSP\x26\0\0\0",
        19,
        8,
        &[
            (0, SPAWN.to_vec()),
            (2, square()),
            (5, texinfo),
            (6, faces),
            (11, edges()),
            (12, surfedges()),
        ],
    )
}

#[test]
fn quake_2_maps_are_read() {
    is_square(&mesh(&quake2(0)));
    is_square(&mesh(&quake2(0x1_0000)));
    assert!(extract_any_bsp(&quake2(0x80)).is_none());
    assert!(extract_any_bsp(&quake2(0x4)).is_none());
    let mut d = quake2(0);
    d[4] = 39;
    assert!(extract_any_bsp(&d).is_none());
}

fn quake3(shader: &str, kind: i32) -> Vec<u8> {
    let mut shaders = shader.as_bytes().to_vec();
    shaders.resize(72, 0);
    let mut verts = Vec::new();
    for v in square().chunks(12) {
        verts.extend_from_slice(v);
        verts.extend_from_slice(&[0; 32]);
    }
    let mut f = words(&[0, 0, kind, 1, 4, 1, 9]);
    f.resize(104, 0);
    file(
        b"IBSP\x2e\0\0\0",
        17,
        8,
        &[
            (0, SPAWN.to_vec()),
            (1, shaders),
            (10, verts),
            (11, words(&[7, 0, 1, 2, 0, 2, 3, 0, 1, 4])),
            (13, f),
        ],
    )
}

/// The last of the three triangles has a corner beyond the vertices.
#[test]
fn quake_3_maps_are_read() {
    is_square(&mesh(&quake3("base/Wall", 1)));
    is_square(&mesh(&quake3("base/Wall", 3)));
    for shader in ["", "noshader", "textures/common/caulk", "base/SkyBox"] {
        assert!(extract_any_bsp(&quake3(shader, 1)).is_none(), "{}", shader);
    }
    assert!(extract_any_bsp(&quake3("base/Wall", 2)).is_none());
}

fn source(packed: bool, patch: bool) -> Vec<u8> {
    let mut texinfo = vec![0u8; 144];
    texinfo[72 + 64] = 0x80;
    let mut faces = Vec::new();
    for ti in [0u16, 1, 2] {
        let mut f = face(ti);
        let info: i16 = if patch { 0 } else { -1 };
        f[12..14].copy_from_slice(&info.to_le_bytes());
        f.resize(56, 0);
        faces.extend(f);
    }
    let mut plain = square();
    if packed {
        let mut out = Vec::new();
        lzma_rs::lzma_compress(&mut plain.as_slice(), &mut out).unwrap();
        let mut lump = b"LZMA".to_vec();
        lump.extend((plain.len() as u32).to_le_bytes());
        lump.extend(((out.len() - 13) as u32).to_le_bytes());
        lump.extend(&out[..5]);
        lump.extend(&out[13..]);
        plain = lump;
    }
    let mut info = vec![0u8; 176];
    info[0..12].copy_from_slice(&numbers(&[8.0, 8.0, 1.0]));
    info[20] = 2;
    let bends = vec![0u8; 25 * 20];
    file(
        b"VBSP\x14\0\0\0",
        64,
        16,
        &[
            (0, SPAWN.to_vec()),
            (3, plain),
            (6, texinfo),
            (7, faces),
            (12, edges()),
            (13, surfedges()),
            (26, if patch { info } else { Vec::new() }),
            (33, bends),
        ],
    )
}

/// Of three faces one is not drawn and one has no texture.
#[test]
fn source_maps_are_read() {
    for packed in [false, true] {
        let Some(AnyMap::Source(g)) = extract_any_bsp(&source(packed, false)) else {
            panic!("no geometry");
        };
        assert_eq!(g.verts.len(), 5);
        assert_eq!(g.verts[3], (8.0f32.to_bits(), 8.0f32.to_bits(), 1.0f32.to_bits()));
        assert_eq!(g.tris, [(1, 2, 3), (1, 3, 4)]);
        assert!(g.patches.is_empty() && g.patch_tris.is_empty());
        assert_eq!(g.spawns.len(), 1);
    }
}

/// A grid of five by five corners makes two triangles for each cell.
#[test]
fn patches_are_grids() {
    let Some(AnyMap::Source(g)) = extract_any_bsp(&source(false, true)) else {
        panic!("no geometry");
    };
    assert!(g.tris.is_empty());
    assert_eq!(g.patches.len(), 1);
    assert_eq!(g.patch_tris.len(), 2 * 4 * 4);
    assert!(g.patch_tris.iter().all(|t| t.0 < 25 && t.1 < 25 && t.2 < 25));
}
