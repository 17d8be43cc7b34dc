//! Maps of the four kinds.
use base64::engine::general_purpose::STANDARD;
use base64::Engine as _;
use demoscope::bsp::overlap::{give_own, group_planes, nudge_step};
use demoscope::bsp::source::{decompress_lzma_lump, detect_lump_base, grid_corners};
use demoscope::bsp::spawn::find_spawns;
use demoscope::bsp::{encode_mesh, extract_any_bsp};

fn triples(text: &str) -> Vec<[u32; 3]> {
    let bytes = STANDARD.decode(text).unwrap();
    bytes
        .chunks(12)
        .map(|c| {
            let at = |i: usize| u32::from_le_bytes([c[i], c[i + 1], c[i + 2], c[i + 3]]);
            [at(0), at(4), at(8)]
        })
        .collect()
}

#[test]
fn meshes_keep_the_vertices_in_use() {
    let verts = vec![(10, 0, 0), (20, 0, 0), (30, 0, 0), (40, 0, 0), (50, 0, 0)];
    let tris = vec![(0, 2, 4), (4, 2, 0)];
    let more = vec![(7, 8, 9), (1, 1, 1), (2, 2, 2)];
    let m = encode_mesh(&verts, &tris, &more, &vec![(0, 1, 2)], Vec::new()).unwrap();
    assert_eq!((m.n_verts, m.n_tris), (6, 3));
    assert_eq!(
        triples(&m.verts_b64),
        [[10, 0, 0], [30, 0, 0], [50, 0, 0], [7, 8, 9], [1, 1, 1], [2, 2, 2]]
    );
    assert_eq!(triples(&m.idx_b64), [[0, 1, 2], [2, 1, 0], [3, 4, 5]]);
    assert!(encode_mesh(&verts, &Vec::new(), &more, &Vec::new(), Vec::new()).is_none());
}

#[test]
fn a_vertex_beyond_the_pool_is_at_the_origin() {
    let m = encode_mesh(&vec![(1, 2, 3)], &vec![(0, 9, 9)], &Vec::new(), &Vec::new(), Vec::new());
    assert_eq!(triples(&m.unwrap().verts_b64), [[1, 2, 3], [0, 0, 0]]);
}

#[test]
fn lumps_are_decompressed() {
    let plain: Vec<u8> = (0..500u32).map(|i| (i * i % 251) as u8).collect();
    let mut packed = Vec::new();
    lzma_rs::lzma_compress(&mut plain.as_slice(), &mut packed).unwrap();
    let mut lump = b"LZMA".to_vec();
    lump.extend((plain.len() as u32).to_le_bytes());
    lump.extend(((packed.len() - 13) as u32).to_le_bytes());
    lump.extend(&packed[..5]);
    lump.extend(&packed[13..]);
    assert_eq!(decompress_lzma_lump(&lump), Some(plain));
    assert_eq!(decompress_lzma_lump(b"plain bytes"), Some(b"plain bytes".to_vec()));
    assert_eq!(decompress_lzma_lump(b"abc"), None);
    assert_eq!(decompress_lzma_lump(b"LZMA and too short"[..16].as_ref()), None);
    let mut broken = lump.clone();
    broken.truncate(30);
    assert_eq!(decompress_lzma_lump(&broken), None);
}

#[test]
fn spawns_are_found_in_order() {
    let text = "{ \"classname\" \"worldspawn\" \"origin\" \"9 9 9\" }\n\
        { \"origin\" \" 1.5  -2 3 \" \"classname\" \"info_Player_TeamSpawn\" }\n\
        { \"classname\" \"info_player_start\" \"origin\" \"4 5\" }\n\
        { \"classname\" \"info_player_start\"\n\"origin\" \"4 5 6\" }";
    let s = find_spawns(text);
    let got: Vec<(&str, &str, &str)> =
        s.iter().map(|o| (o.x.as_str(), o.y.as_str(), o.z.as_str())).collect();
    assert_eq!(got, [("1.5", "-2", "3"), ("4", "5", "6")]);
    assert!(find_spawns("{ \"classname\" \"INFO_PLAYER_START\" \"origin\" \"1 2 3\" }").is_empty());
}

#[test]
fn words_are_parted_by_any_white_space() {
    let gap = "\u{2003}\u{a0}\u{85}\u{3000}\t";
    let text = format!("{{ \"{gap}classname{gap}\" \"info_player_start\" \"origin\" \"{gap}7{gap}8{gap}9{gap}\" }}");
    let s = find_spawns(&text);
    assert_eq!((s[0].x.as_str(), s[0].y.as_str(), s[0].z.as_str()), ("7", "8", "9"));
    for code in 0..0x3100u32 {
        if let Some(c) = char::from_u32(code) {
            if c == '"' || c == '{' || c == '}' {
                continue;
            }
            let text = format!("{{ \"classname\" \"info_player_start\" \"origin\" \"1{c}2 3\" }}");
            assert_eq!(find_spawns(&text).len() == 1, c.is_whitespace(), "{code:#x}");
        }
    }
}

#[test]
fn the_lump_directory_may_be_shifted() {
    let mut d = vec![0u8; 12 + 64 * 16];
    assert_eq!(detect_lump_base(&d), 8);
    d[8..12].copy_from_slice(&0x7fff_ffffi32.to_le_bytes());
    for i in 0..64 {
        let o = 12 + i * 16;
        d[o..o + 4].copy_from_slice(&500i32.to_le_bytes());
        d[o + 4..o + 8].copy_from_slice(&4i32.to_le_bytes());
        d[o + 8..o + 12].copy_from_slice(&1i32.to_le_bytes());
    }
    assert_eq!(detect_lump_base(&d), 12);
}

#[test]
fn grids_start_at_any_corner() {
    assert_eq!(grid_corners(0), (0, 1, 3, 2));
    assert_eq!(grid_corners(1), (1, 2, 0, 3));
    assert_eq!(grid_corners(2), (2, 3, 1, 0));
    assert_eq!(grid_corners(3), (3, 0, 2, 1));
}

#[test]
fn files_that_are_no_maps_are_refused() {
    assert!(extract_any_bsp(b"").is_none());
    assert!(extract_any_bsp(b"IBSP\x2e\0\0\0").is_none());
    assert!(extract_any_bsp(b"VBSP\x14\0\0\0").is_none());
    assert!(extract_any_bsp(&[30, 0, 0, 0, 1, 2, 3, 4]).is_none());
    assert!(extract_any_bsp(b"nonsense").is_none());
}

#[test]
fn faces_are_grouped_by_their_planes() {
    let a = Some((64, 0, 0, 10));
    let b = Some((0, 64, 0, -10));
    let planes = vec![a, None, b, a, Some((1, 2, 3, 4)), b, a];
    assert_eq!(group_planes(&planes), [vec![0, 3, 6], vec![2, 5]]);
    assert!(group_planes(&vec![a; 4001]).is_empty());
    assert_eq!(group_planes(&vec![a; 4000]).len(), 1);
}

#[test]
fn faces_that_are_moved_drag_no_others_along() {
    let tris = vec![(0, 1, 2), (2, 1, 3), (3, 1, 4)];
    let (after, from) = give_own(tris.clone(), &vec![2, 0], 10);
    assert_eq!(after, [(13, 14, 15), (2, 1, 3), (10, 11, 12)]);
    assert_eq!(from, [3, 1, 4, 0, 1, 2]);
    assert_eq!(after[1], tris[1]);
    for i in [0usize, 1, 2, 12345, 599_999] {
        let h = (i as u64).wrapping_mul(0x9e37_79b9_7f4a_7c15) >> 28;
        assert_eq!(nudge_step(i) as u64, h & 15);
    }
}
