//! Verdicts on demos.
use demoscope::check::{check_demo, check_quake, route, Decoded, Route, Source2Tally, Status};
use demoscope::quake::{self, QuakeKind};

#[test]
fn garbage_input_fails_cleanly() {
    for bytes in [&b""[..], &b"not a demo"[..], &[0xff; 64][..], &b"HL2DEMO\0"[..]] {
        let h = check_demo(bytes, "junk.dem", Decoded::Nothing);
        assert_eq!(h.status, Status::Fail, "expected FAIL for {} bytes", bytes.len());
    }
}

/// Players that somebody else read do not make a demo of a file that is none.
#[test]
fn garbage_fails_whatever_was_read() {
    let q = quake::parse(QuakeKind::Q1Net, b"", "x.dem").unwrap();
    let h = check_demo(b"HL2DEMO\0", "junk.dem", Decoded::Source1(&q.mpd));
    assert_eq!((h.status, h.note.as_str()), (Status::Fail, "not a valid HL2DEMO file"));
    let mut whole = vec![0u8; 1072];
    whole[..8].copy_from_slice(b"HL2DEMO\0");
    let h = check_demo(&whole, "junk.dem", Decoded::Source1(&q.mpd));
    assert_eq!((h.status, h.note.as_str()), (Status::Pass, "no gameplay, 0 ticks"));
    whole[1060] = 2;
    let h = check_demo(&whole, "junk.dem", Decoded::Source1(&q.mpd));
    assert_eq!((h.status, h.note.as_str()), (Status::Fail, "0 tracks despite 2 ticks"));
}

#[test]
fn truncated_source2_fails_as_source2() {
    let h = check_demo(b"PBDEMS2\0garbage-tail", "x.dem", Decoded::Nothing);
    assert_eq!(h.format, "source2");
    assert_eq!(h.status, Status::Fail);
}

#[test]
fn demos_go_to_their_decoders() {
    assert_eq!(route(b"PBDEMS2\0", "x.dem"), Route::Source2);
    assert_eq!(route(b"HL2DEMO\0", "x.dem"), Route::Source1);
    assert_eq!(route(b"HLDEMO\0\0", "x.dem"), Route::GoldSrc);
    assert_eq!(route(b"whatever", "X.DEM"), Route::Quake(QuakeKind::Q1Net));
    assert_eq!(route(b"whatever", "x.dm2"), Route::Quake(QuakeKind::Q2));
    assert_eq!(route(b"whatever", "x.dm_68"), Route::Quake(QuakeKind::Q3));
    assert_eq!(route(b"whatever", "x.mvd"), Route::Quake(QuakeKind::QwMvd));
    assert_eq!(route(b"whatever", "x.txt"), Route::Source1);
}

#[test]
fn source2_packets_that_fail_are_warned_of() {
    let mut t = Source2Tally {
        tracks: 2,
        samples: 10,
        named: 1,
        packets_ok: 7,
        packets_failed: 3,
        events: 12,
    };
    let h = check_demo(b"PBDEMS2\0", "x.dem", Decoded::Source2(t));
    assert_eq!(h.status, Status::Warn);
    assert_eq!(h.status.tag(), "WARN");
    assert_eq!(h.note, "7 ok / 3 failed packets, 12 events");
    t.packets_failed = 0;
    assert_eq!(check_demo(b"PBDEMS2\0", "x.dem", Decoded::Source2(t)).status, Status::Pass);
    t.tracks = 0;
    assert_eq!(check_demo(b"PBDEMS2\0", "x.dem", Decoded::Source2(t)).status, Status::Fail);
}

#[test]
fn quakeworld_is_refused() {
    let h = check_demo(b"whatever", "x.qwd", Decoded::Nothing);
    assert_eq!(h.format, "quake");
    assert_eq!(h.status, Status::Fail);
    assert!(h.note.starts_with("QuakeWorld .qwd/.mvd demos"));
}

#[test]
fn an_empty_quake_demo_has_no_tracks() {
    let q = quake::parse(QuakeKind::Q1Net, b"", "x.dem").unwrap();
    let h = check_quake("x.dem", QuakeKind::Q1Net, &q);
    assert_eq!((h.tracks, h.samples, h.named), (0, 0, 0));
    assert_eq!(h.note, "Q1Net ");
    assert_eq!(h.status, Status::Fail);
}

#[test]
fn goldsrc_without_a_header_fails() {
    let h = check_demo(b"HLDEMO\0\0", "x.dem", Decoded::Nothing);
    assert_eq!(h.format, "goldsrc");
    assert_eq!(h.note, "parse returned None");
}

/// The format goes by the magic, then by the name; what is refused counts nothing.
#[test]
fn refused_demos_count_nothing() {
    let cases: [(&[u8], &str, &str); 5] = [
        (b"PBDEMS2\0", "x.dm2", "source2"),
        (b"whatever", "x.mvd", "quake"),
        (b"HLDEMO\0\0", "x.dm2", "goldsrc"),
        (b"GMODEMO\0", "x.dm_68", "source1"),
        (b"whatever", "x.txt", "source1"),
    ];
    for (bytes, name, format) in cases {
        let h = check_demo(bytes, name, Decoded::Nothing);
        assert_eq!((h.name.as_str(), h.format), (name, format));
        assert_eq!((h.status, h.tracks, h.samples, h.named), (Status::Fail, 0, 0, 0));
    }
}
