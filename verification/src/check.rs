//! Whether a demo decodes: a verdict in one line.
use crate::goldsrc;
use crate::goldsrc::GoldSrcMeta;
use crate::goldsrc::entities::{extract_entities, game_of};
use crate::header::parse_header;
use crate::maps::{in_order, lists, sorted_keys};
use crate::multi_player::{metas, MetaView, MultiPlayerData, PlayerMeta};
use crate::quake;
use crate::quake::{kind_of, QuakeDemo, QuakeError, QuakeKind};
use crate::bytes::{spells, starts_with_bytes};
use crate::constants::{
    demo_magic, gmod_magic, is_source_demo_magic, source_magic, HEADER_SIZE,
};
use crate::text::{is_empty_text, push_decimal, push_signed, signed_decimal, decimal};
use std::collections::HashMap;
use vstd::prelude::*;

verus! {

broadcast use vstd::std_specs::hash::group_hash_axioms;

#[derive(Debug, Clone, Copy, PartialEq, Eq, Structural)]
pub enum Status {
    /// It decoded, and there are tracks.
    Pass,
    /// There are tracks, but not all of it decoded.
    Warn,
    /// It did not decode, or there are no tracks.
    Fail,
}

impl Status {
    pub open spec fn label(self) -> Seq<char> {
        match self {
            Status::Pass => "PASS"@,
            Status::Warn => "WARN"@,
            Status::Fail => "FAIL"@,
        }
    }

    /// The word that a status is printed as.
    pub fn tag(self) -> (s: &'static str)
        ensures
            s@ == self.label(),
    {
        match self {
            Status::Pass => "PASS",
            Status::Warn => "WARN",
            Status::Fail => "FAIL",
        }
    }
}

#[derive(Debug)]
pub struct DemoHealth {
    pub name: String,
    pub format: &'static str,
    pub tracks: usize,
    pub samples: usize,
    pub named: usize,
    pub note: String,
    pub status: Status,
}

/// What a `DemoHealth` says.
pub struct Health {
    pub name: Seq<char>,
    pub format: Seq<char>,
    pub tracks: int,
    pub samples: int,
    pub named: int,
    pub note: Seq<char>,
    pub status: Status,
}

impl DemoHealth {
    pub open spec fn view(&self) -> Health {
        Health {
            name: self.name@,
            format: self.format@,
            tracks: self.tracks as int,
            samples: self.samples as int,
            named: self.named as int,
            note: self.note@,
            status: self.status,
        }
    }

    /// The verdict on a demo that could not be read.
    pub fn fail(name: &str, format: &'static str, note: &str) -> (h: Self)
        ensures
            h@ == failed(name@, format@, note@),
    {
        DemoHealth {
            name: name.to_string(),
            format,
            tracks: 0,
            samples: 0,
            named: 0,
            note: note.to_string(),
            status: Status::Fail,
        }
    }
}

pub open spec fn failed(name: Seq<char>, format: Seq<char>, note: Seq<char>) -> Health {
    Health { name, format, tracks: 0, samples: 0, named: 0, note, status: Status::Fail }
}

/// How many items the lists of the first `n` keys have, as far as that can be counted.
pub open spec fn items<T>(m: Map<u32, Seq<T>>, ks: Seq<u32>, n: int) -> int
    decreases n,
{
    if n <= 0 {
        0
    } else {
        let sum = items(m, ks, n - 1) + m[ks[n - 1]].len();
        if sum <= usize::MAX {
            sum
        } else {
            usize::MAX as int
        }
    }
}

pub open spec fn all_items<T>(m: Map<u32, Seq<T>>) -> int {
    items(m, in_order(m.dom()), in_order(m.dom()).len() as int)
}

/// How many of the first `n` keys have a name that is not empty.
pub open spec fn with_name(m: Map<u32, MetaView>, ks: Seq<u32>, n: int) -> int
    decreases n,
{
    if n <= 0 {
        0
    } else {
        with_name(m, ks, n - 1) + if m[ks[n - 1]].name.len() > 0 {
            1int
        } else {
            0
        }
    }
}

pub open spec fn all_named(m: Map<u32, MetaView>) -> int {
    with_name(m, in_order(m.dom()), in_order(m.dom()).len() as int)
}

fn count_items<T>(m: &HashMap<u32, Vec<T>>) -> (n: usize)
    ensures
        n == all_items(lists(m@)),
{
    let ks = sorted_keys(m);
    assert(lists(m@).dom() =~= m@.dom());
    let mut n: usize = 0;
    let mut i: usize = 0;
    while i < ks.len()
        invariant
            i <= ks@.len(),
            crate::maps::are_keys(ks@, m@.dom()),
            n == items(lists(m@), ks@, i as int),
        decreases ks@.len() - i,
    {
        assert(ks@.contains(ks@[i as int]));
        match m.get(&ks[i]) {
            Some(l) => {
                assert(lists(m@)[ks@[i as int]] == l@);
                n = if l.len() <= usize::MAX - n {
                    n + l.len()
                } else {
                    usize::MAX
                };
            },
            None => {},
        }
        i += 1;
    }
    n
}

fn count_named(m: &HashMap<u32, PlayerMeta>) -> (n: usize)
    ensures
        n == all_named(metas(m@)),
{
    let ks = sorted_keys(m);
    assert(metas(m@).dom() =~= m@.dom());
    let mut n: usize = 0;
    let mut i: usize = 0;
    while i < ks.len()
        invariant
            n <= i <= ks@.len(),
            crate::maps::are_keys(ks@, m@.dom()),
            n == with_name(metas(m@), ks@, i as int),
        decreases ks@.len() - i,
    {
        assert(ks@.contains(ks@[i as int]));
        match m.get(&ks[i]) {
            Some(p) => {
                assert(metas(m@)[ks@[i as int]] == p@);
                if !is_empty_text(p.name.as_str()) {
                    n += 1;
                }
            },
            None => {},
        }
        i += 1;
    }
    n
}

/// What a decoder of Source 2 demos counts.
#[derive(Debug, Clone, Copy, PartialEq, Eq, Structural)]
pub struct Source2Tally {
    pub tracks: usize,
    pub samples: usize,
    pub named: usize,
    pub packets_ok: usize,
    pub packets_failed: usize,
    pub events: usize,
}

/// What became of a demo whose decoding the verdict is not to do itself: the tracks of
/// one of Source 1, or the counts of one of Source 2.
pub enum Decoded<'a> {
    Nothing,
    Source1(&'a MultiPlayerData),
    Source2(Source2Tally),
}

/// `PBDEMS2` and a zero byte.
pub open spec fn source2_magic() -> Seq<u8> {
    seq![0x50, 0x42, 0x44, 0x45, 0x4d, 0x53, 0x32, 0x00]
}

pub fn is_source2(data: &[u8]) -> (r: bool)
    ensures
        r == spells(data@, 0, source2_magic()),
{
    let m: [u8; 8] = [0x50, 0x42, 0x44, 0x45, 0x4d, 0x53, 0x32, 0x00];
    assert(m@ =~= source2_magic());
    starts_with_bytes(data, m.as_slice())
}

/// A demo of Source 2 passes where it has tracks and every packet decoded.
pub open spec fn source2_health(name: Seq<char>, t: Source2Tally) -> Health {
    Health {
        name,
        format: "source2"@,
        tracks: t.tracks as int,
        samples: t.samples as int,
        named: t.named as int,
        note: decimal(t.packets_ok as nat) + " ok / "@ + decimal(t.packets_failed as nat)
            + " failed packets, "@ + decimal(t.events as nat) + " events"@,
        status: if t.tracks == 0 {
            Status::Fail
        } else if t.packets_failed > 0 {
            Status::Warn
        } else {
            Status::Pass
        },
    }
}

fn check_source2(name: &str, t: Source2Tally) -> (h: DemoHealth)
    ensures
        h@ == source2_health(name@, t),
{
    let mut note = String::new();
    push_decimal(&mut note, t.packets_ok as u64);
    note.push_str(" ok / ");
    push_decimal(&mut note, t.packets_failed as u64);
    note.push_str(" failed packets, ");
    push_decimal(&mut note, t.events as u64);
    note.push_str(" events");
    let h = DemoHealth {
        name: name.to_string(),
        format: "source2",
        tracks: t.tracks,
        samples: t.samples,
        named: t.named,
        note,
        status: if t.tracks == 0 {
            Status::Fail
        } else if t.packets_failed > 0 {
            Status::Warn
        } else {
            Status::Pass
        },
    };
    assert(h@.note =~= source2_health(name@, t).note);
    h
}

pub open spec fn kind_label(k: QuakeKind) -> Seq<char> {
    match k {
        QuakeKind::Q1Net => "Q1Net"@,
        QuakeKind::QwMvd => "QwMvd"@,
        QuakeKind::Q2 => "Q2"@,
        QuakeKind::Q3 => "Q3"@,
    }
}

/// A demo of Quake passes where it has tracks.
pub open spec fn quake_health(name: Seq<char>, kind: QuakeKind, q: QuakeDemo) -> Health {
    let tracks = q.mpd.tracks@.dom().len() as int;
    Health {
        name,
        format: "quake"@,
        tracks,
        samples: all_items(lists(q.mpd.tracks@)),
        named: all_named(metas(q.mpd.names@)),
        note: kind_label(kind) + " "@ + q.meta.map@,
        status: if tracks == 0 {
            Status::Fail
        } else {
            Status::Pass
        },
    }
}

/// The verdict on a demo of Quake, given what was read of it.
pub fn check_quake(name: &str, kind: QuakeKind, q: &QuakeDemo) -> (h: DemoHealth)
    ensures
        h@ == quake_health(name@, kind, *q),
{
    let tracks: usize = q.mpd.tracks.len();
    let mut note = match kind {
        QuakeKind::Q1Net => "Q1Net".to_string(),
        QuakeKind::QwMvd => "QwMvd".to_string(),
        QuakeKind::Q2 => "Q2".to_string(),
        QuakeKind::Q3 => "Q3".to_string(),
    };
    note.push_str(" ");
    note.push_str(q.meta.map.as_str());
    DemoHealth {
        name: name.to_string(),
        format: "quake",
        tracks,
        samples: count_items(&q.mpd.tracks),
        named: count_named(&q.mpd.names),
        note,
        status: if tracks == 0 {
            Status::Fail
        } else {
            Status::Pass
        },
    }
}

/// A demo of Source 1 passes where it has tracks, or where it hardly lasts a tick.
pub open spec fn source1_health(name: Seq<char>, d: Seq<u8>, m: MultiPlayerData) -> Health {
    let tracks = m.tracks@.dom().len() as int;
    let ticks = header_ticks(d);
    Health {
        name,
        format: "source1"@,
        tracks,
        samples: all_items(lists(m.tracks@)),
        named: all_named(metas(m.names@)),
        note: if tracks > 0 {
            Seq::empty()
        } else if ticks <= 1 {
            "no gameplay, "@ + signed_decimal(ticks) + " ticks"@
        } else {
            "0 tracks despite "@ + signed_decimal(ticks) + " ticks"@
        },
        status: if tracks > 0 || ticks <= 1 {
            Status::Pass
        } else {
            Status::Fail
        },
    }
}

/// Whether a file starts with the header of a demo of Source 1.
pub open spec fn has_source_header(d: Seq<u8>) -> bool {
    d.len() >= HEADER_SIZE && source_magic(d)
}

/// How many ticks the header of a demo says; 0 where it has none.
pub open spec fn header_ticks(d: Seq<u8>) -> int {
    if has_source_header(d) {
        crate::bytes::i32_at(d, 1060)
    } else {
        0
    }
}

fn check_source1(name: &str, data: &[u8], m: &MultiPlayerData) -> (h: DemoHealth)
    ensures
        h@ == source1_health(name@, data@, *m),
{
    let tracks: usize = m.tracks.len();
    let ticks: i32 = match parse_header(data) {
        Some(h) => h.ticks,
        None => 0,
    };
    assert(ticks == header_ticks(data@));
    let mut note = String::new();
    let mut status = Status::Pass;
    if tracks == 0 {
        if ticks <= 1 {
            note.push_str("no gameplay, ");
        } else {
            note.push_str("0 tracks despite ");
            status = Status::Fail;
        }
        push_signed(&mut note, ticks as i64);
        note.push_str(" ticks");
    }
    let h = DemoHealth {
        name: name.to_string(),
        format: "source1",
        tracks,
        samples: count_items(&m.tracks),
        named: count_named(&m.names),
        note,
        status,
    };
    assert(h@.note =~= source1_health(name@, data@, *m).note);
    h
}

/// A demo of GoldSrc passes where it has tracks.
pub open spec fn goldsrc_health(name: Seq<char>, d: Seq<u8>, m: GoldSrcMeta) -> Health {
    let found = game_of(d, m.play).tracks;
    let tracks = found.dom().len() as int;
    Health {
        name,
        format: "goldsrc"@,
        tracks,
        samples: all_items(found),
        named: 0,
        note: "map "@ + m.map_name@,
        status: if tracks == 0 {
            Status::Fail
        } else {
            Status::Pass
        },
    }
}

fn check_goldsrc(name: &str, data: &[u8], m: &GoldSrcMeta) -> (h: DemoHealth)
    ensures
        h@ == goldsrc_health(name@, data@, *m),
{
    let ents = extract_entities(data, &m.play);
    let tracks: usize = ents.tracks.len();
    let ghost found = game_of(data@, m.play).tracks;
    assert(found =~= lists(ents.tracks@));
    assert(found.dom() =~= ents.tracks@.dom());
    let mut note = "map ".to_string();
    note.push_str(m.map_name.as_str());
    DemoHealth {
        name: name.to_string(),
        format: "goldsrc",
        tracks,
        samples: count_items(&ents.tracks),
        named: 0,
        note,
        status: if tracks == 0 {
            Status::Fail
        } else {
            Status::Pass
        },
    }
}

/// Which decoder a demo goes to: that of Source 2 by its magic, then those of Quake by
/// its name, then that of GoldSrc by its magic, and then that of Source 1.
#[derive(Debug, Clone, Copy, PartialEq, Eq, Structural)]
pub enum Route {
    Source2,
    Quake(QuakeKind),
    GoldSrc,
    Source1,
}

pub open spec fn route_of(d: Seq<u8>, name: Seq<char>) -> Route {
    if spells(d, 0, source2_magic()) {
        Route::Source2
    } else {
        match kind_of(name, d) {
            Some(k) => Route::Quake(k),
            None => if spells(d, 0, goldsrc::goldsrc_magic()) {
                Route::GoldSrc
            } else {
                Route::Source1
            },
        }
    }
}

impl Route {
    /// What the verdict calls the format.
    pub open spec fn format(self) -> Seq<char> {
        match self {
            Route::Source2 => "source2"@,
            Route::Quake(_) => "quake"@,
            Route::GoldSrc => "goldsrc"@,
            Route::Source1 => "source1"@,
        }
    }
}

/// Whether a demo was refused: its decoder, or the one whose result is given, has nothing
/// of it.
pub open spec fn refused(d: Seq<u8>, name: Seq<char>, decoded: Decoded) -> bool {
    match route_of(d, name) {
        Route::Source2 => !(decoded is Source2),
        Route::Quake(k) => k == QuakeKind::QwMvd,
        Route::GoldSrc => d.len() < goldsrc::GOLDSRC_HEADER_SIZE,
        Route::Source1 => !(decoded is Source1) || !has_source_header(d),
    }
}

/// Which decoder a file is for.
pub fn route(bytes: &[u8], name_hint: &str) -> (r: Route)
    ensures
        r == route_of(bytes@, name_hint@),
{
    if is_source2(bytes) {
        return Route::Source2;
    }
    match quake::detect(name_hint, bytes) {
        Some(k) => Route::Quake(k),
        None => if goldsrc::is_goldsrc(bytes) {
            Route::GoldSrc
        } else {
            Route::Source1
        },
    }
}

/// The verdict on a demo. Demos of Quake and GoldSrc are decoded here; what became of
/// one of Source 1 or Source 2 is given.
pub fn check_demo(bytes: &[u8], name_hint: &str, decoded: Decoded) -> (h: DemoHealth)
    ensures
        h.name@ == name_hint@,
        h.format@ == route_of(bytes@, name_hint@).format(),
        refused(bytes@, name_hint@, decoded) ==> h.status == Status::Fail && h.tracks == 0
            && h.samples == 0 && h.named == 0,
        h.status == Status::Warn ==> route_of(bytes@, name_hint@) == Route::Source2 && h.tracks > 0,
        h.tracks > 0 ==> h.status != Status::Fail,
        h.tracks == 0 ==> h.status == if route_of(bytes@, name_hint@) == Route::Source1 && !refused(
            bytes@,
            name_hint@,
            decoded,
        ) && header_ticks(bytes@) <= 1 {
            Status::Pass
        } else {
            Status::Fail
        },
        match route_of(bytes@, name_hint@) {
            Route::Source2 => h@ == match decoded {
                Decoded::Source2(t) => source2_health(name_hint@, t),
                _ => failed(name_hint@, "source2"@, "parse returned None"@),
            },
            Route::Quake(QuakeKind::Q1Net) => exists|q: QuakeDemo|
                #[trigger] quake::q1::tells(q, bytes@) && h@ == quake_health(
                    name_hint@,
                    QuakeKind::Q1Net,
                    q,
                ),
            Route::Quake(QuakeKind::Q2) => exists|q: QuakeDemo|
                #[trigger] quake::q2::tells(q, bytes@) && h@ == quake_health(
                    name_hint@,
                    QuakeKind::Q2,
                    q,
                ),
            Route::Quake(QuakeKind::Q3) => exists|q: QuakeDemo|
                #[trigger] quake::q3::tells(q, bytes@, name_hint@) && h@ == quake_health(
                    name_hint@,
                    QuakeKind::Q3,
                    q,
                ),
            Route::Quake(QuakeKind::QwMvd) => h@ == failed(
                name_hint@,
                "quake"@,
                QuakeError::QuakeWorld.text(),
            ),
            Route::GoldSrc => if bytes@.len() >= goldsrc::GOLDSRC_HEADER_SIZE {
                exists|m: GoldSrcMeta|
                    #[trigger] m.is_of(bytes@) && h@ == goldsrc_health(name_hint@, bytes@, m)
            } else {
                h@ == failed(name_hint@, "goldsrc"@, "parse returned None"@)
            },
            Route::Source1 => h@ == match decoded {
                Decoded::Source1(m) if has_source_header(bytes@) => source1_health(
                    name_hint@,
                    bytes@,
                    *m,
                ),
                _ => failed(name_hint@, "source1"@, "not a valid HL2DEMO file"@),
            },
        },
{
    match route(bytes, name_hint) {
        Route::Source2 => match decoded {
            Decoded::Source2(t) => check_source2(name_hint, t),
            _ => DemoHealth::fail(name_hint, "source2", "parse returned None"),
        },
        Route::Quake(kind) => match quake::parse(kind, bytes, name_hint) {
            Ok(q) => check_quake(name_hint, kind, &q),
            Err(e) => DemoHealth::fail(name_hint, "quake", e.message().as_str()),
        },
        Route::GoldSrc => match goldsrc::parse(bytes) {
            Some(m) => check_goldsrc(name_hint, bytes, &m),
            None => DemoHealth::fail(name_hint, "goldsrc", "parse returned None"),
        },
        Route::Source1 => match decoded {
            Decoded::Source1(m) if bytes.len() >= HEADER_SIZE && is_source_demo_magic(
                bytes,
            ) => check_source1(name_hint, bytes, m),
            _ => DemoHealth::fail(name_hint, "source1", "not a valid HL2DEMO file"),
        },
    }
}

/// A demo that passes or is warned of has tracks, unless its header says that it lasts
/// a tick at most.
pub proof fn law_pass_has_tracks(
    name: Seq<char>,
    d: Seq<u8>,
    kind: QuakeKind,
    q: QuakeDemo,
    m: GoldSrcMeta,
    p: MultiPlayerData,
    t: Source2Tally,
)
    ensures
        quake_health(name, kind, q).status != Status::Fail ==> quake_health(name, kind, q).tracks
            > 0,
        goldsrc_health(name, d, m).status != Status::Fail ==> goldsrc_health(name, d, m).tracks > 0,
        source2_health(name, t).status != Status::Fail ==> source2_health(name, t).tracks > 0,
        source1_health(name, d, p).status != Status::Fail ==> source1_health(name, d, p).tracks > 0
            || header_ticks(d) <= 1,
{
}

/// A demo that says what it is is taken for that, whatever it is called.
pub proof fn law_magic_decides(d: Seq<u8>, name: Seq<char>)
    ensures
        source_magic(d) ==> route_of(d, name) == Route::Source1,
        spells(d, 0, goldsrc::goldsrc_magic()) ==> route_of(d, name) == Route::GoldSrc,
        spells(d, 0, source2_magic()) ==> route_of(d, name) == Route::Source2,
{
    let (a, b) = (demo_magic(), gmod_magic());
    let (c, e) = (goldsrc::goldsrc_magic(), source2_magic());
    assert(a =~= seq![72u8, 76, 50, 68, 69, 77, 79, 0]);
    assert(b =~= seq![71u8, 77, 79, 68, 69, 77, 79, 0]);
    assert(c =~= seq![72u8, 76, 68, 69, 77, 79, 0, 0]);
    assert(a[2] != c[2] && b[0] != c[0] && a[0] != e[0] && b[0] != e[0] && c[0] != e[0]);
}

} // verus!
