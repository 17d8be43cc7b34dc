//! GoldSrc `HLDEMO` containers: header, directory and the recorder's camera.
pub mod delta;
pub mod entities;
pub mod sent;
pub mod sent_files;

use crate::bytes::{ahead, ahead_of, cstr_at, fits, i32_at, le_i32, le_u32, read_cstring, spells,
    starts_with_bytes, u32_at};
use crate::ieee::{finite, is_finite, is_within_second, key, magnitude, order_key, within_second};
use crate::text::lossy_chars;
use vstd::prelude::*;

verus! {

pub const GOLDSRC_HEADER_SIZE: usize = 544;
pub const DIR_ENTRY_SIZE: usize = 92;

/// Places in a network-message frame's body: the eye, the view angles, the
/// message's length, and the bytes in front of the message.
pub const NM_VIEWORG: usize = 4;
pub const NM_VIEWANGLES: usize = 16;
pub const NM_MSGLEN: usize = 464;
pub const NM_FIXED: usize = 468;

/// Places of fields that have narrow ranges in every such frame.
pub const NM_MAXCLIENTS: usize = 176;
pub const NM_VIEWENTITY: usize = 180;
pub const NM_DEMOPLAYBACK: usize = 192;
pub const NM_HARDWARE: usize = 196;

/// How far a walker looks for the next frame once it is lost.
pub const RESYNC_WINDOW: usize = 262_144;

/// The bits of 200, 1000 and 100 000.
pub const TWO_HUNDRED: u32 = 0x4348_0000;
pub const THOUSAND: u32 = 0x447a_0000;
pub const FAR: u32 = 0x47c3_5000;

/// The bits of -1.
pub const MINUS_ONE: u32 = 0xbf80_0000;

/// `HLDEMO` and two zero bytes.
pub open spec fn goldsrc_magic() -> Seq<u8> {
    seq![0x48, 0x4c, 0x44, 0x45, 0x4d, 0x4f, 0x00, 0x00]
}

/// Whether a file starts as the demos of GoldSrc do.
pub fn is_goldsrc(data: &[u8]) -> (r: bool)
    ensures
        r == spells(data@, 0, goldsrc_magic()),
{
    let m: [u8; 8] = [0x48, 0x4c, 0x44, 0x45, 0x4d, 0x4f, 0x00, 0x00];
    assert(m@ =~= goldsrc_magic());
    starts_with_bytes(data, m.as_slice())
}

/// The gameplay segment: frames, the bits of its duration in seconds, and its
/// place in the file.
#[derive(Debug, Clone, Copy, PartialEq, Eq, Structural)]
pub struct Playback {
    pub frame_count: i32,
    pub duration: u32,
    pub play_offset: usize,
    pub play_length: usize,
}

#[derive(Debug)]
pub struct GoldSrcMeta {
    pub map_name: String,
    pub game_dir: String,
    pub demo_protocol: i32,
    pub net_protocol: i32,
    pub play: Playback,
}

pub open spec fn no_playback() -> Playback {
    Playback { frame_count: 0, duration: 0, play_offset: 0, play_length: 0 }
}

/// A directory entry over the best one so far, where it has more frames; its
/// place counts only if it starts within the file, and is cut at the end.
pub open spec fn take_entry(d: Seq<u8>, e: int, p: Playback) -> Playback {
    let frames = i32_at(d, e + 80);
    let offset = i32_at(d, e + 84);
    let length = i32_at(d, e + 88);
    if frames > p.frame_count {
        let q = Playback { frame_count: frames as i32, duration: u32_at(d, e + 76) as u32, ..p };
        if offset > 0 && length > 0 && offset < d.len() {
            Playback {
                play_offset: offset as usize,
                play_length: (if length <= d.len() - offset {
                    length
                } else {
                    d.len() - offset
                }) as usize,
                ..q
            }
        } else {
            q
        }
    } else {
        p
    }
}

/// The best of the entries `i` to `count` of the directory at `dir`, and `p`.
pub open spec fn entries_from(d: Seq<u8>, dir: int, i: int, count: int, p: Playback) -> Playback
    decreases count - i,
{
    let e = dir + 4 + i * 92;
    if i >= count || e + 92 > d.len() {
        p
    } else {
        entries_from(d, dir, i + 1, count, take_entry(d, e, p))
    }
}

/// The gameplay segment: the directory entry with the most frames.
pub open spec fn playback_of(d: Seq<u8>) -> Playback {
    let dir = i32_at(d, 540);
    if dir <= 0 || dir + 4 > d.len() || i32_at(d, dir) <= 0 || i32_at(d, dir) > 1024 {
        no_playback()
    } else {
        entries_from(d, dir, 0, i32_at(d, dir), no_playback())
    }
}

impl GoldSrcMeta {
    pub open spec fn is_of(&self, d: Seq<u8>) -> bool {
        &&& self.demo_protocol == i32_at(d, 8)
        &&& self.net_protocol == i32_at(d, 12)
        &&& self.map_name@ == lossy_chars(cstr_at(d, 16, 260))
        &&& self.game_dir@ == lossy_chars(cstr_at(d, 276, 260))
        &&& self.play == playback_of(d)
    }
}

fn read_directory(data: &[u8]) -> (r: Playback)
    requires
        544 <= data.len(),
    ensures
        r == playback_of(data@),
        r.play_offset + r.play_length <= data.len(),
{
    let none = Playback { frame_count: 0, duration: 0, play_offset: 0, play_length: 0 };
    let dir: i32 = le_i32(data, 540);
    if dir <= 0 || dir as u64 + 4 > data.len() as u64 {
        return none;
    }
    let dir: usize = dir as usize;
    let count: i32 = le_i32(data, dir);
    if count <= 0 || count > 1024 {
        return none;
    }
    let mut p = none;
    let mut i: usize = 0;
    while i < count as usize && dir + 4 + i * 92 + 92 <= data.len()
        invariant
            0 < count <= 1024,
            i <= count,
            0 < dir <= data.len(),
            dir <= i32::MAX,
            entries_from(data@, dir as int, 0, count as int, no_playback()) == entries_from(
                data@,
                dir as int,
                i as int,
                count as int,
                p,
            ),
            p.play_offset + p.play_length <= data.len(),
        decreases count - i,
    {
        let e: usize = dir + 4 + i * 92;
        let frames: i32 = le_i32(data, e + 80);
        let offset: i32 = le_i32(data, e + 84);
        let length: i32 = le_i32(data, e + 88);
        if frames > p.frame_count {
            p.frame_count = frames;
            p.duration = le_u32(data, e + 76);
            if offset > 0 && length > 0 && (offset as u64) < data.len() as u64 {
                p.play_offset = offset as usize;
                let room: usize = data.len() - offset as usize;
                p.play_length = if length as u64 <= room as u64 {
                    length as usize
                } else {
                    room
                };
            }
        }
        i += 1;
    }
    p
}

/// The header and the gameplay segment; none where the magic is wrong or the
/// header is cut.
pub fn parse(data: &[u8]) -> (r: Option<GoldSrcMeta>)
    ensures
        r is Some <==> data@.len() >= GOLDSRC_HEADER_SIZE && spells(data@, 0, goldsrc_magic()),
        r is Some ==> r->0.is_of(data@) && r->0.play.play_offset + r->0.play.play_length
            <= data@.len(),
{
    if data.len() < GOLDSRC_HEADER_SIZE || !is_goldsrc(data) {
        return None;
    }
    Some(
        GoldSrcMeta {
            demo_protocol: le_i32(data, 8),
            net_protocol: le_i32(data, 12),
            map_name: read_cstring(data, 16, 260),
            game_dir: read_cstring(data, 276, 260),
            play: read_directory(data),
        },
    )
}

/// A signed field, 0 past the end.
pub open spec fn int_or_zero(d: Seq<u8>, o: int) -> int {
    if o + 4 <= d.len() {
        i32_at(d, o)
    } else {
        0
    }
}

/// The bits of a float field, those of 0 past the end.
pub open spec fn bits_or_zero(d: Seq<u8>, o: int) -> u32 {
    if o + 4 <= d.len() {
        u32_at(d, o) as u32
    } else {
        0
    }
}

pub(crate) fn gi32(d: &[u8], o: usize) -> (r: i32)
    ensures
        r == int_or_zero(d@, o as int),
{
    if fits(d, o, 4) {
        le_i32(d, o)
    } else {
        0
    }
}

pub(crate) fn gf32(d: &[u8], o: usize) -> (r: u32)
    ensures
        r == bits_or_zero(d@, o as int),
{
    if fits(d, o, 4) {
        le_u32(d, o)
    } else {
        0
    }
}

/// Whether a network-message frame may start at `p`, by the ranges that several
/// of its fields keep to.
pub open spec fn is_anchor(d: Seq<u8>, p: int) -> bool {
    let t = bits_or_zero(d, p + 1);
    let body = p + 9;
    &&& p + 9 + NM_HARDWARE + 4 <= d.len()
    &&& d[p] <= 1
    &&& finite(t) && key(MINUS_ONE) <= key(t) < key(TWO_HUNDRED)
    &&& 1 <= int_or_zero(d, body + NM_MAXCLIENTS) <= 32
    &&& 0 <= int_or_zero(d, body + NM_HARDWARE) <= 1
    &&& 0 <= int_or_zero(d, body + NM_VIEWENTITY) <= 64
    &&& 0 <= int_or_zero(d, body + NM_DEMOPLAYBACK) <= 1
}

/// Whether what stands at `p` looks like a frame of messages: four of its fields are
/// within their limits.
pub fn is_netmsg_anchor(d: &[u8], p: usize) -> (r: bool)
    ensures
        r == is_anchor(d@, p as int),
{
    if !fits(d, p, 9 + NM_HARDWARE + 4) {
        return false;
    }
    if d[p] > 1 {
        return false;
    }
    let t: u32 = gf32(d, p + 1);
    let k: i64 = order_key(t);
    if !is_finite(t) || k < order_key(MINUS_ONE) || k >= order_key(TWO_HUNDRED) {
        return false;
    }
    let body: usize = p + 9;
    let maxclients: i32 = gi32(d, body + NM_MAXCLIENTS);
    let hardware: i32 = gi32(d, body + NM_HARDWARE);
    let viewentity: i32 = gi32(d, body + NM_VIEWENTITY);
    let demoplayback: i32 = gi32(d, body + NM_DEMOPLAYBACK);
    1 <= maxclients && maxclients <= 32 && 0 <= hardware && hardware <= 1 && 0 <= viewentity
        && viewentity <= 64 && 0 <= demoplayback && demoplayback <= 1
}

/// The first anchor from `r` on below `limit`.
pub open spec fn anchor_from(d: Seq<u8>, r: int, limit: int) -> Option<int>
    decreases limit - r,
{
    if r >= limit {
        None
    } else if is_anchor(d, r) {
        Some(r)
    } else {
        anchor_from(d, r + 1, limit)
    }
}

/// Where a walker that is lost at `p` goes on, if anywhere.
pub open spec fn resync(d: Seq<u8>, p: int, end: int) -> Option<int> {
    let far = p + RESYNC_WINDOW;
    let last = if end >= 9 {
        end - 9
    } else {
        0
    };
    anchor_from(
        d,
        p + 1,
        if far < last {
            far
        } else {
            last
        },
    )
}

pub(crate) fn find_anchor(d: &[u8], p: usize, end: usize) -> (r: Option<usize>)
    requires
        p + 9 <= end <= d.len(),
    ensures
        match (r, resync(d@, p as int, end as int)) {
            (Some(q), Some(v)) => q == v && p < q < end,
            (None, None) => true,
            _ => false,
        },
{
    let far: usize = ahead(p, RESYNC_WINDOW);
    let last: usize = if end >= 9 {
        end - 9
    } else {
        0
    };
    let limit: usize = if far < last {
        far
    } else {
        last
    };
    let mut r: usize = p + 1;
    while r < limit
        invariant
            p + 1 <= r,
            limit <= end <= d.len(),
            resync(d@, p as int, end as int) == anchor_from(d@, r as int, limit as int),
        decreases limit - r,
    {
        if is_netmsg_anchor(d, r) {
            return Some(r);
        }
        r += 1;
    }
    None
}

/// What a frame's head and lengths say: that the walker is lost, that the segment
/// ends, or where the next frame starts.
pub enum FrameStep {
    Lost,
    End,
    Next(int),
}

/// The frame at `p` by its kind.
pub open spec fn frame_step(d: Seq<u8>, p: int) -> FrameStep {
    let kind = d[p];
    let body = p + 9;
    if kind <= 1 {
        let n = int_or_zero(d, body + NM_MSGLEN);
        if 0 <= n <= 65536 {
            FrameStep::Next(body + NM_FIXED + n)
        } else {
            FrameStep::Lost
        }
    } else if kind == 2 {
        FrameStep::Next(body)
    } else if kind == 3 {
        FrameStep::Next(body + 64)
    } else if kind == 4 {
        FrameStep::Next(body + 32)
    } else if kind == 5 {
        FrameStep::End
    } else if kind == 6 {
        FrameStep::Next(body + 76)
    } else if kind == 7 {
        FrameStep::Next(body + 8)
    } else if kind == 8 {
        let n = int_or_zero(d, body + 4);
        if 0 <= n <= 8192 {
            FrameStep::Next(body + 24 + n)
        } else {
            FrameStep::Lost
        }
    } else if kind == 9 {
        let n = int_or_zero(d, body);
        if 0 <= n <= 2_000_000 {
            FrameStep::Next(body + 4 + n)
        } else {
            FrameStep::Lost
        }
    } else {
        FrameStep::Lost
    }
}

/// Whether a frame's time is one: a number before `limit` and no earlier than one
/// second before the latest one.
pub open spec fn time_fits(time: u32, last: u32, limit: u32) -> bool {
    finite(time) && key(time) < key(limit) && within_second(time, last)
}

pub open spec fn later(time: u32, last: u32) -> u32 {
    if key(time) > key(last) {
        time
    } else {
        last
    }
}

pub(crate) enum Stepped {
    Lost,
    End,
    Next(usize),
}

pub(crate) fn step_frame(d: &[u8], p: usize) -> (r: Stepped)
    requires
        p + 9 <= d.len(),
    ensures
        match (r, frame_step(d@, p as int)) {
            (Stepped::Lost, FrameStep::Lost) => true,
            (Stepped::End, FrameStep::End) => true,
            (Stepped::Next(n), FrameStep::Next(v)) => n == ahead_of(v, 0),
            _ => false,
        },
{
    let kind: u8 = d[p];
    let body: usize = p + 9;
    match kind {
        0 | 1 => {
            let n: i32 = gi32(d, ahead(body, NM_MSGLEN));
            if 0 <= n && n <= 65536 {
                Stepped::Next(ahead(body, NM_FIXED + n as usize))
            } else {
                Stepped::Lost
            }
        },
        2 => Stepped::Next(body),
        3 => Stepped::Next(ahead(body, 64)),
        4 => Stepped::Next(ahead(body, 32)),
        5 => Stepped::End,
        6 => Stepped::Next(ahead(body, 76)),
        7 => Stepped::Next(ahead(body, 8)),
        8 => {
            let n: i32 = gi32(d, ahead(body, 4));
            if 0 <= n && n <= 8192 {
                Stepped::Next(ahead(body, 24 + n as usize))
            } else {
                Stepped::Lost
            }
        },
        9 => {
            let n: i32 = gi32(d, body);
            if 0 <= n && n <= 2_000_000 {
                Stepped::Next(ahead(body, 4 + n as usize))
            } else {
                Stepped::Lost
            }
        },
        _ => Stepped::Lost,
    }
}

pub(crate) fn check_time(time: u32, last: u32, limit: u32) -> (r: bool)
    requires
        finite(last),
        key(MINUS_ONE) <= key(last) < key(limit),
        0 < key(limit) <= key(THOUSAND),
    ensures
        r == time_fits(time, last, limit),
{
    is_finite(time) && order_key(time) < order_key(limit) && is_within_second(time, last)
}

/// A camera sample as bits: time, eye position, pitch and yaw.
pub type CamSample = (u32, u32, u32, u32, u32, u32);

pub open spec fn sample_at(d: Seq<u8>, p: int) -> CamSample {
    let body = p + 9;
    (
        bits_or_zero(d, p + 1),
        bits_or_zero(d, body + NM_VIEWORG),
        bits_or_zero(d, body + NM_VIEWORG + 4),
        bits_or_zero(d, body + NM_VIEWORG + 8),
        bits_or_zero(d, body + NM_VIEWANGLES),
        bits_or_zero(d, body + NM_VIEWANGLES + 4),
    )
}

/// A coordinate within the bounds of any map.
pub open spec fn near(b: u32) -> bool {
    magnitude(b) < FAR
}

/// The camera samples from `p` on, at most `left` frames.
pub open spec fn camera_from(d: Seq<u8>, end: int, p: int, last: u32, left: int) -> Seq<CamSample>
    decreases left,
{
    if left <= 0 || p < 0 || p + 9 > end {
        Seq::empty()
    } else {
        let time = bits_or_zero(d, p + 1);
        let fits = d[p] <= 9 && time_fits(time, last, TWO_HUNDRED);
        let lost = !fits || frame_step(d, p) is Lost;
        let now = if fits {
            later(time, last)
        } else {
            last
        };
        if lost {
            match resync(d, p, end) {
                Some(q) => camera_from(d, end, q, now, left - 1),
                None => Seq::empty(),
            }
        } else {
            match frame_step(d, p) {
                FrameStep::Next(next) => {
                    let s = sample_at(d, p);
                    let rest = camera_from(d, end, next, now, left - 1);
                    if d[p] <= 1 && near(s.1) && near(s.2) && near(s.3) {
                        seq![s] + rest
                    } else {
                        rest
                    }
                },
                _ => Seq::empty(),
            }
        }
    }
}

/// The recorder's camera path through the gameplay segment.
pub open spec fn camera_of(d: Seq<u8>, p: Playback) -> Seq<CamSample> {
    let end = if p.play_offset + p.play_length <= d.len() {
        p.play_offset + p.play_length
    } else {
        d.len() as int
    };
    if p.play_offset == 0 {
        Seq::empty()
    } else {
        camera_from(d, end, p.play_offset as int, MINUS_ONE, 500_000)
    }
}

fn is_near(b: u32) -> (r: bool)
    ensures
        r == near(b),
{
    b % 0x8000_0000 < FAR
}

/// Follows the recorder through the gameplay segment.
pub fn extract_camera(data: &[u8], play: &Playback) -> (cam: Vec<CamSample>)
    ensures
        cam@ == camera_of(data@, *play),
{
    let mut cam: Vec<CamSample> = Vec::new();
    if play.play_offset == 0 {
        return cam;
    }
    let sum: usize = ahead(play.play_offset, play.play_length);
    let end: usize = if sum <= data.len() {
        sum
    } else {
        data.len()
    };
    let ghost d = data@;
    let ghost all = camera_of(d, *play);
    let mut p: usize = play.play_offset;
    let mut last: u32 = MINUS_ONE;
    let mut left: usize = 500_000;
    assert(cam@ + all =~= all);
    while left > 0 && p <= end && end - p >= 9
        invariant
            d == data@,
            end <= data.len(),
            left <= 500_000,
            finite(last),
            key(MINUS_ONE) <= key(last) < key(TWO_HUNDRED),
            all == cam@ + camera_from(d, end as int, p as int, last, left as int),
            all == camera_of(d, *play),
        decreases left,
    {
        let kind: u8 = data[p];
        let time: u32 = gf32(data, p + 1);
        let ghost rest0 = camera_from(d, end as int, p as int, last, left as int);
        left = left - 1;
        let fits = kind <= 9 && check_time(time, last, TWO_HUNDRED);
        let step = if fits {
            if order_key(time) > order_key(last) {
                last = time;
            }
            step_frame(data, p)
        } else {
            Stepped::Lost
        };
        match step {
            Stepped::Lost => match find_anchor(data, p, end) {
                Some(q) => {
                    p = q;
                },
                None => {
                    assert(cam@ + Seq::<CamSample>::empty() =~= cam@);
                    return cam;
                },
            },
            Stepped::End => {
                assert(cam@ + Seq::<CamSample>::empty() =~= cam@);
                return cam;
            },
            Stepped::Next(next) => {
                assert(frame_step(d, p as int) matches FrameStep::Next(v) && camera_from(
                    d,
                    end as int,
                    v,
                    last,
                    left as int,
                ) == camera_from(d, end as int, next as int, last, left as int));
                if kind <= 1 {
                    let body: usize = p + 9;
                    let x: u32 = gf32(data, ahead(body, NM_VIEWORG));
                    let y: u32 = gf32(data, ahead(body, NM_VIEWORG + 4));
                    let z: u32 = gf32(data, ahead(body, NM_VIEWORG + 8));
                    let pitch: u32 = gf32(data, ahead(body, NM_VIEWANGLES));
                    let yaw: u32 = gf32(data, ahead(body, NM_VIEWANGLES + 4));
                    if is_near(x) && is_near(y) && is_near(z) {
                        let s = (time, x, y, z, pitch, yaw);
                        proof {
                            let rest = camera_from(d, end as int, next as int, last, left as int);
                            assert(cam@ + (seq![s] + rest) =~= cam@.push(s) + rest);
                        }
                        cam.push(s);
                    }
                }
                p = next;
            },
        }
    }
    assert(cam@ + Seq::<CamSample>::empty() =~= cam@);
    cam
}

/// A sample within the map, taken at a number of seconds.
pub open spec fn good_sample(s: CamSample) -> bool {
    near(s.1) && near(s.2) && near(s.3) && finite(s.0) && key(s.0) < key(TWO_HUNDRED)
}

/// Every sample of a camera path lies within the map and has a time.
pub proof fn law_samples_are_good(d: Seq<u8>, end: int, p: int, last: u32, left: int)
    ensures
        forall|i: int|
            0 <= i < camera_from(d, end, p, last, left).len() ==> good_sample(
                #[trigger] camera_from(d, end, p, last, left)[i],
            ),
    decreases left,
{
    if left > 0 && p >= 0 && p + 9 <= end {
        let time = bits_or_zero(d, p + 1);
        let fits = d[p] <= 9 && time_fits(time, last, TWO_HUNDRED);
        let now = if fits {
            later(time, last)
        } else {
            last
        };
        if !fits || frame_step(d, p) is Lost {
            match resync(d, p, end) {
                Some(q) => {
                    law_samples_are_good(d, end, q, now, left - 1);
                    assert(camera_from(d, end, p, last, left) == camera_from(
                        d,
                        end,
                        q,
                        now,
                        left - 1,
                    ));
                },
                None => {
                    assert(camera_from(d, end, p, last, left).len() == 0);
                },
            }
        } else {
            match frame_step(d, p) {
                FrameStep::Next(next) => {
                    law_samples_are_good(d, end, next, now, left - 1);
                    let all = camera_from(d, end, p, last, left);
                    let rest = camera_from(d, end, next, now, left - 1);
                    let s = sample_at(d, p);
                    if d[p] <= 1 && near(s.1) && near(s.2) && near(s.3) {
                        assert(all == seq![s] + rest);
                        assert forall|i: int| 0 <= i < all.len() implies good_sample(
                            #[trigger] all[i],
                        ) by {
                            if i > 0 {
                                assert(all[i] == rest[i - 1]);
                            }
                        }
                    } else {
                        assert(all == rest);
                    }
                },
                _ => {
                    assert(camera_from(d, end, p, last, left).len() == 0);
                },
            }
        }
    } else {
        assert(camera_from(d, end, p, last, left).len() == 0);
    }
}

} // verus!
