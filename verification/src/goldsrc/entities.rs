//! Player tracks from the server messages that GoldSrc demos carry.
use super::delta::{bootstrap_decoder, changes_view, clone_decoder, delta_at, find_num, find_text,
    last_num, last_of, meta_table, narrow, parse_delta, table_view, Bits, Change, ChangeView,
    DValView, Decoder, FieldDesc, FieldView, Num, Place, lemma_delta_grows,
    lemma_string_grows};
use super::{bits_or_zero, check_time, find_anchor, frame_step, gf32, int_or_zero, later, resync,
    step_frame, time_fits, FrameStep, Playback, Stepped, GOLDSRC_HEADER_SIZE, MINUS_ONE, NM_FIXED,
    NM_MSGLEN, THOUSAND};
use crate::bits::countable;
use crate::bytes::{ahead, le_u16, signed8, to_i8, u16_at, zero_from};
use crate::ieee::{finite, key, order_key};
use crate::info::{info_of, info_value};
use crate::maps::{is_lowest, lowest_key};
use crate::text::{is_empty_text, lossy, lossy_chars, str_eq};
use std::collections::HashMap;
use vstd::arithmetic::power2::{lemma2_to64, lemma_pow2_adds};
use vstd::prelude::*;

verus! {

/// The field tables that messages are read by.
pub struct Tables {
    pub event: Option<Decoder>,
    pub client: Option<Decoder>,
    pub weapon: Option<Decoder>,
    pub entity: Option<Decoder>,
    pub player: Option<Decoder>,
    pub custom: Option<Decoder>,
}

/// What `Tables` say.
pub struct TablesView {
    pub event: Option<Seq<FieldView>>,
    pub client: Option<Seq<FieldView>>,
    pub weapon: Option<Seq<FieldView>>,
    pub entity: Option<Seq<FieldView>>,
    pub player: Option<Seq<FieldView>>,
    pub custom: Option<Seq<FieldView>>,
}

pub open spec fn opt_table(t: Option<Decoder>) -> Option<Seq<FieldView>> {
    match t {
        Some(d) => Some(table_view(d@)),
        None => None,
    }
}

pub open spec fn opt_narrow(t: Option<Decoder>) -> bool {
    t matches Some(d) ==> narrow(d@)
}

impl Tables {
    pub open spec fn view(&self) -> TablesView {
        TablesView {
            event: opt_table(self.event),
            client: opt_table(self.client),
            weapon: opt_table(self.weapon),
            entity: opt_table(self.entity),
            player: opt_table(self.player),
            custom: opt_table(self.custom),
        }
    }

    pub open spec fn wf(&self) -> bool {
        &&& opt_narrow(self.event)
        &&& opt_narrow(self.client)
        &&& opt_narrow(self.weapon)
        &&& opt_narrow(self.entity)
        &&& opt_narrow(self.player)
        &&& opt_narrow(self.custom)
    }
}

/// What is known of an entity: origin, pitch and yaw.
#[derive(Debug, Clone, Copy, PartialEq, Eq, Structural)]
pub struct EntState {
    pub x: Option<Num>,
    pub y: Option<Num>,
    pub z: Option<Num>,
    pub pitch: Option<Num>,
    pub yaw: Option<Num>,
}

/// A position: the bits of its time, and its coordinates.
#[derive(Debug, Clone, Copy, PartialEq, Eq, Structural)]
pub struct Sample {
    pub time: u32,
    pub x: Num,
    pub y: Num,
    pub z: Num,
}

/// A view direction: the bits of its time, and its angles.
#[derive(Debug, Clone, Copy, PartialEq, Eq, Structural)]
pub struct Facing {
    pub time: u32,
    pub yaw: Num,
    pub pitch: Num,
}

pub struct GoldSrcEntities {
    pub tracks: HashMap<u32, Vec<Sample>>,
    pub yaws: HashMap<u32, Vec<Facing>>,
    pub names: HashMap<u32, String>,
    /// The entity that is taken for the recorder's: the lowest one that has a track.
    pub primary: Option<u32>,
}

/// What is known of the game so far.
pub struct NetState {
    tables: Tables,
    max_client: u8,
    is_hltv: bool,
    sizes: HashMap<u8, i8>,
    ents: HashMap<u16, EntState>,
    out: GoldSrcEntities,
}

/// What a `NetState` says.
pub struct Net {
    pub tables: TablesView,
    pub max_client: u8,
    pub is_hltv: bool,
    pub sizes: Map<u8, i8>,
    pub ents: Map<u16, EntState>,
    pub tracks: Map<u32, Seq<Sample>>,
    pub yaws: Map<u32, Seq<Facing>>,
    pub names: Map<u32, Seq<char>>,
}

pub open spec fn tracks_view(m: Map<u32, Vec<Sample>>) -> Map<u32, Seq<Sample>> {
    m.map_values(|v: Vec<Sample>| v@)
}

pub open spec fn yaws_view(m: Map<u32, Vec<Facing>>) -> Map<u32, Seq<Facing>> {
    m.map_values(|v: Vec<Facing>| v@)
}

pub open spec fn names_view(m: Map<u32, String>) -> Map<u32, Seq<char>> {
    m.map_values(|s: String| s@)
}

impl NetState {
    pub closed spec fn view(&self) -> Net {
        Net {
            tables: self.tables@,
            max_client: self.max_client,
            is_hltv: self.is_hltv,
            sizes: self.sizes@,
            ents: self.ents@,
            tracks: tracks_view(self.out.tracks@),
            yaws: yaws_view(self.out.yaws@),
            names: names_view(self.out.names@),
        }
    }

    pub closed spec fn wf(&self) -> bool {
        self.tables.wf()
    }
}

pub open spec fn new_net() -> Net {
    Net {
        tables: TablesView {
            event: None,
            client: None,
            weapon: None,
            entity: None,
            player: None,
            custom: None,
        },
        max_client: 0,
        is_hltv: false,
        sizes: Map::empty(),
        ents: Map::empty(),
        tracks: Map::empty(),
        yaws: Map::empty(),
        names: Map::empty(),
    }
}

pub open spec fn blank() -> EntState {
    EntState { x: None, y: None, z: None, pitch: None, yaw: None }
}

pub open spec fn or_else(a: Option<Num>, b: Option<Num>) -> Option<Num> {
    match a {
        Some(_) => a,
        None => b,
    }
}

/// An entity's state after a delta.
pub open spec fn merged(s: EntState, cs: Seq<ChangeView>) -> EntState {
    EntState {
        x: or_else(last_num(cs, "origin[0]"@), s.x),
        y: or_else(last_num(cs, "origin[1]"@), s.y),
        z: or_else(last_num(cs, "origin[2]"@), s.z),
        pitch: or_else(last_num(cs, "angles[0]"@), s.pitch),
        yaw: or_else(last_num(cs, "angles[1]"@), s.yaw),
    }
}

/// Whether an entity is a player's: the players come first.
pub open spec fn is_player(idx: u16, max_client: u8) -> bool {
    1 <= idx <= max_client
}

pub open spec fn samples_of(m: Map<u32, Seq<Sample>>, k: u32) -> Seq<Sample> {
    if m.contains_key(k) {
        m[k]
    } else {
        Seq::empty()
    }
}

pub open spec fn facings_of(m: Map<u32, Seq<Facing>>, k: u32) -> Seq<Facing> {
    if m.contains_key(k) {
        m[k]
    } else {
        Seq::empty()
    }
}

pub open spec fn num_or_zero(n: Option<Num>) -> Num {
    match n {
        Some(n) => n,
        None => Num::Whole(0),
    }
}

/// The game after a delta of entity `idx`: its state is merged and, for a player
/// whose origin is known and finite, a sample of it is taken.
pub open spec fn applied(st: Net, idx: u16, cs: Seq<ChangeView>, time: u32) -> Net {
    let before = if st.ents.contains_key(idx) {
        st.ents[idx]
    } else {
        blank()
    };
    let e = merged(before, cs);
    let st1 = Net { ents: st.ents.insert(idx, e), ..st };
    if is_player(idx, st.max_client) {
        match (e.x, e.y, e.z) {
            (Some(x), Some(y), Some(z)) => if x.finite() && y.finite() && z.finite() {
                let k = idx as u32;
                Net {
                    tracks: st.tracks.insert(
                        k,
                        samples_of(st.tracks, k).push(Sample { time, x, y, z }),
                    ),
                    yaws: st.yaws.insert(
                        k,
                        facings_of(st.yaws, k).push(
                            Facing {
                                time,
                                yaw: num_or_zero(e.yaw),
                                pitch: num_or_zero(e.pitch),
                            },
                        ),
                    ),
                    ..st1
                }
            } else {
                st1
            },
            _ => st1,
        }
    } else {
        st1
    }
}

fn pick(a: Option<Num>, b: Option<Num>) -> (r: Option<Num>)
    ensures
        r == or_else(a, b),
{
    match a {
        Some(_) => a,
        None => b,
    }
}

fn num_of(n: Option<Num>) -> (r: Num)
    ensures
        r == num_or_zero(n),
{
    match n {
        Some(n) => n,
        None => Num::Whole(0),
    }
}

impl GoldSrcEntities {
    fn add(&mut self, k: u32, s: Sample, f: Facing)
        ensures
            tracks_view(final(self).tracks@) == tracks_view(old(self).tracks@).insert(
                k,
                samples_of(tracks_view(old(self).tracks@), k).push(s),
            ),
            yaws_view(final(self).yaws@) == yaws_view(old(self).yaws@).insert(
                k,
                facings_of(yaws_view(old(self).yaws@), k).push(f),
            ),
            final(self).names == old(self).names,
    {
        broadcast use vstd::std_specs::hash::group_hash_axioms;

        let ghost t0 = self.tracks@;
        let ghost y0 = self.yaws@;
        let mut v = match self.tracks.remove(&k) {
            Some(v) => v,
            None => Vec::new(),
        };
        v.push(s);
        self.tracks.insert(k, v);
        let mut w = match self.yaws.remove(&k) {
            Some(w) => w,
            None => Vec::new(),
        };
        w.push(f);
        self.yaws.insert(k, w);
        proof {
            assert(tracks_view(self.tracks@) =~= tracks_view(t0).insert(
                k,
                samples_of(tracks_view(t0), k).push(s),
            ));
            assert(yaws_view(self.yaws@) =~= yaws_view(y0).insert(
                k,
                facings_of(yaws_view(y0), k).push(f),
            ));
        }
    }
}

impl NetState {
    pub fn new() -> (s: Self)
        ensures
            s.wf(),
            s@ == new_net(),
    {
        broadcast use vstd::std_specs::hash::group_hash_axioms;

        let s = NetState {
            tables: Tables {
                event: None,
                client: None,
                weapon: None,
                entity: None,
                player: None,
                custom: None,
            },
            max_client: 0,
            is_hltv: false,
            sizes: HashMap::new(),
            ents: HashMap::new(),
            out: GoldSrcEntities {
                tracks: HashMap::new(),
                yaws: HashMap::new(),
                names: HashMap::new(),
                primary: None,
            },
        };
        assert(s@.tracks =~= Map::empty());
        assert(s@.yaws =~= Map::empty());
        assert(s@.names =~= Map::empty());
        s
    }

    fn apply(&mut self, idx: u16, cs: &Vec<Change>, time: u32)
        requires
            old(self).wf(),
        ensures
            final(self).wf(),
            final(self)@ == applied(old(self)@, idx, changes_view(cs@), time),
    {
        broadcast use vstd::std_specs::hash::group_hash_axioms;

        let before = match self.ents.get(&idx) {
            Some(e) => *e,
            None => EntState { x: None, y: None, z: None, pitch: None, yaw: None },
        };
        let e = EntState {
            x: pick(find_num(cs, "origin[0]"), before.x),
            y: pick(find_num(cs, "origin[1]"), before.y),
            z: pick(find_num(cs, "origin[2]"), before.z),
            pitch: pick(find_num(cs, "angles[0]"), before.pitch),
            yaw: pick(find_num(cs, "angles[1]"), before.yaw),
        };
        self.ents.insert(idx, e);
        if idx >= 1 && idx <= self.max_client as u16 {
            match (e.x, e.y, e.z) {
                (Some(x), Some(y), Some(z)) => {
                    if x.is_finite() && y.is_finite() && z.is_finite() {
                        self.out.add(
                            idx as u32,
                            Sample { time, x, y, z },
                            Facing { time, yaw: num_of(e.yaw), pitch: num_of(e.pitch) },
                        );
                    }
                },
                _ => {},
            }
        }
    }
}

/// One past the zero byte of the string at `p`.
pub open spec fn past_cstr(d: Seq<u8>, p: int) -> Option<int> {
    if zero_from(d, p) < d.len() {
        Some(zero_from(d, p) + 1)
    } else {
        None
    }
}

pub open spec fn past(d: Seq<u8>, p: int, n: int) -> Option<int> {
    if p + n <= d.len() {
        Some(p + n)
    } else {
        None
    }
}

/// The string at `p`, and `p` moved behind it; none where it does not end.
fn cstr(d: &[u8], p: usize) -> (r: Option<(usize, usize)>)
    requires
        p <= d.len(),
    ensures
        match (r, past_cstr(d@, p as int)) {
            (Some((z, q)), Some(e)) => z == zero_from(d@, p as int) && q == e && p <= z < q
                <= d.len(),
            (None, None) => true,
            _ => false,
        },
{
    let mut i: usize = p;
    while i < d.len()
        invariant
            p <= i <= d.len(),
            zero_from(d@, p as int) == zero_from(d@, i as int),
        decreases d.len() - i,
    {
        if d[i] == 0 {
            return Some((i, i + 1));
        }
        i += 1;
    }
    None
}

/// The end of a bit-packed message that starts at byte `p`.
pub open spec fn bit_end(p: int, b: Place) -> Option<int> {
    if b.over() {
        None
    } else {
        Some(p + (b.pos + 7) / 8)
    }
}

pub open spec fn bits_of(d: Seq<u8>, p: int) -> Place {
    Place { d: d.subrange(p, d.len() as int), pos: 0 }
}

fn end_of(d: &[u8], p: usize, br: &Bits) -> (r: Option<usize>)
    requires
        br.wf(),
        p <= d.len(),
        br@.d == d@.subrange(p as int, d@.len() as int),
    ensures
        match (r, bit_end(p as int, br@)) {
            (Some(q), Some(e)) => q == e && p <= q <= d.len(),
            (None, None) => true,
            _ => false,
        },
{
    proof {
        br.lemma_valid();
    }
    if br.over() {
        return None;
    }
    Some(p + br.consumed_bytes())
}

/// A delta by an optional table; without one the message is given up.
pub open spec fn skip_delta(t: Option<Seq<FieldView>>, b: Place) -> Place {
    match t {
        Some(t) => delta_at(t, b).1,
        None => b.fail(),
    }
}

fn pass_delta(t: &Option<Decoder>, br: &mut Bits)
    requires
        old(br).wf(),
        opt_narrow(*t),
    ensures
        final(br).wf(),
        final(br)@.d == old(br)@.d,
        final(br)@ == skip_delta(opt_table(*t), old(br)@),
{
    match t {
        Some(t) => {
            let _ = parse_delta(t, br);
        },
        None => {
            br.fail();
        },
    }
}

pub open spec fn if_bit(b: Place, n: int) -> Place {
    if b.val(1) != 0 {
        b.adv(1).adv(n)
    } else {
        b.adv(1)
    }
}

fn bit_then(br: &mut Bits, n: u32)
    requires
        old(br).wf(),
        n <= 255,
    ensures
        final(br).wf(),
        final(br)@.d == old(br)@.d,
        final(br)@ == if_bit(old(br)@, n as int),
{
    if br.bit() {
        let _ = br.bits(n);
    }
}

/// Past `n` events: number, whether a packet follows, its entity and delta, and
/// a delay.
pub open spec fn events_end(t: Option<Seq<FieldView>>, b: Place, n: int) -> Place
    decreases n,
{
    if n <= 0 {
        b
    } else {
        let b = b.adv(10);
        let c = if b.val(1) != 0 {
            let b = b.adv(1).adv(11);
            if b.val(1) != 0 {
                skip_delta(t, b.adv(1))
            } else {
                b.adv(1)
            }
        } else {
            b.adv(1)
        };
        events_end(t, if_bit(c, 16), n - 1)
    }
}

fn pass_events(t: &Option<Decoder>, br: &mut Bits)
    requires
        old(br).wf(),
        opt_narrow(*t),
    ensures
        final(br).wf(),
        final(br)@.d == old(br)@.d,
        final(br)@ == events_end(opt_table(*t), old(br)@.adv(5), old(br)@.val(5)),
{
    proof {
        lemma2_to64();
    }
    let n: u32 = br.bits(5);
    let ghost b0 = br@;
    let mut i: u32 = 0;
    while i < n
        invariant
            br.wf(),
            br@.d == old(br)@.d,
            opt_narrow(*t),
            i <= n,
            events_end(opt_table(*t), b0, n as int) == events_end(opt_table(*t), br@, n - i),
        decreases n - i,
    {
        let _ = br.bits(10);
        if br.bit() {
            let _ = br.bits(11);
            if br.bit() {
                pass_delta(t, br);
            }
        }
        bit_then(br, 16);
        i += 1;
    }
}

/// Past a coordinate of a sound's origin.
pub open spec fn sound_coord_end(b: Place) -> Place {
    let whole = b.val(1) != 0;
    let part = b.adv(1).val(1) != 0;
    let c = b.adv(1).adv(1);
    let c = if whole || part {
        c.adv(1)
    } else {
        c
    };
    let c = if whole {
        c.adv(12)
    } else {
        c
    };
    if part {
        c.adv(3)
    } else {
        c
    }
}

fn pass_sound_coord(br: &mut Bits)
    requires
        old(br).wf(),
    ensures
        final(br).wf(),
        final(br)@.d == old(br)@.d,
        final(br)@ == sound_coord_end(old(br)@),
{
    let whole = br.bit();
    let part = br.bit();
    if whole || part {
        let _ = br.bit();
    }
    if whole {
        let _ = br.bits(12);
    }
    if part {
        let _ = br.bits(3);
    }
}

/// Past a sound message.
pub open spec fn sound_end(b: Place) -> Place {
    let flags = b.val(9) as u32;
    let c = b.adv(9);
    let c = if flags & 1 != 0 {
        c.adv(8)
    } else {
        c
    };
    let c = if flags & 2 != 0 {
        c.adv(8)
    } else {
        c
    };
    let c = c.adv(3).adv(11);
    let c = if flags & 4 != 0 {
        c.adv(16)
    } else {
        c.adv(8)
    };
    let x = c.val(1) != 0;
    let y = c.adv(1).val(1) != 0;
    let z = c.adv(1).adv(1).val(1) != 0;
    let c = c.adv(1).adv(1).adv(1);
    let c = if x {
        sound_coord_end(c)
    } else {
        c
    };
    let c = if y {
        sound_coord_end(c)
    } else {
        c
    };
    let c = if z {
        sound_coord_end(c)
    } else {
        c
    };
    if flags & 8 != 0 {
        c.adv(8)
    } else {
        c
    }
}

fn decode_sound(br: &mut Bits)
    requires
        old(br).wf(),
    ensures
        final(br).wf(),
        final(br)@.d == old(br)@.d,
        final(br)@ == sound_end(old(br)@),
{
    let flags: u32 = br.bits(9);
    if flags & 1 != 0 {
        let _ = br.bits(8);
    }
    if flags & 2 != 0 {
        let _ = br.bits(8);
    }
    let _ = br.bits(3);
    let _ = br.bits(11);
    if flags & 4 != 0 {
        let _ = br.bits(16);
    } else {
        let _ = br.bits(8);
    }
    let x = br.bit();
    let y = br.bit();
    let z = br.bit();
    if x {
        pass_sound_coord(br);
    }
    if y {
        pass_sound_coord(br);
    }
    if z {
        pass_sound_coord(br);
    }
    if flags & 8 != 0 {
        let _ = br.bits(8);
    }
}

/// Past one resource: kind, name, index, size, flags, and what these announce.
pub open spec fn resource_end(b: Place) -> Place {
    let c = b.adv(4).string().1.adv(12).adv(24);
    let flags = c.val(3) as u32;
    let c = c.adv(3);
    let c = if flags & 4 != 0 {
        c.adv(128)
    } else {
        c
    };
    if_bit(c, 256)
}

pub open spec fn resources_end(b: Place, n: int) -> Place
    decreases n,
{
    if n <= 0 {
        b
    } else {
        let c = resource_end(b);
        if c.over() {
            c
        } else {
            resources_end(c, n - 1)
        }
    }
}

/// Past the list of resources to check.
pub open spec fn consistency_end(b: Place) -> Place
    decreases b.total() + 1 - b.pos,
{
    if !b.valid() || b.val(1) == 0 || b.over() {
        b.adv(1)
    } else {
        let c = b.adv(1);
        let d = if c.val(1) != 0 {
            c.adv(1).adv(5)
        } else {
            c.adv(1).adv(10)
        };
        if d.over() {
            d
        } else {
            consistency_end(d)
        }
    }
}

pub open spec fn resource_list_end(b: Place) -> Place {
    let c = resources_end(b.adv(12), b.val(12));
    if c.over() && b.val(12) > 0 {
        c
    } else if c.val(1) != 0 {
        consistency_end(c.adv(1))
    } else {
        c.adv(1)
    }
}

fn decode_resource_list(br: &mut Bits)
    requires
        old(br).wf(),
    ensures
        final(br).wf(),
        final(br)@.d == old(br)@.d,
        final(br)@ == resource_list_end(old(br)@),
{
    proof {
        lemma2_to64();
        lemma_pow2_adds(8, 4);
    }
    let n: u32 = br.bits(12);
    let ghost b0 = br@;
    let mut i: u32 = 0;
    while i < n
        invariant
            br.wf(),
            br@.d == old(br)@.d,
            i <= n,
            i == 0 ==> br@ == b0,
            i > 0 ==> !br@.over(),
            n == old(br)@.val(12),
            b0 == old(br)@.adv(12),
            resources_end(b0, n as int) == resources_end(br@, n - i),
        decreases n - i,
    {
        let ghost b = br@;
        let _ = br.bits(4);
        proof {
            br.lemma_valid();
            lemma_string_grows(br@);
        }
        let _ = br.read_bytes_to_zero();
        let _ = br.bits(12);
        let _ = br.bits(24);
        let flags: u32 = br.bits(3);
        if flags & 4 != 0 {
            br.skip(128);
        }
        if br.bit() {
            br.skip(256);
        }
        assert(br@ == resource_end(b));
        if br.over() {
            return ;
        }
        i += 1;
    }
    if br.bit() {
        let ghost b1 = br@;
        loop
            invariant
                br.wf(),
                br@.d == old(br)@.d,
                consistency_end(b1) == consistency_end(br@),
                consistency_end(b1) == resource_list_end(old(br)@),
            decreases br@.total() + 1 - br@.pos,
        {
            proof {
                br.lemma_valid();
            }
            if !br.bit() {
                return ;
            }
            if br.bit() {
                let _ = br.bits(5);
            } else {
                let _ = br.bits(10);
            }
            if br.over() {
                return ;
            }
        }
    }
}

/// Past the weapons of a client-data message.
pub open spec fn weapons_end(t: Option<Seq<FieldView>>, b: Place) -> Place
    decreases b.total() + 1 - b.pos,
    via weapons_end_decreases
{
    if !b.valid() || b.val(1) == 0 {
        b.adv(1)
    } else {
        match t {
            Some(f) => weapons_end(t, delta_at(f, b.adv(1).adv(6)).1),
            None => b.fail(),
        }
    }
}

#[via_fn]
proof fn weapons_end_decreases(t: Option<Seq<FieldView>>, b: Place) {
    if b.valid() && b.val(1) != 0 && t is Some {
        lemma_delta_grows(t->0, b.adv(1).adv(6));
    }
}

/// Past a client-data message.
pub open spec fn client_end(st: Net, b: Place) -> Place {
    if st.is_hltv {
        b
    } else {
        match st.tables.client {
            Some(t) => weapons_end(st.tables.weapon, delta_at(t, if_bit(b, 8)).1),
            None => b.fail(),
        }
    }
}

fn pass_client(st: &NetState, br: &mut Bits)
    requires
        old(br).wf(),
        st.wf(),
    ensures
        final(br).wf(),
        final(br)@.d == old(br)@.d,
        final(br)@ == client_end(st@, old(br)@),
{
    if st.is_hltv {
        return ;
    }
    bit_then(br, 8);
    match &st.tables.client {
        Some(t) => {
            let _ = parse_delta(t, br);
        },
        None => {
            br.fail();
            return ;
        },
    }
    let ghost b0 = br@;
    let ghost w = st@.tables.weapon;
    loop
        invariant
            br.wf(),
            br@.d == old(br)@.d,
            st.wf(),
            w == st@.tables.weapon,
            weapons_end(w, b0) == weapons_end(w, br@),
            weapons_end(w, b0) == client_end(st@, old(br)@),
        decreases br@.total() + 1 - br@.pos,
    {
        let ghost b = br@;
        proof {
            br.lemma_valid();
        }
        if !br.bit() {
            return ;
        }
        let _ = br.bits(6);
        match &st.tables.weapon {
            Some(t) => {
                proof {
                    lemma_delta_grows(table_view(t@), br@);
                }
                let _ = parse_delta(t, br);
            },
            None => {
                br.fail();
                return ;
            },
        }
    }
}

/// Past a list of pings.
pub open spec fn pings_end(b: Place) -> Place
    decreases b.total() + 1 - b.pos,
{
    if !b.valid() || b.val(1) == 0 || b.over() {
        b.adv(1)
    } else {
        pings_end(b.adv(1).adv(24))
    }
}

fn pass_pings(br: &mut Bits)
    requires
        old(br).wf(),
    ensures
        final(br).wf(),
        final(br)@.d == old(br)@.d,
        final(br)@ == pings_end(old(br)@),
{
    let ghost b0 = br@;
    loop
        invariant
            br.wf(),
            br@.d == old(br)@.d,
            b0 == old(br)@,
            pings_end(b0) == pings_end(br@),
        decreases br@.total() + 1 - br@.pos,
    {
        proof {
            br.lemma_valid();
        }
        if !br.bit() {
            return ;
        }
        let _ = br.bits(24);
    }
}

/// The tables of entity states.
pub struct StateTables {
    pub entity: Option<Seq<FieldView>>,
    pub player: Option<Seq<FieldView>>,
    pub custom: Option<Seq<FieldView>>,
}

proof fn lemma_state_grows(ts: StateTables, c: Place)
    requires
        c.valid(),
    ensures
        ts.player is Some ==> delta_at(ts.player->0, c).1.valid() && delta_at(
            ts.player->0,
            c,
        ).1.d == c.d && delta_at(ts.player->0, c).1.pos >= c.pos,
        ts.entity is Some ==> delta_at(ts.entity->0, c).1.valid() && delta_at(
            ts.entity->0,
            c,
        ).1.d == c.d && delta_at(ts.entity->0, c).1.pos >= c.pos,
        ts.custom is Some ==> delta_at(ts.custom->0, c).1.valid() && delta_at(
            ts.custom->0,
            c,
        ).1.d == c.d && delta_at(ts.custom->0, c).1.pos >= c.pos,
{
    if ts.player is Some {
        lemma_delta_grows(ts.player->0, c);
    }
    if ts.entity is Some {
        lemma_delta_grows(ts.entity->0, c);
    }
    if ts.custom is Some {
        lemma_delta_grows(ts.custom->0, c);
    }
}

pub open spec fn is_slot(idx: u16, max: u8) -> bool {
    0 < idx <= max
}

/// An entity's delta by its table: the game after it and where it ends; none
/// where there is no table.
pub open spec fn entity_delta(
    t: Option<Seq<FieldView>>,
    b: Place,
    idx: u16,
    time: u32,
    st: Net,
) -> Option<(Place, Net)> {
    match t {
        Some(t) => {
            let (cs, e) = delta_at(t, b);
            Some((e, applied(st, idx, cs, time)))
        },
        None => None,
    }
}

fn read_entity(t: &Option<Decoder>, br: &mut Bits, idx: u16, time: u32, st: &mut NetState) -> (ok:
    bool)
    requires
        old(br).wf(),
        old(st).wf(),
        opt_narrow(*t),
    ensures
        final(br).wf(),
        final(st).wf(),
        match entity_delta(opt_table(*t), old(br)@, idx, time, old(st)@) {
            Some((e, s)) => ok && final(br)@ == e && final(st)@ == s,
            None => !ok && final(st)@ == old(st)@,
        },
{
    match t {
        Some(t) => {
            let cs = parse_delta(t, br);
            st.apply(idx, &cs, time);
            true
        },
        None => false,
    }
}

/// The baselines from `b` on, up to the footer: where it starts, if it is
/// reached, and the game then.
pub open spec fn baselines_from(ts: StateTables, max: u8, b: Place, st: Net) -> (Option<Place>, Net)
    decreases b.total() + 1 - b.pos,
    via baselines_from_decreases
{
    if !b.valid() {
        (None, st)
    } else if b.val(16) == 0xffff {
        (Some(b), st)
    } else {
        let idx = b.val(11) as u16;
        let kind = b.adv(11).val(2);
        let t = if kind % 2 == 1 {
            if is_slot(idx, max) {
                ts.player
            } else {
                ts.entity
            }
        } else {
            ts.custom
        };
        match entity_delta(t, b.adv(11).adv(2), idx, 0, st) {
            None => (None, st),
            Some((e, s)) => if e.over() {
                (None, s)
            } else {
                baselines_from(ts, max, e, s)
            },
        }
    }
}

#[via_fn]
proof fn baselines_from_decreases(ts: StateTables, max: u8, b: Place, st: Net) {
    if b.valid() {
        let c = b.adv(11).adv(2);
        lemma_state_grows(ts, c);
    }
}

/// Past `n` deltas, as far as the bits go.
pub open spec fn deltas_end(t: Seq<FieldView>, b: Place, n: int) -> Place
    decreases n,
{
    if n <= 0 {
        b
    } else {
        let c = delta_at(t, b).1;
        if c.over() {
            c
        } else {
            deltas_end(t, c, n - 1)
        }
    }
}

/// Past the footer of a baseline message.
pub open spec fn baseline_footer(t: Option<Seq<FieldView>>, b: Place) -> Place {
    let c = b.adv(16);
    match t {
        Some(t) => deltas_end(t, c.adv(6), c.val(6)),
        None => c.adv(6),
    }
}

pub open spec fn state_tables(st: Net) -> StateTables {
    StateTables {
        entity: st.tables.entity,
        player: st.tables.player,
        custom: st.tables.custom,
    }
}

pub open spec fn baseline_message(d: Seq<u8>, p: int, st: Net) -> (Option<int>, Net) {
    match baselines_from(state_tables(st), st.max_client, bits_of(d, p), st) {
        (None, s) => (None, s),
        (Some(b), s) => (bit_end(p, baseline_footer(st.tables.entity, b)), s),
    }
}

fn clone_opt(t: &Option<Decoder>) -> (r: Option<Decoder>)
    ensures
        opt_table(r) == opt_table(*t),
        opt_narrow(*t) ==> opt_narrow(r),
{
    match t {
        Some(d) => Some(clone_decoder(d)),
        None => None,
    }
}

fn decode_spawnbaseline(d: &[u8], p: usize, st: &mut NetState) -> (r: Option<usize>)
    requires
        countable(d@),
        p <= d.len(),
        old(st).wf(),
    ensures
        final(st).wf(),
        final(st)@ == baseline_message(d@, p as int, old(st)@).1,
        match (r, baseline_message(d@, p as int, old(st)@).0) {
            (Some(q), Some(e)) => q == e && p <= q <= d.len(),
            (None, None) => true,
            _ => false,
        },
{
    let mut br = Bits::new(vstd::slice::slice_subrange(d, p, d.len()));
    let max: u8 = st.max_client;
    let ent_t = clone_opt(&st.tables.entity);
    let player_t = clone_opt(&st.tables.player);
    let custom_t = clone_opt(&st.tables.custom);
    let ghost ts = state_tables(st@);
    let ghost all = baselines_from(ts, max, br@, st@);
    proof {
        lemma2_to64();
    }
    while br.peek16() != 0xffff
        invariant
            br.wf(),
            st.wf(),
            br@.d == d@.subrange(p as int, d@.len() as int),
            opt_narrow(ent_t),
            opt_narrow(player_t),
            opt_narrow(custom_t),
            ts.entity == opt_table(ent_t),
            ts.player == opt_table(player_t),
            ts.custom == opt_table(custom_t),
            all == baselines_from(ts, max, br@, st@),
            all.0 is None ==> baseline_message(d@, p as int, old(st)@) == (None::<int>, all.1),
        decreases br@.total() + 1 - br@.pos,
    {
        let ghost b = br@;
        proof {
            br.lemma_valid();
            lemma_state_grows(ts, b.adv(11).adv(2));
        }
        let idx: u16 = br.bits(11) as u16;
        let kind: u32 = br.bits(2);
        let slot = idx > 0 && idx <= max as u16;
        let t = if kind % 2 == 1 {
            if slot {
                &player_t
            } else {
                &ent_t
            }
        } else {
            &custom_t
        };
        if !read_entity(t, &mut br, idx, 0, st) {
            return None;
        }
        if br.over() {
            return None;
        }
    }
    proof {
        br.lemma_valid();
    }
    let _ = br.bits(16);
    let extra: u32 = br.bits(6);
    match &ent_t {
        Some(t) => {
            let ghost b1 = br@;
            let ghost tv = table_view(t@);
            let mut i: u32 = 0;
            while i < extra && !(i > 0 && br.over())
                invariant
                    br.wf(),
                    narrow(t@),
                    tv == table_view(t@),
                    br@.d == d@.subrange(p as int, d@.len() as int),
                    i <= extra,
                    deltas_end(tv, b1, extra as int) == if i > 0 && br@.over() {
                        br@
                    } else {
                        deltas_end(tv, br@, extra - i)
                    },
                decreases extra - i,
            {
                proof {
                    br.lemma_valid();
                    lemma_delta_grows(tv, br@);
                }
                let _ = parse_delta(t, &mut br);
                i += 1;
            }
        },
        None => {},
    }
    end_of(d, p, &br)
}

/// The number of the next entity in a full update: one more, given, or a step.
pub open spec fn next_index(b: Place, idx: int) -> (int, Place) {
    if b.val(1) != 0 {
        ((idx + 1) % 0x1_0000, b.adv(1))
    } else {
        step_index(b.adv(1), idx)
    }
}

/// A number that is given, or a step.
pub open spec fn step_index(b: Place, idx: int) -> (int, Place) {
    if b.val(1) != 0 {
        (b.adv(1).val(11), b.adv(1).adv(11))
    } else {
        ((idx + b.adv(1).val(6)) % 0x1_0000, b.adv(1).adv(6))
    }
}

fn read_step(br: &mut Bits, idx: u16) -> (r: u16)
    requires
        old(br).wf(),
    ensures
        final(br).wf(),
        (r as int, final(br)@) == step_index(old(br)@, idx as int),
{
    proof {
        lemma2_to64();
        lemma_pow2_adds(8, 3);
    }
    if br.bit() {
        br.bits(11) as u16
    } else {
        let n: u16 = br.bits(6) as u16;
        idx.wrapping_add(n)
    }
}

/// The start of an entity in a full update: its number, whether it is custom, and
/// where its delta starts.
pub open spec fn full_head(b: Place, idx: int) -> (int, bool, Place) {
    let (i, c) = next_index(b, idx);
    (i, c.val(1) != 0, if_bit(c.adv(1), 6))
}

fn read_full_head(br: &mut Bits, idx: u16) -> (r: (u16, bool))
    requires
        old(br).wf(),
    ensures
        final(br).wf(),
        (r.0 as int, r.1, final(br)@) == full_head(old(br)@, idx as int),
{
    let next: u16 = if br.bit() {
        idx.wrapping_add(1)
    } else {
        read_step(br, idx)
    };
    let custom = br.bit();
    bit_then(br, 6);
    (next, custom)
}

pub open spec fn table_for(ts: StateTables, idx: u16, max: u8, custom: bool) -> Option<
    Seq<FieldView>,
> {
    if is_slot(idx, max) {
        ts.player
    } else if custom {
        ts.custom
    } else {
        ts.entity
    }
}

/// The entities of a full update from `b` on.
pub open spec fn full_from(
    ts: StateTables,
    max: u8,
    b: Place,
    idx: int,
    time: u32,
    st: Net,
) -> (Option<Place>, Net)
    decreases b.total() + 1 - b.pos,
    via full_from_decreases
{
    if !b.valid() {
        (None, st)
    } else if b.val(16) == 0 {
        (Some(b.adv(16)), st)
    } else {
        let (i, custom, c) = full_head(b, idx);
        match entity_delta(table_for(ts, i as u16, max, custom), c, i as u16, time, st) {
            None => (None, st),
            Some((e, s)) => if e.over() {
                (None, s)
            } else {
                full_from(ts, max, e, i, time, s)
            },
        }
    }
}

#[via_fn]
proof fn full_from_decreases(
    ts: StateTables,
    max: u8,
    b: Place,
    idx: int,
    time: u32,
    st: Net,
) {
    if b.valid() {
        let c = full_head(b, idx).2;
        lemma_state_grows(ts, c);
    }
}

pub open spec fn full_message(d: Seq<u8>, p: int, time: u32, st: Net) -> (Option<int>, Net) {
    match full_from(state_tables(st), st.max_client, bits_of(d, p).adv(16), 0, time, st) {
        (None, s) => (None, s),
        (Some(b), s) => (bit_end(p, b), s),
    }
}

fn decode_packet_entities(d: &[u8], p: usize, st: &mut NetState, time: u32) -> (r: Option<usize>)
    requires
        countable(d@),
        p <= d.len(),
        old(st).wf(),
    ensures
        final(st).wf(),
        final(st)@ == full_message(d@, p as int, time, old(st)@).1,
        match (r, full_message(d@, p as int, time, old(st)@).0) {
            (Some(q), Some(e)) => q == e && p <= q <= d.len(),
            (None, None) => true,
            _ => false,
        },
{
    let mut br = Bits::new(vstd::slice::slice_subrange(d, p, d.len()));
    let max: u8 = st.max_client;
    let ent_t = clone_opt(&st.tables.entity);
    let player_t = clone_opt(&st.tables.player);
    let custom_t = clone_opt(&st.tables.custom);
    let _ = br.bits(16);
    let ghost ts = state_tables(st@);
    let ghost all = full_from(ts, max, br@, 0, time, st@);
    let mut idx: u16 = 0;
    while br.peek16() != 0
        invariant
            br.wf(),
            st.wf(),
            br@.d == d@.subrange(p as int, d@.len() as int),
            opt_narrow(ent_t),
            opt_narrow(player_t),
            opt_narrow(custom_t),
            ts.entity == opt_table(ent_t),
            ts.player == opt_table(player_t),
            ts.custom == opt_table(custom_t),
            all == full_from(ts, max, br@, idx as int, time, st@),
            all.0 is None ==> full_message(d@, p as int, time, old(st)@) == (None::<int>, all.1),
        decreases br@.total() + 1 - br@.pos,
    {
        proof {
            br.lemma_valid();
            lemma_state_grows(ts, full_head(br@, idx as int).2);
        }
        let (next, custom) = read_full_head(&mut br, idx);
        idx = next;
        let t = if idx > 0 && idx <= max as u16 {
            &player_t
        } else if custom {
            &custom_t
        } else {
            &ent_t
        };
        if !read_entity(t, &mut br, idx, time, st) {
            return None;
        }
        if br.over() {
            return None;
        }
    }
    proof {
        br.lemma_valid();
    }
    let _ = br.bits(16);
    end_of(d, p, &br)
}

/// The entities of a delta update from `b` on. A removed entity has no fields.
pub open spec fn partial_from(
    ts: StateTables,
    max: u8,
    b: Place,
    idx: int,
    time: u32,
    st: Net,
) -> (Option<Place>, Net)
    decreases b.total() + 1 - b.pos,
    via partial_from_decreases
{
    if !b.valid() {
        (None, st)
    } else if b.val(16) == 0 {
        (Some(b.adv(16)), st)
    } else {
        let removed = b.val(1) != 0;
        let (i, c) = step_index(b.adv(1), idx);
        if removed {
            partial_from(ts, max, c, i, time, st)
        } else {
            let custom = c.val(1) != 0;
            match entity_delta(
                table_for(ts, i as u16, max, custom),
                c.adv(1),
                i as u16,
                time,
                st,
            ) {
                None => (None, st),
                Some((e, s)) => if e.over() {
                    (None, s)
                } else {
                    partial_from(ts, max, e, i, time, s)
                },
            }
        }
    }
}

#[via_fn]
proof fn partial_from_decreases(
    ts: StateTables,
    max: u8,
    b: Place,
    idx: int,
    time: u32,
    st: Net,
) {
    if b.valid() {
        let c = step_index(b.adv(1), idx).1.adv(1);
        if b.over() {
            assert(b.avail(16) == 0);
            assert(b.val(16) == 0);
        }
        lemma_state_grows(ts, c);
    }
}

pub open spec fn partial_message(d: Seq<u8>, p: int, time: u32, st: Net) -> (Option<int>, Net) {
    match partial_from(
        state_tables(st),
        st.max_client,
        bits_of(d, p).adv(16).adv(8),
        0,
        time,
        st,
    ) {
        (None, s) => (None, s),
        (Some(b), s) => (bit_end(p, b), s),
    }
}

fn decode_delta_packet_entities(d: &[u8], p: usize, st: &mut NetState, time: u32) -> (r: Option<
    usize,
>)
    requires
        countable(d@),
        p <= d.len(),
        old(st).wf(),
    ensures
        final(st).wf(),
        final(st)@ == partial_message(d@, p as int, time, old(st)@).1,
        match (r, partial_message(d@, p as int, time, old(st)@).0) {
            (Some(q), Some(e)) => q == e && p <= q <= d.len(),
            (None, None) => true,
            _ => false,
        },
{
    let mut br = Bits::new(vstd::slice::slice_subrange(d, p, d.len()));
    let max: u8 = st.max_client;
    let ent_t = clone_opt(&st.tables.entity);
    let player_t = clone_opt(&st.tables.player);
    let custom_t = clone_opt(&st.tables.custom);
    let _ = br.bits(16);
    let _ = br.bits(8);
    let ghost ts = state_tables(st@);
    let ghost all = partial_from(ts, max, br@, 0, time, st@);
    let mut idx: u16 = 0;
    while br.peek16() != 0
        invariant
            br.wf(),
            st.wf(),
            br@.d == d@.subrange(p as int, d@.len() as int),
            opt_narrow(ent_t),
            opt_narrow(player_t),
            opt_narrow(custom_t),
            ts.entity == opt_table(ent_t),
            ts.player == opt_table(player_t),
            ts.custom == opt_table(custom_t),
            all == partial_from(ts, max, br@, idx as int, time, st@),
            all.0 is None ==> partial_message(d@, p as int, time, old(st)@) == (
                None::<int>,
                all.1,
            ),
        decreases br@.total() + 1 - br@.pos,
    {
        proof {
            br.lemma_valid();
            lemma_state_grows(ts, step_index(br@.adv(1), idx as int).1.adv(1));
        }
        let removed = br.bit();
        idx = read_step(&mut br, idx);
        if !removed {
            let custom = br.bit();
            let t = if idx > 0 && idx <= max as u16 {
                &player_t
            } else if custom {
                &custom_t
            } else {
                &ent_t
            };
            if !read_entity(t, &mut br, idx, time, st) {
                return None;
            }
            if br.over() {
                return None;
            }
        }
    }
    proof {
        br.lemma_valid();
    }
    let _ = br.bits(16);
    end_of(d, p, &br)
}


/// One past the `n` strings that start at `p`.
pub open spec fn past_cstrs(d: Seq<u8>, p: int, n: int) -> Option<int>
    decreases n,
{
    if n <= 0 {
        Some(p)
    } else {
        match past_cstr(d, p) {
            Some(q) => past_cstrs(d, q, n - 1),
            None => None,
        }
    }
}

/// `r` is the place that `e` says, and not before `p` or past the end.
pub open spec fn found(r: Option<usize>, e: Option<int>, p: int, len: int) -> bool {
    match (r, e) {
        (Some(q), Some(v)) => q == v && p <= q <= len,
        (None, None) => true,
        _ => false,
    }
}

fn take(d: &[u8], p: usize, n: usize) -> (r: Option<usize>)
    requires
        p <= d.len(),
    ensures
        found(r, past(d@, p as int, n as int), p as int, d.len() as int),
{
    if n <= d.len() - p {
        Some(p + n)
    } else {
        None
    }
}

fn pass_cstr(d: &[u8], p: usize) -> (r: Option<usize>)
    requires
        p <= d.len(),
    ensures
        found(r, past_cstr(d@, p as int), p as int, d.len() as int),
{
    match cstr(d, p) {
        Some((_, q)) => Some(q),
        None => None,
    }
}

fn pass_cstrs(d: &[u8], p: usize, n: u8) -> (r: Option<usize>)
    requires
        p <= d.len(),
    ensures
        found(r, past_cstrs(d@, p as int, n as int), p as int, d.len() as int),
{
    let mut q: usize = p;
    let mut i: u8 = 0;
    while i < n
        invariant
            p <= q <= d.len(),
            i <= n,
            past_cstrs(d@, p as int, n as int) == past_cstrs(d@, q as int, n - i),
        decreases n - i,
    {
        match pass_cstr(d, q) {
            Some(e) => {
                q = e;
            },
            None => {
                return None;
            },
        }
        i += 1;
    }
    Some(q)
}

/// How many bytes follow in a message of a fixed size.
pub open spec fn fixed_len(t: u8) -> Option<int> {
    match t {
        1 | 19 | 27 | 28 | 30 | 42 => Some(0),
        24 | 25 => Some(1),
        5 | 16 | 32 | 35 | 37 | 38 | 47 => Some(2),
        4 | 7 | 48 | 55 => Some(4),
        10 => Some(6),
        45 => Some(8),
        18 => Some(11),
        29 => Some(14),
        _ => None,
    }
}

fn fixed_size(t: u8) -> (r: Option<usize>)
    ensures
        match (r, fixed_len(t)) {
            (Some(n), Some(v)) => n == v,
            (None, None) => true,
            _ => false,
        },
{
    match t {
        1 | 19 | 27 | 28 | 30 | 42 => Some(0),
        24 | 25 => Some(1),
        5 | 16 | 32 | 35 | 37 | 38 | 47 => Some(2),
        4 | 7 | 48 | 55 => Some(4),
        10 => Some(6),
        45 => Some(8),
        18 => Some(11),
        29 => Some(14),
        _ => None,
    }
}

/// How many bytes follow the kind of a temporary entity that has a fixed size.
pub open spec fn temp_len(kind: u8) -> Option<int> {
    match kind {
        125 => Some(1),
        99 => Some(2),
        105 | 121 => Some(5),
        2 | 4 | 9 | 10 | 11 => Some(6),
        111 | 116 | 117 | 124 => Some(7),
        12 => Some(8),
        14 | 104 | 109 | 118 | 123 => Some(9),
        5 | 17 | 22 | 100 | 112 | 113 | 122 => Some(10),
        3 | 23 => Some(11),
        6 | 27 | 102 | 115 => Some(12),
        107 => Some(13),
        101 | 103 => Some(14),
        127 => Some(15),
        8 | 18 | 24 | 28 | 119 => Some(16),
        7 | 30 | 31 | 106 | 110 => Some(17),
        120 | 126 => Some(18),
        15 | 25 | 114 => Some(19),
        1 => Some(20),
        0 | 19 | 20 | 21 | 108 => Some(24),
        _ => None,
    }
}

fn temp_size(kind: u8) -> (r: Option<usize>)
    ensures
        match (r, temp_len(kind)) {
            (Some(n), Some(v)) => n == v,
            (None, None) => true,
            _ => false,
        },
{
    match kind {
        125 => Some(1),
        99 => Some(2),
        105 | 121 => Some(5),
        2 | 4 | 9 | 10 | 11 => Some(6),
        111 | 116 | 117 | 124 => Some(7),
        12 => Some(8),
        14 | 104 | 109 | 118 | 123 => Some(9),
        5 | 17 | 22 | 100 | 112 | 113 | 122 => Some(10),
        3 | 23 => Some(11),
        6 | 27 | 102 | 115 => Some(12),
        107 => Some(13),
        101 | 103 => Some(14),
        127 => Some(15),
        8 | 18 | 24 | 28 | 119 => Some(16),
        7 | 30 | 31 | 106 | 110 => Some(17),
        120 | 126 => Some(18),
        15 | 25 | 114 => Some(19),
        1 => Some(20),
        0 | 19 | 20 | 21 | 108 => Some(24),
        _ => None,
    }
}

/// Past a temporary entity whose kind is at `p`. A decal on an entity is two
/// bytes longer, and a text message ends with a string.
pub open spec fn temp_end(d: Seq<u8>, p: int) -> Option<int> {
    if p >= d.len() {
        None
    } else {
        let q = p + 1;
        if d[p] == 13 {
            if q + 9 >= d.len() {
                None
            } else if d[q + 8] != 0 || d[q + 9] != 0 {
                past(d, q, 12)
            } else {
                past(d, q, 10)
            }
        } else if d[p] == 29 {
            if q + 5 >= d.len() {
                None
            } else {
                past_cstr(
                    d,
                    q + 18 + if d[q + 5] != 0 {
                        2int
                    } else {
                        0
                    },
                )
            }
        } else {
            match temp_len(d[p]) {
                Some(n) => past(d, q, n),
                None => None,
            }
        }
    }
}

fn decode_temp_entity(d: &[u8], p: usize) -> (r: Option<usize>)
    requires
        countable(d@),
        p <= d.len(),
    ensures
        found(r, temp_end(d@, p as int), p as int, d.len() as int),
{
    if p >= d.len() {
        return None;
    }
    let kind: u8 = d[p];
    let q: usize = p + 1;
    match kind {
        13 => {
            if d.len() - q <= 9 {
                return None;
            }
            if d[q + 8] != 0 || d[q + 9] != 0 {
                take(d, q, 12)
            } else {
                take(d, q, 10)
            }
        },
        29 => {
            if d.len() - q <= 5 {
                return None;
            }
            let skip: usize = if d[q + 5] != 0 {
                20
            } else {
                18
            };
            if skip > d.len() - q {
                return None;
            }
            pass_cstr(d, q + skip)
        },
        _ => match temp_size(kind) {
            Some(n) => take(d, q, n),
            None => None,
        },
    }
}

pub open spec fn then_past(o: Option<int>, d: Seq<u8>, n: int) -> Option<int> {
    match o {
        Some(p) => past(d, p, n),
        None => None,
    }
}

pub open spec fn then_cstr(o: Option<int>, d: Seq<u8>) -> Option<int> {
    match o {
        Some(p) => past_cstr(d, p),
        None => None,
    }
}

/// Past a message whose size its own bytes say.
pub open spec fn sized_end(d: Seq<u8>, p: int, t: u8) -> Option<int> {
    if t == 12 || t == 36 {
        then_cstr(past(d, p, 1), d)
    } else if t == 20 {
        if p + 16 >= d.len() {
            None
        } else if d[p + 16] != 0 {
            past(d, p, 20)
        } else {
            past(d, p, 17)
        }
    } else if t == 23 {
        temp_end(d, p)
    } else if t == 33 {
        match past_cstr(d, p) {
            Some(q) => if q >= d.len() {
                None
            } else {
                past_cstrs(d, q + 1, d[q] as int)
            },
            None => None,
        }
    } else if t == 44 {
        then_cstr(past(d, p, 97), d)
    } else if t == 46 {
        match then_cstr(past(d, p, 2), d) {
            Some(q) => if q + 6 >= d.len() {
                None
            } else if (d[q + 6] / 4) % 2 == 1 {
                past(d, q, 23)
            } else {
                past(d, q, 7)
            },
            None => None,
        }
    } else if t == 51 {
        if p >= d.len() {
            None
        } else {
            past(d, p, d[p] + 1)
        }
    } else if t == 52 || t == 54 {
        then_past(past_cstr(d, p), d, 1)
    } else if t == 53 {
        if p + 2 >= d.len() {
            None
        } else {
            past(d, p, 3 + u16_at(d, p + 1))
        }
    } else if t == 58 {
        then_cstr(past(d, p, 4), d)
    } else {
        past_cstr(d, p)
    }
}

pub open spec fn is_sized(t: u8) -> bool {
    match t {
        2 | 8 | 9 | 26 | 31 | 34 | 49 | 56 | 57 => true,
        12 | 20 | 23 | 33 | 36 | 44 | 46 | 51 | 52 | 53 | 54 | 58 => true,
        _ => false,
    }
}

fn pass_sized(d: &[u8], p: usize, t: u8) -> (r: Option<usize>)
    requires
        countable(d@),
        p <= d.len(),
    ensures
        found(r, sized_end(d@, p as int, t), p as int, d.len() as int),
{
    match t {
        12 | 36 => match take(d, p, 1) {
            Some(q) => pass_cstr(d, q),
            None => None,
        },
        20 => {
            if d.len() - p <= 16 {
                None
            } else if d[p + 16] != 0 {
                take(d, p, 20)
            } else {
                take(d, p, 17)
            }
        },
        23 => decode_temp_entity(d, p),
        33 => match pass_cstr(d, p) {
            Some(q) => {
                if q >= d.len() {
                    None
                } else {
                    pass_cstrs(d, q + 1, d[q])
                }
            },
            None => None,
        },
        44 => match take(d, p, 97) {
            Some(q) => pass_cstr(d, q),
            None => None,
        },
        46 => {
            let name = match take(d, p, 2) {
                Some(q) => pass_cstr(d, q),
                None => None,
            };
            match name {
                Some(q) => {
                    if d.len() - q <= 6 {
                        None
                    } else if (d[q + 6] / 4) % 2 == 1 {
                        take(d, q, 23)
                    } else {
                        take(d, q, 7)
                    }
                },
                None => None,
            }
        },
        51 => {
            if p >= d.len() {
                None
            } else {
                take(d, p, d[p] as usize + 1)
            }
        },
        52 | 54 => match pass_cstr(d, p) {
            Some(q) => take(d, q, 1),
            None => None,
        },
        53 => {
            if d.len() - p <= 2 {
                None
            } else {
                take(d, p, 3 + le_u16(d, p + 1) as usize)
            }
        },
        58 => match take(d, p, 4) {
            Some(q) => pass_cstr(d, q),
            None => None,
        },
        _ => pass_cstr(d, p),
    }
}

/// Past a bit-packed message.
pub open spec fn packed_end(d: Seq<u8>, p: int, t: u8, st: Net) -> Option<int> {
    let b = bits_of(d, p);
    bit_end(
        p,
        if t == 3 {
            events_end(st.tables.event, b.adv(5), b.val(5))
        } else if t == 6 {
            sound_end(b)
        } else if t == 15 {
            client_end(st, b)
        } else if t == 17 {
            pings_end(b)
        } else if t == 21 {
            match st.tables.event {
                Some(t) => if_bit(delta_at(t, b.adv(10)).1, 16),
                None => b.fail(),
            }
        } else {
            resource_list_end(b)
        },
    )
}

pub open spec fn is_packed(t: u8) -> bool {
    match t {
        3 | 6 | 15 | 17 | 21 | 43 => true,
        _ => false,
    }
}

fn pass_packed(d: &[u8], p: usize, t: u8, st: &NetState) -> (r: Option<usize>)
    requires
        countable(d@),
        p <= d.len(),
        st.wf(),
    ensures
        found(r, packed_end(d@, p as int, t, st@), p as int, d.len() as int),
{
    let mut br = Bits::new(vstd::slice::slice_subrange(d, p, d.len()));
    match t {
        3 => pass_events(&st.tables.event, &mut br),
        6 => decode_sound(&mut br),
        15 => pass_client(st, &mut br),
        17 => pass_pings(&mut br),
        21 => {
            let _ = br.bits(10);
            match &st.tables.event {
                Some(t) => {
                    let _ = parse_delta(t, &mut br);
                    bit_then(&mut br, 16);
                },
                None => {
                    br.fail();
                },
            }
        },
        _ => decode_resource_list(&mut br),
    }
    end_of(d, p, &br)
}

/// A small whole number; none other is written as a width.
pub open spec fn width_of(n: Option<Num>) -> u32 {
    match n {
        Some(Num::Whole(v)) => if 0 <= v <= 255 {
            v as u32
        } else {
            0
        },
        _ => 0,
    }
}

pub open spec fn flags_of(n: Option<Num>) -> u32 {
    match n {
        Some(Num::Whole(v)) => if 0 <= v <= u32::MAX {
            v as u32
        } else {
            0
        },
        _ => 0,
    }
}

/// A divisor in four-thousandths; one where it is not given.
pub open spec fn divisor_of(n: Option<Num>) -> u32 {
    match n {
        Some(Num::Ratio(v, _)) => if 0 <= v <= u32::MAX {
            v as u32
        } else {
            4000
        },
        _ => 4000,
    }
}

/// The field that an entry of a description says, if it has a name.
pub open spec fn described(cs: Seq<ChangeView>) -> Option<FieldView> {
    match last_of(cs, "name"@) {
        Some(DValView::Str(name)) => Some(
            FieldView {
                name,
                bits: width_of(last_num(cs, "bits"@)),
                divisor: divisor_of(last_num(cs, "divisor"@)),
                flags: flags_of(last_num(cs, "flags"@)),
            },
        ),
        _ => None,
    }
}

/// The fields that `n` entries describe, as far as the bits go.
pub open spec fn descriptions_from(b: Place, n: int) -> (Seq<FieldView>, Place)
    decreases n,
{
    if n <= 0 {
        (Seq::empty(), b)
    } else {
        let (cs, c) = delta_at(meta_table(), b);
        if c.over() {
            (Seq::empty(), c)
        } else {
            let (rest, e) = descriptions_from(c, n - 1);
            match described(cs) {
                Some(f) => (seq![f] + rest, e),
                None => (rest, e),
            }
        }
    }
}

fn describe(cs: &Vec<Change>) -> (r: Option<FieldDesc>)
    ensures
        match (r, described(changes_view(cs@))) {
            (Some(f), Some(g)) => f@ == g && f.bits <= 255,
            (None, None) => true,
            _ => false,
        },
{
    match find_text(cs, "name") {
        Some(name) => {
            let bits: u32 = match find_num(cs, "bits") {
                Some(Num::Whole(v)) => {
                    if 0 <= v && v <= 255 {
                        v as u32
                    } else {
                        0
                    }
                },
                _ => 0,
            };
            let divisor: u32 = match find_num(cs, "divisor") {
                Some(Num::Ratio(v, _)) => {
                    if 0 <= v && v <= u32::MAX as i64 {
                        v as u32
                    } else {
                        4000
                    }
                },
                _ => 4000,
            };
            let flags: u32 = match find_num(cs, "flags") {
                Some(Num::Whole(v)) => {
                    if 0 <= v && v <= u32::MAX as i64 {
                        v as u32
                    } else {
                        0
                    }
                },
                _ => 0,
            };
            Some(FieldDesc { name, bits, divisor, flags })
        },
        None => None,
    }
}

fn read_descriptions(br: &mut Bits, n: u16) -> (r: Decoder)
    requires
        old(br).wf(),
    ensures
        final(br).wf(),
        final(br)@.d == old(br)@.d,
        narrow(r@),
        (table_view(r@), final(br)@) == descriptions_from(old(br)@, n as int),
{
    let boot = bootstrap_decoder();
    let mut out: Decoder = Vec::new();
    let ghost b0 = br@;
    let ghost all = descriptions_from(b0, n as int);
    let mut i: u16 = 0;
    assert(table_view(out@) + all.0 =~= all.0);
    while i < n
        invariant
            br.wf(),
            br@.d == old(br)@.d,
            b0 == old(br)@,
            i <= n,
            narrow(boot@),
            narrow(out@),
            table_view(boot@) == meta_table(),
            all == descriptions_from(b0, n as int),
            all.0 == table_view(out@) + descriptions_from(br@, n - i).0,
            all.1 == descriptions_from(br@, n - i).1,
        decreases n - i,
    {
        let ghost b = br@;
        let ghost done = table_view(out@);
        let cs = parse_delta(&boot, br);
        if br.over() {
            assert(done + Seq::<FieldView>::empty() =~= done);
            return out;
        }
        let ghost rest = descriptions_from(br@, n - i - 1).0;
        match describe(&cs) {
            Some(f) => {
                proof {
                    assert(table_view(out@.push(f)) =~= done.push(f@));
                    assert(done + (seq![f@] + rest) =~= done.push(f@) + rest);
                }
                out.push(f);
            },
            None => {},
        }
        i += 1;
    }
    assert(table_view(out@) + Seq::<FieldView>::empty() =~= table_view(out@));
    out
}

/// The tables after one was described.
pub open spec fn with_table(t: TablesView, name: Seq<char>, fields: Seq<FieldView>) -> TablesView {
    if name == "event_t"@ {
        TablesView { event: Some(fields), ..t }
    } else if name == "clientdata_t"@ {
        TablesView { client: Some(fields), ..t }
    } else if name == "weapon_data_t"@ {
        TablesView { weapon: Some(fields), ..t }
    } else if name == "entity_state_t"@ {
        TablesView { entity: Some(fields), ..t }
    } else if name == "entity_state_player_t"@ {
        TablesView { player: Some(fields), ..t }
    } else if name == "custom_entity_state_t"@ {
        TablesView { custom: Some(fields), ..t }
    } else {
        t
    }
}

impl Tables {
    fn set(&mut self, name: &str, fields: Decoder)
        requires
            old(self).wf(),
            narrow(fields@),
        ensures
            final(self).wf(),
            final(self)@ == with_table(old(self)@, name@, table_view(fields@)),
    {
        if str_eq(name, "event_t") {
            self.event = Some(fields);
        } else if str_eq(name, "clientdata_t") {
            self.client = Some(fields);
        } else if str_eq(name, "weapon_data_t") {
            self.weapon = Some(fields);
        } else if str_eq(name, "entity_state_t") {
            self.entity = Some(fields);
        } else if str_eq(name, "entity_state_player_t") {
            self.player = Some(fields);
        } else if str_eq(name, "custom_entity_state_t") {
            self.custom = Some(fields);
        }
    }
}

/// A description of a table. It may say more fields than there are bits, and
/// then ends past the end.
pub open spec fn description_message(d: Seq<u8>, p: int, st: Net) -> (Option<int>, Net) {
    match past_cstr(d, p) {
        None => (None, st),
        Some(q) => if q + 1 >= d.len() {
            (None, st)
        } else {
            let name = lossy_chars(d.subrange(p, zero_from(d, p)));
            let (fields, b) = descriptions_from(bits_of(d, q + 2), u16_at(d, q));
            (
                Some(q + 2 + (b.pos + 7) / 8),
                Net { tables: with_table(st.tables, name, fields), ..st },
            )
        },
    }
}

fn decode_description(d: &[u8], p: usize, st: &mut NetState) -> (r: Option<usize>)
    requires
        countable(d@),
        p <= d.len(),
        old(st).wf(),
    ensures
        final(st).wf(),
        final(st)@ == description_message(d@, p as int, old(st)@).1,
        found(r, description_message(d@, p as int, old(st)@).0, p as int, d.len() + 1),
{
    match cstr(d, p) {
        None => None,
        Some((z, q)) => {
            if d.len() - q <= 1 {
                return None;
            }
            let name = lossy(vstd::slice::slice_subrange(d, p, z));
            let total: u16 = le_u16(d, q);
            let mut br = Bits::new(vstd::slice::slice_subrange(d, q + 2, d.len()));
            let fields = read_descriptions(&mut br, total);
            proof {
                br.lemma_valid();
            }
            st.tables.set(name.as_str(), fields);
            Some(q + 2 + br.consumed_bytes())
        },
    }
}

/// What the server says of itself: the number of players is taken over even where
/// the rest is cut off.
pub open spec fn server_message(d: Seq<u8>, p: int, st: Net) -> (Option<int>, Net) {
    if p + 28 >= d.len() {
        (None, st)
    } else {
        let s = Net { max_client: d[p + 28], ..st };
        (
            match past(d, p, 31) {
                Some(q) => then_past(past_cstrs(d, q, 4), d, 1),
                None => None,
            },
            s,
        )
    }
}

fn decode_server(d: &[u8], p: usize, st: &mut NetState) -> (r: Option<usize>)
    requires
        countable(d@),
        p <= d.len(),
        old(st).wf(),
    ensures
        final(st).wf(),
        final(st)@ == server_message(d@, p as int, old(st)@).1,
        found(r, server_message(d@, p as int, old(st)@).0, p as int, d.len() as int),
{
    if d.len() - p <= 28 {
        return None;
    }
    st.max_client = d[p + 28];
    match take(d, p, 31) {
        Some(q) => match pass_cstrs(d, q, 4) {
            Some(e) => take(d, e, 1),
            None => None,
        },
        None => None,
    }
}

/// What a player says of itself: a name that is not empty is kept.
pub open spec fn user_message(d: Seq<u8>, p: int, st: Net) -> (Option<int>, Net) {
    match past(d, p, 5) {
        None => (None, st),
        Some(q) => match then_past(past_cstr(d, q), d, 16) {
            None => (None, st),
            Some(e) => {
                let info = lossy_chars(d.subrange(q, zero_from(d, q)));
                (
                    Some(e),
                    match info_of(info, "name"@, false) {
                        Some(name) => if name.len() > 0 {
                            Net { names: st.names.insert((d[p] + 1) as u32, name), ..st }
                        } else {
                            st
                        },
                        None => st,
                    },
                )
            },
        },
    }
}

fn decode_user(d: &[u8], p: usize, st: &mut NetState) -> (r: Option<usize>)
    requires
        countable(d@),
        p <= d.len(),
        old(st).wf(),
    ensures
        final(st).wf(),
        final(st)@ == user_message(d@, p as int, old(st)@).1,
        found(r, user_message(d@, p as int, old(st)@).0, p as int, d.len() as int),
{
    broadcast use vstd::std_specs::hash::group_hash_axioms;

    let q: usize = match take(d, p, 5) {
        Some(q) => q,
        None => {
            return None;
        },
    };
    let (z, e) = match cstr(d, q) {
        Some(c) => c,
        None => {
            return None;
        },
    };
    let end: usize = match take(d, e, 16) {
        Some(end) => end,
        None => {
            return None;
        },
    };
    let info = lossy(vstd::slice::slice_subrange(d, q, z));
    match info_value(info.as_str(), "name", false) {
        Some(name) => {
            if !is_empty_text(name.as_str()) {
                let ghost n0 = st.out.names@;
                let ghost key = (d[p as int] + 1) as u32;
                let ghost nv = name@;
                st.out.names.insert(d[p] as u32 + 1, name);
                assert(names_view(st.out.names@) =~= names_view(n0).insert(key, nv));
            }
        },
        None => {},
    }
    Some(end)
}

/// A message after its number `t`: where it ends, if it can be read, and the game
/// then.
pub open spec fn message_end(d: Seq<u8>, p: int, t: u8, time: u32, st: Net) -> (Option<int>, Net) {
    match fixed_len(t) {
        Some(n) => (past(d, p, n), st),
        None => if is_sized(t) {
            (sized_end(d, p, t), st)
        } else if is_packed(t) {
            (packed_end(d, p, t, st), st)
        } else if t == 11 {
            server_message(d, p, st)
        } else if t == 13 {
            user_message(d, p, st)
        } else if t == 14 {
            description_message(d, p, st)
        } else if t == 22 {
            baseline_message(d, p, st)
        } else if t == 39 {
            if p + 18 > d.len() {
                (None, st)
            } else {
                (
                    Some(p + 18),
                    Net { sizes: st.sizes.insert(d[p], signed8(d[p + 1]) as i8), ..st },
                )
            }
        } else if t == 40 {
            full_message(d, p, time, st)
        } else if t == 41 {
            partial_message(d, p, time, st)
        } else if t == 50 {
            if p + 1 > d.len() {
                (None, st)
            } else {
                (Some(p + 1), Net { is_hltv: true, ..st })
            }
        } else {
            (
                if st.sizes.contains_key(t) && st.sizes[t] >= 0 {
                    past(d, p, st.sizes[t] as int)
                } else if p >= d.len() {
                    None
                } else {
                    past(d, p, 1 + d[p])
                },
                st,
            )
        },
    }
}

fn decode_message(d: &[u8], p: usize, t: u8, time: u32, st: &mut NetState) -> (r: Option<usize>)
    requires
        countable(d@),
        p <= d.len(),
        old(st).wf(),
    ensures
        final(st).wf(),
        final(st)@ == message_end(d@, p as int, t, time, old(st)@).1,
        found(r, message_end(d@, p as int, t, time, old(st)@).0, p as int, d.len() + 1),
{
    broadcast use vstd::std_specs::hash::group_hash_axioms;

    match fixed_size(t) {
        Some(n) => {
            return take(d, p, n);
        },
        None => {},
    }
    match t {
        2 | 8 | 9 | 26 | 31 | 34 | 49 | 56 | 57 => pass_sized(d, p, t),
        12 | 20 | 23 | 33 | 36 | 44 | 46 | 51 | 52 | 53 | 54 | 58 => pass_sized(d, p, t),
        3 | 6 | 15 | 17 | 21 | 43 => pass_packed(d, p, t, st),
        11 => decode_server(d, p, st),
        13 => decode_user(d, p, st),
        14 => decode_description(d, p, st),
        22 => decode_spawnbaseline(d, p, st),
        39 => {
            if d.len() - p < 18 {
                return None;
            }
            st.sizes.insert(d[p], to_i8(d[p + 1]));
            Some(p + 18)
        },
        40 => decode_packet_entities(d, p, st, time),
        41 => decode_delta_packet_entities(d, p, st, time),
        50 => {
            if p >= d.len() {
                return None;
            }
            st.is_hltv = true;
            Some(p + 1)
        },
        _ => {
            let size: i8 = match st.sizes.get(&t) {
                Some(n) => *n,
                None => -1,
            };
            if size >= 0 {
                take(d, p, size as usize)
            } else if p >= d.len() {
                None
            } else {
                take(d, p, 1 + d[p] as usize)
            }
        },
    }
}

/// Message numbers that end a block.
pub open spec fn is_stop(t: u8) -> bool {
    t == 0 || 59 <= t <= 63
}

/// The messages of a block from `p` on: whether all of them could be read, and the
/// game after those that could.
pub open spec fn blob_from(d: Seq<u8>, p: int, time: u32, st: Net) -> (bool, Net)
    decreases
            if p < d.len() {
                d.len() - p
            } else {
                0
            },
{
    if p < 0 || p >= d.len() || is_stop(d[p]) {
        (true, st)
    } else {
        match message_end(d, p + 1, d[p], time, st) {
            (None, s) => (false, s),
            (Some(q), s) => if q <= p {
                (false, s)
            } else {
                blob_from(d, q, time, s)
            },
        }
    }
}

/// Reads a block of server messages. At the first one that cannot be read the rest
/// of the block is given up.
pub fn decode_blob(blob: &[u8], st: &mut NetState, time: u32) -> (ok: bool)
    requires
        countable(blob@),
        old(st).wf(),
    ensures
        final(st).wf(),
        (ok, final(st)@) == blob_from(blob@, 0, time, old(st)@),
{
    let mut p: usize = 0;
    while p < blob.len()
        invariant
            countable(blob@),
            p <= blob.len() + 1,
            st.wf(),
            blob_from(blob@, 0, time, old(st)@) == blob_from(blob@, p as int, time, st@),
        decreases blob.len() + 1 - p,
    {
        let t: u8 = blob[p];
        if t == 0 || (59 <= t && t <= 63) {
            return true;
        }
        match decode_message(blob, p + 1, t, time, st) {
            Some(q) => {
                p = q;
            },
            None => {
                return false;
            },
        }
    }
    true
}

/// The block of messages of the frame at `p`.
pub open spec fn blob_of(d: Seq<u8>, p: int) -> Seq<u8> {
    let start = p + 9 + NM_FIXED;
    let stop = start + int_or_zero(d, p + 9 + NM_MSGLEN);
    let stop = if stop <= d.len() {
        stop
    } else {
        d.len() as int
    };
    if start <= stop {
        d.subrange(start, stop)
    } else {
        Seq::empty()
    }
}

/// Where the frame after the one at `p` starts. A section's end does not stop the
/// walk.
pub open spec fn step_on(d: Seq<u8>, p: int) -> Option<int> {
    match frame_step(d, p) {
        FrameStep::Next(q) => Some(q),
        FrameStep::End => Some(p + 9),
        FrameStep::Lost => None,
    }
}

/// The game after the frames from `p` on, of which at most `left` are read.
pub open spec fn frames_from(d: Seq<u8>, end: int, p: int, last: u32, left: int, st: Net) -> Net
    decreases left,
{
    if left <= 0 || p < 0 || p + 9 > end {
        st
    } else {
        let time = bits_or_zero(d, p + 1);
        let fits = d[p] <= 9 && time_fits(time, last, THOUSAND);
        let now = if fits {
            later(time, last)
        } else {
            last
        };
        let next = if fits {
            step_on(d, p)
        } else {
            None
        };
        match next {
            Some(q) => {
                let s = if d[p] <= 1 {
                    blob_from(blob_of(d, p), 0, time, st).1
                } else {
                    st
                };
                frames_from(d, end, q, now, left - 1, s)
            },
            None => match resync(d, p, end) {
                Some(q) => frames_from(d, end, q, now, left - 1, st),
                None => st,
            },
        }
    }
}

/// The game at the end of a demo, from the end of its header on.
pub open spec fn game_of(d: Seq<u8>, play: Playback) -> Net {
    if play.play_offset == 0 {
        new_net()
    } else {
        let sum = play.play_offset + play.play_length;
        let end = if sum <= d.len() {
            sum
        } else {
            d.len() as int
        };
        frames_from(d, end, GOLDSRC_HEADER_SIZE as int, MINUS_ONE, 2_000_000, new_net())
    }
}

fn with_primary(out: GoldSrcEntities) -> (r: GoldSrcEntities)
    ensures
        r.tracks == out.tracks,
        r.yaws == out.yaws,
        r.names == out.names,
        is_lowest(r.tracks@.dom(), r.primary),
{
    let primary = lowest_key(&out.tracks);
    GoldSrcEntities { primary, ..out }
}

/// The tracks, view directions and names of the players of a demo, and the lowest entity
/// that has a track.
#[verifier::spinoff_prover]
#[verifier::rlimit(60)]
pub fn extract_entities(data: &[u8], play: &Playback) -> (r: GoldSrcEntities)
    ensures
        tracks_view(r.tracks@) == game_of(data@, *play).tracks,
        yaws_view(r.yaws@) == game_of(data@, *play).yaws,
        names_view(r.names@) == game_of(data@, *play).names,
        is_lowest(r.tracks@.dom(), r.primary),
{
    let mut st = NetState::new();
    if play.play_offset == 0 {
        return with_primary(st.out);
    }
    let sum: usize = ahead(play.play_offset, play.play_length);
    let end: usize = if sum <= data.len() {
        sum
    } else {
        data.len()
    };
    let ghost d = data@;
    let ghost all = game_of(d, *play);
    let mut p: usize = GOLDSRC_HEADER_SIZE;
    let mut last: u32 = MINUS_ONE;
    let mut left: usize = 2_000_000;
    while left > 0 && p <= end && end - p >= 9
        invariant
            d == data@,
            end <= data.len(),
            left <= 2_000_000,
            finite(last),
            st.wf(),
            key(MINUS_ONE) <= key(last) < key(THOUSAND),
            all == frames_from(d, end as int, p as int, last, left as int, st@),
            all == game_of(d, *play),
        decreases left,
    {
        let kind: u8 = data[p];
        let time: u32 = gf32(data, p + 1);
        left = left - 1;
        let fits = kind <= 9 && check_time(time, last, THOUSAND);
        let step = if fits {
            if order_key(time) > order_key(last) {
                last = time;
            }
            step_frame(data, p)
        } else {
            Stepped::Lost
        };
        match step {
            Stepped::Lost => match find_anchor(data, p, end) {
                Some(q) => {
                    p = q;
                },
                None => {
                    return with_primary(st.out);
                },
            },
            Stepped::End => {
                p = p + 9;
            },
            Stepped::Next(next) => {
                let ghost s0 = st@;
                if kind <= 1 {
                    let start: usize = ahead(p, 9 + NM_FIXED);
                    let stop: usize = if next <= data.len() {
                        next
                    } else {
                        data.len()
                    };
                    if start <= stop {
                        let _ = decode_blob(
                            vstd::slice::slice_subrange(data, start, stop),
                            &mut st,
                            time,
                        );
                    }
                }
                assert(frame_step(d, p as int) matches FrameStep::Next(v) && frames_from(
                    d,
                    end as int,
                    v,
                    last,
                    left as int,
                    st@,
                ) == frames_from(d, end as int, next as int, last, left as int, st@));
                assert(kind <= 1 ==> st@ == blob_from(blob_of(d, p as int), 0, time, s0).1);
                p = next;
            },
        }
    }
    with_primary(st.out)
}

/// Messages that are not understood harm no frame but their own: the walk goes on where
/// the frame's length says, with all that was learnt before them.
pub proof fn law_frames_are_apart(d: Seq<u8>, end: int, p: int, last: u32, left: int, st: Net)
    requires
        0 <= p,
        p + 9 <= end,
        left > 0,
        d[p] <= 1,
        time_fits(bits_or_zero(d, p + 1), last, THOUSAND),
        0 <= int_or_zero(d, p + 9 + NM_MSGLEN) <= 65536,
    ensures
        frames_from(d, end, p, last, left, st) == frames_from(
            d,
            end,
            p + 9 + NM_FIXED + int_or_zero(d, p + 9 + NM_MSGLEN),
            later(bits_or_zero(d, p + 1), last),
            left - 1,
            blob_from(blob_of(d, p), 0, bits_or_zero(d, p + 1), st).1,
        ),
{
}

/// Each sample of a track has finite coordinates and a view direction of the same
/// time.
pub open spec fn paired(st: Net) -> bool {
    &&& forall|k: u32| #[trigger] st.tracks.contains_key(k) <==> st.yaws.contains_key(k)
    &&& forall|k: u32| #[trigger]
        st.tracks.contains_key(k) ==> sides_match(st.tracks[k], st.yaws[k])
}

pub open spec fn sides_match(a: Seq<Sample>, b: Seq<Facing>) -> bool {
    &&& a.len() == b.len()
    &&& forall|i: int| 0 <= i < a.len() ==> (#[trigger] a[i]).time == b[i].time
    &&& forall|i: int|
        0 <= i < a.len() ==> (#[trigger] a[i]).x.finite() && a[i].y.finite() && a[i].z.finite()
}

proof fn lemma_applied_paired(st: Net, idx: u16, cs: Seq<ChangeView>, time: u32)
    requires
        paired(st),
    ensures
        paired(applied(st, idx, cs, time)),
{
    let r = applied(st, idx, cs, time);
    assert forall|k: u32| #[trigger] r.tracks.contains_key(k) implies sides_match(
        r.tracks[k],
        r.yaws[k],
    ) by {
        assert(st.tracks.contains_key(k) ==> sides_match(st.tracks[k], st.yaws[k]));
        assert(st.tracks.contains_key(k) <==> st.yaws.contains_key(k));
    }
    assert forall|k: u32| #[trigger] r.tracks.contains_key(k) <==> r.yaws.contains_key(k) by {
        assert(st.tracks.contains_key(k) <==> st.yaws.contains_key(k));
    }
}

proof fn lemma_baselines_paired(ts: StateTables, max: u8, b: Place, st: Net)
    requires
        paired(st),
    ensures
        paired(baselines_from(ts, max, b, st).1),
    decreases b.total() + 1 - b.pos,
{
    if b.valid() && b.val(16) != 0xffff {
        let idx = b.val(11) as u16;
        let c = b.adv(11).adv(2);
        lemma_state_grows(ts, c);
        let t = if b.adv(11).val(2) % 2 == 1 {
            if is_slot(idx, max) {
                ts.player
            } else {
                ts.entity
            }
        } else {
            ts.custom
        };
        match entity_delta(t, c, idx, 0, st) {
            Some((e, s)) => {
                lemma_applied_paired(st, idx, delta_at(t->0, c).0, 0);
                if !e.over() {
                    lemma_baselines_paired(ts, max, e, s);
                }
            },
            None => {},
        }
    }
}

proof fn lemma_full_paired(ts: StateTables, max: u8, b: Place, idx: int, time: u32, st: Net)
    requires
        paired(st),
    ensures
        paired(full_from(ts, max, b, idx, time, st).1),
    decreases b.total() + 1 - b.pos,
{
    if b.valid() && b.val(16) != 0 {
        let (i, custom, c) = full_head(b, idx);
        lemma_state_grows(ts, c);
        let t = table_for(ts, i as u16, max, custom);
        match entity_delta(t, c, i as u16, time, st) {
            Some((e, s)) => {
                lemma_applied_paired(st, i as u16, delta_at(t->0, c).0, time);
                if !e.over() {
                    lemma_full_paired(ts, max, e, i, time, s);
                }
            },
            None => {},
        }
    }
}

proof fn lemma_partial_paired(ts: StateTables, max: u8, b: Place, idx: int, time: u32, st: Net)
    requires
        paired(st),
    ensures
        paired(partial_from(ts, max, b, idx, time, st).1),
    decreases b.total() + 1 - b.pos,
{
    if b.valid() && b.val(16) != 0 {
        if b.over() {
            assert(b.avail(16) == 0);
            assert(b.val(16) == 0);
        }
        let (i, c) = step_index(b.adv(1), idx);
        if b.val(1) != 0 {
            lemma_partial_paired(ts, max, c, i, time, st);
        } else {
            lemma_state_grows(ts, c.adv(1));
            let t = table_for(ts, i as u16, max, c.val(1) != 0);
            match entity_delta(t, c.adv(1), i as u16, time, st) {
                Some((e, s)) => {
                    lemma_applied_paired(st, i as u16, delta_at(t->0, c.adv(1)).0, time);
                    if !e.over() {
                        lemma_partial_paired(ts, max, e, i, time, s);
                    }
                },
                None => {},
            }
        }
    }
}

proof fn lemma_message_paired(d: Seq<u8>, p: int, t: u8, time: u32, st: Net)
    requires
        paired(st),
    ensures
        paired(message_end(d, p, t, time, st).1),
{
    let r = message_end(d, p, t, time, st).1;
    if t == 22 {
        lemma_baselines_paired(state_tables(st), st.max_client, bits_of(d, p), st);
        assert(r == baselines_from(state_tables(st), st.max_client, bits_of(d, p), st).1);
    } else if t == 40 {
        let b = bits_of(d, p).adv(16);
        lemma_full_paired(state_tables(st), st.max_client, b, 0, time, st);
        assert(r == full_from(state_tables(st), st.max_client, b, 0, time, st).1);
    } else if t == 41 {
        let b = bits_of(d, p).adv(16).adv(8);
        lemma_partial_paired(state_tables(st), st.max_client, b, 0, time, st);
        assert(r == partial_from(state_tables(st), st.max_client, b, 0, time, st).1);
    } else {
        assert(r.tracks == st.tracks && r.yaws == st.yaws);
        assert forall|k: u32| #[trigger] r.tracks.contains_key(k) implies sides_match(
            r.tracks[k],
            r.yaws[k],
        ) by {
            assert(st.tracks.contains_key(k));
        }
    }
}

proof fn lemma_blob_paired(d: Seq<u8>, p: int, time: u32, st: Net)
    requires
        paired(st),
    ensures
        paired(blob_from(d, p, time, st).1),
    decreases
            if p < d.len() {
                d.len() - p
            } else {
                0
            },
{
    if 0 <= p < d.len() && !is_stop(d[p]) {
        lemma_message_paired(d, p + 1, d[p], time, st);
        match message_end(d, p + 1, d[p], time, st) {
            (Some(q), s) => if q > p {
                lemma_blob_paired(d, q, time, s);
            },
            _ => {},
        }
    }
}

proof fn lemma_frames_paired(d: Seq<u8>, end: int, p: int, last: u32, left: int, st: Net)
    requires
        paired(st),
    ensures
        paired(frames_from(d, end, p, last, left, st)),
    decreases left,
{
    if left > 0 && p >= 0 && p + 9 <= end {
        let time = bits_or_zero(d, p + 1);
        let fits = d[p] <= 9 && time_fits(time, last, THOUSAND);
        let now = if fits {
            later(time, last)
        } else {
            last
        };
        if fits && step_on(d, p) is Some {
            lemma_blob_paired(blob_of(d, p), 0, time, st);
            let s = if d[p] <= 1 {
                blob_from(blob_of(d, p), 0, time, st).1
            } else {
                st
            };
            lemma_frames_paired(d, end, step_on(d, p)->0, now, left - 1, s);
        } else if resync(d, p, end) is Some {
            lemma_frames_paired(d, end, resync(d, p, end)->0, now, left - 1, st);
        }
    }
}

/// In every demo the tracks and the view directions belong to the same entities,
/// a direction stands beside each position with its time, and every position is
/// finite.
pub proof fn law_tracks_have_views(d: Seq<u8>, play: Playback)
    ensures
        paired(game_of(d, play)),
{
    if play.play_offset != 0 {
        let sum = play.play_offset + play.play_length;
        let end = if sum <= d.len() {
            sum
        } else {
            d.len() as int
        };
        lemma_frames_paired(
            d,
            end,
            GOLDSRC_HEADER_SIZE as int,
            MINUS_ONE,
            2_000_000,
            new_net(),
        );
    }
}

proof fn lemma_unnamed(cs: Seq<ChangeView>, name: Seq<char>)
    requires
        forall|i: int| 0 <= i < cs.len() ==> (#[trigger] cs[i]).name != name,
    ensures
        last_num(cs, name) is None,
    decreases cs.len(),
{
    if cs.len() > 0 {
        assert(cs[cs.len() - 1].name != name);
        assert forall|i: int| 0 <= i < cs.drop_last().len() implies (#[trigger] cs.drop_last()[i]).name
            != name by {
            assert(cs.drop_last()[i] == cs[i]);
        }
        lemma_unnamed(cs.drop_last(), name);
    }
}

/// Whether a delta says nothing of a field.
pub open spec fn is_silent(cs: Seq<ChangeView>, name: Seq<char>) -> bool {
    forall|i: int| 0 <= i < cs.len() ==> (#[trigger] cs[i]).name != name
}

/// What a delta says nothing of stays as it was: the fields that it leaves out, and
/// every other entity.
pub proof fn law_absent_stays(st: Net, idx: u16, cs: Seq<ChangeView>, time: u32, k: u16)
    requires
        st.ents.contains_key(idx),
        st.ents.contains_key(k),
    ensures
        ({
            let after = applied(st, idx, cs, time).ents;
            &&& is_silent(cs, "origin[0]"@) ==> after[idx].x == st.ents[idx].x
            &&& is_silent(cs, "origin[1]"@) ==> after[idx].y == st.ents[idx].y
            &&& is_silent(cs, "origin[2]"@) ==> after[idx].z == st.ents[idx].z
            &&& is_silent(cs, "angles[0]"@) ==> after[idx].pitch == st.ents[idx].pitch
            &&& is_silent(cs, "angles[1]"@) ==> after[idx].yaw == st.ents[idx].yaw
            &&& k != idx ==> after.contains_key(k) && after[k] == st.ents[k]
        }),
{
    if is_silent(cs, "origin[0]"@) {
        lemma_unnamed(cs, "origin[0]"@);
    }
    if is_silent(cs, "origin[1]"@) {
        lemma_unnamed(cs, "origin[1]"@);
    }
    if is_silent(cs, "origin[2]"@) {
        lemma_unnamed(cs, "origin[2]"@);
    }
    if is_silent(cs, "angles[0]"@) {
        lemma_unnamed(cs, "angles[0]"@);
    }
    if is_silent(cs, "angles[1]"@) {
        lemma_unnamed(cs, "angles[1]"@);
    }
}

} // verus!
