//! Messages as a Quake 3 server writes them.
use super::huffman::{received, Code};
use super::q3::{command_at, entities_from, entries_from, gamestate_at, entity_at, entity_delta,
    entity_fields, entity_value, ent_width, fraction_at, items_end, list_end, player_delta,
    player_fields, player_value, ps_width, recorded, sighted, snapshot_at, snapshot_head, spread,
    state_of, tick_of, zeros, Game, Wire, ENT_FIELDS, PS_FIELDS};
use super::{Point, Tracks};
use crate::bytes::{ahead_of, has_flag};
use crate::ieee::{finite, ratio_bits};
use crate::maps::list_of;
use crate::written::{bits_of, flag, lemma_bits_len, lemma_number_stands, lemma_set_at,
    lemma_stands_split, no_zero, set_at, stands};
use vstd::arithmetic::div_mod::{lemma_fundamental_div_mod, lemma_mod_bound};
use vstd::arithmetic::power2::{lemma2_to64, lemma_pow2_adds, lemma_pow2_pos, pow2};
use vstd::bits::lemma_u32_shl_is_mul;
use vstd::prelude::*;

verus! {

/// Whether a path leads down from a node to the leaf of a byte.
pub open spec fn leads(c: Code, node: usize, path: Seq<bool>, s: int) -> bool
    decreases path.len(),
{
    match c.nodes[node as int].kids {
        None => path.len() == 0 && c.nodes[node as int].symbol == s,
        Some((l, r)) => path.len() > 0 && leads(
            c,
            if path[0] {
                r
            } else {
                l
            },
            path.drop_first(),
            s,
        ),
    }
}

/// The paths of all bytes in a code.
pub open spec fn book_of(c: Code, book: spec_fn(int) -> Seq<bool>) -> bool {
    forall|s: int| 0 <= s < 256 ==> leads(c, c.root, #[trigger] book(s), s)
}

proof fn lemma_leads(c: Code, d: Seq<u8>, bit: int, node: usize, path: Seq<bool>, s: int)
    requires
        0 <= bit,
        leads(c, node, path, s),
        stands(d, bit, path),
    ensures
        received(c, d, bit, node) == (s, bit + path.len()),
    decreases path.len(),
{
    if let Some((l, r)) = c.nodes[node as int].kids {
        let rest = path.drop_first();
        lemma_stands_split(d, bit, seq![path[0]], rest);
        assert(path =~= seq![path[0]] + rest);
        lemma_stands_split(d, bit, seq![path[0]], rest);
        assert(set_at(d, bit + 0) == path[0]);
        lemma_set_at(d, bit);
        lemma_leads(
            c,
            d,
            bit + 1,
            if path[0] {
                r
            } else {
                l
            },
            rest,
            s,
        );
    }
}

/// The coded bytes of a number, the lowest first.
pub open spec fn octets_bits(book: spec_fn(int) -> Seq<bool>, v: int, n: nat) -> Seq<bool>
    decreases n,
{
    if n == 0 {
        Seq::empty()
    } else {
        book(v % 256) + octets_bits(book, v / 256, (n - 1) as nat)
    }
}

/// A number of `n` bits: its low bits beyond whole bytes as they are, and its bytes
/// coded.
#[verifier::opaque]
pub open spec fn number_bits(book: spec_fn(int) -> Seq<bool>, v: int, n: nat) -> Seq<bool> {
    let k = pow2(n % 8) as int;
    bits_of(v % k, n % 8) + octets_bits(book, v / k, n / 8)
}

impl Wire {
    /// Whether bits stand where the reader does.
    #[verifier::opaque]
    pub open spec fn holds(self, b: Seq<bool>) -> bool {
        0 <= self.bit && !self.over && stands(self.d, self.bit, b)
    }

    /// Behind the bits.
    pub open spec fn past(self, b: Seq<bool>) -> Wire {
        self.at(self.bit + b.len())
    }

    pub proof fn lemma_holds(self, a: Seq<bool>, b: Seq<bool>)
        requires
            self.holds(a + b),
        ensures
            self.holds(a),
            self.past(a).holds(b),
            !self.over,
            0 <= self.bit,
            self.bit + a.len() <= self.end(),
    {
        reveal(Wire::holds);
        lemma_stands_split(self.d, self.bit, a, b);
    }

    /// Coded bytes that were written are read back.
    #[verifier::rlimit(50)]
    proof fn lemma_octets(
        self,
        book: spec_fn(int) -> Seq<bool>,
        low: u32,
        shift: u32,
        v: int,
        n: nat,
        rest: Seq<bool>,
    )
        requires
            book_of(self.code, book),
            shift + 8 * n <= 32,
            low < pow2(shift as nat),
            0 <= v < pow2((8 * n) as nat),
            self.holds(octets_bits(book, v, n) + rest),
        ensures
            self.octets(low, shift, n as int) == (
                (low + v * pow2(shift as nat)) as u32,
                self.past(octets_bits(book, v, n)),
            ),
            low + v * pow2(shift as nat) < pow2((shift + 8 * n) as nat),
        decreases n,
    {
        let all = octets_bits(book, v, n);
        let p = pow2(shift as nat) as int;
        lemma2_to64();
        lemma_pow2_pos(shift as nat);
        self.lemma_holds(all, rest);
        if n == 0 {
            assert(v == 0);
            assert(v * p == 0) by (nonlinear_arith)
                requires
                    v == 0,
            ;
            assert(self.past(all) == self);
            assert(low as int as u32 == low);
        } else {
            let s = v % 256;
            let (a, b) = (book(s), octets_bits(book, v / 256, (n - 1) as nat));
            assert(all + rest =~= a + (b + rest));
            self.lemma_holds(a, b + rest);
            reveal(Wire::holds);
            lemma_leads(self.code, self.d, self.bit, self.code.root, a, s);
            let t = s as u32;
            lemma_joined(low, t, shift);
            let next = low | (t << shift);
            lemma_pow2_adds(8, (8 * n - 8) as nat);
            lemma_pow2_adds(shift as nat, 8);
            assert(v / 256 < pow2((8 * (n - 1)) as nat)) by {
                let q = pow2((8 * n - 8) as nat) as int;
                assert(v < 256 * q);
                lemma_fundamental_div_mod(v, 256);
            }
            assert((8 * n - 8) as nat == (8 * (n - 1)) as nat);
            self.past(a).lemma_octets(book, next, (shift + 8) as u32, v / 256, (n - 1) as nat, rest);
            let q = v / 256;
            assert(v == 256 * q + s) by {
                lemma_fundamental_div_mod(v, 256);
            }
            let p8 = pow2((shift + 8) as nat) as int;
            assert(p8 == p * 256);
            assert(low + s * p + q * (p * 256) == low + (256 * q + s) * p) by (nonlinear_arith);
            assert(next + q * p8 == low + v * p);
            assert(self.past(a).past(b) == self.past(all));
        }
    }

    /// A number that was written is read back.
    #[verifier::rlimit(50)]
    pub proof fn law_number_reads(self, book: spec_fn(int) -> Seq<bool>, v: int, n: nat, rest: Seq<bool>)
        requires
            book_of(self.code, book),
            n <= 32,
            0 <= v < pow2(n),
            self.holds(number_bits(book, v, n) + rest),
        ensures
            self.val(n as int) == v,
            self.after(n as int) == self.past(number_bits(book, v, n)),
            self.past(number_bits(book, v, n)).holds(rest),
            !self.over,
    {
        reveal(number_bits);
        let all = number_bits(book, v, n);
        let k = n % 8;
        let p = pow2(k) as int;
        lemma2_to64();
        lemma_pow2_pos(k);
        lemma_fundamental_div_mod(v, p);
        lemma_mod_bound(v, p);
        let (lo, hi) = (v % p, v / p);
        let (a, b) = (bits_of(lo, k), octets_bits(book, hi, n / 8));
        lemma_bits_len(lo, k);
        self.lemma_holds(all, rest);
        assert(all + rest =~= a + (b + rest));
        self.lemma_holds(a, b + rest);
        reveal(Wire::holds);
        lemma_number_stands(self.d, self.bit, lo, k);
        lemma_pow2_adds(k, (8 * (n / 8)) as nat);
        let q = pow2((8 * (n / 8)) as nat) as int;
        assert(n == k + 8 * (n / 8));
        assert(hi < q) by (nonlinear_arith)
            requires
                v == p * hi + lo,
                v < p * q,
                lo >= 0,
                p > 0,
        ;
        assert(0 <= hi) by (nonlinear_arith)
            requires
                v == p * hi + lo,
                v >= 0,
                lo < p,
                p > 0,
        ;
        assert(lo < 0x1_0000_0000);
        assert(pow2(k) <= 128);
        self.past(a).lemma_octets(book, lo as u32, k as u32, hi, (n / 8) as nat, rest);
        assert(lo + hi * p == v) by (nonlinear_arith)
            requires
                v == p * hi + lo,
        ;
        if n < 32 {
            vstd::arithmetic::power2::lemma_pow2_strictly_increases(n, 32);
        }
        assert(self.past(a).past(b) == self.past(all));
    }

    pub proof fn lemma_flag(self, b: bool, rest: Seq<bool>)
        requires
            self.holds(flag(b) + rest),
        ensures
            self.set() == b,
            self.after(1) == self.past(flag(b)),
            self.past(flag(b)).holds(rest),
            !self.over,
    {
        let v = if b {
            1int
        } else {
            0
        };
        lemma2_to64();
        assert(bits_of(v, 1) =~= flag(b)) by {
            assert(bits_of(v / 2, 0) =~= Seq::empty());
        }
        self.lemma_holds(flag(b), rest);
        reveal(Wire::holds);
        lemma_number_stands(self.d, self.bit, v, 1);
    }
}

#[verifier::rlimit(50)]
proof fn lemma_joined(low: u32, s: u32, shift: u32)
    requires
        shift <= 24,
        s < 256,
        low < pow2(shift as nat),
    ensures
        (low | (s << shift)) == low + s * pow2(shift as nat),
        low + s * pow2(shift as nat) < pow2((shift + 8) as nat),
        low + s * pow2(shift as nat) < 0x1_0000_0000,
{
    lemma2_to64();
    lemma_pow2_pos(shift as nat);
    lemma_pow2_adds(shift as nat, 8);
    let p = pow2(shift as nat) as int;
    if shift < 24 {
        vstd::arithmetic::power2::lemma_pow2_strictly_increases(shift as nat, 24);
    }
    assert(p <= 0x100_0000);
    assert(s * p <= 255 * p && 255 * p + p <= 0x1_0000_0000) by (nonlinear_arith)
        requires
            0 <= s < 256,
            0 < p <= 0x100_0000,
    ;
    assert(1 * p == p);
    lemma_u32_shl_is_mul(s, shift);
    lemma_u32_shl_is_mul(1, shift);
    assert((low | (s << shift)) == low + (s << shift)) by (bit_vector)
        requires
            shift <= 24,
            s < 256,
            low < (1u32 << shift),
    ;
    assert(256 * p == p * 256);
}

/// The fields of an entity, in the order in which they are sent.
pub enum EntField {
    PosTime,
    PosBase0,
    PosBase1,
    PosDelta0,
    PosDelta1,
    PosBase2,
    AposBase1,
    PosDelta2,
    AposBase0,
    Event,
    AngA1,
    EType,
    TorsoAnim,
    EventParm,
    LegsAnim,
    GroundEntity,
    PosType,
    EFlags,
    OtherEntity,
    Weapon,
    ClientNum,
    Angles1,
    PosDuration,
    AposType,
    Origin0,
    Origin1,
    Origin2,
    Solid,
    Powerups,
    ModelIndex,
    OtherEntity2,
    LoopSound,
    Generic1,
    OriginB2,
    OriginB0,
    OriginB1,
    ModelIndex2,
    Angles0,
    Time,
    AposTime,
    AposDuration,
    AposBase2,
    AposDelta0,
    AposDelta1,
    AposDelta2,
    Time2,
    Angles2,
    AngA0,
    AngA2,
    ConstantLight,
    Frame,
}

/// The fields of the recorder's state, in the order in which they are sent.
pub enum PsField {
    CommandTime,
    Origin0,
    Origin1,
    BobCycle,
    Velocity0,
    Velocity1,
    ViewAngles1,
    ViewAngles0,
    WeaponTime,
    Origin2,
    Velocity2,
    LegsTimer,
    PmTime,
    EventSequence,
    TorsoAnim,
    MovementDir,
    Events0,
    LegsAnim,
    Events1,
    PmFlags,
    GroundEntity,
    WeaponState,
    EFlags,
    ExternalEvent,
    Gravity,
    Speed,
    DeltaAngles1,
    ExternalEventParm,
    ViewHeight,
    DamageEvent,
    DamageYaw,
    DamagePitch,
    DamageCount,
    Generic1,
    PmType,
    DeltaAngles0,
    DeltaAngles2,
    TorsoTimer,
    EventParms0,
    EventParms1,
    ClientNum,
    Weapon,
    ViewAngles2,
    GrapplePoint0,
    GrapplePoint1,
    GrapplePoint2,
    JumppadEntity,
    LoopSound,
}

/// The place of a field in that order.
pub open spec fn ent_place(f: EntField) -> int {
    match f {
        EntField::PosTime => 0,
        EntField::PosBase0 => 1,
        EntField::PosBase1 => 2,
        EntField::PosDelta0 => 3,
        EntField::PosDelta1 => 4,
        EntField::PosBase2 => 5,
        EntField::AposBase1 => 6,
        EntField::PosDelta2 => 7,
        EntField::AposBase0 => 8,
        EntField::Event => 9,
        EntField::AngA1 => 10,
        EntField::EType => 11,
        EntField::TorsoAnim => 12,
        EntField::EventParm => 13,
        EntField::LegsAnim => 14,
        EntField::GroundEntity => 15,
        EntField::PosType => 16,
        EntField::EFlags => 17,
        EntField::OtherEntity => 18,
        EntField::Weapon => 19,
        EntField::ClientNum => 20,
        EntField::Angles1 => 21,
        EntField::PosDuration => 22,
        EntField::AposType => 23,
        EntField::Origin0 => 24,
        EntField::Origin1 => 25,
        EntField::Origin2 => 26,
        EntField::Solid => 27,
        EntField::Powerups => 28,
        EntField::ModelIndex => 29,
        EntField::OtherEntity2 => 30,
        EntField::LoopSound => 31,
        EntField::Generic1 => 32,
        EntField::OriginB2 => 33,
        EntField::OriginB0 => 34,
        EntField::OriginB1 => 35,
        EntField::ModelIndex2 => 36,
        EntField::Angles0 => 37,
        EntField::Time => 38,
        EntField::AposTime => 39,
        EntField::AposDuration => 40,
        EntField::AposBase2 => 41,
        EntField::AposDelta0 => 42,
        EntField::AposDelta1 => 43,
        EntField::AposDelta2 => 44,
        EntField::Time2 => 45,
        EntField::Angles2 => 46,
        EntField::AngA0 => 47,
        EntField::AngA2 => 48,
        EntField::ConstantLight => 49,
        EntField::Frame => 50,
    }
}

/// The field at a place.
pub open spec fn ent_field(i: int) -> EntField {
    match i as u8 {
        0 => EntField::PosTime,
        1 => EntField::PosBase0,
        2 => EntField::PosBase1,
        3 => EntField::PosDelta0,
        4 => EntField::PosDelta1,
        5 => EntField::PosBase2,
        6 => EntField::AposBase1,
        7 => EntField::PosDelta2,
        8 => EntField::AposBase0,
        9 => EntField::Event,
        10 => EntField::AngA1,
        11 => EntField::EType,
        12 => EntField::TorsoAnim,
        13 => EntField::EventParm,
        14 => EntField::LegsAnim,
        15 => EntField::GroundEntity,
        16 => EntField::PosType,
        17 => EntField::EFlags,
        18 => EntField::OtherEntity,
        19 => EntField::Weapon,
        20 => EntField::ClientNum,
        21 => EntField::Angles1,
        22 => EntField::PosDuration,
        23 => EntField::AposType,
        24 => EntField::Origin0,
        25 => EntField::Origin1,
        26 => EntField::Origin2,
        27 => EntField::Solid,
        28 => EntField::Powerups,
        29 => EntField::ModelIndex,
        30 => EntField::OtherEntity2,
        31 => EntField::LoopSound,
        32 => EntField::Generic1,
        33 => EntField::OriginB2,
        34 => EntField::OriginB0,
        35 => EntField::OriginB1,
        36 => EntField::ModelIndex2,
        37 => EntField::Angles0,
        38 => EntField::Time,
        39 => EntField::AposTime,
        40 => EntField::AposDuration,
        41 => EntField::AposBase2,
        42 => EntField::AposDelta0,
        43 => EntField::AposDelta1,
        44 => EntField::AposDelta2,
        45 => EntField::Time2,
        46 => EntField::Angles2,
        47 => EntField::AngA0,
        48 => EntField::AngA2,
        49 => EntField::ConstantLight,
        _ => EntField::Frame,
    }
}

proof fn lemma_ent_field(i: int)
    requires
        0 <= i < ENT_FIELDS,
    ensures
        ent_place(ent_field(i)) == i,
{
}

/// How many bits a field has; none where it is a fraction.
pub open spec fn ent_bits(f: EntField) -> int {
    match f {
        EntField::PosTime | EntField::PosDuration | EntField::Time | EntField::AposTime
        | EntField::AposDuration | EntField::Time2 | EntField::ConstantLight => 32,
        EntField::Solid => 24,
        EntField::EFlags => 19,
        EntField::Powerups | EntField::Frame => 16,
        EntField::Event | EntField::GroundEntity | EntField::OtherEntity
        | EntField::OtherEntity2 => 10,
        EntField::EType | EntField::TorsoAnim | EntField::EventParm | EntField::LegsAnim
        | EntField::PosType | EntField::Weapon | EntField::ClientNum | EntField::AposType
        | EntField::ModelIndex | EntField::LoopSound | EntField::Generic1
        | EntField::ModelIndex2 => 8,
        _ => 0,
    }
}

/// The reader takes each field with as many bits as it is sent in.
pub proof fn law_ent_widths(f: EntField)
    ensures
        0 <= ent_place(f) < ENT_FIELDS,
        ent_width(ent_place(f)) == ent_bits(f),
{
}

/// The place of a field in that order.
pub open spec fn ps_place(f: PsField) -> int {
    match f {
        PsField::CommandTime => 0,
        PsField::Origin0 => 1,
        PsField::Origin1 => 2,
        PsField::BobCycle => 3,
        PsField::Velocity0 => 4,
        PsField::Velocity1 => 5,
        PsField::ViewAngles1 => 6,
        PsField::ViewAngles0 => 7,
        PsField::WeaponTime => 8,
        PsField::Origin2 => 9,
        PsField::Velocity2 => 10,
        PsField::LegsTimer => 11,
        PsField::PmTime => 12,
        PsField::EventSequence => 13,
        PsField::TorsoAnim => 14,
        PsField::MovementDir => 15,
        PsField::Events0 => 16,
        PsField::LegsAnim => 17,
        PsField::Events1 => 18,
        PsField::PmFlags => 19,
        PsField::GroundEntity => 20,
        PsField::WeaponState => 21,
        PsField::EFlags => 22,
        PsField::ExternalEvent => 23,
        PsField::Gravity => 24,
        PsField::Speed => 25,
        PsField::DeltaAngles1 => 26,
        PsField::ExternalEventParm => 27,
        PsField::ViewHeight => 28,
        PsField::DamageEvent => 29,
        PsField::DamageYaw => 30,
        PsField::DamagePitch => 31,
        PsField::DamageCount => 32,
        PsField::Generic1 => 33,
        PsField::PmType => 34,
        PsField::DeltaAngles0 => 35,
        PsField::DeltaAngles2 => 36,
        PsField::TorsoTimer => 37,
        PsField::EventParms0 => 38,
        PsField::EventParms1 => 39,
        PsField::ClientNum => 40,
        PsField::Weapon => 41,
        PsField::ViewAngles2 => 42,
        PsField::GrapplePoint0 => 43,
        PsField::GrapplePoint1 => 44,
        PsField::GrapplePoint2 => 45,
        PsField::JumppadEntity => 46,
        PsField::LoopSound => 47,
    }
}

/// The field at a place.
pub open spec fn ps_field(i: int) -> PsField {
    match i as u8 {
        0 => PsField::CommandTime,
        1 => PsField::Origin0,
        2 => PsField::Origin1,
        3 => PsField::BobCycle,
        4 => PsField::Velocity0,
        5 => PsField::Velocity1,
        6 => PsField::ViewAngles1,
        7 => PsField::ViewAngles0,
        8 => PsField::WeaponTime,
        9 => PsField::Origin2,
        10 => PsField::Velocity2,
        11 => PsField::LegsTimer,
        12 => PsField::PmTime,
        13 => PsField::EventSequence,
        14 => PsField::TorsoAnim,
        15 => PsField::MovementDir,
        16 => PsField::Events0,
        17 => PsField::LegsAnim,
        18 => PsField::Events1,
        19 => PsField::PmFlags,
        20 => PsField::GroundEntity,
        21 => PsField::WeaponState,
        22 => PsField::EFlags,
        23 => PsField::ExternalEvent,
        24 => PsField::Gravity,
        25 => PsField::Speed,
        26 => PsField::DeltaAngles1,
        27 => PsField::ExternalEventParm,
        28 => PsField::ViewHeight,
        29 => PsField::DamageEvent,
        30 => PsField::DamageYaw,
        31 => PsField::DamagePitch,
        32 => PsField::DamageCount,
        33 => PsField::Generic1,
        34 => PsField::PmType,
        35 => PsField::DeltaAngles0,
        36 => PsField::DeltaAngles2,
        37 => PsField::TorsoTimer,
        38 => PsField::EventParms0,
        39 => PsField::EventParms1,
        40 => PsField::ClientNum,
        41 => PsField::Weapon,
        42 => PsField::ViewAngles2,
        43 => PsField::GrapplePoint0,
        44 => PsField::GrapplePoint1,
        45 => PsField::GrapplePoint2,
        46 => PsField::JumppadEntity,
        _ => PsField::LoopSound,
    }
}

proof fn lemma_ps_field(i: int)
    requires
        0 <= i < PS_FIELDS,
    ensures
        ps_place(ps_field(i)) == i,
{
}

/// How many bits a field has; none where it is a fraction, and negative where it is signed.
pub open spec fn ps_bits(f: PsField) -> int {
    match f {
        PsField::CommandTime => 32,
        PsField::EventSequence | PsField::PmFlags | PsField::EFlags | PsField::Gravity
        | PsField::Speed | PsField::DeltaAngles1 | PsField::DeltaAngles0 | PsField::DeltaAngles2
        | PsField::LoopSound => 16,
        PsField::TorsoTimer => 12,
        PsField::GroundEntity | PsField::ExternalEvent | PsField::JumppadEntity => 10,
        PsField::BobCycle | PsField::LegsTimer | PsField::TorsoAnim | PsField::Events0
        | PsField::LegsAnim | PsField::Events1 | PsField::ExternalEventParm
        | PsField::DamageEvent | PsField::DamageYaw | PsField::DamagePitch
        | PsField::DamageCount | PsField::Generic1 | PsField::PmType | PsField::EventParms0
        | PsField::EventParms1 | PsField::ClientNum => 8,
        PsField::Weapon => 5,
        PsField::MovementDir | PsField::WeaponState => 4,
        PsField::ViewHeight => -8,
        PsField::WeaponTime | PsField::PmTime => -16,
        _ => 0,
    }
}

/// The reader takes each field with as many bits as it is sent in.
pub proof fn law_ps_widths(f: PsField)
    ensures
        0 <= ps_place(f) < PS_FIELDS,
        ps_width(ps_place(f)) == ps_bits(f),
{
}

/// How a field is sent: not at all, as zero, with all of its bits or, for a fraction that
/// is a small whole number, as that number.
pub enum Sent {
    Same,
    Zero,
    Bits(u32),
    Whole(int),
}

pub open spec fn sent_fits(width: int, x: Sent) -> bool {
    match x {
        Sent::Bits(v) => width == 0 || (0 < width <= 32 && v < pow2(width as nat)),
        Sent::Whole(t) => width == 0 && -4096 <= t < 4096,
        _ => true,
    }
}

pub open spec fn sent_value(before: u32, x: Sent) -> u32 {
    match x {
        Sent::Same => before,
        Sent::Zero => 0,
        Sent::Bits(v) => v,
        Sent::Whole(t) => ratio_bits(t, 0),
    }
}

/// A fraction: as a small whole number, moved up to be positive, or with all bits.
#[verifier::opaque]
pub open spec fn fraction_bits(book: spec_fn(int) -> Seq<bool>, x: Sent) -> Seq<bool> {
    match x {
        Sent::Whole(t) => flag(false) + number_bits(book, t + 4096, 13),
        Sent::Bits(v) => flag(true) + number_bits(book, v as int, 32),
        _ => Seq::empty(),
    }
}

#[verifier::rlimit(50)]
proof fn lemma_fraction(book: spec_fn(int) -> Seq<bool>, x: Sent, w: Wire, rest: Seq<bool>)
    requires
        book_of(w.code, book),
        x is Whole || x is Bits,
        sent_fits(0, x),
        w.holds(fraction_bits(book, x) + rest),
    ensures
        fraction_at(w) == (sent_value(0, x), w.past(fraction_bits(book, x))),
        w.past(fraction_bits(book, x)).holds(rest),
{
    reveal(fraction_bits);
    lemma2_to64();
    lemma_pow2_adds(8, 5);
    let all = fraction_bits(book, x);
    match x {
        Sent::Whole(t) => {
            let b = number_bits(book, t + 4096, 13);
            assert(all + rest =~= flag(false) + (b + rest));
            w.lemma_flag(false, b + rest);
            w.past(flag(false)).law_number_reads(book, t + 4096, 13, rest);
            assert(w.past(flag(false)).past(b) == w.past(all));
        },
        Sent::Bits(v) => {
            let b = number_bits(book, v as int, 32);
            assert(all + rest =~= flag(true) + (b + rest));
            w.lemma_flag(true, b + rest);
            w.past(flag(true)).law_number_reads(book, v as int, 32, rest);
            assert(w.past(flag(true)).past(b) == w.past(all));
        },
        _ => {},
    }
}

/// A field of an entity: whether it is sent, whether it is not zero, and its value.
#[verifier::opaque]
pub open spec fn field_bits(book: spec_fn(int) -> Seq<bool>, width: int, x: Sent) -> Seq<bool> {
    match x {
        Sent::Same => flag(false),
        Sent::Zero => flag(true) + flag(false),
        Sent::Bits(v) if width != 0 => flag(true) + (flag(true) + number_bits(
            book,
            v as int,
            width as nat,
        )),
        _ => flag(true) + (flag(true) + fraction_bits(book, x)),
    }
}

#[verifier::rlimit(50)]
proof fn lemma_field(book: spec_fn(int) -> Seq<bool>, f: EntField, x: Sent, w: Wire, rest: Seq<bool>)
    requires
        book_of(w.code, book),
        sent_fits(ent_bits(f), x),
        w.holds(field_bits(book, ent_bits(f), x) + rest),
    ensures
        w.set() == !(x is Same),
        x is Same ==> w.after(1) == w.past(field_bits(book, ent_bits(f), x)),
        !(x is Same) ==> entity_value(w.after(1), ent_place(f)) == (
            sent_value(0, x),
            w.past(field_bits(book, ent_bits(f), x)),
        ),
        w.past(field_bits(book, ent_bits(f), x)).holds(rest),
{
    reveal(field_bits);
    law_ent_widths(f);
    let n = ent_bits(f);
    let all = field_bits(book, n, x);
    match x {
        Sent::Same => w.lemma_flag(false, rest),
        Sent::Zero => {
            assert(all + rest =~= flag(true) + (flag(false) + rest));
            w.lemma_flag(true, flag(false) + rest);
            w.past(flag(true)).lemma_flag(false, rest);
            assert(w.past(flag(true)).past(flag(false)) == w.past(all));
        },
        _ => {
            let b = if n != 0 {
                number_bits(book, x->Bits_0 as int, n as nat)
            } else {
                fraction_bits(book, x)
            };
            assert(all + rest =~= flag(true) + (flag(true) + (b + rest)));
            w.lemma_flag(true, flag(true) + (b + rest));
            let w1 = w.past(flag(true));
            w1.lemma_flag(true, b + rest);
            let w2 = w1.past(flag(true));
            if n != 0 {
                w2.law_number_reads(book, x->Bits_0 as int, n as nat, rest);
            } else {
                lemma_fraction(book, x, w2, rest);
            }
            assert(w2.past(b) == w.past(all));
        },
    }
}

/// The fields of an entity from place `i` up to `n`.
pub open spec fn fields_bits(
    book: spec_fn(int) -> Seq<bool>,
    x: spec_fn(EntField) -> Sent,
    i: int,
    n: int,
) -> Seq<bool>
    decreases n - i,
{
    if i >= n {
        Seq::empty()
    } else {
        field_bits(book, ent_bits(ent_field(i)), x(ent_field(i))) + fields_bits(book, x, i + 1, n)
    }
}

/// An entity after a delta of which the first `n` fields are sent.
pub open spec fn changed(e: Seq<u32>, x: spec_fn(EntField) -> Sent, i: int, n: int) -> Seq<u32> {
    Seq::new(
        e.len(),
        |j: int|
            if i <= j < n {
                sent_value(e[j], x(ent_field(j)))
            } else {
                e[j]
            },
    )
}

pub open spec fn delta_fits(x: spec_fn(EntField) -> Sent) -> bool {
    forall|f: EntField| sent_fits(ent_bits(f), #[trigger] x(f))
}

proof fn lemma_fields(
    book: spec_fn(int) -> Seq<bool>,
    x: spec_fn(EntField) -> Sent,
    e: Seq<u32>,
    i: int,
    n: int,
    w: Wire,
    rest: Seq<bool>,
)
    requires
        book_of(w.code, book),
        delta_fits(x),
        e.len() == ENT_FIELDS,
        0 <= i <= n <= ENT_FIELDS,
        w.holds(fields_bits(book, x, i, n) + rest),
    ensures
        entity_fields(w, e, i, n) == (changed(e, x, i, n), w.past(fields_bits(book, x, i, n))),
        w.past(fields_bits(book, x, i, n)).holds(rest),
    decreases n - i,
{
    let all = fields_bits(book, x, i, n);
    w.lemma_holds(all, rest);
    if i >= n {
        assert(changed(e, x, i, n) =~= e);
        assert(w.past(all) == w);
    } else {
        let f = ent_field(i);
        lemma_ent_field(i);
        let (a, b) = (field_bits(book, ent_bits(f), x(f)), fields_bits(book, x, i + 1, n));
        assert(all + rest =~= a + (b + rest));
        lemma_field(book, f, x(f), w, b + rest);
        let e1 = if x(f) is Same {
            e
        } else {
            e.update(i, sent_value(0, x(f)))
        };
        lemma_fields(book, x, e1, i + 1, n, w.past(a), rest);
        assert(changed(e1, x, i + 1, n) =~= changed(e, x, i, n));
        assert(w.past(a).past(b) == w.past(all));
    }
}

/// What a snapshot says of an entity: that it is gone, that it stays as it is, or the
/// first `n` of its fields.
pub enum Delta {
    Gone,
    Stays,
    Fields(int, spec_fn(EntField) -> Sent),
}

#[verifier::opaque]
pub open spec fn delta_bits(book: spec_fn(int) -> Seq<bool>, x: Delta) -> Seq<bool> {
    match x {
        Delta::Gone => flag(true),
        Delta::Stays => flag(false) + flag(false),
        Delta::Fields(n, f) => flag(false) + (flag(true) + (number_bits(book, n, 8) + fields_bits(
            book,
            f,
            0,
            n,
        ))),
    }
}

pub open spec fn entity_fits(x: Delta) -> bool {
    x matches Delta::Fields(n, f) ==> 0 <= n <= ENT_FIELDS && delta_fits(f)
}

/// An entity after a delta; none where it is gone.
pub open spec fn after_delta(e: Seq<u32>, x: Delta) -> Option<Seq<u32>> {
    match x {
        Delta::Gone => None,
        Delta::Stays => Some(e),
        Delta::Fields(n, f) => Some(changed(e, f, 0, n)),
    }
}

/// A delta of an entity that was written is read back.
#[verifier::rlimit(50)]
pub proof fn law_delta_round_trip(
    book: spec_fn(int) -> Seq<bool>,
    x: Delta,
    e: Seq<u32>,
    w: Wire,
    rest: Seq<bool>,
)
    requires
        book_of(w.code, book),
        entity_fits(x),
        e.len() == ENT_FIELDS,
        w.holds(delta_bits(book, x) + rest),
    ensures
        entity_delta(w, e) == (after_delta(e, x), w.past(delta_bits(book, x))),
        w.past(delta_bits(book, x)).holds(rest),
{
    reveal(delta_bits);
    lemma2_to64();
    let all = delta_bits(book, x);
    match x {
        Delta::Gone => w.lemma_flag(true, rest),
        Delta::Stays => {
            assert(all + rest =~= flag(false) + (flag(false) + rest));
            w.lemma_flag(false, flag(false) + rest);
            w.past(flag(false)).lemma_flag(false, rest);
            assert(w.past(flag(false)).past(flag(false)) == w.past(all));
        },
        Delta::Fields(n, f) => {
            let (a, b) = (number_bits(book, n, 8), fields_bits(book, f, 0, n));
            assert(all + rest =~= flag(false) + (flag(true) + (a + (b + rest))));
            w.lemma_flag(false, flag(true) + (a + (b + rest)));
            let w1 = w.past(flag(false));
            w1.lemma_flag(true, a + (b + rest));
            let w2 = w1.past(flag(true));
            w2.law_number_reads(book, n, 8, b + rest);
            let w3 = w2.past(a);
            w3.lemma_holds(b, rest);
            assert(!w2.after(8).over);
            assert(w2.byte() == n);
            lemma_fields(book, f, e, 0, n, w3, rest);
            assert(w3.past(b) == w.past(all));
        },
    }
}

/// The points of a track.
pub open spec fn points(t: Tracks, k: u32) -> Seq<Point> {
    list_of(t.tracks, k)
}

/// A player that is seen at a finite place adds that place to its track: the field
/// `pos.trBase[0]` is its x, `pos.trBase[1]` its y and `pos.trBase[2]` its z. Of its
/// view, `apos.trBase[1]` is the yaw and `apos.trBase[0]` the pitch. No other track
/// changes.
pub proof fn law_player_is_seen(t: Tracks, k: int, tick: i32, e: Seq<u32>)
    requires
        0 <= k < 64,
        e.len() == ENT_FIELDS,
        e[ent_place(EntField::EType)] == 1,
        finite(e[ent_place(EntField::PosBase0)]),
        finite(e[ent_place(EntField::PosBase1)]),
        finite(e[ent_place(EntField::PosBase2)]),
    ensures
        points(sighted(t, k, tick, e), k as u32) == points(t, k as u32).push(
            (
                tick,
                e[ent_place(EntField::PosBase0)],
                e[ent_place(EntField::PosBase1)],
                e[ent_place(EntField::PosBase2)],
            ),
        ),
        list_of(sighted(t, k, tick, e).yaws, k as u32) == list_of(t.yaws, k as u32).push(
            (tick, e[ent_place(EntField::AposBase1)], e[ent_place(EntField::AposBase0)]),
        ),
        forall|j: u32|
            j != k ==> #[trigger] points(sighted(t, k, tick, e), j) == points(t, j) && list_of(
                sighted(t, k, tick, e).yaws,
                j,
            ) == list_of(t.yaws, j),
{
}

/// Of a player that is seen, the lowest of `eFlags` says whether it is dead.
pub proof fn law_player_life(t: Tracks, k: int, tick: i32, e: Seq<u32>)
    requires
        0 <= k < 64,
        e.len() == ENT_FIELDS,
        e[ent_place(EntField::EType)] == 1,
    ensures
        list_of(sighted(t, k, tick, e).life_states, k as u32).len() > 0,
        list_of(sighted(t, k, tick, e).life_states, k as u32).last().1 == e[ent_place(
            EntField::EFlags,
        )] % 2,
        forall|j: u32|
            j != k ==> #[trigger] list_of(sighted(t, k, tick, e).life_states, j) == list_of(
                t.life_states,
                j,
            ),
{
    lemma2_to64();
    let v = e[ent_place(EntField::EFlags)];
    assert(v as int / 1 == v as int);
    assert(has_flag(v as int, 0) == (v % 2 == 1));
}

/// What is no player, or stands nowhere finite, adds no place.
pub proof fn law_others_are_not_seen(t: Tracks, k: int, tick: i32, e: Seq<u32>)
    requires
        0 <= k,
        e.len() == ENT_FIELDS,
        k >= 64 || e[ent_place(EntField::EType)] != 1 || !finite(e[ent_place(EntField::PosBase0)])
            || !finite(e[ent_place(EntField::PosBase1)]) || !finite(e[ent_place(EntField::PosBase2)]),
    ensures
        sighted(t, k, tick, e).tracks == t.tracks,
        sighted(t, k, tick, e).yaws == t.yaws,
{
}

/// A delta of a player that writes a finite place adds it to the player's track: what is
/// written as `pos.trBase[0]`, `pos.trBase[1]` and `pos.trBase[2]` are its x, y and z.
pub proof fn law_written_place_is_tracked(
    book: spec_fn(int) -> Seq<bool>,
    n: int,
    f: spec_fn(EntField) -> Sent,
    k: int,
    tick: i32,
    st: Game,
    w: Wire,
    rest: Seq<bool>,
    x: u32,
    y: u32,
    z: u32,
)
    requires
        book_of(w.code, book),
        0 <= k < 64,
        entity_fits(Delta::Fields(n, f)),
        state_of(st.ents, st.baselines, k as u16).len() == ENT_FIELDS,
        ent_place(EntField::EType) < n,
        f(EntField::EType) == Sent::Bits(1),
        f(EntField::PosBase0) == Sent::Bits(x),
        f(EntField::PosBase1) == Sent::Bits(y),
        f(EntField::PosBase2) == Sent::Bits(z),
        finite(x),
        finite(y),
        finite(z),
        w.holds(delta_bits(book, Delta::Fields(n, f)) + rest),
    ensures
        points(entity_at(w, k, tick, st).1.tb, k as u32) == points(st.tb, k as u32).push(
            (tick, x, y, z),
        ),
{
    let e = state_of(st.ents, st.baselines, k as u16);
    law_delta_round_trip(book, Delta::Fields(n, f), e, w, rest);
    let to = changed(e, f, 0, n);
    assert(to[1] == x && to[2] == y && to[5] == z && to[11] == 1);
    law_player_is_seen(st.tb, k, tick, to);
}

/// The entities of a snapshot, each with its number, and what ends them.
pub open spec fn entities_bits(book: spec_fn(int) -> Seq<bool>, xs: Seq<(int, Delta)>) -> Seq<bool>
    decreases xs.len(),
{
    if xs.len() == 0 {
        number_bits(book, 1023, 10)
    } else {
        number_bits(book, xs[0].0, 10) + (delta_bits(book, xs[0].1) + entities_bits(
            book,
            xs.drop_first(),
        ))
    }
}

pub open spec fn entities_fit(xs: Seq<(int, Delta)>) -> bool {
    forall|i: int| 0 <= i < xs.len() ==> 0 <= (#[trigger] xs[i]).0 < 1023 && entity_fits(xs[i].1)
}

/// Every state that is known has all fields.
pub open spec fn full(st: Game) -> bool {
    &&& forall|k: u16| #[trigger] st.ents.contains_key(k) ==> st.ents[k].len() == ENT_FIELDS
    &&& forall|k: u16| #[trigger]
        st.baselines.contains_key(k) ==> st.baselines[k].len() == ENT_FIELDS
}

/// The game after the entities of a snapshot: each is what its delta makes of it, and a
/// player is seen.
pub open spec fn after_entities(st: Game, tick: i32, xs: Seq<(int, Delta)>) -> Game
    decreases xs.len(),
{
    if xs.len() == 0 {
        st
    } else {
        let k = xs[0].0 as u16;
        let s = match after_delta(state_of(st.ents, st.baselines, k), xs[0].1) {
            None => Game { ents: st.ents.remove(k), ..st },
            Some(e) => Game {
                ents: st.ents.insert(k, e),
                tb: sighted(st.tb, xs[0].0, tick, e),
                ..st
            },
        };
        after_entities(s, tick, xs.drop_first())
    }
}

/// The entities of a snapshot that were written are read back.
#[verifier::rlimit(50)]
pub proof fn law_entities_round_trip(
    book: spec_fn(int) -> Seq<bool>,
    xs: Seq<(int, Delta)>,
    tick: i32,
    st: Game,
    w: Wire,
    rest: Seq<bool>,
)
    requires
        book_of(w.code, book),
        entities_fit(xs),
        full(st),
        w.holds(entities_bits(book, xs) + rest),
    ensures
        entities_from(w, tick, st) == (
            w.past(entities_bits(book, xs)),
            after_entities(st, tick, xs),
        ),
        w.past(entities_bits(book, xs)).holds(rest),
    decreases xs.len(),
{
    lemma2_to64();
    lemma_pow2_adds(8, 2);
    let all = entities_bits(book, xs);
    w.lemma_holds(all, rest);
    if xs.len() == 0 {
        w.law_number_reads(book, 1023, 10, rest);
    } else {
        let (k, x) = xs[0];
        let (a, b) = (number_bits(book, k, 10), delta_bits(book, x));
        let c = entities_bits(book, xs.drop_first());
        assert(all + rest =~= a + (b + (c + rest)));
        w.law_number_reads(book, k, 10, b + (c + rest));
        w.lemma_holds(a, b + (c + rest));
        let e = state_of(st.ents, st.baselines, k as u16);
        law_delta_round_trip(book, x, e, w.past(a), c + rest);
        let w2 = w.past(a).past(b);
        w2.lemma_holds(c, rest);
        let s = entity_at(w.past(a), k, tick, st).1;
        assert(full(s));
        assert forall|i: int| 0 <= i < xs.drop_first().len() implies 0 <= (
        #[trigger] xs.drop_first()[i]).0 < 1023 && entity_fits(xs.drop_first()[i].1) by {
            assert(xs.drop_first()[i] == xs[i + 1]);
        }
        law_entities_round_trip(book, xs.drop_first(), tick, s, w2, rest);
        assert(w2.past(c) == w.past(all));
        lemma_number_long(book, k, 10);
    }
}

/// A number that has bits beyond whole bytes is not written as nothing.
proof fn lemma_number_long(book: spec_fn(int) -> Seq<bool>, v: int, n: nat)
    requires
        n % 8 > 0,
    ensures
        number_bits(book, v, n).len() > 0,
{
    reveal(number_bits);
    lemma_bits_len(v % pow2(n % 8) as int, n % 8);
}

/// How many bits a number of the recorder's state has.
pub open spec fn ps_size(width: int) -> int {
    if width < 0 {
        -width
    } else {
        width
    }
}

/// A value of the recorder's state that can be sent: one that is signed is the number
/// itself in two's complement.
pub open spec fn state_fits(width: int, x: Sent) -> bool {
    match x {
        Sent::Bits(v) if width < 0 => (width == -8 && (v < 128 || v >= 0xffff_ff80)) || (width == -16
            && (v < 0x8000 || v >= 0xffff_8000)),
        Sent::Zero => false,
        _ => sent_fits(width, x),
    }
}

/// A field of the recorder's state: whether it is sent, and its value.
#[verifier::opaque]
pub open spec fn state_bits(book: spec_fn(int) -> Seq<bool>, width: int, x: Sent) -> Seq<bool> {
    match x {
        Sent::Same => flag(false),
        Sent::Bits(v) if width != 0 => flag(true) + number_bits(
            book,
            v as int % pow2(ps_size(width) as nat) as int,
            ps_size(width) as nat,
        ),
        _ => flag(true) + fraction_bits(book, x),
    }
}

#[verifier::rlimit(50)]
proof fn lemma_state(book: spec_fn(int) -> Seq<bool>, f: PsField, x: Sent, w: Wire, rest: Seq<bool>)
    requires
        book_of(w.code, book),
        state_fits(ps_bits(f), x),
        w.holds(state_bits(book, ps_bits(f), x) + rest),
    ensures
        w.set() == !(x is Same),
        x is Same ==> w.after(1) == w.past(state_bits(book, ps_bits(f), x)),
        !(x is Same) ==> player_value(w.after(1), ps_place(f)) == (
            sent_value(0, x),
            w.past(state_bits(book, ps_bits(f), x)),
        ),
        w.past(state_bits(book, ps_bits(f), x)).holds(rest),
{
    reveal(state_bits);
    lemma2_to64();
    law_ps_widths(f);
    let n = ps_bits(f);
    let all = state_bits(book, n, x);
    match x {
        Sent::Same => w.lemma_flag(false, rest),
        _ => {
            let m = ps_size(n) as nat;
            lemma_pow2_pos(m);
            let v = x->Bits_0 as int % pow2(m) as int;
            let b = if n != 0 {
                number_bits(book, v, m)
            } else {
                fraction_bits(book, x)
            };
            assert(all + rest =~= flag(true) + (b + rest));
            w.lemma_flag(true, b + rest);
            let w1 = w.past(flag(true));
            if n == 0 {
                lemma_fraction(book, x, w1, rest);
            } else {
                lemma_mod_bound(x->Bits_0 as int, pow2(m) as int);
                w1.law_number_reads(book, v, m, rest);
                if n < 0 {
                    lemma_spread(x->Bits_0, n);
                } else {
                    vstd::arithmetic::div_mod::lemma_small_mod(x->Bits_0 as nat, pow2(m));
                }
            }
            assert(w1.past(b) == w.past(all));
        },
    }
}

/// The sign of a number is spread again.
#[verifier::rlimit(50)]
proof fn lemma_spread(v: u32, n: int)
    requires
        n < 0,
        state_fits(n, Sent::Bits(v)),
    ensures
        spread((v as int % pow2(ps_size(n) as nat) as int) as u32, -n) == v,
{
    lemma2_to64();
    let k = (v as int % pow2(ps_size(n) as nat) as int) as u32;
    if n == -8 {
        assert(k == v % 256);
        assert(has_flag(k as int, 7) == (k >= 128)) by {
            assert(k as int / 128 == if k >= 128 {
                1int
            } else {
                0
            });
        }
    } else {
        assert(k == v % 0x1_0000);
        lemma_pow2_adds(8, 7);
        assert(has_flag(k as int, 15) == (k >= 0x8000)) by {
            assert(k as int / 0x8000 == if k >= 0x8000 {
                1int
            } else {
                0
            });
        }
    }
}

pub open spec fn states_bits(
    book: spec_fn(int) -> Seq<bool>,
    x: spec_fn(PsField) -> Sent,
    i: int,
    n: int,
) -> Seq<bool>
    decreases n - i,
{
    if i >= n {
        Seq::empty()
    } else {
        state_bits(book, ps_bits(ps_field(i)), x(ps_field(i))) + states_bits(book, x, i + 1, n)
    }
}

/// The recorder's state after a delta of which the first `n` fields are sent.
pub open spec fn restated(p: Seq<u32>, x: spec_fn(PsField) -> Sent, i: int, n: int) -> Seq<u32> {
    Seq::new(
        p.len(),
        |j: int|
            if i <= j < n {
                sent_value(p[j], x(ps_field(j)))
            } else {
                p[j]
            },
    )
}

pub open spec fn states_fit(x: spec_fn(PsField) -> Sent) -> bool {
    forall|f: PsField| state_fits(ps_bits(f), #[trigger] x(f))
}

proof fn lemma_states(
    book: spec_fn(int) -> Seq<bool>,
    x: spec_fn(PsField) -> Sent,
    p: Seq<u32>,
    i: int,
    n: int,
    w: Wire,
    rest: Seq<bool>,
)
    requires
        book_of(w.code, book),
        states_fit(x),
        p.len() == PS_FIELDS,
        0 <= i <= n <= PS_FIELDS,
        w.holds(states_bits(book, x, i, n) + rest),
    ensures
        player_fields(w, p, i, n) == (restated(p, x, i, n), w.past(states_bits(book, x, i, n))),
        w.past(states_bits(book, x, i, n)).holds(rest),
    decreases n - i,
{
    let all = states_bits(book, x, i, n);
    w.lemma_holds(all, rest);
    if i >= n {
        assert(restated(p, x, i, n) =~= p);
        assert(w.past(all) == w);
    } else {
        let f = ps_field(i);
        lemma_ps_field(i);
        let (a, b) = (state_bits(book, ps_bits(f), x(f)), states_bits(book, x, i + 1, n));
        assert(all + rest =~= a + (b + rest));
        lemma_state(book, f, x(f), w, b + rest);
        let p1 = if x(f) is Same {
            p
        } else {
            p.update(i, sent_value(0, x(f)))
        };
        lemma_states(book, x, p1, i + 1, n, w.past(a), rest);
        assert(restated(p1, x, i + 1, n) =~= restated(p, x, i, n));
        assert(w.past(a).past(b) == w.past(all));
    }
}

/// A list of the recorder's state: which of its items are sent, and their values.
pub struct Listed {
    pub mask: int,
    pub items: Seq<int>,
}

pub open spec fn items_bits(book: spec_fn(int) -> Seq<bool>, l: Listed, width: nat, i: int) -> Seq<bool>
    decreases 16 - i,
{
    if i >= 16 {
        Seq::empty()
    } else if has_flag(l.mask, i) {
        number_bits(book, l.items[i], width) + items_bits(book, l, width, i + 1)
    } else {
        items_bits(book, l, width, i + 1)
    }
}

#[verifier::opaque]
pub open spec fn listed_bits(book: spec_fn(int) -> Seq<bool>, l: Option<Listed>, width: nat) -> Seq<bool> {
    match l {
        None => flag(false),
        Some(l) => flag(true) + (number_bits(book, l.mask, 16) + items_bits(book, l, width, 0)),
    }
}

pub open spec fn listed_fits(l: Option<Listed>, width: nat) -> bool {
    l matches Some(l) ==> {
        &&& 0 <= l.mask < 0x1_0000
        &&& l.items.len() == 16
        &&& forall|i: int| 0 <= i < 16 ==> 0 <= #[trigger] l.items[i] < pow2(width)
    }
}

proof fn lemma_items(book: spec_fn(int) -> Seq<bool>, l: Listed, width: nat, i: int, w: Wire, rest: Seq<bool>)
    requires
        book_of(w.code, book),
        width <= 32,
        0 <= i <= 16,
        listed_fits(Some(l), width),
        w.holds(items_bits(book, l, width, i) + rest),
    ensures
        items_end(w, l.mask, i, width as int) == w.past(items_bits(book, l, width, i)),
        w.past(items_bits(book, l, width, i)).holds(rest),
    decreases 16 - i,
{
    let all = items_bits(book, l, width, i);
    w.lemma_holds(all, rest);
    if i >= 16 {
        assert(w.past(all) == w);
    } else if has_flag(l.mask, i) {
        let (a, b) = (number_bits(book, l.items[i], width), items_bits(book, l, width, i + 1));
        assert(all + rest =~= a + (b + rest));
        w.law_number_reads(book, l.items[i], width, b + rest);
        lemma_items(book, l, width, i + 1, w.past(a), rest);
        assert(w.past(a).past(b) == w.past(all));
    } else {
        lemma_items(book, l, width, i + 1, w, rest);
    }
}

proof fn lemma_listed(book: spec_fn(int) -> Seq<bool>, l: Option<Listed>, width: nat, w: Wire, rest: Seq<bool>)
    requires
        book_of(w.code, book),
        width <= 32,
        listed_fits(l, width),
        w.holds(listed_bits(book, l, width) + rest),
    ensures
        list_end(w, width as int) == w.past(listed_bits(book, l, width)),
        w.past(listed_bits(book, l, width)).holds(rest),
{
    reveal(listed_bits);
    lemma2_to64();
    let all = listed_bits(book, l, width);
    match l {
        None => w.lemma_flag(false, rest),
        Some(l) => {
            let (a, b) = (number_bits(book, l.mask, 16), items_bits(book, l, width, 0));
            assert(all + rest =~= flag(true) + (a + (b + rest)));
            w.lemma_flag(true, a + (b + rest));
            let w1 = w.past(flag(true));
            w1.law_number_reads(book, l.mask, 16, b + rest);
            lemma_items(book, l, width, 0, w1.past(a), rest);
            assert(w1.past(a).past(b) == w.past(all));
        },
    }
}

/// The recorder's state as it is sent: how many of its fields, the fields and, where
/// there are any, its four lists.
pub struct State {
    pub n: int,
    pub fields: spec_fn(PsField) -> Sent,
    pub lists: Option<(Option<Listed>, Option<Listed>, Option<Listed>, Option<Listed>)>,
}

#[verifier::opaque]
pub open spec fn lists_bits(
    book: spec_fn(int) -> Seq<bool>,
    l: Option<(Option<Listed>, Option<Listed>, Option<Listed>, Option<Listed>)>,
) -> Seq<bool> {
    match l {
        None => flag(false),
        Some((a, b, c, d)) => flag(true) + (listed_bits(book, a, 16) + (listed_bits(book, b, 16) + (
        listed_bits(book, c, 16) + listed_bits(book, d, 32)))),
    }
}

#[verifier::opaque]
pub open spec fn recorder_bits(book: spec_fn(int) -> Seq<bool>, x: State) -> Seq<bool> {
    number_bits(book, x.n, 8) + (states_bits(book, x.fields, 0, x.n) + lists_bits(book, x.lists))
}

pub open spec fn recorder_fits(x: State) -> bool {
    &&& 0 <= x.n <= PS_FIELDS
    &&& states_fit(x.fields)
    &&& x.lists matches Some((a, b, c, d)) ==> listed_fits(a, 16) && listed_fits(b, 16)
        && listed_fits(c, 16) && listed_fits(d, 32)
}

/// Past the lists of the recorder's state.
pub open spec fn lists_end(w: Wire) -> Wire {
    let w1 = w.after(1);
    if w.set() {
        list_end(list_end(list_end(list_end(w1, 16), 16), 16), 32)
    } else {
        w1
    }
}

proof fn lemma_lists(
    book: spec_fn(int) -> Seq<bool>,
    l: Option<(Option<Listed>, Option<Listed>, Option<Listed>, Option<Listed>)>,
    w: Wire,
    rest: Seq<bool>,
)
    requires
        book_of(w.code, book),
        l matches Some((a, b, c, d)) ==> listed_fits(a, 16) && listed_fits(b, 16) && listed_fits(
            c,
            16,
        ) && listed_fits(d, 32),
        w.holds(lists_bits(book, l) + rest),
    ensures
        lists_end(w) == w.past(lists_bits(book, l)),
        w.past(lists_bits(book, l)).holds(rest),
{
    reveal(lists_bits);
    match l {
        None => w.lemma_flag(false, rest),
        Some((l1, l2, l3, l4)) => {
            let (b1, b2) = (listed_bits(book, l1, 16), listed_bits(book, l2, 16));
            let (b3, b4) = (listed_bits(book, l3, 16), listed_bits(book, l4, 32));
            assert(lists_bits(book, l) + rest =~= flag(true) + (b1 + (b2 + (b3 + (b4 + rest)))));
            w.lemma_flag(true, b1 + (b2 + (b3 + (b4 + rest))));
            let w3 = w.past(flag(true));
            lemma_listed(book, l1, 16, w3, b2 + (b3 + (b4 + rest)));
            lemma_listed(book, l2, 16, w3.past(b1), b3 + (b4 + rest));
            lemma_listed(book, l3, 16, w3.past(b1).past(b2), b4 + rest);
            lemma_listed(book, l4, 32, w3.past(b1).past(b2).past(b3), rest);
            assert(w3.past(b1).past(b2).past(b3).past(b4) == w.past(lists_bits(book, l)));
        },
    }
}

/// The recorder's state that was written is read back.
pub proof fn law_recorder_round_trip(
    book: spec_fn(int) -> Seq<bool>,
    x: State,
    p: Seq<u32>,
    w: Wire,
    rest: Seq<bool>,
)
    requires
        book_of(w.code, book),
        recorder_fits(x),
        p.len() == PS_FIELDS,
        w.holds(recorder_bits(book, x) + rest),
    ensures
        player_delta(w, p) == (restated(p, x.fields, 0, x.n), w.past(recorder_bits(book, x))),
        w.past(recorder_bits(book, x)).holds(rest),
{
    reveal(recorder_bits);
    lemma2_to64();
    let all = recorder_bits(book, x);
    let (a, b) = (number_bits(book, x.n, 8), states_bits(book, x.fields, 0, x.n));
    let c = lists_bits(book, x.lists);
    assert(all + rest =~= a + (b + (c + rest)));
    w.law_number_reads(book, x.n, 8, b + (c + rest));
    let w1 = w.past(a);
    lemma_states(book, x.fields, p, 0, x.n, w1, c + rest);
    let w2 = w1.past(b);
    lemma_lists(book, x.lists, w2, rest);
    assert(w2.past(c) == w.past(all));
}

/// The recorder at a finite place adds that place to its track: `origin[0]`, `origin[1]`
/// and `origin[2]` are its x, y and z, `viewangles[1]` is its yaw and `viewangles[0]` its
/// pitch.
pub proof fn law_recorder_is_seen(t: Tracks, k: i32, tick: i32, p: Seq<u32>)
    requires
        0 <= k,
        p.len() == PS_FIELDS,
        finite(p[ps_place(PsField::Origin0)]),
        finite(p[ps_place(PsField::Origin1)]),
        finite(p[ps_place(PsField::Origin2)]),
    ensures
        points(recorded(t, k, tick, p), k as u32) == points(t, k as u32).push(
            (
                tick,
                p[ps_place(PsField::Origin0)],
                p[ps_place(PsField::Origin1)],
                p[ps_place(PsField::Origin2)],
            ),
        ),
        list_of(recorded(t, k, tick, p).yaws, k as u32) == list_of(t.yaws, k as u32).push(
            (tick, p[ps_place(PsField::ViewAngles1)], p[ps_place(PsField::ViewAngles0)]),
        ),
        recorded(t, k, tick, p).view_angles == t.view_angles.push(
            (tick, p[ps_place(PsField::ViewAngles0)], p[ps_place(PsField::ViewAngles1)]),
        ),
        forall|j: u32|
            j != k ==> #[trigger] points(recorded(t, k, tick, p), j) == points(t, j),
{
}

/// The recorder is dead where `pm_type` is that of the dead.
pub proof fn law_recorder_life(t: Tracks, k: i32, tick: i32, p: Seq<u32>)
    requires
        0 <= k,
        p.len() == PS_FIELDS,
    ensures
        list_of(recorded(t, k, tick, p).life_states, k as u32).len() > 0,
        (list_of(recorded(t, k, tick, p).life_states, k as u32).last().1 == 1) == (p[ps_place(
            PsField::PmType,
        )] == 3),
        !finite(p[ps_place(PsField::Origin0)]) || !finite(p[ps_place(PsField::Origin1)]) || !finite(
            p[ps_place(PsField::Origin2)],
        ) ==> recorded(t, k, tick, p).tracks == t.tracks && recorded(t, k, tick, p).view_angles
            == t.view_angles,
{
}

/// The ticks of snapshots: the first is at none, later ones at the milliseconds since,
/// and none before it.
pub proof fn law_ticks(time: int, base: int)
    ensures
        tick_of(base, base) == 0,
        time < base ==> tick_of(time, base) == 0,
        base <= time <= base + i32::MAX ==> tick_of(time, base) == time - base,
        tick_of(time, base) <= i32::MAX,
{
}

/// Bytes, each coded.
pub open spec fn bytes_bits(book: spec_fn(int) -> Seq<bool>, s: Seq<u8>) -> Seq<bool>
    decreases s.len(),
{
    if s.len() == 0 {
        Seq::empty()
    } else {
        number_bits(book, s[0] as int, 8) + bytes_bits(book, s.drop_first())
    }
}

proof fn lemma_bytes(book: spec_fn(int) -> Seq<bool>, s: Seq<u8>, w: Wire, rest: Seq<bool>)
    requires
        book_of(w.code, book),
        w.holds(bytes_bits(book, s) + rest),
    ensures
        w.past_bytes(s.len() as int) == w.past(bytes_bits(book, s)),
        w.past(bytes_bits(book, s)).holds(rest),
    decreases s.len(),
{
    lemma2_to64();
    let all = bytes_bits(book, s);
    w.lemma_holds(all, rest);
    if s.len() == 0 {
        assert(w.past(all) == w);
    } else {
        let (a, b) = (number_bits(book, s[0] as int, 8), bytes_bits(book, s.drop_first()));
        assert(all + rest =~= a + (b + rest));
        w.law_number_reads(book, s[0] as int, 8, b + rest);
        lemma_bytes(book, s.drop_first(), w.past(a), rest);
        assert(w.past(a).past(b) == w.past(all));
    }
}

/// A snapshot: its time, what it is a delta of, its flags, the areas that are seen, the
/// recorder's state and the entities.
pub struct Snapshot {
    pub time: i32,
    pub before: u8,
    pub flags: u8,
    pub areas: Seq<u8>,
    pub state: State,
    pub ents: Seq<(int, Delta)>,
}

/// A number in two's complement.
pub open spec fn unsigned(v: i32) -> int {
    if v < 0 {
        v + 0x1_0000_0000
    } else {
        v as int
    }
}

#[verifier::opaque]
pub open spec fn head_bits(book: spec_fn(int) -> Seq<bool>, x: Snapshot) -> Seq<bool> {
    number_bits(book, unsigned(x.time), 32) + (number_bits(book, x.before as int, 8) + (number_bits(
        book,
        x.flags as int,
        8,
    ) + (number_bits(book, x.areas.len() as int, 8) + bytes_bits(book, x.areas))))
}

#[verifier::rlimit(50)]
proof fn lemma_head(book: spec_fn(int) -> Seq<bool>, x: Snapshot, w: Wire, rest: Seq<bool>)
    requires
        book_of(w.code, book),
        x.areas.len() < 256,
        w.holds(head_bits(book, x) + rest),
    ensures
        snapshot_head(w) == (x.time as int, w.past(head_bits(book, x))),
        w.past(head_bits(book, x)).holds(rest),
{
    reveal(head_bits);
    lemma2_to64();
    let t = unsigned(x.time);
    let (a, b) = (number_bits(book, t, 32), number_bits(book, x.before as int, 8));
    let c = number_bits(book, x.flags as int, 8);
    let (d, e) = (number_bits(book, x.areas.len() as int, 8), bytes_bits(book, x.areas));
    assert(head_bits(book, x) + rest =~= a + (b + (c + (d + (e + rest)))));
    w.law_number_reads(book, t, 32, b + (c + (d + (e + rest))));
    let w1 = w.past(a);
    w1.law_number_reads(book, x.before as int, 8, c + (d + (e + rest)));
    let w2 = w1.past(b);
    w2.law_number_reads(book, x.flags as int, 8, d + (e + rest));
    let w3 = w2.past(c);
    w3.law_number_reads(book, x.areas.len() as int, 8, e + rest);
    let w4 = w3.past(d);
    lemma_bytes(book, x.areas, w4, rest);
    w4.lemma_holds(e, rest);
    assert(!w3.after(8).over);
    assert(w3.byte() == x.areas.len());
    assert(w.long() == x.time);
    assert(w4.past(e) == w.past(head_bits(book, x)));
}

pub open spec fn snapshot_bits(book: spec_fn(int) -> Seq<bool>, x: Snapshot) -> Seq<bool> {
    head_bits(book, x) + (recorder_bits(book, x.state) + entities_bits(book, x.ents))
}

/// The game after a snapshot. The first one starts the ticks.
pub open spec fn after_snapshot(st: Game, x: Snapshot) -> Game {
    let base = match st.base_time {
        Some(b) => b,
        None => x.time,
    };
    let tick = tick_of(x.time as int, base as int) as i32;
    let p = restated(st.player, x.state.fields, 0, x.state.n);
    after_entities(
        Game {
            base_time: Some(base),
            max_tick: if tick > st.max_tick {
                tick as int
            } else {
                st.max_tick
            },
            player: p,
            tb: recorded(st.tb, st.client_num, tick, p),
            ..st
        },
        tick,
        x.ents,
    )
}

/// A snapshot that was written is read back.
#[verifier::rlimit(50)]
pub proof fn law_snapshot_round_trip(
    book: spec_fn(int) -> Seq<bool>,
    x: Snapshot,
    st: Game,
    w: Wire,
    rest: Seq<bool>,
)
    requires
        book_of(w.code, book),
        x.areas.len() < 256,
        recorder_fits(x.state),
        entities_fit(x.ents),
        full(st),
        st.player.len() == PS_FIELDS,
        w.holds(snapshot_bits(book, x) + rest),
    ensures
        snapshot_at(w, st) == (w.past(snapshot_bits(book, x)), after_snapshot(st, x)),
        w.past(snapshot_bits(book, x)).holds(rest),
{
    let (a, b) = (head_bits(book, x), recorder_bits(book, x.state));
    let c = entities_bits(book, x.ents);
    let all = snapshot_bits(book, x);
    assert(all + rest =~= a + (b + (c + rest)));
    lemma_head(book, x, w, b + (c + rest));
    let w1 = w.past(a);
    law_recorder_round_trip(book, x.state, st.player, w1, c + rest);
    let base = match st.base_time {
        Some(b) => b,
        None => x.time,
    };
    let tick = tick_of(x.time as int, base as int) as i32;
    let p = restated(st.player, x.state.fields, 0, x.state.n);
    let s = Game {
        base_time: Some(base),
        max_tick: if tick > st.max_tick {
            tick as int
        } else {
            st.max_tick
        },
        player: p,
        tb: recorded(st.tb, st.client_num, tick, p),
        ..st
    };
    assert(full(s));
    law_entities_round_trip(book, x.ents, tick, s, w1.past(b), rest);
    assert(w1.past(b).past(c) == w.past(all));
}

/// How a byte of a text is shown: what is beyond ASCII, and a percent sign, as a dot.
pub open spec fn shown(b: u8) -> char {
    if b >= 128 || b == 0x25 {
        '.'
    } else {
        b as char
    }
}

/// A text that was written is read back.
#[verifier::rlimit(50)]
pub proof fn law_text_reads(book: spec_fn(int) -> Seq<bool>, s: Seq<u8>, n: int, w: Wire, rest: Seq<bool>)
    requires
        book_of(w.code, book),
        no_zero(s),
        0 <= n,
        n + s.len() < 8192,
        w.holds(bytes_bits(book, s.push(0)) + rest),
    ensures
        w.text(n) == (s.map_values(|b: u8| shown(b)), w.past(bytes_bits(book, s.push(0)))),
        w.past(bytes_bits(book, s.push(0))).holds(rest),
    decreases s.len(),
{
    lemma2_to64();
    let t = s.push(0);
    let all = bytes_bits(book, t);
    let (a, b) = (number_bits(book, t[0] as int, 8), bytes_bits(book, t.drop_first()));
    assert(all + rest =~= a + (b + rest));
    w.lemma_holds(all, rest);
    w.law_number_reads(book, t[0] as int, 8, b + rest);
    let w1 = w.past(a);
    w1.lemma_holds(b, rest);
    assert(!w.after(8).over);
    assert(w.byte() == t[0]);
    assert(w1.past(b) == w.past(all));
    if s.len() == 0 {
        assert(t.drop_first() =~= Seq::empty());
        assert(b =~= Seq::empty());
        assert(s.map_values(|b: u8| shown(b)) =~= Seq::empty());
        assert(w1.past(b) == w1);
    } else {
        let u = s.drop_first();
        assert(t[0] == s[0]);
        assert(s[0] != 0);
        assert(t.drop_first() =~= u.push(0));
        assert forall|i: int| 0 <= i < u.len() implies #[trigger] u[i] != 0 by {
            assert(u[i] == s[i + 1]);
        }
        law_text_reads(book, u, n + 1, w1, rest);
        assert(seq![shown(s[0])] + u.map_values(|b: u8| shown(b)) =~= s.map_values(|b: u8| shown(b)));
    }
}

/// An entry of the state of the game: a string of the configuration, or the state from
/// which an entity starts.
pub enum Config {
    Text(i16, Seq<u8>),
    Base(int, int, spec_fn(EntField) -> Sent),
}

#[verifier::opaque]
pub open spec fn config_bits(book: spec_fn(int) -> Seq<bool>, x: Config) -> Seq<bool> {
    match x {
        Config::Text(k, s) => number_bits(book, 3, 8) + (number_bits(book, k as int, 16) + bytes_bits(
            book,
            s.push(0),
        )),
        Config::Base(k, n, f) => number_bits(book, 4, 8) + (number_bits(book, k, 10) + delta_bits(
            book,
            Delta::Fields(n, f),
        )),
    }
}

pub open spec fn config_fits(x: Config) -> bool {
    match x {
        Config::Text(k, s) => k >= 0 && no_zero(s) && s.len() < 8192,
        Config::Base(k, n, f) => 0 <= k < 1024 && entity_fits(Delta::Fields(n, f)),
    }
}

/// The game after an entry.
pub open spec fn after_config(st: Game, x: Config) -> Game {
    match x {
        Config::Text(k, s) => Game {
            strings: st.strings.insert(k as u32, s.map_values(|b: u8| shown(b))),
            ..st
        },
        Config::Base(k, n, f) => Game {
            baselines: st.baselines.insert(
                k as u16,
                changed(zeros(ENT_FIELDS as int), f, 0, n),
            ),
            ..st
        },
    }
}

/// The entries, and what ends them.
pub open spec fn configs_bits(book: spec_fn(int) -> Seq<bool>, xs: Seq<Config>) -> Seq<bool>
    decreases xs.len(),
{
    if xs.len() == 0 {
        number_bits(book, 8, 8)
    } else {
        config_bits(book, xs[0]) + configs_bits(book, xs.drop_first())
    }
}

pub open spec fn after_configs(st: Game, xs: Seq<Config>) -> Game
    decreases xs.len(),
{
    if xs.len() == 0 {
        st
    } else {
        after_configs(after_config(st, xs[0]), xs.drop_first())
    }
}

/// The codes of bytes are not empty, as the tree has more than one node.
pub open spec fn some_code(c: Code) -> bool {
    c.nodes[c.root as int].kids is Some
}

proof fn lemma_byte_long(book: spec_fn(int) -> Seq<bool>, c: Code, v: int)
    requires
        book_of(c, book),
        some_code(c),
        0 <= v < 256,
    ensures
        number_bits(book, v, 8).len() > 0,
{
    reveal(number_bits);
    lemma2_to64();
    reveal_with_fuel(octets_bits, 2);
    assert(leads(c, c.root, book(v), v));
    assert(v / 1 == v && v % 256 == v);
}

#[verifier::spinoff_prover]
proof fn lemma_config(book: spec_fn(int) -> Seq<bool>, x: Config, st: Game, w: Wire, rest: Seq<bool>)
    requires
        book_of(w.code, book),
        some_code(w.code),
        config_fits(x),
        w.holds(config_bits(book, x) + rest),
    ensures
        w.past(config_bits(book, x)).holds(rest),
        entries_from(w, st) == entries_from(w.past(config_bits(book, x)), after_config(st, x)),
{
    reveal(config_bits);
    lemma2_to64();
    lemma_pow2_adds(8, 2);
    let all = config_bits(book, x);
    w.lemma_holds(all, rest);
    match x {
        Config::Text(k, s) => {
            let (a, b) = (number_bits(book, 3, 8), number_bits(book, k as int, 16));
            let c = bytes_bits(book, s.push(0));
            assert(all + rest =~= a + (b + (c + rest)));
            w.law_number_reads(book, 3, 8, b + (c + rest));
            let w1 = w.past(a);
            w1.law_number_reads(book, k as int, 16, c + rest);
            law_text_reads(book, s, 0, w1.past(b), rest);
            w1.lemma_holds(b, c + rest);
            assert(!w.after(8).over);
            assert(w.byte() == 3);
            assert(w1.short() == k);
            lemma_byte_long(book, w.code, 3);
            assert(w1.past(b).past(c) == w.past(all));
        },
        Config::Base(k, n, f) => {
            let (a, b) = (number_bits(book, 4, 8), number_bits(book, k, 10));
            let c = delta_bits(book, Delta::Fields(n, f));
            assert(all + rest =~= a + (b + (c + rest)));
            w.law_number_reads(book, 4, 8, b + (c + rest));
            let w1 = w.past(a);
            w1.law_number_reads(book, k, 10, c + rest);
            law_delta_round_trip(
                book,
                Delta::Fields(n, f),
                zeros(ENT_FIELDS as int),
                w1.past(b),
                rest,
            );
            w1.lemma_holds(b, c + rest);
            assert(!w.after(8).over);
            assert(w.byte() == 4);
            lemma_byte_long(book, w.code, 4);
            assert(w1.past(b).past(c) == w.past(all));
        },
    }
}

/// The entries of the state of the game that were written are read back.
pub proof fn law_configs_round_trip(
    book: spec_fn(int) -> Seq<bool>,
    xs: Seq<Config>,
    st: Game,
    w: Wire,
    rest: Seq<bool>,
)
    requires
        book_of(w.code, book),
        some_code(w.code),
        forall|i: int| 0 <= i < xs.len() ==> config_fits(#[trigger] xs[i]),
        w.holds(configs_bits(book, xs) + rest),
    ensures
        entries_from(w, st) == (w.past(configs_bits(book, xs)), after_configs(st, xs), true),
        w.past(configs_bits(book, xs)).holds(rest),
    decreases xs.len(),
{
    lemma2_to64();
    let all = configs_bits(book, xs);
    w.lemma_holds(all, rest);
    if xs.len() == 0 {
        w.law_number_reads(book, 8, 8, rest);
        assert(!w.after(8).over);
        assert(w.byte() == 8);
    } else {
        let (a, b) = (config_bits(book, xs[0]), configs_bits(book, xs.drop_first()));
        assert(all + rest =~= a + (b + rest));
        lemma_config(book, xs[0], st, w, b + rest);
        assert forall|i: int| 0 <= i < xs.drop_first().len() implies config_fits(
            #[trigger] xs.drop_first()[i],
        ) by {
            assert(xs.drop_first()[i] == xs[i + 1]);
        }
        law_configs_round_trip(book, xs.drop_first(), after_config(st, xs[0]), w.past(a), rest);
        assert(w.past(a).past(b) == w.past(all));
    }
}

/// The state of the game that was written is read back, with the number of the recorder.
pub proof fn law_gamestate_round_trip(
    book: spec_fn(int) -> Seq<bool>,
    number: i32,
    xs: Seq<Config>,
    client: i32,
    sum: i32,
    st: Game,
    w: Wire,
    rest: Seq<bool>,
)
    requires
        book_of(w.code, book),
        some_code(w.code),
        forall|i: int| 0 <= i < xs.len() ==> config_fits(#[trigger] xs[i]),
        w.holds(
            (number_bits(book, unsigned(number), 32) + (configs_bits(book, xs) + (number_bits(
                book,
                unsigned(client),
                32,
            ) + number_bits(book, unsigned(sum), 32)))) + rest,
        ),
    ensures
        gamestate_at(w, st) == (
            w.past(
                number_bits(book, unsigned(number), 32) + (configs_bits(book, xs) + (number_bits(
                    book,
                    unsigned(client),
                    32,
                ) + number_bits(book, unsigned(sum), 32))),
            ),
            Game { client_num: client, ..after_configs(st, xs) },
        ),
{
    lemma2_to64();
    let (a, b) = (number_bits(book, unsigned(number), 32), configs_bits(book, xs));
    let (c, e) = (number_bits(book, unsigned(client), 32), number_bits(book, unsigned(sum), 32));
    let all = a + (b + (c + e));
    assert(all + rest =~= a + (b + (c + (e + rest))));
    w.law_number_reads(book, unsigned(number), 32, b + (c + (e + rest)));
    let w1 = w.past(a);
    law_configs_round_trip(book, xs, st, w1, c + (e + rest));
    let w2 = w1.past(b);
    w2.law_number_reads(book, unsigned(client), 32, e + rest);
    assert(w2.long() == client);
    w2.past(c).law_number_reads(book, unsigned(sum), 32, rest);
    assert(w2.past(c).past(e) == w.past(all));
}

/// A snapshot in a message: its number is seven, and it is counted.
pub proof fn law_snapshot_command(book: spec_fn(int) -> Seq<bool>, x: Snapshot, st: Game, w: Wire, rest: Seq<bool>)
    requires
        book_of(w.code, book),
        x.areas.len() < 256,
        recorder_fits(x.state),
        entities_fit(x.ents),
        full(st),
        st.player.len() == PS_FIELDS,
        w.holds((number_bits(book, 7, 8) + snapshot_bits(book, x)) + rest),
    ensures
        command_at(w.after(8), w.byte(), st) == (
            Some(w.past(number_bits(book, 7, 8) + snapshot_bits(book, x))),
            Game {
                snaps: ahead_of(after_snapshot(st, x).snaps, 1),
                ..after_snapshot(st, x)
            },
        ),
{
    reveal(command_at);
    lemma2_to64();
    let (a, b) = (number_bits(book, 7, 8), snapshot_bits(book, x));
    assert((a + b) + rest =~= a + (b + rest));
    w.law_number_reads(book, 7, 8, b + rest);
    w.past(a).lemma_holds(b, rest);
    assert(!w.after(8).over);
    assert(w.byte() == 7);
    law_snapshot_round_trip(book, x, st, w.past(a), rest);
    assert(w.past(a).past(b) == w.past(a + b));
}

} // verus!
