//! Delta-compressed fields: the bit reader, field tables and field values.
use crate::bits::{bit_at, bits_at, countable, get_bit, get_bits};
use crate::source::csgo::stringtables::{floor_log2, log2};
use crate::text::{lossy, lossy_chars, str_eq};
use vstd::arithmetic::power2::{lemma2_to64, lemma_pow2_pos, lemma_pow2_strictly_increases, pow2};
use vstd::prelude::*;

verus! {

pub const DT_BYTE: u32 = 0x1;
pub const DT_SHORT: u32 = 0x2;
pub const DT_FLOAT: u32 = 0x4;
pub const DT_INTEGER: u32 = 0x8;
pub const DT_ANGLE: u32 = 0x10;
pub const DT_TIMEWINDOW_8: u32 = 0x20;
pub const DT_TIMEWINDOW_BIG: u32 = 0x40;
pub const DT_STRING: u32 = 0x80;
pub const DT_SIGNED: u32 = 0x8000_0000;

/// Fields read as whole numbers, and as fractions.
pub const DT_WHOLE: u32 = 0xb;
pub const DT_FRACTION: u32 = 0x64;

/// Where a reader that keeps going past the end stands. Once past it, it stays
/// there and reads zeros.
pub struct Place {
    pub d: Seq<u8>,
    pub pos: int,
}

impl Place {
    pub open spec fn total(self) -> int {
        8 * self.d.len() as int
    }

    pub open spec fn over(self) -> bool {
        self.pos > self.total()
    }

    /// How many of the next `n` bits there are, up to 32.
    pub open spec fn avail(self, n: int) -> int {
        let left = if self.over() {
            0
        } else {
            self.total() - self.pos
        };
        let m = if n <= left {
            n
        } else {
            left
        };
        if m <= 32 {
            m
        } else {
            32
        }
    }

    /// The value of an `n`-bit read: the low 32 bits of what is there.
    pub open spec fn val(self, n: int) -> int {
        bits_at(self.d, self.pos, self.avail(n) as nat)
    }

    pub open spec fn adv(self, n: int) -> Place {
        Place {
            d: self.d,
            pos: if self.pos + n <= self.total() {
                self.pos + n
            } else {
                self.total() + 1
            },
        }
    }

    /// The reader given up.
    pub open spec fn fail(self) -> Place {
        Place { d: self.d, pos: self.total() + 1 }
    }

    pub open spec fn valid(self) -> bool {
        0 <= self.pos <= self.total() + 1
    }

    /// The bytes up to a zero byte, or as many whole ones as there are.
    pub open spec fn string(self) -> (Seq<u8>, Place)
        decreases self.total() + 1 - self.pos,
    {
        let next = self.adv(8);
        if !self.valid() || self.val(8) == 0 || next.over() {
            (Seq::empty(), next)
        } else {
            let (rest, end) = next.string();
            (seq![self.val(8) as u8] + rest, end)
        }
    }
}

pub struct Bits<'a> {
    d: &'a [u8],
    pos: u64,
}

impl<'a> Bits<'a> {
    pub closed spec fn view(&self) -> Place {
        Place { d: self.d@, pos: self.pos as int }
    }

    pub closed spec fn wf(&self) -> bool {
        countable(self.d@) && self.pos <= 8 * self.d@.len() + 1
    }

    pub proof fn lemma_valid(&self)
        requires
            self.wf(),
        ensures
            self@.valid(),
    {
    }

    pub fn new(d: &'a [u8]) -> (r: Self)
        requires
            countable(d@),
        ensures
            r.wf(),
            r@ == (Place { d: d@, pos: 0 }),
    {
        Bits { d, pos: 0 }
    }

    /// Reads `n` bits, of which the first 32 count; what is beyond the end is missing.
    pub fn bits(&mut self, n: u32) -> (v: u32)
        requires
            old(self).wf(),
            n <= 1024,
        ensures
            final(self).wf(),
            v == old(self)@.val(n as int),
            final(self)@ == old(self)@.adv(n as int),
            n <= 32 ==> v < pow2(n as nat),
    {
        let total: u64 = 8 * self.d.len() as u64;
        let left: u64 = if self.pos > total {
            0
        } else {
            total - self.pos
        };
        let m: u64 = if n as u64 <= left {
            n as u64
        } else {
            left
        };
        let k: u32 = if m <= 32 {
            m as u32
        } else {
            32
        };
        proof {
            lemma_pow2_pos(n as nat);
            lemma2_to64();
            if n <= 32 && k < n {
                lemma_pow2_strictly_increases(k as nat, n as nat);
            }
        }
        let v: u32 = if k == 0 {
            0
        } else {
            get_bits(self.d, self.pos, k)
        };
        self.pos = if n as u64 <= left {
            if self.pos > total {
                total + 1
            } else {
                self.pos + n as u64
            }
        } else {
            total + 1
        };
        v
    }

    /// Passes over `n` bits.
    pub fn skip(&mut self, n: u64)
        requires
            old(self).wf(),
            n <= 1024,
        ensures
            final(self).wf(),
            final(self)@ == old(self)@.adv(n as int),
    {
        let total: u64 = 8 * self.d.len() as u64;
        self.pos = if self.pos + n <= total {
            self.pos + n
        } else {
            total + 1
        };
    }

    pub fn bit(&mut self) -> (b: bool)
        requires
            old(self).wf(),
        ensures
            final(self).wf(),
            b == (old(self)@.val(1) != 0),
            final(self)@ == old(self)@.adv(1),
    {
        self.bits(1) != 0
    }

    /// The next 16 bits, which are not read.
    pub fn peek16(&self) -> (v: u32)
        requires
            self.wf(),
        ensures
            v == self@.val(16),
    {
        let mut c = Bits { d: self.d, pos: self.pos };
        c.bits(16)
    }

    pub fn over(&self) -> (r: bool)
        requires
            self.wf(),
        ensures
            r == self@.over(),
    {
        self.pos > 8 * self.d.len() as u64
    }

    pub fn fail(&mut self)
        requires
            old(self).wf(),
        ensures
            final(self).wf(),
            final(self)@ == old(self)@.fail(),
    {
        self.pos = 8 * self.d.len() as u64 + 1;
    }

    pub fn read_bytes_to_zero(&mut self) -> (r: Vec<u8>)
        requires
            old(self).wf(),
        ensures
            final(self).wf(),
            (r@, final(self)@) == old(self)@.string(),
    {
        let mut out: Vec<u8> = Vec::new();
        let ghost p0 = self@;
        proof {
            lemma2_to64();
            assert(out@ + p0.string().0 =~= p0.string().0);
        }
        loop
            invariant
                self.wf(),
                pow2(8) == 256,
                p0 == old(self)@,
                p0.string().0 == out@ + self@.string().0,
                p0.string().1 == self@.string().1,
            decreases 8 * self.d@.len() + 1 - self.pos,
        {
            let ghost p = self@;
            let ghost before = self.pos;
            let b: u8 = self.bits(8) as u8;
            if b == 0 || self.over() {
                assert(out@ + Seq::<u8>::empty() =~= out@);
                return out;
            }
            proof {
                assert(out@ + (seq![b] + self@.string().0) =~= out@.push(b) + self@.string().0);
            }
            out.push(b);
        }
    }

    /// Reads a text up to a zero byte or the end.
    pub fn read_str(&mut self) -> (r: String)
        requires
            old(self).wf(),
        ensures
            final(self).wf(),
            r@ == lossy_chars(old(self)@.string().0),
            final(self)@ == old(self)@.string().1,
    {
        let b = self.read_bytes_to_zero();
        lossy(b.as_slice())
    }

    /// The whole bytes that the bits read so far take.
    pub fn consumed_bytes(&self) -> (r: usize)
        requires
            self.wf(),
        ensures
            r == (self@.pos + 7) / 8,
    {
        ((self.pos + 7) / 8) as usize
    }
}

/// A decoded number: a whole one, a quotient whose divisor is given in
/// four-thousandths, or a share of a turn.
#[derive(Debug, Clone, Copy, PartialEq, Eq, Structural)]
pub enum Num {
    Whole(i64),
    Ratio(i64, u32),
    Turn(u32, u32),
}

impl Num {
    /// Not a division by zero.
    pub open spec fn finite(self) -> bool {
        match self {
            Num::Ratio(_, divisor) => divisor != 0,
            _ => true,
        }
    }

    pub fn is_finite(&self) -> (r: bool)
        ensures
            r == self.finite(),
    {
        match *self {
            Num::Ratio(_, divisor) => divisor != 0,
            _ => true,
        }
    }
}

#[derive(Debug)]
pub enum DVal {
    Num(Num),
    Str(String),
}

/// What a `DVal` says.
pub enum DValView {
    Num(Num),
    Str(Seq<char>),
}

impl DVal {
    pub open spec fn view(&self) -> DValView {
        match *self {
            DVal::Num(n) => DValView::Num(n),
            DVal::Str(s) => DValView::Str(s@),
        }
    }
}

/// One field of a table: its name, its width in bits, its divisor in
/// four-thousandths, and its kind.
#[derive(Debug)]
pub struct FieldDesc {
    pub name: String,
    pub bits: u32,
    pub divisor: u32,
    pub flags: u32,
}

/// What a `FieldDesc` says.
pub struct FieldView {
    pub name: Seq<char>,
    pub bits: u32,
    pub divisor: u32,
    pub flags: u32,
}

impl FieldDesc {
    pub open spec fn view(&self) -> FieldView {
        FieldView {
            name: self.name@,
            bits: self.bits,
            divisor: self.divisor,
            flags: self.flags,
        }
    }
}

pub open spec fn table_view(v: Seq<FieldDesc>) -> Seq<FieldView> {
    v.map_values(|f: FieldDesc| f@)
}

/// Fields no wider than a byte can say.
pub open spec fn narrow(v: Seq<FieldDesc>) -> bool {
    forall|i: int| 0 <= i < v.len() ==> (#[trigger] v[i]).bits <= 255
}

pub type Decoder = Vec<FieldDesc>;

pub fn clone_decoder(d: &Decoder) -> (r: Decoder)
    ensures
        table_view(r@) == table_view(d@),
        narrow(d@) ==> narrow(r@),
{
    let mut out: Decoder = Vec::new();
    let mut i: usize = 0;
    while i < d.len()
        invariant
            i <= d@.len(),
            out@.len() == i,
            forall|k: int| 0 <= k < i ==> (#[trigger] out@[k])@ == d@[k]@,
        decreases d@.len() - i,
    {
        let f = &d[i];
        out.push(
            FieldDesc {
                name: f.name.clone(),
                bits: f.bits,
                divisor: f.divisor,
                flags: f.flags,
            },
        );
        i += 1;
    }
    proof {
        assert(table_view(out@) =~= table_view(d@));
        if narrow(d@) {
            assert forall|k: int| 0 <= k < out@.len() implies (#[trigger] out@[k]).bits <= 255 by {
                assert(out@[k]@.bits == d@[k]@.bits);
            }
        }
    }
    out
}

/// The whole number that a divisor of `r` four-thousandths counts as: at least 1,
/// else its whole part in single precision, where it is rounded to 24 significant
/// bits first.
pub open spec fn whole_divisor(r: u32) -> int {
    let q = r as int / 4000;
    let m = r as int % 4000;
    if r < 4000 {
        1
    } else if m > 0 && (4000 - m) * pow2((24 - floor_log2(q)) as nat) <= 4000 {
        q + 1
    } else {
        q
    }
}

proof fn lemma_log_small(n: int, k: int)
    requires
        1 <= n < pow2((k + 1) as nat),
        0 <= k,
    ensures
        0 <= floor_log2(n) <= k,
    decreases n,
{
    if n > 1 {
        if k == 0 {
            lemma2_to64();
        } else {
            vstd::arithmetic::power2::lemma_pow2_unfold((k + 1) as nat);
            lemma_log_small(n / 2, k - 1);
        }
    }
}

fn integer_divisor(r: u32) -> (d: i64)
    ensures
        d == whole_divisor(r),
        1 <= d <= 0x20_0000,
{
    if r < 4000 {
        return 1;
    }
    let q: u32 = r / 4000;
    let m: u32 = r % 4000;
    let k: u32 = log2(q);
    proof {
        lemma2_to64();
        vstd::arithmetic::power2::lemma_pow2_adds(20, 1);
        vstd::arithmetic::power2::lemma_pow2_adds(10, 10);
        lemma_log_small(q as int, 20);
        let s = (24 - k) as nat;
        if s < 24 {
            lemma_pow2_strictly_increases(s, 24);
        }
        vstd::bits::lemma_u64_shl_is_mul(1, (24 - k) as u64);
        let a = 4000 - m;
        let b = pow2(s) as int;
        assert(0 <= a * b <= 4000 * 0x100_0000) by (nonlinear_arith)
            requires
                0 <= a <= 4000,
                0 <= b <= 0x100_0000,
        ;
    }
    let w: u64 = 1u64 << ((24 - k) as u64);
    if m > 0 && (4000 - m) as u64 * w <= 4000 {
        q as i64 + 1
    } else {
        q as i64
    }
}

/// Division toward zero.
pub open spec fn toward_zero(v: int, d: int) -> int {
    if v >= 0 {
        v / d
    } else {
        -((-v) / d)
    }
}

/// A signed read: a sign bit, then the rest; an unsigned one otherwise.
pub open spec fn number_at(f: FieldView, p: Place) -> (int, Place) {
    if f.flags & DT_SIGNED != 0 {
        let rest = if f.bits >= 1 {
            f.bits - 1
        } else {
            0
        };
        let mag = p.adv(1).val(rest);
        (
            if p.val(1) != 0 {
                -mag
            } else {
                mag
            },
            p.adv(1).adv(rest),
        )
    } else {
        (p.val(f.bits as int), p.adv(f.bits as int))
    }
}

/// The value of a field, by its kind.
pub open spec fn field_at(f: FieldView, p: Place) -> (DValView, Place) {
    if f.flags & DT_WHOLE != 0 {
        let (v, q) = number_at(f, p);
        (DValView::Num(Num::Whole(toward_zero(v, whole_divisor(f.divisor)) as i64)), q)
    } else if f.flags & DT_FRACTION != 0 {
        let (v, q) = number_at(f, p);
        (DValView::Num(Num::Ratio(v as i64, f.divisor)), q)
    } else if f.flags & DT_ANGLE != 0 {
        (DValView::Num(Num::Turn(p.val(f.bits as int) as u32, f.bits)), p.adv(f.bits as int))
    } else if f.flags & DT_STRING != 0 {
        let (s, q) = p.string();
        (DValView::Str(lossy_chars(s)), q)
    } else {
        (DValView::Num(Num::Whole(0)), p)
    }
}

fn read_number(f: &FieldDesc, br: &mut Bits) -> (v: i64)
    requires
        old(br).wf(),
        f.bits <= 255,
    ensures
        final(br).wf(),
        (v as int, final(br)@) == number_at(f@, old(br)@),
        -0x1_0000_0000 < v < 0x1_0000_0000,
{
    if f.flags & DT_SIGNED != 0 {
        let neg = br.bit();
        let rest: u32 = if f.bits >= 1 {
            f.bits - 1
        } else {
            0
        };
        let mag: i64 = br.bits(rest) as i64;
        if neg {
            -mag
        } else {
            mag
        }
    } else {
        br.bits(f.bits) as i64
    }
}

/// Reads a field as its entry in the table says.
pub fn parse_field(f: &FieldDesc, br: &mut Bits) -> (v: DVal)
    requires
        old(br).wf(),
        f.bits <= 255,
    ensures
        final(br).wf(),
        (v@, final(br)@) == field_at(f@, old(br)@),
{
    if f.flags & DT_WHOLE != 0 {
        let d: i64 = integer_divisor(f.divisor);
        let v: i64 = read_number(f, br);
        let q: i64 = if v >= 0 {
            v / d
        } else {
            -((-v) / d)
        };
        proof {
            let a = if v >= 0 {
                v as int
            } else {
                -(v as int)
            };
            assert(0 <= a / (d as int) <= a) by (nonlinear_arith)
                requires
                    0 <= a,
                    d >= 1,
            ;
        }
        DVal::Num(Num::Whole(q))
    } else if f.flags & DT_FRACTION != 0 {
        let v: i64 = read_number(f, br);
        DVal::Num(Num::Ratio(v, f.divisor))
    } else if f.flags & DT_ANGLE != 0 {
        DVal::Num(Num::Turn(br.bits(f.bits), f.bits))
    } else if f.flags & DT_STRING != 0 {
        DVal::Str(br.read_str())
    } else {
        DVal::Num(Num::Whole(0))
    }
}

/// One changed field: its name and value.
#[derive(Debug)]
pub struct Change {
    pub name: String,
    pub val: DVal,
}

/// What a `Change` says.
pub struct ChangeView {
    pub name: Seq<char>,
    pub val: DValView,
}

impl Change {
    pub open spec fn view(&self) -> ChangeView {
        ChangeView { name: self.name@, val: self.val@ }
    }
}

pub open spec fn changes_view(v: Seq<Change>) -> Seq<ChangeView> {
    v.map_values(|c: Change| c@)
}

/// The mask bytes of a delta.
pub open spec fn masks_at(p: Place, n: int) -> (Seq<u8>, Place)
    decreases n,
{
    if n <= 0 {
        (Seq::empty(), p)
    } else {
        let (m, q) = masks_at(p, n - 1);
        (m.push(q.val(8) as u8), q.adv(8))
    }
}

/// The changed fields from number `i` on: those that the masks mark, as far as
/// the table and the bits go.
pub open spec fn marked_from(t: Seq<FieldView>, masks: Seq<u8>, i: int, p: Place) -> (
    Seq<ChangeView>,
    Place,
)
    decreases 8 * masks.len() - i,
{
    if i < 0 || i >= 8 * masks.len() || i >= t.len() {
        (Seq::empty(), p)
    } else {
        let (here, q) = if bit_at(masks, i) == 1 {
            let (val, q) = field_at(t[i], p);
            (seq![ChangeView { name: t[i].name, val }], q)
        } else {
            (Seq::empty(), p)
        };
        if q.over() {
            (here, q)
        } else {
            let (rest, end) = marked_from(t, masks, i + 1, q);
            (here + rest, end)
        }
    }
}

/// A delta: a count of mask bytes, the masks, and the marked fields in order.
pub open spec fn delta_at(t: Seq<FieldView>, p: Place) -> (Seq<ChangeView>, Place) {
    let (masks, q) = masks_at(p.adv(3), p.val(3));
    marked_from(t, masks, 0, q)
}

/// Reads the fields that a mask marks, in the order of the table.
pub fn parse_delta(dec: &Decoder, br: &mut Bits) -> (r: Vec<Change>)
    requires
        old(br).wf(),
        narrow(dec@),
    ensures
        final(br).wf(),
        (changes_view(r@), final(br)@) == delta_at(table_view(dec@), old(br)@),
        final(br)@.d == old(br)@.d,
{
    let ghost t = table_view(dec@);
    let mut out: Vec<Change> = Vec::new();
    proof {
        lemma2_to64();
        br.lemma_valid();
        lemma_delta_grows(t, br@);
    }
    let n: usize = br.bits(3) as usize;
    let mut masks: Vec<u8> = Vec::new();
    let ghost p1 = br@;
    while masks.len() < n
        invariant
            br.wf(),
            pow2(8) == 256,
            masks@.len() <= n <= 7,
            (masks@, br@) == masks_at(p1, masks@.len() as int),
        decreases n - masks@.len(),
    {
        let b: u8 = br.bits(8) as u8;
        masks.push(b);
    }
    let ghost p2 = br@;
    let ghost all = marked_from(t, masks@, 0, p2);
    let mut i: usize = 0;
    proof {
        assert(changes_view(out@) =~= Seq::empty());
        assert(changes_view(out@) + all.0 =~= all.0);
    }
    while i < 8 * masks.len() && i < dec.len()
        invariant
            delta_at(t, old(br)@).1.d == old(br)@.d,
            br.wf(),
            narrow(dec@),
            masks@.len() <= 7,
            t == table_view(dec@),
            i <= 8 * masks@.len(),
            all == marked_from(t, masks@, 0, p2),
            all == delta_at(t, old(br)@),
            all.0 == changes_view(out@) + marked_from(t, masks@, i as int, br@).0,
            all.1 == marked_from(t, masks@, i as int, br@).1,
        decreases 8 * masks@.len() - i,
    {
        let ghost done = changes_view(out@);
        let ghost p = br@;
        if get_bit(masks.as_slice(), i as u64) {
            let f = &dec[i];
            assert(t[i as int] == f@);
            let val = parse_field(f, br);
            let c = Change { name: f.name.clone(), val };
            proof {
                assert(changes_view(out@.push(c)) =~= done + seq![c@]);
            }
            out.push(c);
        } else {
            assert(done + Seq::<ChangeView>::empty() =~= done);
        }
        if br.over() {
            return out;
        }
        proof {
            let rest = marked_from(t, masks@, i + 1, br@).0;
            if bit_at(masks@, i as int) == 1 {
                let c = ChangeView { name: t[i as int].name, val: field_at(t[i as int], p).0 };
                assert(done + (seq![c] + rest) =~= (done + seq![c]) + rest);
            } else {
                assert(done + (Seq::<ChangeView>::empty() + rest) =~= done + rest);
            }
        }
        i += 1;
    }
    assert(changes_view(out@) + Seq::<ChangeView>::empty() =~= changes_view(out@));
    out
}

/// The last value that a delta gives a name.
pub open spec fn last_of(cs: Seq<ChangeView>, name: Seq<char>) -> Option<DValView>
    decreases cs.len(),
{
    if cs.len() == 0 {
        None
    } else if cs.last().name == name {
        Some(cs.last().val)
    } else {
        last_of(cs.drop_last(), name)
    }
}

/// The number that a delta gives a name last, if it is one.
pub open spec fn last_num(cs: Seq<ChangeView>, name: Seq<char>) -> Option<Num> {
    match last_of(cs, name) {
        Some(DValView::Num(n)) => Some(n),
        _ => None,
    }
}

fn find_last<'a>(cs: &'a Vec<Change>, name: &str) -> (r: Option<&'a DVal>)
    ensures
        match (r, last_of(changes_view(cs@), name@)) {
            (Some(v), Some(w)) => v@ == w,
            (None, None) => true,
            _ => false,
        },
{
    let mut i: usize = cs.len();
    let ghost all = changes_view(cs@);
    assert(all.take(all.len() as int) =~= all);
    while i > 0
        invariant
            i <= cs@.len(),
            all == changes_view(cs@),
            last_of(all, name@) == last_of(all.take(i as int), name@),
        decreases i,
    {
        i -= 1;
        assert(all.take(i + 1).last() == cs@[i as int]@);
        assert(all.take(i + 1).drop_last() =~= all.take(i as int));
        if str_eq(cs[i].name.as_str(), name) {
            return Some(&cs[i].val);
        }
    }
    None
}

/// The number that a field was last changed to.
pub fn find_num(cs: &Vec<Change>, name: &str) -> (r: Option<Num>)
    ensures
        r == last_num(changes_view(cs@), name@),
{
    match find_last(cs, name) {
        Some(DVal::Num(n)) => Some(*n),
        _ => None,
    }
}

/// The text that a field was last changed to.
pub fn find_text(cs: &Vec<Change>, name: &str) -> (r: Option<String>)
    ensures
        match (r, last_of(changes_view(cs@), name@)) {
            (Some(s), Some(DValView::Str(t))) => s@ == t,
            (None, Some(DValView::Str(_))) => false,
            (Some(_), _) => false,
            (None, _) => true,
        },
{
    match find_last(cs, name) {
        Some(DVal::Str(s)) => Some(s.clone()),
        _ => None,
    }
}

/// The table that describes the entries of every other table: name, width,
/// divisor and kind of each of its fields.
pub open spec fn meta_field(k: int) -> FieldView {
    if k == 0 {
        FieldView { name: "flags"@, bits: 32, divisor: 4000, flags: DT_INTEGER }
    } else if k == 1 {
        FieldView { name: "name"@, bits: 8, divisor: 4000, flags: DT_STRING }
    } else if k == 2 {
        FieldView { name: "offset"@, bits: 16, divisor: 4000, flags: DT_INTEGER }
    } else if k == 3 {
        FieldView { name: "size"@, bits: 8, divisor: 4000, flags: DT_INTEGER }
    } else if k == 4 {
        FieldView { name: "bits"@, bits: 8, divisor: 4000, flags: DT_INTEGER }
    } else if k == 5 {
        FieldView { name: "divisor"@, bits: 32, divisor: 16_000_000, flags: DT_FLOAT }
    } else {
        FieldView { name: "preMultiplier"@, bits: 32, divisor: 16_000_000, flags: DT_FLOAT }
    }
}

pub open spec fn meta_table() -> Seq<FieldView> {
    Seq::new(7, |k: int| meta_field(k))
}

fn desc(name: &str, bits: u32, divisor: u32, flags: u32) -> (f: FieldDesc)
    ensures
        f@ == (FieldView { name: name@, bits, divisor, flags }),
{
    FieldDesc { name: name.to_owned(), bits, divisor, flags }
}

/// The table that tables are read by.
pub fn bootstrap_decoder() -> (r: Decoder)
    ensures
        table_view(r@) == meta_table(),
        narrow(r@),
{
    let mut v: Decoder = Vec::new();
    v.push(desc("flags", 32, 4000, DT_INTEGER));
    v.push(desc("name", 8, 4000, DT_STRING));
    v.push(desc("offset", 16, 4000, DT_INTEGER));
    v.push(desc("size", 8, 4000, DT_INTEGER));
    v.push(desc("bits", 8, 4000, DT_INTEGER));
    v.push(desc("divisor", 32, 16_000_000, DT_FLOAT));
    v.push(desc("preMultiplier", 32, 16_000_000, DT_FLOAT));
    proof {
        assert forall|k: int| 0 <= k < v@.len() implies (#[trigger] v@[k]).bits <= 255 by {
            assert(v@[k]@.bits <= 255);
        }
        assert(table_view(v@) =~= meta_table());
    }
    v
}

pub proof fn lemma_string_grows(p: Place)
    requires
        p.valid(),
    ensures
        p.string().1.valid(),
        p.string().1.d == p.d,
        p.string().1.pos >= p.pos,
    decreases p.total() + 1 - p.pos,
{
    let next = p.adv(8);
    if p.val(8) != 0 && !next.over() {
        lemma_string_grows(next);
    }
}

proof fn lemma_masks_grow(p: Place, n: int)
    requires
        p.valid(),
    ensures
        masks_at(p, n).1.valid(),
        masks_at(p, n).1.d == p.d,
        masks_at(p, n).1.pos >= p.pos,
    decreases n,
{
    if n > 0 {
        lemma_masks_grow(p, n - 1);
    }
}

proof fn lemma_marked_grow(t: Seq<FieldView>, masks: Seq<u8>, i: int, p: Place)
    requires
        p.valid(),
    ensures
        marked_from(t, masks, i, p).1.valid(),
        marked_from(t, masks, i, p).1.d == p.d,
        marked_from(t, masks, i, p).1.pos >= p.pos,
    decreases 8 * masks.len() - i,
{
    if 0 <= i && i < 8 * masks.len() && i < t.len() {
        lemma_string_grows(p);
        let q = if bit_at(masks, i) == 1 {
            field_at(t[i], p).1
        } else {
            p
        };
        if !q.over() {
            lemma_marked_grow(t, masks, i + 1, q);
        }
    }
}

/// A delta only moves forward.
pub proof fn lemma_delta_grows(t: Seq<FieldView>, p: Place)
    requires
        p.valid(),
    ensures
        delta_at(t, p).1.valid(),
        delta_at(t, p).1.d == p.d,
        delta_at(t, p).1.pos >= p.adv(3).pos,
{
    lemma_masks_grow(p.adv(3), p.val(3));
    let (masks, q) = masks_at(p.adv(3), p.val(3));
    lemma_marked_grow(t, masks, 0, q);
}

} // verus!
