//! Bits as a writer puts them: what readers of bit streams are held to.
use crate::bits::{bit_at, bits_at, Cursor};
use crate::bytes::{i16_at, i32_at, u16_at, u32_at, zero_from};
use vstd::arithmetic::power2::{lemma2_to64, lemma_pow2_adds, lemma_pow2_unfold, pow2};
use vstd::prelude::*;

verus! {

/// What bit `k` of a byte counts.
pub open spec fn weight(k: int) -> int {
    if k == 0 {
        1
    } else if k == 1 {
        2
    } else if k == 2 {
        4
    } else if k == 3 {
        8
    } else if k == 4 {
        16
    } else if k == 5 {
        32
    } else if k == 6 {
        64
    } else {
        128
    }
}

/// Whether bit `i` of a byte string is set: the lowest bit of a byte comes first.
pub open spec fn set_at(d: Seq<u8>, i: int) -> bool {
    (d[i / 8] as int / weight(i % 8)) % 2 == 1
}

/// Whether bits stand in a byte string, the first one at `pos`.
pub open spec fn stands(d: Seq<u8>, pos: int, b: Seq<bool>) -> bool {
    &&& 0 <= pos
    &&& pos + b.len() <= 8 * d.len()
    &&& forall|i: int| 0 <= i < b.len() ==> set_at(d, pos + i) == #[trigger] b[i]
}

/// A number in `n` bits, the lowest first.
pub open spec fn bits_of(v: int, n: nat) -> Seq<bool>
    decreases n,
{
    if n == 0 {
        Seq::empty()
    } else {
        seq![v % 2 == 1] + bits_of(v / 2, (n - 1) as nat)
    }
}

/// One bit.
pub open spec fn flag(b: bool) -> Seq<bool> {
    seq![b]
}

/// Bytes, one behind the other.
pub open spec fn bits_of_bytes(s: Seq<u8>) -> Seq<bool>
    decreases s.len(),
{
    if s.len() == 0 {
        Seq::empty()
    } else {
        bits_of(s[0] as int, 8) + bits_of_bytes(s.drop_first())
    }
}

/// A text and the zero byte that ends it.
pub open spec fn bits_of_text(s: Seq<u8>) -> Seq<bool> {
    bits_of_bytes(s) + bits_of(0, 8)
}

/// A byte of eight bits, from `i` on; those that are missing are not set.
pub open spec fn byte_of(b: Seq<bool>, i: int) -> u8 {
    (one(b, i) + 2 * one(b, i + 1) + 4 * one(b, i + 2) + 8 * one(b, i + 3) + 16 * one(b, i + 4) + 32
        * one(b, i + 5) + 64 * one(b, i + 6) + 128 * one(b, i + 7)) as u8
}

pub open spec fn one(b: Seq<bool>, i: int) -> int {
    if 0 <= i < b.len() && b[i] {
        1
    } else {
        0
    }
}

/// Bits put into bytes.
pub open spec fn in_bytes(b: Seq<bool>) -> Seq<u8> {
    Seq::new((b.len() + 7) / 8, |k: int| byte_of(b, 8 * k))
}

/// Any bits can be written: put into bytes, they stand there.
pub proof fn law_any_bits_can_stand(b: Seq<bool>)
    ensures
        stands(in_bytes(b), 0, b),
{
    let d = in_bytes(b);
    assert forall|i: int| 0 <= i < b.len() implies set_at(d, 0 + i) == #[trigger] b[i] by {
        let k = i / 8;
        let j = i % 8;
        assert(d[k] == byte_of(b, 8 * k));
        lemma_byte_of(b, 8 * k, j);
        assert(8 * k + j == i);
    }
}

#[verifier::rlimit(50)]
proof fn lemma_byte_of(b: Seq<bool>, i: int, j: int)
    requires
        0 <= j < 8,
    ensures
        (byte_of(b, i) as int / weight(j)) % 2 == one(b, i + j),
{
    let (a0, a1, a2, a3) = (one(b, i), one(b, i + 1), one(b, i + 2), one(b, i + 3));
    let (a4, a5, a6, a7) = (one(b, i + 4), one(b, i + 5), one(b, i + 6), one(b, i + 7));
    let v = a0 + 2 * a1 + 4 * a2 + 8 * a3 + 16 * a4 + 32 * a5 + 64 * a6 + 128 * a7;
    assert(byte_of(b, i) == v);
    if j == 0 {
        assert(v == a0 + 2 * (a1 + 2 * a2 + 4 * a3 + 8 * a4 + 16 * a5 + 32 * a6 + 64 * a7));
    } else if j == 1 {
        assert(v / 2 == a1 + 2 * (a2 + 2 * a3 + 4 * a4 + 8 * a5 + 16 * a6 + 32 * a7));
    } else if j == 2 {
        assert(v / 4 == a2 + 2 * (a3 + 2 * a4 + 4 * a5 + 8 * a6 + 16 * a7));
    } else if j == 3 {
        assert(v / 8 == a3 + 2 * (a4 + 2 * a5 + 4 * a6 + 8 * a7));
    } else if j == 4 {
        assert(v / 16 == a4 + 2 * (a5 + 2 * a6 + 4 * a7));
    } else if j == 5 {
        assert(v / 32 == a5 + 2 * (a6 + 2 * a7));
    } else if j == 6 {
        assert(v / 64 == a6 + 2 * a7);
    } else {
        assert(v / 128 == a7);
    }
}

pub proof fn lemma_weight(k: int)
    requires
        0 <= k < 8,
    ensures
        weight(k) == pow2(k as nat),
{
    lemma2_to64();
}

pub proof fn lemma_set_at(d: Seq<u8>, i: int)
    requires
        0 <= i,
    ensures
        bit_at(d, i) == if set_at(d, i) {
            1int
        } else {
            0
        },
{
    lemma_weight(i % 8);
}

pub proof fn lemma_bits_len(v: int, n: nat)
    ensures
        bits_of(v, n).len() == n,
    decreases n,
{
    if n > 0 {
        lemma_bits_len(v / 2, (n - 1) as nat);
    }
}

pub proof fn lemma_stands_split(d: Seq<u8>, pos: int, a: Seq<bool>, b: Seq<bool>)
    ensures
        stands(d, pos, a + b) <==> stands(d, pos, a) && stands(d, pos + a.len(), b),
{
    let c = a + b;
    if stands(d, pos, c) {
        assert forall|i: int| 0 <= i < a.len() implies set_at(d, pos + i) == #[trigger] a[i] by {
            assert(c[i] == a[i]);
        }
        assert forall|i: int| 0 <= i < b.len() implies set_at(d, pos + a.len() + i) == #[trigger] b[i] by {
            assert(c[a.len() + i] == b[i]);
        }
    }
    if stands(d, pos, a) && stands(d, pos + a.len(), b) {
        assert forall|i: int| 0 <= i < c.len() implies set_at(d, pos + i) == #[trigger] c[i] by {
            if i < a.len() {
                assert(c[i] == a[i]);
            } else {
                assert(c[i] == b[i - a.len()]);
            }
        }
    }
}

/// The first bit counts once, the others twice what they count by themselves.
proof fn lemma_bits_first(d: Seq<u8>, pos: int, n: nat)
    ensures
        bits_at(d, pos, n + 1) == bit_at(d, pos) + 2 * bits_at(d, pos + 1, n),
    decreases n,
{
    lemma2_to64();
    crate::bits::law_bits_join(d, pos, 1, n);
    assert(bits_at(d, pos, 0) == 0);
    assert(bits_at(d, pos, 1) == bit_at(d, pos) * pow2(0));
    assert(bit_at(d, pos) * 1 == bit_at(d, pos));
}

/// Where a number stands, it is read.
pub proof fn lemma_number_stands(d: Seq<u8>, pos: int, v: int, n: nat)
    requires
        stands(d, pos, bits_of(v, n)),
        0 <= v < pow2(n),
    ensures
        bits_at(d, pos, n) == v,
    decreases n,
{
    lemma2_to64();
    if n == 0 {
    } else {
        let m = (n - 1) as nat;
        lemma_pow2_unfold(n);
        let (a, b) = (seq![v % 2 == 1], bits_of(v / 2, m));
        lemma_stands_split(d, pos, a, b);
        lemma_number_stands(d, pos + 1, v / 2, m);
        lemma_bits_first(d, pos, m);
        lemma_set_at(d, pos);
        assert(a[0] == (v % 2 == 1));
        assert(set_at(d, pos + 0) == a[0]);
    }
}

impl Cursor {
    /// Whether bits stand where the reader does, before its end.
    #[verifier::opaque]
    pub open spec fn holds(self, b: Seq<bool>) -> bool {
        stands(self.d, self.pos, b) && self.has(b.len() as int)
    }

    /// Behind the bits.
    pub open spec fn past(self, b: Seq<bool>) -> Cursor {
        self.adv(b.len() as int)
    }

    pub proof fn lemma_holds(self, a: Seq<bool>, b: Seq<bool>)
        requires
            self.holds(a + b),
        ensures
            self.holds(a),
            self.adv(a.len() as int).holds(b),
    {
        reveal(Cursor::holds);
        lemma_stands_split(self.d, self.pos, a, b);
    }

    /// A number that was written in `n` bits is what `n` bits are read as.
    pub proof fn law_number_reads(self, v: int, n: nat)
        requires
            self.holds(bits_of(v, n)),
            0 <= v < pow2(n),
        ensures
            self.take(n) == Some((v, self.adv(n as int))),
            self.has(n as int),
            self.val(n) == v,
    {
        reveal(Cursor::holds);
        lemma_bits_len(v, n);
        lemma_number_stands(self.d, self.pos, v, n);
    }

    /// The number at the front of what is held, and what is held behind it.
    pub proof fn lemma_number(self, v: int, n: nat, rest: Seq<bool>)
        requires
            self.holds(bits_of(v, n) + rest),
            0 <= v < pow2(n),
        ensures
            self.take(n) == Some((v, self.adv(n as int))),
            self.has(n as int),
            self.val(n) == v,
            self.adv(n as int).holds(rest),
    {
        lemma_bits_len(v, n);
        self.lemma_holds(bits_of(v, n), rest);
        self.law_number_reads(v, n);
    }

    /// The same of a flag.
    pub proof fn lemma_flag(self, b: bool, rest: Seq<bool>)
        requires
            self.holds(flag(b) + rest),
        ensures
            self.take(1) == Some((if b { 1int } else { 0 }, self.adv(1))),
            self.has(1),
            self.val(1) == if b { 1int } else { 0 },
            self.adv(1).holds(rest),
    {
        let v = if b {
            1int
        } else {
            0
        };
        lemma2_to64();
        assert(bits_of(v, 1) =~= flag(b)) by {
            assert(bits_of(v / 2, 0) =~= Seq::empty());
        }
        self.lemma_number(v, 1, rest);
    }
}

/// A reader of bytes holds what stands at their start.
pub proof fn lemma_start(d: Seq<u8>, b: Seq<bool>)
    requires
        stands(d, 0, b),
    ensures
        (Cursor { d, pos: 0, end: 8 * d.len() as int }).holds(b),
{
    reveal(Cursor::holds);
}

pub proof fn lemma_bytes_len(s: Seq<u8>)
    ensures
        bits_of_bytes(s).len() == 8 * s.len(),
    decreases s.len(),
{
    if s.len() > 0 {
        lemma_bits_len(s[0] as int, 8);
        lemma_bytes_len(s.drop_first());
    }
}

/// Whether a text has no zero byte in it.
pub open spec fn no_zero(s: Seq<u8>) -> bool {
    forall|i: int| 0 <= i < s.len() ==> #[trigger] s[i] != 0
}

/// A number of 4, 8, 12 or 32 bits behind two bits that say which.
pub open spec fn var_bits(v: int, k: int) -> Seq<bool> {
    bits_of(k, 2) + bits_of(v, var_width(k))
}

pub open spec fn var_width(k: int) -> nat {
    if k == 0 {
        4
    } else if k == 1 {
        8
    } else if k == 2 {
        12
    } else {
        32
    }
}

/// A number whose lowest four bits come first and the others, in none, 4, 8 or 28 bits,
/// behind two bits that say how many.
pub open spec fn parted_bits(v: int, k: int) -> Seq<bool> {
    bits_of(v % 16, 4) + (bits_of(k, 2) + bits_of(v / 16, parted_width(k)))
}

pub open spec fn parted_width(k: int) -> nat {
    if k == 0 {
        0
    } else if k == 1 {
        4
    } else if k == 2 {
        8
    } else {
        28
    }
}

/// A number in groups of seven bits, the lowest first, each but the last marked by an
/// eighth bit.
pub open spec fn grouped_bits(v: int) -> Seq<bool>
    decreases v,
{
    if v < 128 {
        bits_of(v, 7) + flag(false)
    } else {
        (bits_of(v % 128, 7) + flag(true)) + grouped_bits(v / 128)
    }
}

#[verifier::rlimit(50)]
proof fn lemma_bits_join(v: int, n: nat, w: int, m: nat)
    requires
        0 <= v < pow2(n),
        0 <= w,
    ensures
        bits_of(v, n) + bits_of(w, m) == bits_of(v + pow2(n) * w, n + m),
    decreases n,
{
    lemma2_to64();
    if n == 0 {
        assert(pow2(0) * w == w);
        assert(bits_of(v, 0) + bits_of(w, m) =~= bits_of(w, m));
    } else {
        let k = (n - 1) as nat;
        lemma_pow2_unfold(n);
        lemma_bits_join(v / 2, k, w, m);
        let p = pow2(k) as int;
        let all = v + pow2(n) * w;
        assert(pow2(n) * w == 2 * (p * w)) by (nonlinear_arith)
            requires
                pow2(n) == 2 * p,
        ;
        assert(all / 2 == v / 2 + p * w && all % 2 == v % 2);
        assert(bits_of(v, n) + bits_of(w, m) =~= seq![v % 2 == 1] + (bits_of(v / 2, k) + bits_of(
            w,
            m,
        )));
        assert((n + m - 1) as nat == k + m);
    }
}

impl Cursor {
    /// A text that was written is read back, up to the byte that ends it.
    #[verifier::rlimit(50)]
    pub proof fn law_text_reads(self, s: Seq<u8>, max: nat, rest: Seq<bool>)
        requires
            self.holds(bits_of_text(s) + rest),
            no_zero(s),
            s.len() < max,
        ensures
            self.cstring(max) == Some((s, self.past(bits_of_text(s)))),
            self.past(bits_of_text(s)).holds(rest),
        decreases s.len(),
    {
        lemma2_to64();
        lemma_bits_len(0, 8);
        lemma_bytes_len(s);
        if s.len() == 0 {
            assert(bits_of_text(s) + rest =~= bits_of(0, 8) + rest);
            self.lemma_number(0, 8, rest);
            self.lemma_room(8, bits_of(0, 8) + rest);
            assert(s =~= Seq::empty());
        } else {
            let t = s.drop_first();
            let more = bits_of_text(t) + rest;
            assert(bits_of_text(s) + rest =~= bits_of(s[0] as int, 8) + more);
            self.lemma_number(s[0] as int, 8, more);
            self.lemma_room(8, bits_of(s[0] as int, 8) + more);
            assert forall|i: int| 0 <= i < t.len() implies #[trigger] t[i] != 0 by {
                assert(t[i] == s[i + 1]);
            }
            lemma_bytes_len(t);
            self.adv(8).law_text_reads(t, (max - 1) as nat, rest);
            assert(s =~= seq![s[0]] + t);
        }
    }

    proof fn lemma_room(self, n: int, b: Seq<bool>)
        requires
            self.holds(b),
        ensures
            b.len() <= self.left(),
    {
        reveal(Cursor::holds);
    }

    /// A number behind two bits that give its width is read back.
    pub proof fn law_var_reads(self, v: int, k: int, rest: Seq<bool>)
        requires
            0 <= k < 4,
            0 <= v < pow2(var_width(k)),
            self.holds(var_bits(v, k) + rest),
        ensures
            self.bit_var() == Some((v, self.past(var_bits(v, k)))),
            self.past(var_bits(v, k)).holds(rest),
    {
        lemma2_to64();
        let b = bits_of(v, var_width(k));
        lemma_bits_len(k, 2);
        lemma_bits_len(v, var_width(k));
        assert(var_bits(v, k) + rest =~= bits_of(k, 2) + (b + rest));
        self.lemma_number(k, 2, b + rest);
        self.adv(2).lemma_number(v, var_width(k), rest);
    }

    /// A number in parts is read back.
    pub proof fn law_parted_reads(self, v: int, k: int, rest: Seq<bool>)
        requires
            0 <= k < 4,
            0 <= v < 16 * pow2(parted_width(k)),
            self.holds(parted_bits(v, k) + rest),
        ensures
            self.ubit_int() == Some((v, self.past(parted_bits(v, k)))),
            self.past(parted_bits(v, k)).holds(rest),
    {
        lemma2_to64();
        lemma_pow2_adds(16, 12);
        let b = bits_of(v / 16, parted_width(k));
        lemma_bits_len(k, 2);
        lemma_bits_len(v % 16, 4);
        lemma_bits_len(v / 16, parted_width(k));
        lemma_bits_join(v % 16, 4, k, 2);
        let head = v % 16 + 16 * k;
        assert(parted_bits(v, k) + rest =~= bits_of(head, 6) + (b + rest));
        self.lemma_number(head, 6, b + rest);
        let c = self.adv(6);
        c.lemma_number(v / 16, parted_width(k), rest);
        if k == 0 {
            assert(self.adv(6).adv(0) == self.adv(6));
        }
    }

    /// A byte of a number in groups.
    pub proof fn lemma_group(self, v: int, more: bool, rest: Seq<bool>)
        requires
            0 <= v < 128,
            self.holds((bits_of(v, 7) + flag(more)) + rest),
        ensures
            self.take(8) == Some((v + if more { 128int } else { 0 }, self.adv(8))),
            self.adv(8).holds(rest),
    {
        lemma2_to64();
        let m = if more {
            1int
        } else {
            0
        };
        lemma_bits_join(v, 7, m, 1);
        assert(bits_of(m, 1) =~= flag(more)) by {
            assert(bits_of(m / 2, 0) =~= Seq::empty());
        }
        self.lemma_number(v + 128 * m, 8, rest);
    }

    /// A number in groups is read back, if five of them hold it.
    pub proof fn law_grouped_reads(self, v: int, k: int, rest: Seq<bool>)
        requires
            0 <= k <= 4,
            0 <= v < pow2((35 - 7 * k) as nat),
            self.holds(grouped_bits(v) + rest),
        ensures
            self.var_u32(k) == Some((v, self.past(grouped_bits(v)))),
            self.past(grouped_bits(v)).holds(rest),
        decreases 5 - k,
    {
        lemma2_to64();
        if v < 128 {
            self.lemma_group(v, false, rest);
            lemma_bits_len(v, 7);
        } else {
            let more = grouped_bits(v / 128);
            lemma_bits_len(v % 128, 7);
            assert(grouped_bits(v) + rest =~= (bits_of(v % 128, 7) + flag(true)) + (more + rest));
            self.lemma_group(v % 128, true, more + rest);
            assert(k < 4);
            lemma_pow2_adds((28 - 7 * k) as nat, 7);
            assert(pow2((35 - 7 * k) as nat) == pow2((28 - 7 * k) as nat) * 128);
            self.adv(8).law_grouped_reads(v / 128, k + 1, rest);
        }
    }
}

impl Cursor {
    /// Bytes that were written are read back.
    #[verifier::rlimit(50)]
    pub proof fn law_bytes_read(self, s: Seq<u8>, rest: Seq<bool>)
        requires
            self.holds(bits_of_bytes(s) + rest),
        ensures
            self.has(8 * s.len() as int),
            self.byte_seq(s.len()) == s,
            self.past(bits_of_bytes(s)).holds(rest),
        decreases s.len(),
    {
        lemma2_to64();
        lemma_bytes_len(s);
        if s.len() == 0 {
            reveal(Cursor::holds);
            assert(bits_of_bytes(s) + rest =~= rest);
            assert(self.byte_seq(0) =~= s);
        } else {
            let t = s.drop_first();
            assert(bits_of_bytes(s) + rest =~= bits_of(s[0] as int, 8) + (bits_of_bytes(t) + rest));
            self.lemma_number(s[0] as int, 8, bits_of_bytes(t) + rest);
            let c = self.adv(8);
            c.law_bytes_read(t, rest);
            lemma_bytes_len(t);
            assert forall|i: int| 0 <= i < s.len() implies #[trigger] self.byte_seq(s.len())[i] == s[i] by {
                if i > 0 {
                    assert(c.byte_seq(t.len())[i - 1] == t[i - 1]);
                    assert(self.pos + 8 * i == c.pos + 8 * (i - 1));
                }
            }
            assert(self.byte_seq(s.len()) =~= s);
        }
    }
}

/// Whether bytes stand at a place.
pub open spec fn lies(d: Seq<u8>, o: int, b: Seq<u8>) -> bool {
    0 <= o && o + b.len() <= d.len() && d.subrange(o, o + b.len()) == b
}

/// A number in two's complement.
pub open spec fn twos(v: int, m: int) -> int {
    if v < 0 {
        v + m
    } else {
        v
    }
}

/// A number in two bytes, the low one first.
pub open spec fn le16(v: int) -> Seq<u8> {
    let u = twos(v, 0x1_0000);
    seq![(u % 256) as u8, (u / 256) as u8]
}

/// A number in four bytes, the low ones first.
pub open spec fn le32(v: int) -> Seq<u8> {
    let u = twos(v, 0x1_0000_0000);
    seq![(u % 256) as u8, (u / 256 % 256) as u8, (u / 0x1_0000 % 256) as u8, (u / 0x100_0000) as u8]
}

#[verifier::rlimit(50)]
pub proof fn lemma_lies(d: Seq<u8>, o: int, a: Seq<u8>, b: Seq<u8>)
    ensures
        lies(d, o, a + b) == (lies(d, o, a) && lies(d, o + a.len(), b)),
{
    if lies(d, o, a + b) {
        assert(d.subrange(o, o + a.len()) =~= a) by {
            assert forall|i: int| 0 <= i < a.len() implies d.subrange(o, o + a.len())[i] == a[i] by {
                assert(d.subrange(o, o + (a + b).len())[i] == (a + b)[i]);
            }
        }
        assert(d.subrange(o + a.len(), o + a.len() + b.len()) =~= b) by {
            assert forall|i: int| 0 <= i < b.len() implies d.subrange(
                o + a.len(),
                o + a.len() + b.len(),
            )[i] == b[i] by {
                assert(d.subrange(o, o + (a + b).len())[a.len() + i] == (a + b)[a.len() + i]);
            }
        }
    }
    if lies(d, o, a) && lies(d, o + a.len(), b) {
        assert(d.subrange(o, o + (a + b).len()) =~= a + b) by {
            assert forall|i: int| 0 <= i < (a + b).len() implies d.subrange(o, o + (a + b).len())[i]
                == (a + b)[i] by {
                if i < a.len() {
                    assert(d.subrange(o, o + a.len())[i] == a[i]);
                } else {
                    assert(d.subrange(o + a.len(), o + a.len() + b.len())[i - a.len()] == b[i
                        - a.len()]);
                }
            }
        }
    }
}

/// What a byte at a place is.
pub proof fn lemma_lies_at(d: Seq<u8>, o: int, b: Seq<u8>, i: int)
    requires
        lies(d, o, b),
        0 <= i < b.len(),
    ensures
        d[o + i] == b[i],
{
    assert(d.subrange(o, o + b.len())[i] == b[i]);
}

/// A number of two bytes that was written is read back, with its sign and without.
pub proof fn law_short_reads(d: Seq<u8>, o: int, v: int)
    requires
        lies(d, o, le16(v)),
        -0x8000 <= v < 0x1_0000,
    ensures
        0 <= v ==> u16_at(d, o) == v,
        v < 0x8000 ==> i16_at(d, o) == v,
        u16_at(d, o) == twos(v, 0x1_0000),
{
    lemma_lies_at(d, o, le16(v), 0);
    lemma_lies_at(d, o, le16(v), 1);
}

/// A number of four bytes that was written is read back, with its sign and without.
pub proof fn law_word_reads(d: Seq<u8>, o: int, v: int)
    requires
        lies(d, o, le32(v)),
        -0x8000_0000 <= v < 0x1_0000_0000,
    ensures
        0 <= v ==> u32_at(d, o) == v,
        v < 0x8000_0000 ==> i32_at(d, o) == v,
        u32_at(d, o) == twos(v, 0x1_0000_0000),
{
    lemma_lies_at(d, o, le32(v), 0);
    lemma_lies_at(d, o, le32(v), 1);
    lemma_lies_at(d, o, le32(v), 2);
    lemma_lies_at(d, o, le32(v), 3);
}

/// The zero that ends a text that was written is found.
pub proof fn law_zero_is_found(d: Seq<u8>, o: int, s: Seq<u8>)
    requires
        no_zero(s),
        lies(d, o, s.push(0)),
    ensures
        zero_from(d, o) == o + s.len(),
    decreases s.len(),
{
    lemma_lies_at(d, o, s.push(0), 0);
    if s.len() > 0 {
        assert(d[o] == s[0]);
        let t = s.drop_first();
        assert forall|i: int| 0 <= i < t.len() implies #[trigger] t[i] != 0 by {
            assert(t[i] == s[i + 1]);
        }
        assert(seq![s[0]] + t.push(0) =~= s.push(0));
        lemma_lies(d, o, seq![s[0]], t.push(0));
        law_zero_is_found(d, o + 1, t);
    }
}

} // verus!
