//! Bit streams packed least significant bit first within each byte.
use crate::bytes::to_i16;
use crate::text::lossy;
use vstd::arithmetic::power2::{lemma2_to64, lemma_pow2_pos, lemma_pow2_strictly_increases,
    lemma_pow2_unfold, pow2};
use vstd::prelude::*;

verus! {

/// A payload no longer than a slice can be, whose bits, and twice as many, can be
/// counted in 64 bits.
pub open spec fn countable(d: Seq<u8>) -> bool {
    d.len() <= isize::MAX && d.len() <= u64::MAX / 16
}

/// Bit `i` of a byte string.
pub open spec fn bit_at(d: Seq<u8>, i: int) -> int {
    (d[i / 8] as int / pow2((i % 8) as nat) as int) % 2
}

/// The `n` bits from bit `pos` on, the first read being the least significant.
pub open spec fn bits_at(d: Seq<u8>, pos: int, n: nat) -> int
    decreases n,
{
    if n == 0 {
        0
    } else {
        bits_at(d, pos, (n - 1) as nat) + bit_at(d, pos + n - 1) * pow2((n - 1) as nat)
    }
}

pub proof fn lemma_bits_bound(d: Seq<u8>, pos: int, n: nat)
    ensures
        0 <= bits_at(d, pos, n) < pow2(n),
    decreases n,
{
    lemma_pow2_pos(n);
    if n > 0 {
        lemma_bits_bound(d, pos, (n - 1) as nat);
        lemma_pow2_unfold(n);
        let b = bit_at(d, pos + n - 1);
        let w = pow2((n - 1) as nat) as int;
        assert(b * w == 0 || b * w == w) by (nonlinear_arith)
            requires
                b == 0 || b == 1,
        ;
    } else {
        vstd::arithmetic::power2::lemma2_to64();
    }
}

/// Bits that are read in two goes are those that are read in one.
pub proof fn law_bits_join(d: Seq<u8>, pos: int, n: nat, m: nat)
    ensures
        bits_at(d, pos, n + m) == bits_at(d, pos, n) + pow2(n) * bits_at(d, pos + n, m),
    decreases m,
{
    if m == 0 {
        assert(pow2(n) * bits_at(d, pos + n, 0) == 0);
    } else {
        let k = (m - 1) as nat;
        law_bits_join(d, pos, n, k);
        vstd::arithmetic::power2::lemma_pow2_adds(n, k);
        let b = bit_at(d, pos + n + m - 1);
        let (w, v, a) = (pow2(n) as int, pow2(k) as int, bits_at(d, pos + n, k));
        assert(n + m - 1 == n + k);
        assert(bits_at(d, pos + n, m) == a + b * v);
        assert(b * (w * v) + w * a == w * (a + b * v)) by (nonlinear_arith);
    }
}

/// Reads one bit of a byte string.
pub fn get_bit(d: &[u8], i: u64) -> (b: bool)
    requires
        i / 8 < d.len(),
    ensures
        b == (bit_at(d@, i as int) == 1),
{
    let x: u8 = d[(i / 8) as usize];
    let k: u8 = (i % 8) as u8;
    let y: u8 = x >> k;
    proof {
        vstd::bits::lemma_u8_shr_is_div(x, k);
        assert(y & 1 == y % 2) by (bit_vector);
    }
    y & 1 == 1
}

/// The `n` bits from bit `pos` on.
pub fn get_bits(d: &[u8], pos: u64, n: u32) -> (v: u32)
    requires
        n <= 32,
        pos + n <= 8 * d.len(),
        pos + n <= u64::MAX,
    ensures
        v == bits_at(d@, pos as int, n as nat),
        v < pow2(n as nat),
{
    let mut v: u64 = 0;
    let mut w: u64 = 1;
    let mut i: u32 = 0;
    proof {
        lemma2_to64();
    }
    while i < n
        invariant
            i <= n <= 32,
            pos + n <= 8 * d.len(),
            pos + n <= u64::MAX,
            w == pow2(i as nat),
            pow2(32) == 0x1_0000_0000,
            w <= 0x1_0000_0000,
            v == bits_at(d@, pos as int, i as nat),
            v < w,
        decreases n - i,
    {
        let b = get_bit(d, pos + i as u64);
        proof {
            lemma_pow2_unfold((i + 1) as nat);
            if i + 1 < 32 {
                lemma_pow2_strictly_increases((i + 1) as nat, 32);
            }
            lemma_bits_bound(d@, pos as int, (i + 1) as nat);
            let x = bit_at(d@, pos + i);
            let y = pow2(i as nat) as int;
            assert(x * y == if b { y } else { 0 }) by (nonlinear_arith)
                requires
                    x == if b { 1int } else { 0 },
            ;
        }
        if b {
            v = v + w;
        }
        w = w * 2;
        i = i + 1;
    }
    proof {
        lemma_bits_bound(d@, pos as int, n as nat);
        if n < 32 {
            lemma_pow2_strictly_increases(n as nat, 32);
        }
    }
    v as u32
}

/// What a name is made of.
pub open spec fn name_byte(b: u8) -> bool {
    48 <= b <= 57 || 65 <= b <= 90 || b == 95 || 97 <= b <= 122
}

/// Where a bit reader stands: the bytes, the next bit, and the bit at which it ends.
pub struct Cursor {
    pub d: Seq<u8>,
    pub pos: int,
    pub end: int,
}

impl Cursor {
    pub open spec fn has(self, n: int) -> bool {
        self.pos + n <= self.end
    }

    pub open spec fn val(self, n: nat) -> int {
        bits_at(self.d, self.pos, n)
    }

    pub open spec fn adv(self, n: int) -> Cursor {
        Cursor { pos: self.pos + n, ..self }
    }

    /// Bits left in the bytes, whatever the end is.
    pub open spec fn left(self) -> int {
        if 8 * self.d.len() > self.pos {
            8 * self.d.len() - self.pos
        } else {
            0
        }
    }

    /// An `n`-bit read: the value and where the reader stands then.
    pub open spec fn take(self, n: nat) -> Option<(int, Cursor)> {
        if self.has(n as int) {
            Some((self.val(n), self.adv(n as int)))
        } else {
            None
        }
    }

    /// Bytes up to a zero byte or `max` of them; the zero byte is consumed.
    pub open spec fn cstring(self, max: nat) -> Option<(Seq<u8>, Cursor)>
        decreases max,
    {
        if max == 0 {
            Some((Seq::empty(), self))
        } else if self.left() < 8 || !self.has(8) {
            None
        } else if self.val(8) == 0 {
            Some((Seq::empty(), self.adv(8)))
        } else {
            match self.adv(8).cstring((max - 1) as nat) {
                Some((s, c)) => Some((seq![self.val(8) as u8] + s, c)),
                None => None,
            }
        }
    }

    /// A string that is a name: ASCII letters, digits and underscores.
    pub open spec fn name(self, max: nat) -> Option<(Seq<char>, Cursor)> {
        match self.cstring(max) {
            Some((b, c)) => if forall|i: int| 0 <= i < b.len() ==> name_byte(#[trigger] b[i]) {
                Some((b.map_values(|x: u8| x as char), c))
            } else {
                None
            },
            None => None,
        }
    }

    /// A number of 4, 8, 12 or 32 bits, by what the first two bits say.
    pub open spec fn bit_var(self) -> Option<(int, Cursor)> {
        match self.take(2) {
            None => None,
            Some((k, c)) => c.take(
                if k == 0 {
                    4
                } else if k == 1 {
                    8
                } else if k == 2 {
                    12
                } else {
                    32
                },
            ),
        }
    }

    /// A number of six bits, of which the upper two may say that more of it follows:
    /// 4, 8 or 28 bits above the lower four.
    pub open spec fn ubit_int(self) -> Option<(int, Cursor)> {
        match self.take(6) {
            None => None,
            Some((v, c)) => if v < 16 {
                Some((v, c))
            } else {
                match c.take(
                    if v < 32 {
                        4
                    } else if v < 48 {
                        8
                    } else {
                        28
                    },
                ) {
                    Some((w, e)) => Some((v % 16 + 16 * w, e)),
                    None => None,
                }
            },
        }
    }

    /// Groups of seven bits, the lowest first, each but the last marked; the fifth
    /// is the last whatever it is marked.
    pub open spec fn var_u32(self, k: int) -> Option<(int, Cursor)>
        decreases 5 - k,
    {
        match self.take(8) {
            None => None,
            Some((b, c)) => if b < 128 || k >= 4 {
                Some((b % 128, c))
            } else {
                match c.var_u32(k + 1) {
                    Some((v, e)) => Some((b - 128 + 128 * v, e)),
                    None => None,
                }
            },
        }
    }

    /// `n` whole bytes, read bit by bit.
    pub open spec fn byte_seq(self, n: nat) -> Seq<u8> {
        Seq::new(n, |i: int| bits_at(self.d, self.pos + 8 * i, 8) as u8)
    }

    /// `n` bits packed into bytes; the last byte holds what is left of them.
    pub open spec fn packed(self, n: nat) -> Seq<u8> {
        Seq::new(
            (n + 7) / 8,
            |i: int|
                bits_at(
                    self.d,
                    self.pos + 8 * i,
                    if 8 * i + 8 <= n {
                        8
                    } else {
                        (n - 8 * i) as nat
                    },
                ) as u8,
        )
    }
}

/// A string stands in the bytes that it is read from.
pub proof fn lemma_cstring_onward(c: Cursor, max: nat)
    ensures
        c.cstring(max) matches Some((_, e)) ==> e.d == c.d && e.end == c.end && e.pos >= c.pos && (
        max > 0 ==> e.pos > c.pos),
    decreases max,
{
    if max > 0 && c.has(8) && c.val(8) != 0 {
        lemma_cstring_onward(c.adv(8), (max - 1) as nat);
    }
}

/// Reads of up to 32 bits from a byte slice, none beyond `max_bit`.
pub struct BitReader<'a> {
    data: &'a [u8],
    bit_pos: u64,
    max_bit: u64,
}

impl<'a> BitReader<'a> {
    pub closed spec fn view(&self) -> Cursor {
        Cursor { d: self.data@, pos: self.bit_pos as int, end: self.max_bit as int }
    }

    pub closed spec fn wf(&self) -> bool {
        &&& countable(self.data@)
        &&& self.max_bit <= 8 * self.data@.len()
    }

    pub proof fn lemma_wf(&self)
        requires
            self.wf(),
        ensures
            0 <= self@.pos <= u64::MAX,
            0 <= self@.end <= 8 * self@.d.len() <= u64::MAX,
            countable(self@.d),
    {
    }

    pub fn new(data: &'a [u8]) -> (r: Self)
        requires
            countable(data@),
        ensures
            r.wf(),
            r@ == (Cursor { d: data@, pos: 0, end: 8 * data@.len() as int }),
    {
        BitReader { data, bit_pos: 0, max_bit: data.len() as u64 * 8 }
    }

    pub fn new_at(data: &'a [u8], pos: u64) -> (r: Self)
        requires
            countable(data@),
        ensures
            r.wf(),
            r@ == (Cursor { d: data@, pos: pos as int, end: 8 * data@.len() as int }),
    {
        BitReader { data, bit_pos: pos, max_bit: data.len() as u64 * 8 }
    }

    pub fn bit_pos(&self) -> (p: u64)
        ensures
            p == self@.pos,
    {
        self.bit_pos
    }

    pub fn set_bit_pos(&mut self, pos: u64)
        requires
            old(self).wf(),
        ensures
            final(self).wf(),
            final(self)@ == (Cursor { pos: pos as int, ..old(self)@ }),
    {
        self.bit_pos = pos;
    }

    /// Ends the reader at bit `end`, or at the end of its bytes if that comes first.
    pub fn set_max_bit(&mut self, end: u64)
        requires
            old(self).wf(),
        ensures
            final(self).wf(),
            final(self)@ == (Cursor {
                end: if end <= 8 * old(self)@.d.len() {
                    end as int
                } else {
                    8 * old(self)@.d.len() as int
                },
                ..old(self)@
            }),
    {
        let total: u64 = self.data.len() as u64 * 8;
        self.max_bit = if end <= total {
            end
        } else {
            total
        };
    }

    pub fn has_bits(&self, n: u64) -> (r: bool)
        requires
            self.wf(),
        ensures
            r == self@.has(n as int),
    {
        self.bit_pos <= self.max_bit && n <= self.max_bit - self.bit_pos
    }

    /// Reads `n` bits; none, and nothing is read, where fewer are left.
    pub fn read_bits(&mut self, n: u32) -> (r: Option<u32>)
        requires
            old(self).wf(),
            n <= 32,
        ensures
            final(self).wf(),
            match r {
                Some(v) => old(self)@.take(n as nat) == Some((v as int, final(self)@)) && v < pow2(
                    n as nat,
                ),
                None => !old(self)@.has(n as int) && final(self)@ == old(self)@,
            },
    {
        if !self.has_bits(n as u64) {
            return None;
        }
        let v: u32 = get_bits(self.data, self.bit_pos, n);
        self.bit_pos = self.bit_pos + n as u64;
        Some(v)
    }

    pub fn read_bool(&mut self) -> (r: Option<bool>)
        requires
            old(self).wf(),
        ensures
            final(self).wf(),
            match r {
                Some(b) => old(self)@.has(1) && b == (old(self)@.val(1) == 1) && final(self)@ == old(
                    self,
                )@.adv(1),
                None => !old(self)@.has(1) && final(self)@ == old(self)@,
            },
    {
        proof {
            lemma2_to64();
        }
        match self.read_bits(1) {
            Some(v) => Some(v == 1),
            None => None,
        }
    }

    pub fn read_u32(&mut self) -> (r: Option<u32>)
        requires
            old(self).wf(),
        ensures
            final(self).wf(),
            match r {
                Some(v) => old(self)@.take(32) == Some((v as int, final(self)@)),
                None => !old(self)@.has(32) && final(self)@ == old(self)@,
            },
    {
        self.read_bits(32)
    }

    /// The raw IEEE-754 bits of a float field.
    pub fn read_bit_float(&mut self) -> (r: Option<u32>)
        requires
            old(self).wf(),
        ensures
            final(self).wf(),
            match r {
                Some(v) => old(self)@.take(32) == Some((v as int, final(self)@)),
                None => !old(self)@.has(32) && final(self)@ == old(self)@,
            },
    {
        self.read_u32()
    }

    pub fn read_i16(&mut self) -> (r: Option<i16>)
        requires
            old(self).wf(),
        ensures
            final(self).wf(),
            match r {
                Some(v) => old(self)@.has(16) && v == crate::bytes::signed16(old(self)@.val(16))
                    && final(self)@ == old(self)@.adv(16),
                None => !old(self)@.has(16) && final(self)@ == old(self)@,
            },
    {
        proof {
            lemma2_to64();
        }
        match self.read_bits(16) {
            Some(v) => Some(to_i16(v as u16)),
            None => None,
        }
    }

    pub fn read_byte(&mut self) -> (r: Option<u8>)
        requires
            old(self).wf(),
        ensures
            final(self).wf(),
            match r {
                Some(v) => old(self)@.take(8) == Some((v as int, final(self)@)),
                None => !old(self)@.has(8) && final(self)@ == old(self)@,
            },
    {
        proof {
            lemma2_to64();
        }
        match self.read_bits(8) {
            Some(v) => Some(v as u8),
            None => None,
        }
    }

    /// Passes over `n` bits if that many are left.
    pub fn skip(&mut self, n: u32) -> (ok: bool)
        requires
            old(self).wf(),
        ensures
            final(self).wf(),
            ok == old(self)@.has(n as int),
            final(self)@ == if ok {
                old(self)@.adv(n as int)
            } else {
                old(self)@
            },
    {
        if self.bit_pos <= self.max_bit && n as u64 <= self.max_bit - self.bit_pos {
            self.bit_pos = self.bit_pos + n as u64;
            true
        } else {
            false
        }
    }

    /// How many bits are left.
    pub fn bits_remaining(&self) -> (r: u64)
        requires
            self.wf(),
        ensures
            r == self@.left(),
    {
        let total: u64 = self.data.len() as u64 * 8;
        if total > self.bit_pos {
            total - self.bit_pos
        } else {
            0
        }
    }

    /// The bytes of a zero-terminated string of at most `max` bytes.
    pub fn read_cstring_bytes(&mut self, max: usize) -> (r: Option<Vec<u8>>)
        requires
            old(self).wf(),
        ensures
            final(self).wf(),
            final(self)@.d == old(self)@.d,
            final(self)@.end == old(self)@.end,
            match r {
                Some(s) => old(self)@.cstring(max as nat) == Some((s@, final(self)@)),
                None => old(self)@.cstring(max as nat) is None,
            },
    {
        let ghost c0 = self@;
        let mut out: Vec<u8> = Vec::new();
        let mut i: usize = 0;
        proof {
            lemma2_to64();
            assert(Seq::<u8>::empty() + Seq::<u8>::empty() =~= Seq::<u8>::empty());
        }
        while i < max
            invariant
                self.wf(),
                i <= max,
                pow2(8) == 256,
                c0 == old(self)@,
                self@.d == c0.d,
                self@.end == c0.end,
                match (self@.cstring((max - i) as nat), c0.cstring(max as nat)) {
                    (Some((s, c)), Some((s0, cc0))) => s0 =~= out@ + s && cc0 == c,
                    (None, None) => true,
                    _ => false,
                },
            decreases max - i,
        {
            if self.bits_remaining() < 8 {
                return None;
            }
            let ghost c = self@;
            match self.read_byte() {
                None => {
                    return None;
                },
                Some(b) => {
                    assert(c.val(8) == b);
                    if b == 0 {
                        assert(out@ + Seq::<u8>::empty() =~= out@);
                        return Some(out);
                    }
                    out.push(b);
                    proof {
                        match self@.cstring((max - i - 1) as nat) {
                            Some((s, _)) => {
                                assert(out@.drop_last() + (seq![b] + s) =~= out@ + s);
                            },
                            None => {},
                        }
                    }
                },
            }
            i += 1;
        }
        assert(out@ + Seq::<u8>::empty() =~= out@);
        Some(out)
    }

    /// `n` whole bytes.
    pub fn read_byte_vec(&mut self, n: usize) -> (r: Option<Vec<u8>>)
        requires
            old(self).wf(),
            n <= 0x1_0000,
        ensures
            final(self).wf(),
            match r {
                Some(v) => old(self)@.has(8 * n) && v@ == old(self)@.byte_seq(n as nat)
                    && final(self)@ == old(self)@.adv(8 * n),
                None => !old(self)@.has(8 * n) && final(self)@ == old(self)@,
            },
    {
        if !self.has_bits(8 * n as u64) {
            return None;
        }
        let mut out: Vec<u8> = Vec::new();
        let mut i: usize = 0;
        let start: u64 = self.bit_pos;
        proof {
            lemma2_to64();
        }
        while i < n
            invariant
                i <= n <= 0x1_0000,
                self.wf(),
                self == old(self),
                start == self.bit_pos,
                start + 8 * n <= self.max_bit,
                pow2(8) == 256,
                out@.len() == i,
                forall|k: int| 0 <= k < i ==> out@[k] == bits_at(self@.d, start + 8 * k, 8) as u8,
            decreases n - i,
        {
            let v: u32 = get_bits(self.data, start + 8 * i as u64, 8);
            out.push(v as u8);
            i += 1;
        }
        self.bit_pos = start + 8 * n as u64;
        assert(out@ =~= old(self)@.byte_seq(n as nat));
        Some(out)
    }

    /// `n_bits` bits packed into bytes.
    pub fn read_bits_as_bytes(&mut self, n_bits: u32) -> (r: Option<Vec<u8>>)
        requires
            old(self).wf(),
        ensures
            final(self).wf(),
            match r {
                Some(v) => old(self)@.has(n_bits as int) && v@ == old(self)@.packed(n_bits as nat)
                    && final(self)@ == old(self)@.adv(n_bits as int),
                None => !old(self)@.has(n_bits as int) && final(self)@ == old(self)@,
            },
    {
        if self.bit_pos > self.max_bit || n_bits as u64 > self.max_bit - self.bit_pos {
            return None;
        }
        let mut out: Vec<u8> = Vec::new();
        let start: u64 = self.bit_pos;
        let n: u64 = n_bits as u64;
        let mut i: u64 = 0;
        proof {
            lemma2_to64();
        }
        while i + 8 <= n
            invariant
                i <= n,
                i % 8 == 0,
                self.wf(),
                self == old(self),
                start == self.bit_pos,
                start + n <= self.max_bit,
                n == n_bits,
                pow2(8) == 256,
                out@.len() == i / 8,
                forall|k: int|
                    0 <= k < i / 8 ==> out@[k] == bits_at(self@.d, start + 8 * k, 8) as u8,
            decreases n - i,
        {
            let v: u32 = get_bits(self.data, start + i, 8);
            out.push(v as u8);
            i += 8;
        }
        if i < n {
            let v: u32 = get_bits(self.data, start + i, (n - i) as u32);
            proof {
                lemma_pow2_strictly_increases((n - i) as nat, 8);
            }
            out.push(v as u8);
        }
        self.bit_pos = start + n;
        assert(out@ =~= old(self)@.packed(n_bits as nat));
        Some(out)
    }

    /// A zero-terminated string, ill-formed bytes replaced.
    pub fn read_cstring_any(&mut self, max: usize) -> (r: Option<String>)
        requires
            old(self).wf(),
        ensures
            final(self).wf(),
            final(self)@.d == old(self)@.d,
            final(self)@.end == old(self)@.end,
            match r {
                Some(s) => old(self)@.cstring(max as nat) matches Some((b, c)) && s@
                    == crate::text::lossy_chars(b) && final(self)@ == c,
                None => old(self)@.cstring(max as nat) is None,
            },
    {
        match self.read_cstring_bytes(max) {
            Some(b) => Some(lossy(b.as_slice())),
            None => None,
        }
    }

    /// A zero-terminated name, none where a byte is no part of a name.
    pub fn try_read_cstring(&mut self, max: usize) -> (r: Option<String>)
        requires
            old(self).wf(),
        ensures
            final(self).wf(),
            final(self)@.d == old(self)@.d,
            final(self)@.end == old(self)@.end,
            match (r, old(self)@.name(max as nat)) {
                (Some(s), Some((t, c))) => s@ == t && final(self)@ == c,
                (None, None) => true,
                _ => false,
            },
    {
        let b = match self.read_cstring_bytes(max) {
            Some(b) => b,
            None => {
                return None;
            },
        };
        let mut s = String::new();
        let mut i: usize = 0;
        while i < b.len()
            invariant
                i <= b@.len(),
                self.wf(),
                self@.d == old(self)@.d,
                self@.end == old(self)@.end,
                old(self)@.cstring(max as nat) == Some((b@, self@)),
                forall|k: int| 0 <= k < i ==> name_byte(#[trigger] b@[k]),
                s@ == b@.take(i as int).map_values(|x: u8| x as char),
            decreases b@.len() - i,
        {
            let x: u8 = b[i];
            let ok = (48 <= x && x <= 57) || (65 <= x && x <= 90) || x == 95 || (97 <= x && x
                <= 122);
            if !ok {
                assert(!name_byte(b@[i as int]));
                return None;
            }
            s.push(x as char);
            assert(s@ =~= b@.take(i + 1).map_values(|x: u8| x as char));
            i += 1;
        }
        assert(b@.take(i as int) =~= b@);
        Some(s)
    }

    /// Reads a number whose first two bits give its width.
    pub fn read_bit_var(&mut self) -> (r: Option<u32>)
        requires
            old(self).wf(),
        ensures
            final(self).wf(),
            final(self)@.d == old(self)@.d,
            match (r, old(self)@.bit_var()) {
                (Some(v), Some((w, c))) => v == w && final(self)@ == c,
                (None, None) => true,
                _ => false,
            },
    {
        let k: u32 = match self.read_bits(2) {
            Some(k) => k,
            None => {
                return None;
            },
        };
        let n: u32 = if k == 0 {
            4
        } else if k == 1 {
            8
        } else if k == 2 {
            12
        } else {
            32
        };
        self.read_bits(n)
    }

    /// Reads a number of six bits that may say that more of it follows.
    pub fn read_ubit_int(&mut self) -> (r: Option<u32>)
        requires
            old(self).wf(),
        ensures
            final(self).wf(),
            final(self)@.d == old(self)@.d,
            match (r, old(self)@.ubit_int()) {
                (Some(v), Some((w, c))) => v == w && final(self)@ == c,
                (None, None) => true,
                _ => false,
            },
    {
        proof {
            lemma2_to64();
            vstd::arithmetic::power2::lemma_pow2_adds(16, 12);
        }
        let v: u32 = match self.read_bits(6) {
            Some(v) => v,
            None => {
                return None;
            },
        };
        if v < 16 {
            return Some(v);
        }
        let n: u32 = if v < 32 {
            4
        } else if v < 48 {
            8
        } else {
            28
        };
        match self.read_bits(n) {
            Some(w) => Some(v % 16 + 16 * w),
            None => None,
        }
    }

    /// A number in groups of seven bits; what does not fit in 32 bits is dropped.
    pub fn read_var_u32(&mut self) -> (r: Option<u32>)
        requires
            old(self).wf(),
        ensures
            final(self).wf(),
            final(self)@.d == old(self)@.d,
            match (r, old(self)@.var_u32(0)) {
                (Some(v), Some((w, c))) => v as int == w % 0x1_0000_0000 && final(self)@ == c,
                (None, None) => true,
                _ => false,
            },
    {
        let ghost c0 = self@;
        let mut acc: u64 = 0;
        let mut w: u64 = 1;
        let mut k: u32 = 0;
        proof {
            lemma2_to64();
        }
        loop
            invariant
                self.wf(),
                self@.d == old(self)@.d,
                c0 == old(self)@,
                k <= 4,
                pow2(8) == 256,
                w == pow2((7 * k) as nat),
                w <= 0x1000_0000,
                acc < w,
                match (c0.var_u32(0), self@.var_u32(k as int)) {
                    (Some((v, e)), Some((x, f))) => v == acc + w * x && e == f,
                    (None, None) => true,
                    _ => false,
                },
            decreases 5 - k,
        {
            match self.read_bits(8) {
                None => {
                    return None;
                },
                Some(b) => {
                    let low: u64 = (b % 128) as u64;
                    proof {
                        vstd::arithmetic::power2::lemma_pow2_adds((7 * k) as nat, 7);
                        lemma2_to64();
                        assert(w * low <= w * 127) by (nonlinear_arith)
                            requires
                                low <= 127,
                                w >= 1,
                        ;
                        assert(w * low + acc < w * 128) by (nonlinear_arith)
                            requires
                                low <= 127,
                                acc < w,
                        ;
                        if k < 3 {
                            lemma_pow2_strictly_increases((7 * k + 7) as nat, 28);
                        }
                    }
                    if b < 128 || k >= 4 {
                        return Some(((acc + w * low) % 0x1_0000_0000) as u32);
                    }
                    proof {
                        let a0 = acc as int;
                        let w0 = w as int;
                        let l0 = low as int;
                        match self@.var_u32(k + 1) {
                            Some((x, _)) => {
                                assert(a0 + w0 * (l0 + 128 * x) == (a0 + w0 * l0) + (w0 * 128) * x)
                                    by (nonlinear_arith);
                            },
                            None => {},
                        }
                    }
                    acc = acc + w * low;
                    w = w * 128;
                    k += 1;
                },
            }
        }
    }
}

} // verus!
