//! Text decoding and building.
use vstd::prelude::*;
use vstd::utf8::{decode_utf8, valid_utf8};

verus! {

/// What `String::from_utf8_lossy` makes of a byte string.
pub uninterp spec fn lossy_chars(bytes: Seq<u8>) -> Seq<char>;

/// What `str::to_lowercase` makes of a text.
pub uninterp spec fn lower_chars(text: Seq<char>) -> Seq<char>;

/// Calls `String::from_utf8_lossy`: the result is a function of the bytes, and
/// on valid UTF-8 it is the text that the bytes encode. How ill-formed bytes are
/// replaced is left to the name.
#[verifier::external_body]
pub(crate) fn lossy(bytes: &[u8]) -> (s: String)
    ensures
        s@ == lossy_chars(bytes@),
        valid_utf8(bytes@) ==> s@ == decode_utf8(bytes@),
{
    String::from_utf8_lossy(bytes).into_owned()
}

/// Calls `std::str::from_utf8`: succeeds exactly on valid UTF-8, with the text
/// that the bytes encode.
#[verifier::external_body]
pub(crate) fn utf8(bytes: &[u8]) -> (r: Option<String>)
    ensures
        r is Some <==> valid_utf8(bytes@),
        r is Some ==> r->0@ == decode_utf8(bytes@),
{
    std::str::from_utf8(bytes).ok().map(String::from)
}

/// Calls `str::to_lowercase`, whose result is a function of the text.
#[verifier::external_body]
pub(crate) fn lowercase(text: &str) -> (s: String)
    ensures
        s@ == lower_chars(text@),
{
    text.to_lowercase()
}

/// Whether a character is white space, as Unicode has it.
pub open spec fn blank(c: char) -> bool {
    let n = c as u32;
    ||| 9 <= n <= 13
    ||| n == 32
    ||| n == 0x85
    ||| n == 0xa0
    ||| n == 0x1680
    ||| 0x2000 <= n <= 0x200a
    ||| 0x2028 <= n <= 0x2029
    ||| n == 0x202f
    ||| n == 0x205f
    ||| n == 0x3000
}

fn is_blank(c: char) -> (r: bool)
    ensures
        r == blank(c),
{
    let n: u32 = c as u32;
    (9 <= n && n <= 13) || n == 32 || n == 0x85 || n == 0xa0 || n == 0x1680 || (0x2000 <= n && n
        <= 0x200a) || (0x2028 <= n && n <= 0x2029) || n == 0x202f || n == 0x205f || n == 0x3000
}

/// The first place from `i` on whose character is white space, or is not.
pub open spec fn run_end(s: Seq<char>, i: int, white: bool) -> int
    decreases s.len() - i,
{
    if i < 0 || i >= s.len() || blank(s[i]) != white {
        i
    } else {
        run_end(s, i + 1, white)
    }
}

/// Without the white space at its end.
pub open spec fn without_blank_end(s: Seq<char>) -> Seq<char>
    decreases s.len(),
{
    if s.len() > 0 && blank(s.last()) {
        without_blank_end(s.drop_last())
    } else {
        s
    }
}

/// A text without the white space around it.
pub open spec fn trimmed(text: Seq<char>) -> Seq<char> {
    without_blank_end(text.skip(run_end(text, 0, true)))
}

proof fn lemma_run_end(s: Seq<char>, i: int, white: bool)
    requires
        0 <= i <= s.len(),
    ensures
        i <= run_end(s, i, white) <= s.len(),
        i < s.len() && blank(s[i]) == white ==> run_end(s, i, white) > i,
    decreases s.len() - i,
{
    if i < s.len() && blank(s[i]) == white {
        lemma_run_end(s, i + 1, white);
    }
}

fn find_run_end(v: &Vec<char>, i: usize, white: bool) -> (r: usize)
    requires
        i <= v@.len(),
    ensures
        r == run_end(v@, i as int, white),
        i <= r <= v@.len(),
{
    let mut k: usize = i;
    while k < v.len() && is_blank(v[k]) == white
        invariant
            i <= k <= v@.len(),
            run_end(v@, i as int, white) == run_end(v@, k as int, white),
        decreases v@.len() - k,
    {
        k += 1;
    }
    k
}

/// The characters of `v` from `a` to `b`.
fn part_of(v: &Vec<char>, a: usize, b: usize) -> (r: Vec<char>)
    requires
        a <= b <= v@.len(),
    ensures
        r@ == v@.subrange(a as int, b as int),
{
    let mut out: Vec<char> = Vec::new();
    let mut i: usize = a;
    while i < b
        invariant
            a <= i <= b <= v@.len(),
            out@ == v@.subrange(a as int, i as int),
        decreases b - i,
    {
        out.push(v[i]);
        assert(v@.subrange(a as int, i + 1) =~= v@.subrange(a as int, i as int).push(v@[i as int]));
        i += 1;
    }
    out
}

pub(crate) fn trim(text: &str) -> (s: String)
    ensures
        s@ == trimmed(text@),
{
    let v = chars_of(text);
    let a: usize = find_run_end(&v, 0, true);
    let mut w = part_of(&v, a, v.len());
    assert(w@ =~= text@.skip(a as int));
    let ghost s = w@;
    while w.len() > 0 && is_blank(w[w.len() - 1])
        invariant
            without_blank_end(s) == without_blank_end(w@),
        decreases w@.len(),
    {
        w.pop();
    }
    text_of(w.as_slice())
}

/// The words of a text from place `i` on: what stands between white space.
pub open spec fn words_from(s: Seq<char>, i: int) -> Seq<Seq<char>>
    decreases s.len() - i,
    via words_from_decreases
{
    let a = run_end(s, i, true);
    if i < 0 || a >= s.len() {
        Seq::empty()
    } else {
        let b = run_end(s, a, false);
        seq![s.subrange(a, b)] + words_from(s, b)
    }
}

#[via_fn]
proof fn words_from_decreases(s: Seq<char>, i: int) {
    if 0 <= i <= s.len() {
        lemma_run_end(s, i, true);
        let a = run_end(s, i, true);
        lemma_run_end(s, a, false);
        lemma_stops(s, i, true);
    }
}

proof fn lemma_stops(s: Seq<char>, i: int, white: bool)
    requires
        0 <= i <= s.len(),
    ensures
        run_end(s, i, white) < s.len() ==> blank(s[run_end(s, i, white)]) != white,
    decreases s.len() - i,
{
    if i < s.len() && blank(s[i]) == white {
        lemma_stops(s, i + 1, white);
    }
}

/// The words of a text.
pub open spec fn words(text: Seq<char>) -> Seq<Seq<char>> {
    words_from(text, 0)
}

pub(crate) fn split_words(text: &str) -> (r: Vec<String>)
    ensures
        texts(r@) == words(text@),
{
    let v = chars_of(text);
    let mut out: Vec<String> = Vec::new();
    let mut i: usize = 0;
    assert(texts(out@) + words(text@) =~= words(text@));
    loop
        invariant
            v@ == text@,
            i <= v@.len(),
            words(text@) == texts(out@) + words_from(text@, i as int),
        decreases v@.len() - i,
    {
        let a: usize = find_run_end(&v, i, true);
        if a >= v.len() {
            assert(texts(out@) + Seq::<Seq<char>>::empty() =~= texts(out@));
            return out;
        }
        proof {
            lemma_stops(v@, i as int, true);
            lemma_run_end(v@, a as int, false);
        }
        let b: usize = find_run_end(&v, a, false);
        let w = part_of(&v, a, b);
        let word = text_of(w.as_slice());
        let ghost head = texts(out@);
        let ghost one = word@;
        let ghost rest = words_from(text@, b as int);
        out.push(word);
        assert(texts(out@) =~= head.push(one));
        assert(head + (seq![one] + rest) =~= head.push(one) + rest);
        i = b;
    }
}

/// White space around a text does not count, and what is left has none around it.
pub proof fn law_trimmed(text: Seq<char>)
    ensures
        trimmed(text).len() > 0 ==> !blank(trimmed(text)[0]) && !blank(trimmed(text).last()),
{
    lemma_run_end(text, 0, true);
    lemma_stops(text, 0, true);
    let s = text.skip(run_end(text, 0, true));
    lemma_end_kept(s);
    if s.len() > 0 {
        assert(s[0] == text[run_end(text, 0, true)]);
    }
}

proof fn lemma_end_kept(s: Seq<char>)
    ensures
        without_blank_end(s).len() <= s.len(),
        without_blank_end(s).len() > 0 ==> without_blank_end(s)[0] == s[0] && !blank(
            without_blank_end(s).last(),
        ),
    decreases s.len(),
{
    if s.len() > 0 && blank(s.last()) {
        lemma_end_kept(s.drop_last());
    }
}

/// `String::push` appends one character.
pub assume_specification[ std::string::String::push ](s: &mut std::string::String, c: char)
    ensures
        final(s)@ == old(s)@.push(c),
;

/// `String::push_str` appends a text.
pub assume_specification[ std::string::String::push_str ](s: &mut std::string::String, t: &str)
    ensures
        final(s)@ == old(s)@ + t@,
;

/// The character of a decimal digit.
pub open spec fn digit(n: nat) -> char {
    (48 + n % 10) as char
}

/// A number in decimal, without leading zeros.
pub open spec fn decimal(n: nat) -> Seq<char>
    decreases n,
{
    if n < 10 {
        seq![digit(n)]
    } else {
        decimal(n / 10).push(digit(n))
    }
}

/// An integer in decimal, a minus sign in front of a negative one.
pub open spec fn signed_decimal(n: int) -> Seq<char> {
    if n < 0 {
        seq!['-'] + decimal((-n) as nat)
    } else {
        decimal(n as nat)
    }
}

fn digit_char(n: u64) -> (c: char)
    ensures
        c == digit(n as nat),
{
    ((48 + n % 10) as u8) as char
}

/// Appends a number in decimal.
pub fn push_decimal(s: &mut String, n: u64)
    ensures
        final(s)@ == old(s)@ + decimal(n as nat),
    decreases n,
{
    if n >= 10 {
        push_decimal(s, n / 10);
        s.push(digit_char(n));
        assert(s@ =~= old(s)@ + decimal(n as nat));
    } else {
        s.push(digit_char(n));
        assert(s@ =~= old(s)@ + decimal(n as nat));
    }
}

/// Appends an integer in decimal.
pub fn push_signed(s: &mut String, n: i64)
    ensures
        final(s)@ == old(s)@ + signed_decimal(n as int),
{
    if n < 0 {
        s.push('-');
        let m: u64 = if n == i64::MIN {
            0x8000_0000_0000_0000
        } else {
            (-n) as u64
        };
        push_decimal(s, m);
        assert(s@ =~= old(s)@ + signed_decimal(n as int));
    } else {
        push_decimal(s, n as u64);
    }
}

/// Equality of byte strings.
pub fn bytes_eq(a: &[u8], b: &[u8]) -> (r: bool)
    ensures
        r == (a@ == b@),
{
    if a.len() != b.len() {
        return false;
    }
    let mut i: usize = 0;
    while i < a.len()
        invariant
            i <= a.len() == b.len(),
            forall|k: int| 0 <= k < i ==> a@[k] == b@[k],
        decreases a.len() - i,
    {
        if a[i] != b[i] {
            assert(a@[i as int] != b@[i as int]);
            return false;
        }
        i += 1;
    }
    assert(a@ =~= b@);
    true
}

/// Equality of texts.
pub fn str_eq(a: &str, b: &str) -> (r: bool)
    ensures
        r == (a@ == b@),
{
    proof {
        vstd::utf8::encode_utf8_decode_utf8(a@);
        vstd::utf8::encode_utf8_decode_utf8(b@);
    }
    bytes_eq(a.as_bytes(), b.as_bytes())
}

/// Whether a text is empty.
pub fn is_empty_text(s: &str) -> (r: bool)
    ensures
        r == (s@.len() == 0),
{
    proof {
        reveal_strlit("");
        assert(s@.len() == 0 ==> s@ =~= ""@);
    }
    str_eq(s, "")
}

/// The characters of a text.
pub fn chars_of(s: &str) -> (r: Vec<char>)
    ensures
        r@ == s@,
{
    let mut out: Vec<char> = Vec::new();
    for c in it: s.chars()
        invariant
            it.seq() == s@,
            out@ == it.seq().take(it.index() as int),
    {
        out.push(c);
    }
    assert(s@.take(s@.len() as int) =~= s@);
    out
}

/// A text made of characters.
pub fn text_of(cs: &[char]) -> (r: String)
    ensures
        r@ == cs@,
{
    let mut out = String::new();
    let mut i: usize = 0;
    while i < cs.len()
        invariant
            i <= cs@.len(),
            out@ == cs@.take(i as int),
        decreases cs@.len() - i,
    {
        out.push(cs[i]);
        i += 1;
        assert(cs@.take(i as int) =~= cs@.take(i - 1).push(cs@[i - 1]));
    }
    assert(cs@.take(i as int) =~= cs@);
    out
}

/// Whether `pat` stands at place `i` of `s`.
pub open spec fn occurs_at(s: Seq<char>, pat: Seq<char>, i: int) -> bool {
    0 <= i && i + pat.len() <= s.len() && s.subrange(i, i + pat.len()) == pat
}

/// Whether a text stands at a place in another.
pub fn stands_at(s: &[char], pat: &[char], i: usize) -> (r: bool)
    ensures
        r == occurs_at(s@, pat@, i as int),
{
    if i > s.len() || pat.len() > s.len() - i {
        return false;
    }
    let mut k: usize = 0;
    while k < pat.len()
        invariant
            k <= pat@.len(),
            i + pat@.len() <= s@.len() <= usize::MAX,
            forall|j: int| 0 <= j < k ==> s@[i + j] == pat@[j],
        decreases pat@.len() - k,
    {
        if s[i + k] != pat[k] {
            assert(s@.subrange(i as int, i + pat@.len())[k as int] != pat@[k as int]);
            return false;
        }
        k += 1;
    }
    assert(s@.subrange(i as int, i + pat@.len()) =~= pat@);
    true
}

/// Whether a text starts with another.
pub open spec fn begins(s: Seq<char>, pat: Seq<char>) -> bool {
    occurs_at(s, pat, 0)
}

pub fn text_begins(s: &str, pat: &str) -> (r: bool)
    ensures
        r == begins(s@, pat@),
{
    let a = chars_of(s);
    let b = chars_of(pat);
    stands_at(a.as_slice(), b.as_slice(), 0)
}

/// Whether a text holds another.
pub open spec fn holds(s: Seq<char>, pat: Seq<char>) -> bool {
    exists|i: int| occurs_at(s, pat, i)
}

pub fn text_holds(s: &str, pat: &str) -> (r: bool)
    ensures
        r == holds(s@, pat@),
{
    let a = chars_of(s);
    let b = chars_of(pat);
    let mut i: usize = 0;
    while i < a.len()
        invariant
            a@ == s@,
            b@ == pat@,
            i <= a@.len(),
            forall|j: int| 0 <= j < i ==> !occurs_at(s@, pat@, j),
        decreases a@.len() - i,
    {
        if stands_at(a.as_slice(), b.as_slice(), i) {
            return true;
        }
        i += 1;
    }
    stands_at(a.as_slice(), b.as_slice(), i)
}

/// Whether a text ends with another.
pub open spec fn ends(s: Seq<char>, pat: Seq<char>) -> bool {
    pat.len() <= s.len() && occurs_at(s, pat, s.len() - pat.len())
}

pub fn text_ends(s: &str, pat: &str) -> (r: bool)
    ensures
        r == ends(s@, pat@),
{
    let a = chars_of(s);
    let b = chars_of(pat);
    if b.len() > a.len() {
        return false;
    }
    stands_at(a.as_slice(), b.as_slice(), a.len() - b.len())
}

/// A letter of the Latin alphabet in lower case; any other character as it is.
pub open spec fn small(c: char) -> char {
    if 'A' <= c && c <= 'Z' {
        (c as u32 + 32) as char
    } else {
        c
    }
}

fn small_char(c: char) -> (r: char)
    ensures
        r == small(c),
{
    if 'A' <= c && c <= 'Z' {
        ((c as u32 + 32) as u8) as char
    } else {
        c
    }
}

/// Equal but for the case of Latin letters.
pub open spec fn same_letters(a: Seq<char>, b: Seq<char>) -> bool {
    a.len() == b.len() && forall|i: int| 0 <= i < a.len() ==> small(#[trigger] a[i]) == small(b[i])
}

pub fn letters_eq(a: &[char], b: &[char]) -> (r: bool)
    ensures
        r == same_letters(a@, b@),
{
    if a.len() != b.len() {
        return false;
    }
    let mut i: usize = 0;
    while i < a.len()
        invariant
            a@.len() == b@.len(),
            i <= a@.len(),
            forall|k: int| 0 <= k < i ==> small(#[trigger] a@[k]) == small(b@[k]),
        decreases a@.len() - i,
    {
        if small_char(a[i]) != small_char(b[i]) {
            return false;
        }
        i += 1;
    }
    true
}

pub open spec fn is_digit(c: char) -> bool {
    '0' <= c && c <= '9'
}

/// The number that the digits up to `n` write.
pub open spec fn digits_value(s: Seq<char>, from: int, n: int) -> int
    decreases n - from,
{
    if n <= from {
        0
    } else {
        10 * digits_value(s, from, n - 1) + (s[n - 1] as int - 48)
    }
}

/// The sign and the digits of a whole number: the place of the first digit.
pub open spec fn digits_start(s: Seq<char>, signed: bool) -> int {
    if s.len() > 0 && (s[0] == '+' || (signed && s[0] == '-')) {
        1
    } else {
        0
    }
}

/// The whole number that a text writes: digits behind an optional sign, nothing
/// else.
pub open spec fn whole_number(s: Seq<char>, signed: bool) -> Option<int> {
    let from = digits_start(s, signed);
    if from < s.len() && forall|i: int| from <= i < s.len() ==> is_digit(#[trigger] s[i]) {
        let v = digits_value(s, from, s.len() as int);
        Some(
            if signed && s[0] == '-' {
                -v
            } else {
                v
            },
        )
    } else {
        None
    }
}

pub proof fn lemma_digits_grow(s: Seq<char>, from: int, n: int, m: int)
    requires
        0 <= from <= n <= m <= s.len(),
        forall|i: int| from <= i < s.len() ==> is_digit(#[trigger] s[i]),
    ensures
        0 <= digits_value(s, from, n) <= digits_value(s, from, m),
    decreases m,
{
    if n < m {
        lemma_digits_grow(s, from, n, m - 1);
        assert(is_digit(s[m - 1]));
    } else if n > from {
        lemma_digits_grow(s, from, n - 1, n - 1);
        assert(is_digit(s[n - 1]));
    }
}

/// A decimal holds digits only.
pub proof fn lemma_decimal_digits(n: nat)
    ensures
        decimal(n).len() >= 1,
        forall|i: int| 0 <= i < decimal(n).len() ==> is_digit(#[trigger] decimal(n)[i]),
    decreases n,
{
    if n >= 10 {
        lemma_decimal_digits(n / 10);
    }
}

proof fn lemma_digits_prefix(s: Seq<char>, t: Seq<char>, at: int, n: int)
    requires
        0 <= at,
        0 <= n <= t.len(),
        at + t.len() <= s.len(),
        forall|i: int| 0 <= i < t.len() ==> s[at + i] == #[trigger] t[i],
    ensures
        digits_value(s, at, at + n) == digits_value(t, 0, n),
    decreases n,
{
    if n > 0 {
        lemma_digits_prefix(s, t, at, n - 1);
        assert(s[at + n - 1] == t[n - 1]);
    }
}

proof fn lemma_decimal_value(n: nat)
    ensures
        digits_value(decimal(n), 0, decimal(n).len() as int) == n,
    decreases n,
{
    if n >= 10 {
        let t = decimal(n / 10);
        lemma_decimal_value(n / 10);
        lemma_digits_prefix(decimal(n), t, 0, t.len() as int);
        assert(decimal(n)[t.len() as int] == digit(n));
    } else {
        assert(digits_value(decimal(n), 0, 0) == 0);
        assert(decimal(n)[0] == digit(n));
    }
}

/// A number that is written in decimal is read back.
pub proof fn law_decimal_round_trip(n: int)
    ensures
        whole_number(signed_decimal(n), true) == Some(n),
        n >= 0 ==> whole_number(signed_decimal(n), false) == Some(n),
{
    let m = (if n < 0 {
        -n
    } else {
        n
    }) as nat;
    let s = signed_decimal(n);
    let t = decimal(m);
    lemma_decimal_digits(m);
    lemma_decimal_value(m);
    if n < 0 {
        lemma_digits_prefix(s, t, 1, t.len() as int);
        assert forall|i: int| 1 <= i < s.len() implies is_digit(#[trigger] s[i]) by {
            assert(s[i] == t[i - 1]);
        }
    } else {
        assert(is_digit(s[0]));
    }
}

/// The digits from `from` on as a number no larger than `max`.
fn read_digits(s: &[char], from: usize, max: u64) -> (r: Option<u64>)
    requires
        from <= s@.len(),
        max < u64::MAX / 16,
    ensures
        match r {
            Some(v) => v <= max && from < s@.len() && (forall|i: int|
                from <= i < s@.len() ==> is_digit(#[trigger] s@[i])) && v == digits_value(
                s@,
                from as int,
                s@.len() as int,
            ),
            None => from >= s@.len() || (exists|i: int|
                from <= i < s@.len() && !is_digit(#[trigger] s@[i])) || digits_value(
                s@,
                from as int,
                s@.len() as int,
            ) > max,
        },
{
    if from >= s.len() {
        return None;
    }
    let mut k: usize = from;
    while k < s.len()
        invariant
            from <= k <= s@.len(),
            forall|i: int| from <= i < k ==> is_digit(#[trigger] s@[i]),
        decreases s@.len() - k,
    {
        if s[k] < '0' || s[k] > '9' {
            assert(!is_digit(s@[k as int]));
            return None;
        }
        k += 1;
    }
    let mut v: u64 = 0;
    let mut i: usize = from;
    while i < s.len()
        invariant
            from <= i <= s@.len(),
            v <= max,
            max < u64::MAX / 16,
            v == digits_value(s@, from as int, i as int),
            forall|i: int| from <= i < s@.len() ==> is_digit(#[trigger] s@[i]),
        decreases s@.len() - i,
    {
        assert(is_digit(s@[i as int]));
        v = 10 * v + (s[i] as u64 - 48);
        i += 1;
        if v > max {
            proof {
                lemma_digits_grow(s@, from as int, i as int, s@.len() as int);
            }
            return None;
        }
    }
    Some(v)
}

/// The text as a 32-bit integer.
pub fn parse_i32(t: &str) -> (r: Option<i32>)
    ensures
        match (r, whole_number(t@, true)) {
            (Some(v), Some(n)) => v == n,
            (None, Some(n)) => n > i32::MAX || n < i32::MIN,
            (None, None) => true,
            _ => false,
        },
{
    let s = chars_of(t);
    let signed = s.len() > 0 && (s[0] == '+' || s[0] == '-');
    let minus = s.len() > 0 && s[0] == '-';
    let from: usize = if signed {
        1
    } else {
        0
    };
    match read_digits(s.as_slice(), from, 0x8000_0000) {
        Some(v) => {
            if minus {
                Some((-(v as i64)) as i32)
            } else if v <= 0x7fff_ffff {
                Some(v as i32)
            } else {
                None
            }
        },
        None => None,
    }
}

/// The text as an unsigned 32-bit integer.
pub fn parse_u32(t: &str) -> (r: Option<u32>)
    ensures
        match (r, whole_number(t@, false)) {
            (Some(v), Some(n)) => v == n,
            (None, Some(n)) => n > u32::MAX,
            (None, None) => true,
            _ => false,
        },
{
    let s = chars_of(t);
    let from: usize = if s.len() > 0 && s[0] == '+' {
        1
    } else {
        0
    };
    match read_digits(s.as_slice(), from, 0xffff_ffff) {
        Some(v) => Some(v as u32),
        None => None,
    }
}

/// The texts of a list of strings.
pub open spec fn texts(v: Seq<String>) -> Seq<Seq<char>> {
    v.map_values(|s: String| s@)
}

pub fn clone_texts(v: &Vec<String>) -> (r: Vec<String>)
    ensures
        texts(r@) == texts(v@),
{
    let mut out: Vec<String> = Vec::new();
    let mut i: usize = 0;
    while i < v.len()
        invariant
            i <= v@.len(),
            out@.len() == i,
            forall|k: int| 0 <= k < i ==> (#[trigger] out@[k])@ == v@[k]@,
        decreases v@.len() - i,
    {
        out.push(v[i].clone());
        i += 1;
    }
    assert(texts(out@) =~= texts(v@));
    out
}

/// Whether a list holds a text.
pub fn contains_text(v: &Vec<String>, s: &str) -> (r: bool)
    ensures
        r == texts(v@).contains(s@),
{
    let mut i: usize = 0;
    while i < v.len()
        invariant
            i <= v@.len(),
            forall|k: int| 0 <= k < i ==> (#[trigger] texts(v@)[k]) != s@,
        decreases v@.len() - i,
    {
        assert(texts(v@)[i as int] == v@[i as int]@);
        if str_eq(v[i].as_str(), s) {
            return true;
        }
        i += 1;
    }
    false
}

/// Without the characters `c` at its end.
pub open spec fn without_end(s: Seq<char>, c: char) -> Seq<char>
    decreases s.len(),
{
    if s.len() > 0 && s.last() == c {
        without_end(s.drop_last(), c)
    } else {
        s
    }
}

pub fn drop_end(v: &mut Vec<char>, c: char)
    ensures
        final(v)@ == without_end(old(v)@, c),
{
    let ghost s = v@;
    while v.len() > 0 && v[v.len() - 1] == c
        invariant
            without_end(s, c) == without_end(v@, c),
        decreases v@.len(),
    {
        v.pop();
    }
}

/// Without the characters `c` at its start.
pub open spec fn without_start(s: Seq<char>, c: char) -> Seq<char>
    decreases s.len(),
{
    if s.len() > 0 && s[0] == c {
        without_start(s.skip(1), c)
    } else {
        s
    }
}

/// How many characters `c` a text starts with.
pub fn count_start(v: &Vec<char>, c: char) -> (n: usize)
    ensures
        n <= v@.len(),
        v@.skip(n as int) == without_start(v@, c),
{
    let mut n: usize = 0;
    assert(v@.skip(0) =~= v@);
    while n < v.len() && v[n] == c
        invariant
            n <= v@.len(),
            without_start(v@, c) == without_start(v@.skip(n as int), c),
        decreases v@.len() - n,
    {
        assert(v@.skip(n as int)[0] == c);
        assert(v@.skip(n as int).skip(1) =~= v@.skip(n + 1));
        n += 1;
    }
    proof {
        if n < v@.len() {
            assert(v@.skip(n as int)[0] != c);
        }
    }
    n
}

} // verus!
