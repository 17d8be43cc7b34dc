//! What a viewer of a demo is given, as JSON.
use crate::maps::{lists, sorted_keys};
use crate::multi_player::{metas, subsample, subsample_turns, thinned, thinned_turns, Change, MetaView,
    MultiPlayerData, People, PlayerMeta, Point, Turn};
use crate::number::{fixed, fixed_text, json_f32, number_text};
use crate::order::{as_ints, label, write_order, written};
use crate::source::events::{events_of, EventOf, EventValue, FieldOf, GameEvent, SampledCmd, ValueOf};
use crate::source::player_tracks::scan::class_names;
use crate::text::{begins, chars_of, decimal, lower_chars, lowercase, push_decimal, push_signed,
    signed_decimal, stands_at, text_of, texts};
use std::collections::HashMap;
use vstd::prelude::*;
use vstd::std_specs::iter::IteratorSpec;

verus! {

broadcast use vstd::std_specs::hash::group_hash_axioms;

/// A digit of base 16.
pub open spec fn hex(n: int) -> char {
    if n < 10 {
        (48 + n) as char
    } else {
        (87 + n) as char
    }
}

/// A character within a string.
pub open spec fn escaped_char(c: char) -> Seq<char> {
    if c == '"' {
        seq!['\\', '"']
    } else if c == '\\' {
        seq!['\\', '\\']
    } else if c == '\n' {
        seq!['\\', 'n']
    } else if c == '\r' {
        seq!['\\', 'r']
    } else if c == '\t' {
        seq!['\\', 't']
    } else if (c as u32) < 0x20 {
        seq!['\\', 'u', '0', '0', hex(c as u32 as int / 16), hex(c as u32 as int % 16)]
    } else {
        seq![c]
    }
}

/// The first `n` characters of a text within a string.
pub open spec fn escaped_to(s: Seq<char>, n: int) -> Seq<char>
    decreases n,
{
    if n <= 0 {
        Seq::empty()
    } else {
        escaped_to(s, n - 1) + escaped_char(s[n - 1])
    }
}

/// A text within a string.
pub open spec fn escaped(s: Seq<char>) -> Seq<char> {
    escaped_to(s, s.len() as int)
}

pub(crate) fn push_hex(out: &mut String, n: u32)
    requires
        n < 16,
    ensures
        final(out)@ == old(out)@.push(hex(n as int)),
{
    if n < 10 {
        out.push(((48 + n) as u8) as char);
    } else {
        out.push(((87 + n) as u8) as char);
    }
}

fn push_char(out: &mut String, c: char)
    ensures
        final(out)@ == old(out)@ + escaped_char(c),
{
    if c == '"' {
        out.push('\\');
        out.push('"');
    } else if c == '\\' {
        out.push('\\');
        out.push('\\');
    } else if c == '\n' {
        out.push('\\');
        out.push('n');
    } else if c == '\r' {
        out.push('\\');
        out.push('r');
    } else if c == '\t' {
        out.push('\\');
        out.push('t');
    } else if (c as u32) < 0x20 {
        let n: u32 = c as u32;
        out.push('\\');
        out.push('u');
        out.push('0');
        out.push('0');
        push_hex(out, n / 16);
        push_hex(out, n % 16);
    } else {
        out.push(c);
    }
    assert(out@ =~= old(out)@ + escaped_char(c));
}

fn push_escaped(out: &mut String, s: &str)
    ensures
        final(out)@ == old(out)@ + escaped(s@),
{
    let cs = chars_of(s);
    let ghost o = out@;
    let mut i: usize = 0;
    assert(o + escaped_to(cs@, 0) =~= o);
    while i < cs.len()
        invariant
            i <= cs@.len(),
            out@ == o + escaped_to(cs@, i as int),
        decreases cs@.len() - i,
    {
        push_char(out, cs[i]);
        assert(out@ =~= o + escaped_to(cs@, i + 1));
        i += 1;
    }
}

/// Escapes a text so that it can stand between quotes.
pub fn escape_json_str(s: &str) -> (r: String)
    ensures
        r@ == escaped(s@),
{
    let mut out = String::new();
    push_escaped(&mut out, s);
    assert(out@ =~= escaped(s@));
    out
}

/// Whether a text can stand between quotes: no control character is in it, and each
/// quote follows a backslash.
pub open spec fn quotable(s: Seq<char>) -> bool {
    forall|i: int|
        0 <= i < s.len() ==> (#[trigger] s[i]) as u32 >= 0x20 && (s[i] == '"' ==> i > 0 && s[i - 1]
            == '\\')
}

proof fn lemma_quotable_to(s: Seq<char>, n: int)
    requires
        0 <= n <= s.len(),
    ensures
        quotable(escaped_to(s, n)),
    decreases n,
{
    if n > 0 {
        lemma_quotable_to(s, n - 1);
        let a = escaped_to(s, n - 1);
        let b = escaped_char(s[n - 1]);
        assert forall|i: int| 0 <= i < (a + b).len() implies (#[trigger] (a + b)[i]) as u32 >= 0x20 && (
        (a + b)[i] == '"' ==> i > 0 && (a + b)[i - 1] == '\\') by {
            if i < a.len() {
                assert((a + b)[i] == a[i]);
            } else {
                assert((a + b)[i] == b[i - a.len()]);
            }
        }
    }
}

/// Whatever a text holds, it can stand between quotes once it is escaped.
pub proof fn law_escaped_is_quotable(s: Seq<char>)
    ensures
        quotable(escaped(s)),
{
    lemma_quotable_to(s, s.len() as int);
}

/// What a digit of base 16 stands for.
pub open spec fn hex_value(c: char) -> Option<int> {
    if '0' <= c <= '9' {
        Some(c as int - 48)
    } else if 'a' <= c <= 'f' {
        Some(c as int - 87)
    } else if 'A' <= c <= 'F' {
        Some(c as int - 55)
    } else {
        None
    }
}

/// The number that four digits of base 16 stand for.
pub open spec fn code_at(t: Seq<char>, i: int) -> Option<int> {
    if i + 4 > t.len() {
        None
    } else {
        match (hex_value(t[i]), hex_value(t[i + 1]), hex_value(t[i + 2]), hex_value(t[i + 3])) {
            (Some(a), Some(b), Some(c), Some(d)) => Some(
                0x1000 * a + 0x100 * b + 0x10 * c + d,
            ),
            _ => None,
        }
    }
}

/// The character that a string literal of JSON has at `i` of what stands between its
/// quotes, and where the next one starts. A code that is half of a pair is no character.
pub open spec fn literal_char(t: Seq<char>, i: int) -> Option<(char, int)> {
    if t[i] == '"' || (t[i] as u32) < 0x20 {
        None
    } else if t[i] != '\\' {
        Some((t[i], i + 1))
    } else if i + 1 >= t.len() {
        None
    } else if t[i + 1] == '"' || t[i + 1] == '\\' || t[i + 1] == '/' {
        Some((t[i + 1], i + 2))
    } else if t[i + 1] == 'b' {
        Some((8 as char, i + 2))
    } else if t[i + 1] == 'f' {
        Some((12 as char, i + 2))
    } else if t[i + 1] == 'n' {
        Some(('\n', i + 2))
    } else if t[i + 1] == 'r' {
        Some(('\r', i + 2))
    } else if t[i + 1] == 't' {
        Some(('\t', i + 2))
    } else if t[i + 1] == 'u' {
        match code_at(t, i + 2) {
            Some(n) => if 0xd800 <= n < 0xe000 {
                None
            } else {
                Some((n as char, i + 6))
            },
            None => None,
        }
    } else {
        None
    }
}

/// What stands between the quotes of a string literal, from `i` on, read.
pub open spec fn literal_from(t: Seq<char>, i: int) -> Option<Seq<char>>
    decreases t.len() - i,
{
    if i >= t.len() {
        Some(Seq::empty())
    } else {
        match literal_char(t, i) {
            Some((c, j)) => match literal_from(t, j) {
                Some(rest) => Some(seq![c] + rest),
                None => None,
            },
            None => None,
        }
    }
}

/// The text that a string literal of JSON stands for; none where it is no such literal.
pub open spec fn literal_text(t: Seq<char>) -> Option<Seq<char>> {
    if t.len() >= 2 && t[0] == '"' && t.last() == '"' {
        literal_from(t.subrange(1, t.len() - 1), 0)
    } else {
        None
    }
}

/// Where the first `n` characters end, the one behind them starts.
proof fn lemma_escaped_at(s: Seq<char>, k: int, n: int)
    requires
        0 <= k < n,
    ensures
        escaped_to(s, k + 1).len() <= escaped_to(s, n).len(),
        forall|i: int|
            0 <= i < escaped_to(s, k + 1).len() ==> #[trigger] escaped_to(s, n)[i] == escaped_to(
                s,
                k + 1,
            )[i],
    decreases n,
{
    if k + 1 < n {
        lemma_escaped_at(s, k, n - 1);
        let a = escaped_to(s, n - 1);
        let b = escaped_char(s[n - 1]);
        assert forall|i: int| 0 <= i < escaped_to(s, k + 1).len() implies #[trigger] escaped_to(s, n)[i]
            == escaped_to(s, k + 1)[i] by {
            assert((a + b)[i] == a[i]);
        }
    }
}

proof fn lemma_hex_value(n: int)
    requires
        0 <= n < 16,
    ensures
        hex_value(hex(n)) == Some(n),
{
}

proof fn lemma_char_number(c: char)
    ensures
        c as u32 as int as char == c,
{
    assert(c as u32 == c as int);
}

proof fn lemma_literal_from(s: Seq<char>, k: int)
    requires
        0 <= k <= s.len(),
    ensures
        literal_from(escaped(s), escaped_to(s, k).len() as int) == Some(
            s.subrange(k, s.len() as int),
        ),
    decreases s.len() - k,
{
    let t = escaped(s);
    let n = s.len() as int;
    if k == n {
        assert(s.subrange(k, n) =~= Seq::empty());
    } else {
        lemma_literal_from(s, k + 1);
        lemma_escaped_at(s, k, n);
        let a = escaped_to(s, k);
        let c = s[k];
        let e = escaped_char(c);
        let p = a.len() as int;
        assert forall|i: int| 0 <= i < e.len() implies #[trigger] e[i] == t[p + i] by {
            assert((a + e)[p + i] == e[i]);
            assert(t[p + i] == escaped_to(s, k + 1)[p + i]);
        }
        assert(e[0] == t[p]);
        if e.len() >= 2 {
            assert(e[1] == t[p + 1]);
        }
        if e.len() == 6 {
            let v = c as u32 as int;
            assert(e[2] == t[p + 2] && e[3] == t[p + 3] && e[4] == t[p + 4] && e[5] == t[p + 5]);
            lemma_hex_value(v / 16);
            lemma_hex_value(v % 16);
            assert(code_at(t, p + 2) == Some(v));
            lemma_char_number(c);
        }
        assert(literal_char(t, p) == Some((c, p + e.len())));
        assert(seq![c] + s.subrange(k + 1, n) =~= s.subrange(k, n));
    }
}

/// A text that is escaped and put between quotes is a string literal of JSON, and it
/// stands for that text.
pub proof fn law_escaped_reads_back(s: Seq<char>)
    ensures
        literal_text(seq!['"'] + escaped(s) + seq!['"']) == Some(s),
{
    lemma_literal_from(s, 0);
    let t = seq!['"'] + escaped(s) + seq!['"'];
    assert(t.subrange(1, t.len() - 1) =~= escaped(s));
    assert(s.subrange(0, s.len() as int) =~= s);
}

/// A character in the text of a page.
pub open spec fn html_char(c: char) -> Seq<char> {
    if c == '&' {
        "&amp;"@
    } else if c == '<' {
        "&lt;"@
    } else if c == '>' {
        "&gt;"@
    } else if c == '"' {
        "&quot;"@
    } else {
        seq![c]
    }
}

pub open spec fn html_to(s: Seq<char>, n: int) -> Seq<char>
    decreases n,
{
    if n <= 0 {
        Seq::empty()
    } else {
        html_to(s, n - 1) + html_char(s[n - 1])
    }
}

/// Escapes a text so that it can stand in a page.
pub fn escape_html(s: &str) -> (r: String)
    ensures
        r@ == html_to(s@, s@.len() as int),
{
    let cs = chars_of(s);
    let mut out = String::new();
    let mut i: usize = 0;
    while i < cs.len()
        invariant
            i <= cs@.len(),
            out@ == html_to(cs@, i as int),
        decreases cs@.len() - i,
    {
        let c: char = cs[i];
        if c == '&' {
            out.push_str("&amp;");
        } else if c == '<' {
            out.push_str("&lt;");
        } else if c == '>' {
            out.push_str("&gt;");
        } else if c == '"' {
            out.push_str("&quot;");
        } else {
            out.push(c);
        }
        assert(out@ =~= html_to(cs@, i + 1));
        i += 1;
    }
    out
}

/// The first `n` texts with commas between them.
pub open spec fn joined(items: Seq<Seq<char>>, n: int) -> Seq<char>
    decreases n,
{
    if n <= 0 {
        Seq::empty()
    } else if n == 1 {
        items[0]
    } else {
        joined(items, n - 1) + seq![','] + items[n - 1]
    }
}

/// An array of texts.
pub open spec fn array(items: Seq<Seq<char>>) -> Seq<char> {
    seq!['['] + joined(items, items.len() as int) + seq![']']
}

/// An object of entries.
pub open spec fn object(entries: Seq<Seq<char>>) -> Seq<char> {
    seq!['{'] + joined(entries, entries.len() as int) + seq!['}']
}

/// An entry of an object.
pub open spec fn entry(k: int, body: Seq<char>) -> Seq<char> {
    label(k) + seq![':'] + body
}

pub(crate) fn push_joined(out: &mut String, items: &Vec<String>)
    ensures
        final(out)@ == old(out)@ + joined(texts(items@), items@.len() as int),
{
    let ghost o = out@;
    let ghost all = texts(items@);
    let mut i: usize = 0;
    assert(o + joined(all, 0) =~= o);
    while i < items.len()
        invariant
            i <= items@.len(),
            all == texts(items@),
            out@ == o + joined(all, i as int),
        decreases items@.len() - i,
    {
        assert(all[i as int] == items@[i as int]@);
        if i > 0 {
            out.push(',');
        }
        out.push_str(items[i].as_str());
        assert(out@ =~= o + joined(all, i + 1));
        i += 1;
    }
}

pub fn array_json(items: &Vec<String>) -> (r: String)
    ensures
        r@ == array(texts(items@)),
{
    let mut out = String::new();
    out.push('[');
    push_joined(&mut out, items);
    out.push(']');
    assert(out@ =~= array(texts(items@)));
    out
}

pub fn object_json(entries: &Vec<String>) -> (r: String)
    ensures
        r@ == object(texts(entries@)),
{
    let mut out = String::new();
    out.push('{');
    push_joined(&mut out, entries);
    out.push('}');
    assert(out@ =~= object(texts(entries@)));
    out
}

pub fn entry_json(key: i64, body: &str) -> (r: String)
    ensures
        r@ == entry(key as int, body@),
{
    let mut out = String::new();
    out.push('"');
    push_signed(&mut out, key);
    out.push('"');
    out.push(':');
    out.push_str(body);
    assert(out@ =~= entry(key as int, body@));
    out
}

/// Puts an entry before those of an object.
pub open spec fn put_first(object: Seq<char>, k: int, body: Seq<char>) -> Seq<char> {
    if object.len() <= 2 {
        seq!['{'] + entry(k, body) + seq!['}']
    } else {
        seq!['{'] + entry(k, body) + seq![','] + object.skip(1)
    }
}

/// Puts an entry first into an object.
pub fn merge_json_obj(base: &str, key: u32, value: &str) -> (r: String)
    ensures
        r@ == put_first(base@, key as int, value@),
{
    let cs = chars_of(base);
    let e = entry_json(key as i64, value);
    let mut out = String::new();
    out.push('{');
    out.push_str(e.as_str());
    if cs.len() <= 2 {
        out.push('}');
    } else {
        out.push(',');
        let rest = text_of(vstd::slice::slice_subrange(cs.as_slice(), 1, cs.len()));
        out.push_str(rest.as_str());
        assert(rest@ =~= base@.skip(1));
    }
    assert(out@ =~= put_first(base@, key as int, value@));
    out
}

/// Entries put first into an object of entries make one of them all.
pub proof fn law_put_first(entries: Seq<Seq<char>>, k: int, body: Seq<char>)
    requires
        forall|i: int| 0 <= i < entries.len() ==> (#[trigger] entries[i]).len() > 0,
    ensures
        put_first(object(entries), k, body) == object(seq![entry(k, body)] + entries),
{
    let all = seq![entry(k, body)] + entries;
    let n = entries.len() as int;
    lemma_join_front(entry(k, body), entries, n);
    if n == 0 {
        assert(object(entries).len() == 2);
        assert(all =~= seq![entry(k, body)]);
        assert(put_first(object(entries), k, body) =~= object(all));
    } else {
        lemma_joined_some(entries, n);
        assert(object(entries).skip(1) =~= joined(entries, n) + seq!['}']);
        assert(put_first(object(entries), k, body) =~= object(all));
    }
}

proof fn lemma_joined_some(items: Seq<Seq<char>>, n: int)
    requires
        0 < n <= items.len(),
        forall|i: int| 0 <= i < items.len() ==> (#[trigger] items[i]).len() > 0,
    ensures
        joined(items, n).len() > 0,
{
    assert(items[0].len() > 0);
}

proof fn lemma_join_front(first: Seq<char>, items: Seq<Seq<char>>, n: int)
    requires
        0 <= n <= items.len(),
    ensures
        joined(seq![first] + items, n + 1) == if n == 0 {
            first
        } else {
            first + seq![','] + joined(items, n)
        },
    decreases n,
{
    let all = seq![first] + items;
    if n > 0 {
        lemma_join_front(first, items, n - 1);
        assert(all[n] == items[n - 1]);
        if n == 1 {
            assert(joined(all, 2) =~= first + seq![','] + joined(items, 1));
        } else {
            assert(joined(all, n + 1) =~= first + seq![','] + joined(items, n));
        }
    }
}

/// What a player pressed at a tick.
pub open spec fn cmd_row(c: SampledCmd) -> Seq<char> {
    seq!['['] + signed_decimal(c.tick as int) + seq![','] + number_text(c.pitch) + seq![',']
        + number_text(c.yaw) + seq![','] + number_text(c.fwd) + seq![','] + number_text(c.side)
        + seq![','] + decimal(c.btns as nat) + seq![','] + decimal(c.weapon as nat) + seq![']']
}

fn cmd_json(c: &SampledCmd) -> (r: String)
    ensures
        r@ == cmd_row(*c),
{
    let mut out = String::new();
    out.push('[');
    push_signed(&mut out, c.tick as i64);
    out.push(',');
    out.push_str(json_f32(c.pitch).as_str());
    out.push(',');
    out.push_str(json_f32(c.yaw).as_str());
    out.push(',');
    out.push_str(json_f32(c.fwd).as_str());
    out.push(',');
    out.push_str(json_f32(c.side).as_str());
    out.push(',');
    push_decimal(&mut out, c.btns as u64);
    out.push(',');
    push_decimal(&mut out, c.weapon as u64);
    out.push(']');
    assert(out@ =~= cmd_row(*c));
    out
}

pub open spec fn cmd_rows(v: Seq<SampledCmd>) -> Seq<Seq<char>> {
    v.map_values(|c: SampledCmd| cmd_row(c))
}

/// Writes inputs.
pub fn cmds_to_json(cmds: &Vec<SampledCmd>) -> (r: String)
    ensures
        r@ == array(cmd_rows(cmds@)),
{
    let mut items: Vec<String> = Vec::new();
    let mut i: usize = 0;
    while i < cmds.len()
        invariant
            i <= cmds@.len(),
            items@.len() == i,
            forall|k: int| 0 <= k < i ==> (#[trigger] items@[k])@ == cmd_row(cmds@[k]),
        decreases cmds@.len() - i,
    {
        items.push(cmd_json(&cmds[i]));
        i += 1;
    }
    assert(texts(items@) =~= cmd_rows(cmds@));
    array_json(&items)
}

/// A position at a tick that is moved by `shift`.
pub open spec fn point_row(p: Point, shift: int) -> Seq<char> {
    seq!['['] + signed_decimal(p.0 + shift) + seq![','] + number_text(p.1) + seq![',']
        + number_text(p.2) + seq![','] + number_text(p.3) + seq![']']
}

fn point_json(p: Point, shift: i64) -> (r: String)
    requires
        -0x1_0000_0000 <= shift <= 0x1_0000_0000,
    ensures
        r@ == point_row(p, shift as int),
{
    let mut out = String::new();
    out.push('[');
    push_signed(&mut out, p.0 as i64 + shift);
    out.push(',');
    out.push_str(json_f32(p.1).as_str());
    out.push(',');
    out.push_str(json_f32(p.2).as_str());
    out.push(',');
    out.push_str(json_f32(p.3).as_str());
    out.push(']');
    assert(out@ =~= point_row(p, shift as int));
    out
}

pub open spec fn point_rows(v: Seq<Point>, shift: int) -> Seq<Seq<char>> {
    v.map_values(|p: Point| point_row(p, shift))
}

/// Positions at ticks that are moved by `shift`.
pub fn points_json(v: &Vec<Point>, shift: i64) -> (r: String)
    requires
        -0x1_0000_0000 <= shift <= 0x1_0000_0000,
    ensures
        r@ == array(point_rows(v@, shift as int)),
{
    let mut items: Vec<String> = Vec::new();
    let mut i: usize = 0;
    while i < v.len()
        invariant
            -0x1_0000_0000 <= shift <= 0x1_0000_0000,
            i <= v@.len(),
            items@.len() == i,
            forall|k: int| 0 <= k < i ==> (#[trigger] items@[k])@ == point_row(v@[k], shift as int),
        decreases v@.len() - i,
    {
        items.push(point_json(v[i], shift));
        i += 1;
    }
    assert(texts(items@) =~= point_rows(v@, shift as int));
    array_json(&items)
}

/// Writes a path.
pub fn world_positions_to_json(positions: &Vec<Point>) -> (r: String)
    ensures
        r@ == array(point_rows(positions@, 0)),
{
    points_json(positions, 0)
}

/// Two angles with `places` digits behind the point, at a tick that is moved by `shift`.
pub open spec fn turn_row(t: Turn, places: nat, shift: int) -> Seq<char> {
    seq!['['] + signed_decimal(t.0 + shift) + seq![','] + fixed_text(t.1, places) + seq![',']
        + fixed_text(t.2, places) + seq![']']
}

fn turn_json(t: Turn, places: u32, shift: i64) -> (r: String)
    requires
        1 <= places <= 6,
        -0x1_0000_0000 <= shift <= 0x1_0000_0000,
    ensures
        r@ == turn_row(t, places as nat, shift as int),
{
    let mut out = String::new();
    out.push('[');
    push_signed(&mut out, t.0 as i64 + shift);
    out.push(',');
    out.push_str(fixed(t.1, places).as_str());
    out.push(',');
    out.push_str(fixed(t.2, places).as_str());
    out.push(']');
    assert(out@ =~= turn_row(t, places as nat, shift as int));
    out
}

pub open spec fn turn_rows(v: Seq<Turn>, places: nat, shift: int) -> Seq<Seq<char>> {
    v.map_values(|t: Turn| turn_row(t, places, shift))
}

/// Angles at ticks that are moved by `shift`.
pub fn turns_json(v: &Vec<Turn>, places: u32, shift: i64) -> (r: String)
    requires
        1 <= places <= 6,
        -0x1_0000_0000 <= shift <= 0x1_0000_0000,
    ensures
        r@ == array(turn_rows(v@, places as nat, shift as int)),
{
    let mut items: Vec<String> = Vec::new();
    let mut i: usize = 0;
    while i < v.len()
        invariant
            1 <= places <= 6,
            -0x1_0000_0000 <= shift <= 0x1_0000_0000,
            i <= v@.len(),
            items@.len() == i,
            forall|k: int|
                0 <= k < i ==> (#[trigger] items@[k])@ == turn_row(
                    v@[k],
                    places as nat,
                    shift as int,
                ),
        decreases v@.len() - i,
    {
        items.push(turn_json(v[i], places, shift));
        i += 1;
    }
    assert(texts(items@) =~= turn_rows(v@, places as nat, shift as int));
    array_json(&items)
}

pub open spec fn spawn_row(p: (u32, u32, u32)) -> Seq<char> {
    seq!['['] + number_text(p.0) + seq![','] + number_text(p.1) + seq![','] + number_text(p.2)
        + seq![']']
}

/// Writes a place.
pub fn spawn_to_json(spawn: (u32, u32, u32)) -> (r: String)
    ensures
        r@ == spawn_row(spawn),
{
    let mut out = String::new();
    out.push('[');
    out.push_str(json_f32(spawn.0).as_str());
    out.push(',');
    out.push_str(json_f32(spawn.1).as_str());
    out.push(',');
    out.push_str(json_f32(spawn.2).as_str());
    out.push(']');
    assert(out@ =~= spawn_row(spawn));
    out
}

/// Two whole numbers.
pub open spec fn pair_row(a: int, b: int) -> Seq<char> {
    seq!['['] + signed_decimal(a) + seq![','] + signed_decimal(b) + seq![']']
}

pub fn pair_json(a: i64, b: i64) -> (r: String)
    ensures
        r@ == pair_row(a as int, b as int),
{
    let mut out = String::new();
    out.push('[');
    push_signed(&mut out, a);
    out.push(',');
    push_signed(&mut out, b);
    out.push(']');
    assert(out@ =~= pair_row(a as int, b as int));
    out
}

/// Samples at which a path breaks.
pub open spec fn break_texts(v: Seq<usize>) -> Seq<Seq<char>> {
    v.map_values(|x: usize| decimal(x as nat))
}

/// Writes numbers.
pub fn breaks_to_json(breaks: &Vec<usize>) -> (r: String)
    ensures
        r@ == array(break_texts(breaks@)),
{
    let mut items: Vec<String> = Vec::new();
    let mut i: usize = 0;
    while i < breaks.len()
        invariant
            i <= breaks@.len(),
            items@.len() == i,
            forall|k: int| 0 <= k < i ==> (#[trigger] items@[k])@ == decimal(breaks@[k] as nat),
        decreases breaks@.len() - i,
    {
        let mut s = String::new();
        push_decimal(&mut s, breaks[i] as u64);
        assert(s@ =~= decimal(breaks@[i as int] as nat));
        items.push(s);
        i += 1;
    }
    assert(texts(items@) =~= break_texts(breaks@));
    array_json(&items)
}

pub open spec fn interval_rows(v: Seq<(i32, i32)>) -> Seq<Seq<char>> {
    v.map_values(|p: (i32, i32)| pair_row(p.0 as int, p.1 as int))
}

/// Intervals between two ticks.
pub fn intervals_to_json(v: &Vec<(i32, i32)>) -> (r: String)
    ensures
        r@ == array(interval_rows(v@)),
{
    let mut items: Vec<String> = Vec::new();
    let mut i: usize = 0;
    while i < v.len()
        invariant
            i <= v@.len(),
            items@.len() == i,
            forall|k: int|
                0 <= k < i ==> (#[trigger] items@[k])@ == pair_row(v@[k].0 as int, v@[k].1 as int),
        decreases v@.len() - i,
    {
        items.push(pair_json(v[i].0 as i64, v[i].1 as i64));
        i += 1;
    }
    assert(texts(items@) =~= interval_rows(v@));
    array_json(&items)
}

pub open spec fn value_text(v: ValueOf) -> Seq<char> {
    match v {
        ValueOf::Str(s) => seq!['"'] + escaped(s) + seq!['"'],
        ValueOf::Float(b) => number_text(b),
        ValueOf::Int(n) => signed_decimal(n as int),
        ValueOf::Bool(b) => if b {
            "true"@
        } else {
            "false"@
        },
        ValueOf::Null => "null"@,
    }
}

/// The first `n` fields of an event.
pub open spec fn fields_text(fs: Seq<FieldOf>, n: int) -> Seq<char>
    decreases n,
{
    if n <= 0 {
        Seq::empty()
    } else {
        fields_text(fs, n - 1) + ",\""@ + escaped(fs[n - 1].name) + "\":"@ + value_text(
            fs[n - 1].value,
        )
    }
}

pub open spec fn event_text(e: EventOf) -> Seq<char> {
    "{\"event\":\""@ + escaped(e.event) + "\",\"tick\":"@ + signed_decimal(e.tick as int)
        + fields_text(e.fields, e.fields.len() as int) + seq!['}']
}

fn push_value(out: &mut String, v: &EventValue)
    ensures
        final(out)@ == old(out)@ + value_text(v@),
{
    match v {
        EventValue::Str(s) => {
            out.push('"');
            push_escaped(out, s.as_str());
            out.push('"');
        },
        EventValue::Float(b) => {
            out.push_str(json_f32(*b).as_str());
        },
        EventValue::Int(n) => {
            push_signed(out, *n as i64);
        },
        EventValue::Bool(b) => {
            if *b {
                out.push_str("true");
            } else {
                out.push_str("false");
            }
        },
        EventValue::Null => {
            out.push_str("null");
        },
    }
    assert(out@ =~= old(out)@ + value_text(v@));
}

pub(crate) fn event_json(e: &GameEvent) -> (r: String)
    ensures
        r@ == event_text(e@),
{
    let ghost fs = e@.fields;
    let mut out = String::new();
    out.push_str("{\"event\":\"");
    push_escaped(&mut out, e.event.as_str());
    out.push_str("\",\"tick\":");
    push_signed(&mut out, e.tick as i64);
    let ghost head = out@;
    assert(head =~= "{\"event\":\""@ + escaped(e@.event) + "\",\"tick\":"@ + signed_decimal(
        e@.tick as int,
    ));
    assert(head + fields_text(fs, 0) =~= head);
    let mut i: usize = 0;
    while i < e.fields.len()
        invariant
            i <= e.fields@.len(),
            fs == e@.fields,
            out@ == head + fields_text(fs, i as int),
        decreases e.fields@.len() - i,
    {
        let f = &e.fields[i];
        assert(fs[i as int] == f@);
        out.push_str(",\"");
        push_escaped(&mut out, f.name.as_str());
        out.push_str("\":");
        push_value(&mut out, &f.value);
        assert(out@ =~= head + fields_text(fs, i + 1));
        i += 1;
    }
    out.push('}');
    assert(out@ =~= event_text(e@));
    out
}

pub open spec fn event_rows(v: Seq<EventOf>) -> Seq<Seq<char>> {
    v.map_values(|e: EventOf| event_text(e))
}

/// Writes events.
pub fn events_to_json(events: &Vec<GameEvent>) -> (r: String)
    ensures
        r@ == array(event_rows(events_of(events@))),
{
    let mut items: Vec<String> = Vec::new();
    let mut i: usize = 0;
    while i < events.len()
        invariant
            i <= events@.len(),
            items@.len() == i,
            forall|k: int| 0 <= k < i ==> (#[trigger] items@[k])@ == event_text(events@[k]@),
        decreases events@.len() - i,
    {
        items.push(event_json(&events[i]));
        i += 1;
    }
    assert(texts(items@) =~= event_rows(events_of(events@)));
    array_json(&items)
}

/// What a demo says of itself.
pub open spec fn meta_text(
    map: Seq<char>,
    client: Seq<char>,
    server: Seq<char>,
    game: Seq<char>,
    protocol: int,
    duration: u32,
    ncmds: nat,
    rate: u32,
    threshold: u32,
) -> Seq<char> {
    "{\"map\":\""@ + escaped(map) + "\",\"client\":\""@ + escaped(client) + "\",\"server\":\""@
        + escaped(server) + "\",\"game\":\""@ + escaped(game) + "\",\"demo_protocol\":"@
        + signed_decimal(protocol) + ",\"duration\":"@ + fixed_text(duration, 2) + ",\"ncmds\":"@
        + decimal(ncmds) + ",\"tick_rate\":"@ + fixed_text(rate, 2) + ",\"jump_threshold\":"@
        + fixed_text(threshold, 1) + seq!['}']
}

/// Writes what the header says.
pub fn meta_to_json(
    map: &str,
    client: &str,
    server: &str,
    game_dir: &str,
    demo_protocol: i32,
    duration: u32,
    ncmds: usize,
    tick_rate: u32,
    jump_threshold: u32,
) -> (r: String)
    ensures
        r@ == meta_text(
            map@,
            client@,
            server@,
            game_dir@,
            demo_protocol as int,
            duration,
            ncmds as nat,
            tick_rate,
            jump_threshold,
        ),
{
    let mut out = String::new();
    out.push_str("{\"map\":\"");
    push_escaped(&mut out, map);
    out.push_str("\",\"client\":\"");
    push_escaped(&mut out, client);
    out.push_str("\",\"server\":\"");
    push_escaped(&mut out, server);
    out.push_str("\",\"game\":\"");
    push_escaped(&mut out, game_dir);
    out.push_str("\",\"demo_protocol\":");
    push_signed(&mut out, demo_protocol as i64);
    out.push_str(",\"duration\":");
    out.push_str(fixed(duration, 2).as_str());
    out.push_str(",\"ncmds\":");
    push_decimal(&mut out, ncmds as u64);
    out.push_str(",\"tick_rate\":");
    out.push_str(fixed(tick_rate, 2).as_str());
    out.push_str(",\"jump_threshold\":");
    out.push_str(fixed(jump_threshold, 1).as_str());
    out.push('}');
    assert(out@ =~= meta_text(
        map@,
        client@,
        server@,
        game_dir@,
        demo_protocol as int,
        duration,
        ncmds as nat,
        tick_rate,
        jump_threshold,
    ));
    out
}

/// Keys of a map as numbers.
pub open spec fn key_set(keys: Set<u32>) -> Set<int> {
    Set::new(|k: int| 0 <= k <= u32::MAX && keys.contains(k as u32))
}

fn push_keys<V>(out: &mut Vec<i64>, m: &HashMap<u32, V>)
    ensures
        as_ints(final(out)@).to_set() == as_ints(old(out)@).to_set().union(key_set(m@.dom())),
{
    let ks = sorted_keys(m);
    let ghost o = out@;
    let mut i: usize = 0;
    while i < ks.len()
        invariant
            i <= ks@.len(),
            out@.len() == o.len() + i,
            forall|k: int| 0 <= k < o.len() ==> #[trigger] out@[k] == o[k],
            forall|k: int| 0 <= k < i ==> out@[o.len() + k] == #[trigger] ks@[k],
        decreases ks@.len() - i,
    {
        out.push(ks[i] as i64);
        i += 1;
    }
    proof {
        let a = as_ints(out@);
        let b = as_ints(o);
        let want = b.to_set().union(key_set(m@.dom()));
        assert forall|x: int| a.to_set().contains(x) <==> want.contains(x) by {
            if a.contains(x) {
                let k = choose|k: int| 0 <= k < a.len() && a[k] == x;
                if k < o.len() {
                    assert(b[k] == x);
                    assert(b.contains(x));
                } else {
                    assert(ks@[k - o.len()] == x);
                    assert(ks@.contains(x as u32));
                }
            }
            if b.contains(x) {
                let k = choose|k: int| 0 <= k < b.len() && b[k] == x;
                assert(a[k] == x);
            }
            if key_set(m@.dom()).contains(x) {
                assert(ks@.contains(x as u32));
                let k = choose|k: int| 0 <= k < ks@.len() && ks@[k] == x as u32;
                assert(a[o.len() + k] == x);
            }
        }
        assert(a.to_set() =~= want);
    }
}

fn written_keys<V>(m: &HashMap<u32, V>) -> (ks: Vec<i64>)
    ensures
        as_ints(ks@) == written(key_set(m@.dom())),
        forall|i: int|
            0 <= i < ks@.len() ==> 0 <= #[trigger] ks@[i] <= u32::MAX && m@.dom().contains(
                ks@[i] as u32,
            ),
{
    let mut all: Vec<i64> = Vec::new();
    push_keys(&mut all, m);
    assert(as_ints(all@).to_set() =~= key_set(m@.dom())) by {
        let none: Seq<i64> = Seq::empty();
        assert(as_ints(none).to_set() =~= Set::empty());
    }
    let ks = write_order(&all);
    assert forall|i: int| 0 <= i < ks@.len() implies 0 <= #[trigger] ks@[i] <= u32::MAX
        && m@.dom().contains(ks@[i] as u32) by {
        assert(as_ints(ks@)[i] == ks@[i]);
        assert(as_ints(ks@).contains(ks@[i] as int));
    }
    ks
}

/// The players of whom there is a track, a state or a name, in the order in which
/// their numbers are written.
pub open spec fn track_keys(p: People) -> Set<int> {
    key_set(p.tracks.dom()).union(key_set(p.life_states.dom())).union(key_set(p.names.dom()))
}

fn track_ids(data: &MultiPlayerData) -> (ks: Vec<i64>)
    ensures
        as_ints(ks@) == written(track_keys(data@)),
        forall|i: int| 0 <= i < ks@.len() ==> 0 <= #[trigger] ks@[i] <= u32::MAX,
{
    let mut all: Vec<i64> = Vec::new();
    push_keys(&mut all, &data.tracks);
    push_keys(&mut all, &data.life_states);
    push_keys(&mut all, &data.names);
    assert(data@.tracks.dom() =~= data.tracks@.dom());
    assert(data@.life_states.dom() =~= data.life_states@.dom());
    assert(data@.names.dom() =~= data.names@.dom());
    assert(as_ints(all@).to_set() =~= track_keys(data@)) by {
        let none: Seq<i64> = Seq::empty();
        assert(as_ints(none).to_set() =~= Set::empty());
    }
    let ks = write_order(&all);
    assert forall|i: int| 0 <= i < ks@.len() implies 0 <= #[trigger] ks@[i] <= u32::MAX by {
        assert(as_ints(ks@)[i] == ks@[i]);
        assert(as_ints(ks@).contains(ks@[i] as int));
    }
    ks
}

/// A player's track as the viewer gets it: at most about 4000 points, none where the
/// player was not tracked.
pub open spec fn track_text(d: Map<u32, Seq<Point>>, k: int) -> Seq<char> {
    array(
        if d.dom().contains(k as u32) {
            point_rows(thinned(d[k as u32], 4000), 0)
        } else {
            Seq::empty()
        },
    )
}

/// The tracks by player.
pub open spec fn tracks_text(p: People) -> Seq<char> {
    object(written(track_keys(p)).map_values(|k: int| entry(k, track_text(p.tracks, k))))
}

/// Writes the paths of players, thinned.
pub fn multi_tracks_to_json(data: &MultiPlayerData) -> (r: String)
    ensures
        r@ == tracks_text(data@),
{
    let ks = track_ids(data);
    let ghost v = lists(data.tracks@);
    assert(v.dom() =~= data.tracks@.dom());
    let mut entries: Vec<String> = Vec::new();
    let mut i: usize = 0;
    while i < ks.len()
        invariant
            i <= ks@.len(),
            v == lists(data.tracks@),
            v.dom() == data.tracks@.dom(),
            forall|i: int| 0 <= i < ks@.len() ==> 0 <= #[trigger] ks@[i] <= u32::MAX,
            entries@.len() == i,
            forall|k: int|
                0 <= k < i ==> (#[trigger] entries@[k])@ == entry(
                    ks@[k] as int,
                    track_text(v, ks@[k] as int),
                ),
        decreases ks@.len() - i,
    {
        let k: u32 = ks[i] as u32;
        let body = match data.tracks.get(&k) {
            Some(l) => {
                assert(v[k] == l@);
                let few = subsample(l.as_slice(), 4000);
                points_json(&few, 0)
            },
            None => {
                let none: Vec<String> = Vec::new();
                assert(texts(none@) =~= Seq::empty());
                array_json(&none)
            },
        };
        entries.push(entry_json(ks[i], body.as_str()));
        i += 1;
    }
    assert(texts(entries@) =~= as_ints(ks@).map_values(|k: int| entry(k, track_text(v, k))));
    object_json(&entries)
}

/// The angles by player, of each at most about 1500.
pub open spec fn yaws_text(m: Map<u32, Seq<Turn>>) -> Seq<char> {
    object(
        written(key_set(m.dom())).map_values(
            |k: int| entry(k, array(turn_rows(thinned_turns(m[k as u32], 1500), 1, 0))),
        ),
    )
}

/// Writes the view angles of players, thinned.
pub fn multi_yaws_to_json(data: &MultiPlayerData) -> (r: String)
    ensures
        r@ == yaws_text(data@.yaws),
{
    let ks = written_keys(&data.yaws);
    let ghost v = lists(data.yaws@);
    assert(v.dom() =~= data.yaws@.dom());
    let mut entries: Vec<String> = Vec::new();
    let mut i: usize = 0;
    while i < ks.len()
        invariant
            i <= ks@.len(),
            v == lists(data.yaws@),
            forall|i: int|
                0 <= i < ks@.len() ==> 0 <= #[trigger] ks@[i] <= u32::MAX
                    && data.yaws@.dom().contains(ks@[i] as u32),
            entries@.len() == i,
            forall|k: int|
                0 <= k < i ==> (#[trigger] entries@[k])@ == entry(
                    ks@[k] as int,
                    array(turn_rows(thinned_turns(v[ks@[k] as u32], 1500), 1, 0)),
                ),
        decreases ks@.len() - i,
    {
        let k: u32 = ks[i] as u32;
        assert(data.yaws@.dom().contains(ks@[i as int] as u32));
        match data.yaws.get(&k) {
            Some(l) => {
                assert(v[k] == l@);
                let few = subsample_turns(l.as_slice(), 1500);
                let body = turns_json(&few, 1, 0);
                entries.push(entry_json(ks[i], body.as_str()));
            },
            None => {},
        }
        i += 1;
    }
    assert(texts(entries@) =~= as_ints(ks@).map_values(
        |k: int| entry(k, array(turn_rows(thinned_turns(v[k as u32], 1500), 1, 0))),
    ));
    object_json(&entries)
}

pub open spec fn view_text(v: Seq<Turn>) -> Seq<char> {
    array(turn_rows(thinned_turns(v, 6000), 2, 0))
}

/// The angles of the recorder, at most about 6000.
pub fn view_angles_to_json(data: &MultiPlayerData) -> (r: String)
    ensures
        r@ == view_text(data@.view_angles),
{
    let few = subsample_turns(data.view_angles.as_slice(), 6000);
    turns_json(&few, 2, 0)
}

pub open spec fn state_rows(l: Seq<Change>) -> Seq<Seq<char>> {
    l.map_values(|c: Change| pair_row(c.0 as int, c.1 as int))
}

pub open spec fn item_rows(l: Seq<(i32, i32)>) -> Seq<Seq<char>> {
    l.map_values(|c: (i32, i32)| pair_row(c.0 as int, c.1 as int))
}

/// States by player: of each the ticks and states.
pub open spec fn states_text(m: Map<u32, Seq<Change>>) -> Seq<char> {
    object(
        written(key_set(m.dom())).map_values(|k: int| entry(k, array(state_rows(m[k as u32])))),
    )
}

/// Weapons by player: of each the ticks and weapons.
pub open spec fn items_text(m: Map<u32, Seq<(i32, i32)>>) -> Seq<char> {
    object(
        written(key_set(m.dom())).map_values(|k: int| entry(k, array(item_rows(m[k as u32])))),
    )
}

/// States at ticks that are moved by `shift`.
pub open spec fn moved_rows(l: Seq<Change>, shift: int) -> Seq<Seq<char>> {
    l.map_values(|c: Change| pair_row(c.0 + shift, c.1 as int))
}

/// The states of a player, at ticks that are moved by `shift`.
pub fn states_json(l: &Vec<Change>, shift: i64) -> (r: String)
    requires
        -0x1_0000_0000 <= shift <= 0x1_0000_0000,
    ensures
        r@ == array(moved_rows(l@, shift as int)),
{
    let mut items: Vec<String> = Vec::new();
    let mut i: usize = 0;
    while i < l.len()
        invariant
            -0x1_0000_0000 <= shift <= 0x1_0000_0000,
            i <= l@.len(),
            items@.len() == i,
            forall|k: int|
                0 <= k < i ==> (#[trigger] items@[k])@ == pair_row(
                    l@[k].0 + shift,
                    l@[k].1 as int,
                ),
        decreases l@.len() - i,
    {
        items.push(pair_json(l[i].0 as i64 + shift, l[i].1 as i64));
        i += 1;
    }
    assert(texts(items@) =~= moved_rows(l@, shift as int));
    array_json(&items)
}

pub(crate) fn items_json(l: &Vec<(i32, i32)>) -> (r: String)
    ensures
        r@ == array(item_rows(l@)),
{
    let mut items: Vec<String> = Vec::new();
    let mut i: usize = 0;
    while i < l.len()
        invariant
            i <= l@.len(),
            items@.len() == i,
            forall|k: int|
                0 <= k < i ==> (#[trigger] items@[k])@ == pair_row(l@[k].0 as int, l@[k].1 as int),
        decreases l@.len() - i,
    {
        items.push(pair_json(l[i].0 as i64, l[i].1 as i64));
        i += 1;
    }
    assert(texts(items@) =~= item_rows(l@));
    array_json(&items)
}

fn states_to_json(m: &HashMap<u32, Vec<Change>>) -> (r: String)
    ensures
        r@ == states_text(lists(m@)),
{
    let ks = written_keys(m);
    let ghost v = lists(m@);
    assert(v.dom() =~= m@.dom());
    let mut entries: Vec<String> = Vec::new();
    let mut i: usize = 0;
    while i < ks.len()
        invariant
            i <= ks@.len(),
            v == lists(m@),
            forall|i: int|
                0 <= i < ks@.len() ==> 0 <= #[trigger] ks@[i] <= u32::MAX && m@.dom().contains(
                    ks@[i] as u32,
                ),
            entries@.len() == i,
            forall|k: int|
                0 <= k < i ==> (#[trigger] entries@[k])@ == entry(
                    ks@[k] as int,
                    array(state_rows(v[ks@[k] as u32])),
                ),
        decreases ks@.len() - i,
    {
        let k: u32 = ks[i] as u32;
        assert(m@.dom().contains(ks@[i as int] as u32));
        match m.get(&k) {
            Some(l) => {
                assert(v[k] == l@);
                let body = states_json(l, 0);
                assert(moved_rows(l@, 0) =~= state_rows(l@));
                entries.push(entry_json(ks[i], body.as_str()));
            },
            None => {},
        }
        i += 1;
    }
    assert(texts(entries@) =~= as_ints(ks@).map_values(
        |k: int| entry(k, array(state_rows(v[k as u32]))),
    ));
    object_json(&entries)
}

/// Writes when players live and die.
pub fn multi_life_states_to_json(data: &MultiPlayerData) -> (r: String)
    ensures
        r@ == states_text(data@.life_states),
{
    states_to_json(&data.life_states)
}

/// Writes when players watch others.
pub fn multi_observer_modes_to_json(data: &MultiPlayerData) -> (r: String)
    ensures
        r@ == states_text(data@.observer_modes),
{
    states_to_json(&data.observer_modes)
}

/// Writes which weapons players hold.
pub fn multi_weapons_to_json(data: &MultiPlayerData) -> (r: String)
    ensures
        r@ == items_text(data@.weapons),
{
    let m = &data.weapons;
    let ks = written_keys(m);
    let ghost v = lists(m@);
    assert(v.dom() =~= m@.dom());
    let mut entries: Vec<String> = Vec::new();
    let mut i: usize = 0;
    while i < ks.len()
        invariant
            i <= ks@.len(),
            v == lists(m@),
            forall|i: int|
                0 <= i < ks@.len() ==> 0 <= #[trigger] ks@[i] <= u32::MAX && m@.dom().contains(
                    ks@[i] as u32,
                ),
            entries@.len() == i,
            forall|k: int|
                0 <= k < i ==> (#[trigger] entries@[k])@ == entry(
                    ks@[k] as int,
                    array(item_rows(v[ks@[k] as u32])),
                ),
        decreases ks@.len() - i,
    {
        let k: u32 = ks[i] as u32;
        assert(m@.dom().contains(ks@[i as int] as u32));
        match m.get(&k) {
            Some(l) => {
                assert(v[k] == l@);
                let body = items_json(l);
                entries.push(entry_json(ks[i], body.as_str()));
            },
            None => {},
        }
        i += 1;
    }
    assert(texts(entries@) =~= as_ints(ks@).map_values(
        |k: int| entry(k, array(item_rows(v[k as u32]))),
    ));
    object_json(&entries)
}

pub open spec fn bool_text(b: bool) -> Seq<char> {
    if b {
        "true"@
    } else {
        "false"@
    }
}

/// Texts as strings.
pub open spec fn quoted(v: Seq<Seq<char>>) -> Seq<Seq<char>> {
    v.map_values(|s: Seq<char>| seq!['"'] + escaped(s) + seq!['"'])
}

/// What is known of a player.
pub open spec fn meta_entry(m: MetaView) -> Seq<char> {
    "{\"name\":\""@ + escaped(m.name) + "\",\"steam_id\":\""@ + escaped(m.steam_id)
        + "\",\"user_id\":"@ + decimal(m.user_id as nat) + ",\"is_fake\":"@ + bool_text(m.is_fake)
        + ",\"is_hltv\":"@ + bool_text(m.is_hltv) + ",\"aliases\":["@ + joined(
        quoted(m.aliases),
        m.aliases.len() as int,
    ) + "]}"@
}

pub open spec fn names_text(m: Map<u32, MetaView>) -> Seq<char> {
    object(written(key_set(m.dom())).map_values(|k: int| entry(k, meta_entry(m[k as u32]))))
}

fn push_bool(out: &mut String, b: bool)
    ensures
        final(out)@ == old(out)@ + bool_text(b),
{
    if b {
        out.push_str("true");
    } else {
        out.push_str("false");
    }
}

fn quote_all(v: &Vec<String>) -> (r: Vec<String>)
    ensures
        texts(r@) == quoted(texts(v@)),
{
    let mut out: Vec<String> = Vec::new();
    let mut i: usize = 0;
    while i < v.len()
        invariant
            i <= v@.len(),
            out@.len() == i,
            forall|k: int|
                0 <= k < i ==> (#[trigger] out@[k])@ == seq!['"'] + escaped(v@[k]@) + seq!['"'],
        decreases v@.len() - i,
    {
        let mut s = String::new();
        s.push('"');
        push_escaped(&mut s, v[i].as_str());
        s.push('"');
        assert(s@ =~= seq!['"'] + escaped(v@[i as int]@) + seq!['"']);
        out.push(s);
        i += 1;
    }
    assert(texts(out@) =~= quoted(texts(v@)));
    out
}

/// What is known of a player.
pub fn player_json(m: &PlayerMeta) -> (r: String)
    ensures
        r@ == meta_entry(m@),
{
    let mut out = String::new();
    out.push_str("{\"name\":\"");
    push_escaped(&mut out, m.name.as_str());
    out.push_str("\",\"steam_id\":\"");
    push_escaped(&mut out, m.steam_id.as_str());
    out.push_str("\",\"user_id\":");
    push_decimal(&mut out, m.user_id as u64);
    out.push_str(",\"is_fake\":");
    push_bool(&mut out, m.is_fake);
    out.push_str(",\"is_hltv\":");
    push_bool(&mut out, m.is_hltv);
    out.push_str(",\"aliases\":[");
    let q = quote_all(&m.aliases);
    assert(texts(q@).len() == q@.len());
    assert(quoted(m@.aliases).len() == m@.aliases.len());
    push_joined(&mut out, &q);
    out.push_str("]}");
    assert(out@ =~= meta_entry(m@));
    out
}

/// Writes who the players are.
pub fn multi_names_to_json(data: &MultiPlayerData) -> (r: String)
    ensures
        r@ == names_text(data@.names),
{
    let m = &data.names;
    let ks = written_keys(m);
    let ghost v = metas(m@);
    assert(v.dom() =~= m@.dom());
    let mut entries: Vec<String> = Vec::new();
    let mut i: usize = 0;
    while i < ks.len()
        invariant
            i <= ks@.len(),
            v == metas(m@),
            forall|i: int|
                0 <= i < ks@.len() ==> 0 <= #[trigger] ks@[i] <= u32::MAX && m@.dom().contains(
                    ks@[i] as u32,
                ),
            entries@.len() == i,
            forall|k: int|
                0 <= k < i ==> (#[trigger] entries@[k])@ == entry(
                    ks@[k] as int,
                    meta_entry(v[ks@[k] as u32]),
                ),
        decreases ks@.len() - i,
    {
        let k: u32 = ks[i] as u32;
        assert(m@.dom().contains(ks@[i as int] as u32));
        match m.get(&k) {
            Some(p) => {
                assert(v[k] == p@);
                let body = player_json(p);
                entries.push(entry_json(ks[i], body.as_str()));
            },
            None => {},
        }
        i += 1;
    }
    assert(texts(entries@) =~= as_ints(ks@).map_values(
        |k: int| entry(k, meta_entry(v[k as u32])),
    ));
    object_json(&entries)
}

/// The class of a weapon without what it begins with, in lower case.
pub open spec fn weapon_name(class: Seq<char>) -> Seq<char> {
    lower_chars(
        if begins(class, "CTFWeapon"@) {
            class.skip(9)
        } else if begins(class, "CTF"@) {
            class.skip(3)
        } else {
            class
        },
    )
}

fn short_class(class: &str) -> (r: String)
    ensures
        r@ == weapon_name(class@),
{
    proof {
        reveal_strlit("CTFWeapon");
        reveal_strlit("CTF");
    }
    let cs = chars_of(class);
    let long = chars_of("CTFWeapon");
    let short = chars_of("CTF");
    let n: usize = if stands_at(cs.as_slice(), long.as_slice(), 0) {
        9
    } else if stands_at(cs.as_slice(), short.as_slice(), 0) {
        3
    } else {
        0
    };
    let rest = text_of(vstd::slice::slice_subrange(cs.as_slice(), n, cs.len()));
    assert(rest@ =~= if begins(class@, "CTFWeapon"@) {
        class@.skip(9)
    } else if begins(class@, "CTF"@) {
        class@.skip(3)
    } else {
        class@
    });
    lowercase(rest.as_str())
}

pub open spec fn signed_keys(keys: Set<i32>) -> Set<int> {
    Set::new(|k: int| i32::MIN <= k <= i32::MAX && keys.contains(k as i32))
}

/// Weapons by number: of each what it is called.
pub open spec fn classes_text(m: Map<i32, Seq<char>>) -> Seq<char> {
    object(
        written(signed_keys(m.dom())).map_values(
            |k: int| entry(k, seq!['"'] + escaped(weapon_name(m[k as i32])) + seq!['"']),
        ),
    )
}

fn written_signed<V>(m: &HashMap<i32, V>) -> (ks: Vec<i64>)
    ensures
        as_ints(ks@) == written(signed_keys(m@.dom())),
        forall|i: int|
            0 <= i < ks@.len() ==> i32::MIN <= #[trigger] ks@[i] <= i32::MAX && m@.dom().contains(
                ks@[i] as i32,
            ),
{
    let ghost all = vstd::std_specs::hash::spec_keys_iter(m).remaining();
    let ghost keys = all.unref();
    assert(keys.to_set() == m@.dom());
    let mut found: Vec<i64> = Vec::new();
    for k in it: m.keys()
        invariant
            it.seq() == all,
            keys == all.unref(),
            found@.len() == it.index(),
            forall|j: int| 0 <= j < it.index() ==> #[trigger] found@[j] == *all[j],
    {
        found.push(*k as i64);
    }
    proof {
        let f = as_ints(found@);
        assert forall|x: int| f.to_set().contains(x) <==> signed_keys(m@.dom()).contains(x) by {
            if f.contains(x) {
                let j = choose|j: int| 0 <= j < f.len() && f[j] == x;
                assert(found@[j] == *all[j]);
                assert(keys[j] == x as i32);
                assert(keys.contains(x as i32));
                assert(keys.to_set().contains(x as i32));
            }
            if signed_keys(m@.dom()).contains(x) {
                assert(keys.to_set().contains(x as i32));
                assert(keys.contains(x as i32));
                let j = choose|j: int| 0 <= j < keys.len() && keys[j] == x as i32;
                assert(found@[j] == *all[j]);
                assert(f[j] == x);
            }
        }
        assert(f.to_set() =~= signed_keys(m@.dom()));
    }
    let ks = write_order(&found);
    assert forall|i: int| 0 <= i < ks@.len() implies i32::MIN <= #[trigger] ks@[i] <= i32::MAX
        && m@.dom().contains(ks@[i] as i32) by {
        assert(as_ints(ks@)[i] == ks@[i]);
        assert(as_ints(ks@).contains(ks@[i] as int));
    }
    ks
}

/// Writes what the weapons are.
pub fn multi_weapon_classes_to_json(data: &MultiPlayerData) -> (r: String)
    ensures
        r@ == classes_text(data@.weapon_classes),
{
    let m = &data.weapon_classes;
    let ks = written_signed(m);
    let ghost v = class_names(m@);
    assert(v.dom() =~= m@.dom());
    let mut entries: Vec<String> = Vec::new();
    let mut i: usize = 0;
    while i < ks.len()
        invariant
            i <= ks@.len(),
            v == class_names(m@),
            forall|i: int|
                0 <= i < ks@.len() ==> i32::MIN <= #[trigger] ks@[i] <= i32::MAX
                    && m@.dom().contains(ks@[i] as i32),
            entries@.len() == i,
            forall|k: int|
                0 <= k < i ==> (#[trigger] entries@[k])@ == entry(
                    ks@[k] as int,
                    seq!['"'] + escaped(weapon_name(v[ks@[k] as i32])) + seq!['"'],
                ),
        decreases ks@.len() - i,
    {
        let k: i32 = ks[i] as i32;
        assert(m@.dom().contains(ks@[i as int] as i32));
        match m.get(&k) {
            Some(c) => {
                assert(v[k] == c@);
                let name = short_class(c.as_str());
                let mut body = String::new();
                body.push('"');
                push_escaped(&mut body, name.as_str());
                body.push('"');
                assert(body@ =~= seq!['"'] + escaped(weapon_name(v[k])) + seq!['"']);
                entries.push(entry_json(ks[i], body.as_str()));
            },
            None => {},
        }
        i += 1;
    }
    assert(texts(entries@) =~= as_ints(ks@).map_values(
        |k: int| entry(k, seq!['"'] + escaped(weapon_name(v[k as i32])) + seq!['"']),
    ));
    object_json(&entries)
}

} // verus!
