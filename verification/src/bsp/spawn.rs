//! Spawn points in a map's entity text.
use crate::text::{chars_of, holds, lower_chars, lowercase, split_words, str_eq, text_holds, text_of,
    texts, trim, trimmed, words};
use vstd::prelude::*;

verus! {

/// An origin: the texts of its three coordinates.
#[derive(Debug, Clone)]
pub struct Origin {
    pub x: String,
    pub y: String,
    pub z: String,
}

/// What an `Origin` says.
pub struct OriginView {
    pub x: Seq<char>,
    pub y: Seq<char>,
    pub z: Seq<char>,
}

impl Origin {
    pub open spec fn view(&self) -> OriginView {
        OriginView { x: self.x@, y: self.y@, z: self.z@ }
    }
}

pub open spec fn origins(v: Seq<Origin>) -> Seq<OriginView> {
    v.map_values(|o: Origin| o@)
}

/// The first place from `i` on that holds `c`, or the length.
pub open spec fn place_of(s: Seq<char>, c: char, i: int) -> int
    decreases s.len() - i,
{
    if i >= s.len() {
        s.len() as int
    } else if s[i] == c {
        i
    } else {
        place_of(s, c, i + 1)
    }
}

pub open spec fn is_gap(c: char) -> bool {
    c == ' ' || c == '\n' || c == '\r' || c == '\t'
}

/// The first place from `i` on that is not a gap.
pub open spec fn past_gap(s: Seq<char>, i: int) -> int
    decreases s.len() - i,
{
    if i < s.len() && is_gap(s[i]) {
        past_gap(s, i + 1)
    } else {
        i
    }
}

/// Where a block whose braces are `depth` deep at `i` closes: the place of its
/// last brace, or the length.
pub open spec fn block_close(s: Seq<char>, i: int, depth: int) -> int
    decreases s.len() - i,
{
    if i >= s.len() {
        s.len() as int
    } else if s[i] == '{' {
        block_close(s, i + 1, depth + 1)
    } else if s[i] == '}' {
        if depth <= 1 {
            i
        } else {
            block_close(s, i + 1, depth - 1)
        }
    } else {
        block_close(s, i + 1, depth)
    }
}

/// The class and origin of an entity.
pub struct Pair {
    pub class: Seq<char>,
    pub origin: Seq<char>,
}

pub proof fn lemma_place_of(s: Seq<char>, c: char, i: int)
    requires
        0 <= i <= s.len(),
    ensures
        i <= place_of(s, c, i) <= s.len(),
    decreases s.len() - i,
{
    if i < s.len() && s[i] != c {
        lemma_place_of(s, c, i + 1);
    }
}

proof fn lemma_past_gap(s: Seq<char>, i: int)
    requires
        0 <= i <= s.len(),
    ensures
        i <= past_gap(s, i) <= s.len(),
    decreases s.len() - i,
{
    if i < s.len() && is_gap(s[i]) {
        lemma_past_gap(s, i + 1);
    }
}

proof fn lemma_block_close(s: Seq<char>, i: int, depth: int)
    requires
        0 <= i <= s.len(),
    ensures
        i <= block_close(s, i, depth) <= s.len(),
    decreases s.len() - i,
{
    if i < s.len() {
        if s[i] == '{' {
            lemma_block_close(s, i + 1, depth + 1);
        } else if s[i] == '}' {
            if depth > 1 {
                lemma_block_close(s, i + 1, depth - 1);
            }
        } else {
            lemma_block_close(s, i + 1, depth);
        }
    }
}

/// One past the quoted text that starts at `i`, within the block.
pub open spec fn past_quote(s: Seq<char>, i: int) -> int {
    if place_of(s, '"', i) < s.len() {
        place_of(s, '"', i) + 1
    } else {
        place_of(s, '"', i)
    }
}

/// What the quoted keys and values of a block from `i` on say, over `p`.
pub open spec fn pairs_from(s: Seq<char>, i: int, p: Pair) -> Pair
    decreases s.len() - i,
    via pairs_from_decreases
{
    if i < 0 || past_gap(s, i) >= s.len() {
        p
    } else {
        let k = past_gap(s, i);
        if s[k] != '"' {
            pairs_from(s, k + 1, p)
        } else {
            let key = trimmed(s.subrange(k + 1, place_of(s, '"', k + 1)));
            let v = past_gap(s, past_quote(s, k + 1));
            if v >= s.len() || s[v] != '"' {
                pairs_from(s, v, p)
            } else {
                let val = s.subrange(v + 1, place_of(s, '"', v + 1));
                pairs_from(
                    s,
                    past_quote(s, v + 1),
                    if key == "classname"@ {
                        Pair { class: val, ..p }
                    } else if key == "origin"@ {
                        Pair { origin: val, ..p }
                    } else {
                        p
                    },
                )
            }
        }
    }
}

#[via_fn]
proof fn pairs_from_decreases(s: Seq<char>, i: int, p: Pair) {
    if 0 <= i <= s.len() {
        lemma_past_gap(s, i);
        let k = past_gap(s, i);
        if k < s.len() {
            lemma_place_of(s, '"', k + 1);
            lemma_past_gap(s, past_quote(s, k + 1));
            let v = past_gap(s, past_quote(s, k + 1));
            if v < s.len() {
                lemma_place_of(s, '"', v + 1);
            }
        }
    } else if i > s.len() {
        assert(past_gap(s, i) == i);
    }
}

/// Whether an entity of this class marks a spawn point.
pub open spec fn is_spawn_class(class: Seq<char>) -> bool {
    holds(lower_chars(class), "teamspawn"@) || class == "info_player_start"@
}

/// The spawn point of a block, if it has one with three coordinates.
pub open spec fn block_spawn(s: Seq<char>) -> Option<OriginView> {
    let p = pairs_from(s, 0, Pair { class: Seq::empty(), origin: Seq::empty() });
    let w = words(p.origin);
    if is_spawn_class(p.class) && w.len() == 3 {
        Some(OriginView { x: w[0], y: w[1], z: w[2] })
    } else {
        None
    }
}

/// The spawn points of the blocks from `i` on, in order.
pub open spec fn spawns_from(s: Seq<char>, i: int) -> Seq<OriginView>
    decreases s.len() - i,
    via spawns_from_decreases
{
    let o = place_of(s, '{', i);
    if i < 0 || o + 1 >= s.len() {
        Seq::empty()
    } else {
        let e = block_close(s, o + 1, 1);
        let rest = spawns_from(
            s,
            if e < s.len() {
                e + 1
            } else {
                e
            },
        );
        match block_spawn(s.subrange(o + 1, e)) {
            Some(v) => seq![v] + rest,
            None => rest,
        }
    }
}

#[via_fn]
proof fn spawns_from_decreases(s: Seq<char>, i: int) {
    if 0 <= i <= s.len() {
        lemma_place_of(s, '{', i);
        let o = place_of(s, '{', i);
        if o + 1 < s.len() {
            lemma_block_close(s, o + 1, 1);
        }
    }
}

pub(crate) fn find_char(s: &[char], c: char, from: usize) -> (r: usize)
    requires
        from <= s@.len(),
    ensures
        r == place_of(s@, c, from as int),
        from <= r <= s@.len(),
{
    let mut i: usize = from;
    while i < s.len()
        invariant
            from <= i <= s@.len(),
            place_of(s@, c, from as int) == place_of(s@, c, i as int),
        decreases s@.len() - i,
    {
        if s[i] == c {
            return i;
        }
        i += 1;
    }
    i
}

fn skip_gap(s: &[char], from: usize) -> (r: usize)
    requires
        from <= s@.len(),
    ensures
        r == past_gap(s@, from as int),
        from <= r <= s@.len(),
{
    let mut i: usize = from;
    while i < s.len() && (s[i] == ' ' || s[i] == '\n' || s[i] == '\r' || s[i] == '\t')
        invariant
            from <= i <= s@.len(),
            past_gap(s@, from as int) == past_gap(s@, i as int),
        decreases s@.len() - i,
    {
        i += 1;
    }
    i
}

fn find_close(s: &[char], from: usize) -> (r: usize)
    requires
        1 <= from <= s@.len(),
    ensures
        r == block_close(s@, from as int, 1),
        from <= r <= s@.len(),
{
    let mut i: usize = from;
    let mut depth: usize = 1;
    while i < s.len()
        invariant
            1 <= from <= i <= s@.len(),
            1 <= depth <= i - from + 1,
            block_close(s@, from as int, 1) == block_close(s@, i as int, depth as int),
        decreases s@.len() - i,
    {
        if s[i] == '{' {
            depth += 1;
        } else if s[i] == '}' {
            if depth == 1 {
                return i;
            }
            depth -= 1;
        }
        i += 1;
    }
    i
}

fn read_block(s: &[char]) -> (r: Option<Origin>)
    ensures
        match (r, block_spawn(s@)) {
            (Some(o), Some(v)) => o@ == v,
            (None, None) => true,
            _ => false,
        },
{
    let mut class = String::new();
    let mut origin = String::new();
    let mut i: usize = 0;
    let ghost all = pairs_from(s@, 0, Pair { class: Seq::empty(), origin: Seq::empty() });
    while i < s.len()
        invariant_except_break
            i <= s@.len(),
            all == pairs_from(s@, i as int, Pair { class: class@, origin: origin@ }),
        ensures
            all == (Pair { class: class@, origin: origin@ }),
        decreases s@.len() - i,
    {
        let k: usize = skip_gap(s, i);
        if k >= s.len() {
            break;
        }
        if s[k] != '"' {
            i = k + 1;
            continue;
        }
        let ke: usize = find_char(s, '"', k + 1);
        let key = trim(text_of(vstd::slice::slice_subrange(s, k + 1, ke)).as_str());
        let q: usize = if ke < s.len() {
            ke + 1
        } else {
            ke
        };
        let v: usize = skip_gap(s, q);
        if v >= s.len() || s[v] != '"' {
            i = v;
            continue;
        }
        let ve: usize = find_char(s, '"', v + 1);
        let val = text_of(vstd::slice::slice_subrange(s, v + 1, ve));
        if str_eq(key.as_str(), "classname") {
            class = val;
        } else if str_eq(key.as_str(), "origin") {
            origin = val;
        }
        i = if ve < s.len() {
            ve + 1
        } else {
            ve
        };
    }
    let lower = lowercase(class.as_str());
    if text_holds(lower.as_str(), "teamspawn") || str_eq(class.as_str(), "info_player_start") {
        let w = split_words(origin.as_str());
        assert(texts(w@).len() == w@.len());
        if w.len() == 3 {
            assert(texts(w@)[0] == w@[0]@ && texts(w@)[1] == w@[1]@ && texts(w@)[2] == w@[2]@);
            return Some(Origin { x: w[0].clone(), y: w[1].clone(), z: w[2].clone() });
        }
    }
    None
}

/// The spawn points that an entity text names, in order, as texts.
pub fn find_spawns(entities: &str) -> (r: Vec<Origin>)
    ensures
        origins(r@) == spawns_from(entities@, 0),
{
    let s = chars_of(entities);
    let mut out: Vec<Origin> = Vec::new();
    let mut i: usize = 0;
    let ghost all = spawns_from(s@, 0);
    assert(origins(out@) + all =~= all);
    loop
        invariant
            i <= s@.len(),
            s@ == entities@,
            all == spawns_from(s@, 0),
            all == origins(out@) + spawns_from(s@, i as int),
        decreases s@.len() - i,
    {
        let o: usize = find_char(s.as_slice(), '{', i);
        if o >= s.len() || o + 1 >= s.len() {
            assert(origins(out@) + Seq::<OriginView>::empty() =~= origins(out@));
            return out;
        }
        let e: usize = find_close(s.as_slice(), o + 1);
        let next: usize = if e < s.len() {
            e + 1
        } else {
            e
        };
        match read_block(vstd::slice::slice_subrange(s.as_slice(), o + 1, e)) {
            Some(v) => {
                proof {
                    let rest = spawns_from(s@, next as int);
                    assert(origins(out@) + (seq![v@] + rest) =~= origins(out@).push(v@) + rest);
                    assert(origins(out@.push(v)) =~= origins(out@).push(v@));
                }
                out.push(v);
            },
            None => {},
        }
        i = next;
    }
}

pub open spec fn without_quote(s: Seq<char>) -> bool {
    forall|i: int| 0 <= i < s.len() ==> #[trigger] s[i] != '"'
}

/// Keys and values as they are written in a block, a line each.
pub open spec fn lines(ps: Seq<(Seq<char>, Seq<char>)>) -> Seq<char>
    decreases ps.len(),
{
    if ps.len() == 0 {
        seq!['\n']
    } else {
        ((seq!['\n', '"'] + ps[0].0) + seq!['"', ' ', '"']) + ((ps[0].1 + seq!['"']) + lines(
            ps.drop_first(),
        ))
    }
}

/// The class and the origin that pairs give: the last of each.
pub open spec fn told(ps: Seq<(Seq<char>, Seq<char>)>, p: Pair) -> Pair
    decreases ps.len(),
{
    if ps.len() == 0 {
        p
    } else {
        let key = trimmed(ps[0].0);
        told(
            ps.drop_first(),
            if key == "classname"@ {
                Pair { class: ps[0].1, ..p }
            } else if key == "origin"@ {
                Pair { origin: ps[0].1, ..p }
            } else {
                p
            },
        )
    }
}

/// The place of the quote behind a text that has none.
proof fn lemma_quote_behind(s: Seq<char>, i: int, t: Seq<char>)
    requires
        0 <= i,
        i + t.len() < s.len(),
        s.subrange(i, i + t.len()) == t,
        without_quote(t),
        s[i + t.len()] == '"',
    ensures
        place_of(s, '"', i) == i + t.len(),
    decreases t.len(),
{
    if t.len() > 0 {
        assert(s[i] == s.subrange(i, i + t.len())[0]);
        let u = t.drop_first();
        assert(s.subrange(i + 1, i + 1 + u.len()) =~= u) by {
            assert forall|j: int| 0 <= j < u.len() implies s[i + 1 + j] == u[j] by {
                assert(s.subrange(i, i + t.len())[j + 1] == t[j + 1]);
            }
        }
        lemma_quote_behind(s, i + 1, u);
    }
}

proof fn lemma_lines(s: Seq<char>, i: int, ps: Seq<(Seq<char>, Seq<char>)>, p: Pair)
    requires
        0 <= i <= s.len(),
        s.subrange(i, s.len() as int) == lines(ps),
        forall|j: int|
            0 <= j < ps.len() ==> without_quote((#[trigger] ps[j]).0) && without_quote(ps[j].1),
    ensures
        pairs_from(s, i, p) == told(ps, p),
    decreases ps.len(),
{
    let l = lines(ps);
    let w = s.subrange(i, s.len() as int);
    assert(w.len() == s.len() - i);
    reveal_with_fuel(past_gap, 3);
    if ps.len() == 0 {
        assert(l =~= seq!['\n']);
        assert(w[0] == l[0]);
        assert(s[i] == '\n');
        assert(s.len() == i + 1);
    } else {
        let (k, v) = ps[0];
        let rest = ps.drop_first();
        let n = k.len() as int;
        let m = v.len() as int;
        let e = i + 2 + n;
        let f = e + 3 + m;
        assert(l == ((seq!['\n', '"'] + k) + seq!['"', ' ', '"']) + ((v + seq!['"']) + lines(rest)));
        assert(l.len() == 6 + n + m + lines(rest).len());
        assert(w[0] == l[0] && w[1] == l[1]);
        assert(s[i] == '\n' && s[i + 1] == '"');
        assert(s.subrange(i + 2, e) =~= k) by {
            assert forall|j: int| 0 <= j < n implies s[i + 2 + j] == k[j] by {
                assert(w[2 + j] == l[2 + j]);
            }
        }
        assert(w[2 + n] == l[2 + n] && w[3 + n] == l[3 + n] && w[4 + n] == l[4 + n]);
        assert(s[e] == '"' && s[e + 1] == ' ' && s[e + 2] == '"');
        assert(s.subrange(e + 3, f) =~= v) by {
            assert forall|j: int| 0 <= j < m implies s[e + 3 + j] == v[j] by {
                assert(w[5 + n + j] == l[5 + n + j]);
            }
        }
        assert(w[5 + n + m] == l[5 + n + m]);
        assert(s[f] == '"');
        assert(s.subrange(f + 1, s.len() as int) =~= lines(rest)) by {
            assert forall|j: int| 0 <= j < lines(rest).len() implies s[f + 1 + j] == lines(rest)[j] by {
                assert(w[6 + n + m + j] == l[6 + n + m + j]);
            }
        }
        assert(without_quote(k) && without_quote(v)) by {
            assert(ps[0].0 == k);
        }
        lemma_quote_behind(s, i + 2, k);
        lemma_quote_behind(s, e + 3, v);
        assert(past_gap(s, i) == i + 1);
        assert(past_quote(s, i + 2) == e + 1);
        assert(past_gap(s, e + 1) == e + 2);
        assert(past_quote(s, e + 3) == f + 1);
        assert forall|j: int| 0 <= j < rest.len() implies without_quote((#[trigger] rest[j]).0)
            && without_quote(rest[j].1) by {
            assert(rest[j] == ps[j + 1]);
        }
        let key = trimmed(k);
        let q = if key == "classname"@ {
            Pair { class: v, ..p }
        } else if key == "origin"@ {
            Pair { origin: v, ..p }
        } else {
            p
        };
        lemma_lines(s, f + 1, rest, q);
    }
}

/// A block that was written is the spawn that its class and its origin make it: the three
/// words of the origin are x, y and z.
pub proof fn law_block_round_trip(ps: Seq<(Seq<char>, Seq<char>)>)
    requires
        forall|j: int|
            0 <= j < ps.len() ==> without_quote((#[trigger] ps[j]).0) && without_quote(ps[j].1),
    ensures
        ({
            let p = told(ps, Pair { class: Seq::empty(), origin: Seq::empty() });
            let w = words(p.origin);
            block_spawn(lines(ps)) == if is_spawn_class(p.class) && w.len() == 3 {
                Some(OriginView { x: w[0], y: w[1], z: w[2] })
            } else {
                None
            }
        }),
{
    let s = lines(ps);
    assert(s.subrange(0, s.len() as int) =~= s);
    lemma_lines(s, 0, ps, Pair { class: Seq::empty(), origin: Seq::empty() });
}

} // verus!
