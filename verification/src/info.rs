//! Lists of backslashed keys and values.
use crate::bsp::spawn::{find_char, lemma_place_of, place_of};
use crate::text::{chars_of, letters_eq, same_letters, stands_at, text_of};
use vstd::prelude::*;

verus! {

/// The first place from `i` on without a backslash.
pub open spec fn past_slashes(s: Seq<char>, i: int) -> int
    decreases s.len() - i,
{
    if 0 <= i < s.len() && s[i] == '\\' {
        past_slashes(s, i + 1)
    } else {
        i
    }
}

/// Whether a key is the one that is sought, perhaps in another case.
pub open spec fn is_key(found: Seq<char>, name: Seq<char>, fold: bool) -> bool {
    if fold {
        same_letters(found, name)
    } else {
        found == name
    }
}

/// The value of a key among the pairs from `i` on.
pub open spec fn value_from(s: Seq<char>, i: int, name: Seq<char>, fold: bool) -> Option<Seq<char>>
    decreases s.len() - i,
    via value_from_decreases
{
    if 0 <= i {
        let e = place_of(s, '\\', i);
        if e >= s.len() {
            None
        } else {
            let f = place_of(s, '\\', e + 1);
            if is_key(s.subrange(i, e), name, fold) {
                Some(s.subrange(e + 1, f))
            } else if f >= s.len() {
                None
            } else {
                value_from(s, f + 1, name, fold)
            }
        }
    } else {
        None
    }
}

#[via_fn]
proof fn value_from_decreases(s: Seq<char>, i: int, name: Seq<char>, fold: bool) {
    if 0 <= i <= s.len() {
        lemma_place_of(s, '\\', i);
        let e = place_of(s, '\\', i);
        if e < s.len() {
            lemma_place_of(s, '\\', e + 1);
        }
    }
}

/// The value of a key in a list of backslashed keys and values; where the key
/// stands twice, the first.
pub open spec fn info_of(s: Seq<char>, name: Seq<char>, fold: bool) -> Option<Seq<char>> {
    value_from(s, past_slashes(s, 0), name, fold)
}

fn is_sought(found: &[char], name: &[char], fold: bool) -> (r: bool)
    ensures
        r == is_key(found@, name@, fold),
{
    if fold {
        letters_eq(found, name)
    } else {
        let r = found.len() == name.len() && stands_at(found, name, 0);
        assert(found@.subrange(0, found@.len() as int) =~= found@);
        r
    }
}

/// The value of a key; with `fold` the case of Latin letters in it does not count.
pub fn info_value(info: &str, name: &str, fold: bool) -> (r: Option<String>)
    ensures
        match (r, info_of(info@, name@, fold)) {
            (Some(v), Some(w)) => v@ == w,
            (None, None) => true,
            _ => false,
        },
{
    let s = chars_of(info);
    let n = chars_of(name);
    let mut i: usize = 0;
    while i < s.len() && s[i] == '\\'
        invariant
            i <= s@.len(),
            past_slashes(s@, 0) == past_slashes(s@, i as int),
        decreases s@.len() - i,
    {
        i += 1;
    }
    loop
        invariant
            i <= s@.len(),
            s@ == info@,
            n@ == name@,
            info_of(info@, name@, fold) == value_from(s@, i as int, name@, fold),
        decreases s@.len() - i,
    {
        let e: usize = find_char(s.as_slice(), '\\', i);
        if e >= s.len() {
            return None;
        }
        let f: usize = find_char(s.as_slice(), '\\', e + 1);
        if is_sought(vstd::slice::slice_subrange(s.as_slice(), i, e), n.as_slice(), fold) {
            return Some(text_of(vstd::slice::slice_subrange(s.as_slice(), e + 1, f)));
        }
        if f >= s.len() {
            return None;
        }
        i = f + 1;
    }
}

pub open spec fn without_slash(s: Seq<char>) -> bool {
    forall|i: int| 0 <= i < s.len() ==> #[trigger] s[i] != '\\'
}

/// Keys and values as they are written: each behind a backslash.
pub open spec fn listed(ps: Seq<(Seq<char>, Seq<char>)>) -> Seq<char>
    decreases ps.len(),
{
    if ps.len() == 0 {
        Seq::empty()
    } else {
        (seq!['\\'] + ps[0].0) + ((seq!['\\'] + ps[0].1) + listed(ps.drop_first()))
    }
}

/// The value of the first of the pairs that has a key.
pub open spec fn first_value(ps: Seq<(Seq<char>, Seq<char>)>, name: Seq<char>, fold: bool) -> Option<Seq<char>>
    decreases ps.len(),
{
    if ps.len() == 0 {
        None
    } else if is_key(ps[0].0, name, fold) {
        Some(ps[0].1)
    } else {
        first_value(ps.drop_first(), name, fold)
    }
}

/// The place of the backslash behind a text that has none.
proof fn lemma_slash_behind(s: Seq<char>, i: int, t: Seq<char>)
    requires
        0 <= i,
        i + t.len() <= s.len(),
        s.subrange(i, i + t.len()) == t,
        without_slash(t),
        i + t.len() < s.len() ==> s[i + t.len()] == '\\',
    ensures
        place_of(s, '\\', i) == i + t.len(),
    decreases t.len(),
{
    if t.len() > 0 {
        assert(s[i] == s.subrange(i, i + t.len())[0]);
        let u = t.drop_first();
        assert(s.subrange(i + 1, i + 1 + u.len()) =~= u) by {
            assert forall|j: int| 0 <= j < u.len() implies s[i + 1 + j] == u[j] by {
                assert(s.subrange(i, i + t.len())[j + 1] == t[j + 1]);
            }
        }
        lemma_slash_behind(s, i + 1, u);
    }
}

proof fn lemma_listed(s: Seq<char>, i: int, ps: Seq<(Seq<char>, Seq<char>)>, name: Seq<char>, fold: bool)
    requires
        0 <= i < s.len(),
        ps.len() > 0,
        s.subrange(i, s.len() as int) == listed(ps),
        forall|j: int|
            0 <= j < ps.len() ==> without_slash((#[trigger] ps[j]).0) && without_slash(ps[j].1),
    ensures
        value_from(s, i + 1, name, fold) == first_value(ps, name, fold),
    decreases ps.len(),
{
    let (k, v) = ps[0];
    let rest = ps.drop_first();
    let l = listed(ps);
    let w = s.subrange(i, s.len() as int);
    let e = i + 1 + k.len();
    let f = e + 1 + v.len();
    assert(l.len() == s.len() - i);
    assert(s.subrange(i + 1, e) =~= k) by {
        assert forall|j: int| 0 <= j < k.len() implies s[i + 1 + j] == k[j] by {
            assert(w[1 + j] == l[1 + j]);
        }
    }
    assert(s[e] == '\\') by {
        assert(w[1 + k.len() as int] == l[1 + k.len() as int]);
    }
    assert(s.subrange(e + 1, f) =~= v) by {
        assert forall|j: int| 0 <= j < v.len() implies s[e + 1 + j] == v[j] by {
            assert(w[2 + k.len() + j as int] == l[2 + k.len() + j as int]);
        }
    }
    assert(s.subrange(f, s.len() as int) =~= listed(rest)) by {
        assert forall|j: int| 0 <= j < listed(rest).len() implies s[f + j] == listed(rest)[j] by {
            assert(w[2 + k.len() + v.len() + j as int] == l[2 + k.len() + v.len() + j as int]);
        }
    }
    if f < s.len() {
        assert(rest.len() > 0);
        assert(s[f] == s.subrange(f, s.len() as int)[0]);
        assert(listed(rest)[0] == '\\');
    } else {
        if rest.len() > 0 {
            assert(listed(rest).len() > 0);
        }
        assert(rest.len() == 0);
    }
    assert(without_slash(k) && without_slash(v)) by {
        assert(ps[0].0 == k);
    }
    lemma_slash_behind(s, i + 1, k);
    lemma_slash_behind(s, e + 1, v);
    if !is_key(k, name, fold) {
        if f < s.len() {
            assert forall|j: int| 0 <= j < rest.len() implies without_slash((#[trigger] rest[j]).0)
                && without_slash(rest[j].1) by {
                assert(rest[j] == ps[j + 1]);
            }
            lemma_listed(s, f, rest, name, fold);
        } else {
            assert(first_value(rest, name, fold) is None);
        }
    }
}

/// Of keys and values that were written, the value of a key is the first that was written
/// with it, and none where none was.
pub proof fn law_info_round_trip(ps: Seq<(Seq<char>, Seq<char>)>, name: Seq<char>, fold: bool)
    requires
        ps.len() > 0,
        ps[0].0.len() > 0,
        forall|j: int|
            0 <= j < ps.len() ==> without_slash((#[trigger] ps[j]).0) && without_slash(ps[j].1),
    ensures
        info_of(listed(ps), name, fold) == first_value(ps, name, fold),
{
    let s = listed(ps);
    assert(s[0] == '\\');
    assert(s[1] == ps[0].0[0]);
    assert(without_slash(ps[0].0));
    reveal_with_fuel(past_slashes, 2);
    assert(past_slashes(s, 0) == 1);
    assert(s.subrange(0, s.len() as int) =~= s);
    lemma_listed(s, 0, ps, name, fold);
}

} // verus!
