//! The order of texts, character by character, and numbers in the order of their
//! decimals.
use crate::text::{chars_of, decimal, digit, push_signed, signed_decimal};
use vstd::prelude::*;

verus! {

/// Whether a text comes before another, from place `i` on.
pub open spec fn before_from(a: Seq<char>, b: Seq<char>, i: int) -> bool
    decreases b.len() - i,
{
    if i < 0 || i >= b.len() {
        false
    } else if i >= a.len() {
        true
    } else if a[i] != b[i] {
        a[i] < b[i]
    } else {
        before_from(a, b, i + 1)
    }
}

/// Whether a text comes before another.
pub open spec fn before(a: Seq<char>, b: Seq<char>) -> bool {
    before_from(a, b, 0)
}

proof fn lemma_asymmetric_from(a: Seq<char>, b: Seq<char>, i: int)
    requires
        0 <= i,
    ensures
        !(before_from(a, b, i) && before_from(b, a, i)),
    decreases b.len() - i,
{
    if i < b.len() && i < a.len() && a[i] == b[i] {
        lemma_asymmetric_from(a, b, i + 1);
    }
}

proof fn lemma_transitive_from(a: Seq<char>, b: Seq<char>, c: Seq<char>, i: int)
    requires
        0 <= i,
        before_from(a, b, i),
        before_from(b, c, i),
    ensures
        before_from(a, c, i),
    decreases c.len() - i,
{
    if i < a.len() && i < b.len() && i < c.len() && a[i] == b[i] && b[i] == c[i] {
        lemma_transitive_from(a, b, c, i + 1);
    }
}

proof fn lemma_connected_from(a: Seq<char>, b: Seq<char>, i: int)
    requires
        0 <= i <= a.len(),
        i <= b.len(),
        a.take(i) == b.take(i),
        a != b,
    ensures
        before_from(a, b, i) || before_from(b, a, i),
    decreases b.len() - i,
{
    if i < a.len() && i < b.len() {
        if a[i] == b[i] {
            assert(a.take(i + 1) =~= a.take(i).push(a[i]));
            assert(b.take(i + 1) =~= b.take(i).push(b[i]));
            lemma_connected_from(a, b, i + 1);
        }
    } else if i == a.len() && i == b.len() {
        assert(a =~= a.take(i));
        assert(b =~= b.take(i));
    }
}

/// Of two texts that differ one comes before the other, and not the other way round.
pub proof fn law_text_order(a: Seq<char>, b: Seq<char>)
    ensures
        !(before(a, b) && before(b, a)),
        a != b ==> before(a, b) || before(b, a),
        !before(a, a),
{
    lemma_asymmetric_from(a, b, 0);
    lemma_asymmetric_from(a, a, 0);
    if a != b {
        assert(a.take(0) =~= b.take(0));
        lemma_connected_from(a, b, 0);
    }
}

/// What comes before a text comes before all that it comes before.
pub proof fn law_text_order_chains(a: Seq<char>, b: Seq<char>, c: Seq<char>)
    requires
        before(a, b),
        before(b, c),
    ensures
        before(a, c),
{
    lemma_transitive_from(a, b, c, 0);
}

fn is_before(a: &[char], b: &[char]) -> (r: bool)
    ensures
        r == before(a@, b@),
{
    let mut i: usize = 0;
    while i < b.len()
        invariant
            i <= b@.len(),
            i <= a@.len(),
            before(a@, b@) == before_from(a@, b@, i as int),
        decreases b@.len() - i,
    {
        if i >= a.len() {
            return true;
        }
        if a[i] != b[i] {
            return a[i] < b[i];
        }
        i += 1;
    }
    false
}

proof fn lemma_decimal_some(n: nat)
    ensures
        decimal(n).len() > 0,
        '0' <= decimal(n)[0] && decimal(n)[0] <= '9',
    decreases n,
{
    if n >= 10 {
        lemma_decimal_some(n / 10);
    }
}

proof fn lemma_decimal_one(a: nat, b: nat)
    requires
        decimal(a) == decimal(b),
    ensures
        a == b,
    decreases a,
{
    assert(decimal(a).last() == digit(a));
    assert(decimal(b).last() == digit(b));
    if a >= 10 && b >= 10 {
        assert(decimal(a / 10) =~= decimal(a).drop_last());
        assert(decimal(b / 10) =~= decimal(b).drop_last());
        lemma_decimal_one(a / 10, b / 10);
    } else if a >= 10 {
        lemma_decimal_some(a / 10);
        assert(decimal(b).len() == 1);
    } else if b >= 10 {
        lemma_decimal_some(b / 10);
        assert(decimal(a).len() == 1);
    }
}

/// Two numbers with the same decimal are the same.
pub proof fn law_decimal_unique(a: int, b: int)
    requires
        signed_decimal(a) == signed_decimal(b),
    ensures
        a == b,
{
    lemma_decimal_some(if a < 0 { (-a) as nat } else { a as nat });
    lemma_decimal_some(if b < 0 { (-b) as nat } else { b as nat });
    if a < 0 && b < 0 {
        assert(decimal((-a) as nat) =~= signed_decimal(a).skip(1));
        assert(decimal((-b) as nat) =~= signed_decimal(b).skip(1));
        lemma_decimal_one((-a) as nat, (-b) as nat);
    } else if a >= 0 && b >= 0 {
        lemma_decimal_one(a as nat, b as nat);
    } else if a < 0 {
        assert(signed_decimal(a)[0] == '-');
    } else {
        assert(signed_decimal(b)[0] == '-');
    }
}

/// A number between quotes, as a key is written.
pub open spec fn label(k: int) -> Seq<char> {
    seq!['"'] + signed_decimal(k) + seq!['"']
}

/// Whether a key is written before another.
pub open spec fn key_before(a: int, b: int) -> bool {
    before(label(a), label(b))
}

proof fn lemma_key_order(a: int, b: int)
    ensures
        !(key_before(a, b) && key_before(b, a)),
        a != b ==> key_before(a, b) || key_before(b, a),
        !key_before(a, a),
{
    law_text_order(label(a), label(b));
    law_text_order(label(a), label(a));
    if label(a) == label(b) {
        let n = label(a).len();
        assert(signed_decimal(a) =~= label(a).subrange(1, n - 1));
        assert(signed_decimal(b) =~= label(b).subrange(1, n - 1));
        law_decimal_unique(a, b);
    }
}

/// Keys in the order in which they are written.
pub open spec fn keys_ordered(ks: Seq<int>) -> bool {
    forall|i: int, j: int| 0 <= i < j < ks.len() ==> #[trigger] key_before(ks[i], ks[j])
}

/// Whether `ks` are the keys of a set in the order in which they are written.
pub open spec fn are_written(ks: Seq<int>, keys: Set<int>) -> bool {
    keys_ordered(ks) && forall|k: int| ks.contains(k) <==> keys.contains(k)
}

/// The keys of a set in the order in which they are written.
pub open spec fn written(keys: Set<int>) -> Seq<int> {
    choose|ks: Seq<int>| are_written(ks, keys)
}

proof fn lemma_rest(a: Seq<int>, keys: Set<int>)
    requires
        are_written(a, keys),
        a.len() > 0,
    ensures
        are_written(a.skip(1), keys.remove(a[0])),
{
    let s = a.skip(1);
    assert forall|i: int, j: int| 0 <= i < j < s.len() implies #[trigger] key_before(s[i], s[j]) by {
        assert(key_before(a[i + 1], a[j + 1]));
    }
    assert forall|k: int| s.contains(k) <==> keys.remove(a[0]).contains(k) by {
        if s.contains(k) {
            let i = choose|i: int| 0 <= i < s.len() && s[i] == k;
            assert(a[i + 1] == k);
            assert(a.contains(k));
            assert(key_before(a[0], a[i + 1]));
            lemma_key_order(k, k);
        }
        if keys.remove(a[0]).contains(k) {
            assert(a.contains(k));
            let i = choose|i: int| 0 <= i < a.len() && a[i] == k;
            assert(s[i - 1] == k);
        }
    }
}

/// Keys are written in one order only.
pub proof fn law_one_written_order(a: Seq<int>, b: Seq<int>, keys: Set<int>)
    requires
        are_written(a, keys),
        are_written(b, keys),
    ensures
        a == b,
    decreases a.len(),
{
    if a.len() == 0 {
        if b.len() > 0 {
            assert(b.contains(b[0]));
            assert(a.contains(b[0]));
        }
    } else {
        assert(a.contains(a[0]));
        assert(b.contains(a[0]));
        assert(b.len() > 0);
        assert(b.contains(b[0]));
        assert(a.contains(b[0]));
        let i = choose|i: int| 0 <= i < b.len() && b[i] == a[0];
        let j = choose|j: int| 0 <= j < a.len() && a[j] == b[0];
        assert(a[0] == b[0]) by {
            if i > 0 && j > 0 {
                assert(key_before(b[0], b[i]));
                assert(key_before(a[0], a[j]));
                lemma_key_order(a[0], b[0]);
            }
        }
        lemma_rest(a, keys);
        lemma_rest(b, keys);
        law_one_written_order(a.skip(1), b.skip(1), keys.remove(a[0]));
        assert(a =~= seq![a[0]] + a.skip(1));
        assert(b =~= seq![b[0]] + b.skip(1));
    }
}

fn label_of(k: i64) -> (v: Vec<char>)
    ensures
        v@ == label(k as int),
{
    let mut s = String::new();
    s.push('"');
    push_signed(&mut s, k);
    s.push('"');
    let v = chars_of(s.as_str());
    assert(v@ =~= label(k as int));
    v
}

pub open spec fn as_ints(ks: Seq<i64>) -> Seq<int> {
    ks.map_values(|k: i64| k as int)
}

/// Puts a key into its place in the order in which keys are written, unless it is
/// there.
fn insert_key(ks: &mut Vec<i64>, k: i64)
    requires
        keys_ordered(as_ints(old(ks)@)),
    ensures
        keys_ordered(as_ints(final(ks)@)),
        forall|x: int|
            #[trigger] as_ints(final(ks)@).contains(x) <==> as_ints(old(ks)@).contains(x) || x == k,
{
    let ghost s = as_ints(ks@);
    let l = label_of(k);
    let mut i: usize = ks.len();
    while i > 0
        invariant_except_break
            i <= ks@.len(),
        invariant
            as_ints(ks@) == s,
            i <= ks@.len(),
            l@ == label(k as int),
            forall|q: int| i <= q < s.len() ==> key_before(k as int, #[trigger] s[q]),
        ensures
            i > 0 ==> !key_before(k as int, s[i - 1]),
        decreases i,
    {
        let m = label_of(ks[i - 1]);
        assert(s[i - 1] == ks@[i - 1]);
        if !is_before(l.as_slice(), m.as_slice()) {
            break;
        }
        i -= 1;
    }
    if i > 0 && ks[i - 1] == k {
        assert(s[i - 1] == k);
        return;
    }
    ks.insert(i, k);
    proof {
        let t = as_ints(ks@);
        assert(t =~= s.insert(i as int, k as int));
        if i > 0 {
            lemma_key_order(k as int, s[i - 1]);
        }
        assert forall|a: int, b: int| 0 <= a < b < t.len() implies #[trigger] key_before(
            t[a],
            t[b],
        ) by {
            let x = if a < i { a } else { a - 1 };
            let y = if b < i { b } else { b - 1 };
            if a == i {
                assert(t[b] == s[b - 1]);
            } else if b == i {
                if a < i - 1 {
                    assert(key_before(s[a], s[i - 1]));
                    law_text_order_chains(label(s[a]), label(s[i - 1]), label(k as int));
                }
            } else {
                assert(key_before(s[x], s[y]));
            }
        }
        assert forall|x: int| #[trigger] t.contains(x) <==> s.contains(x) || x == k by {
            if s.contains(x) {
                let q = choose|q: int| 0 <= q < s.len() && s[q] == x;
                if q < i {
                    assert(t[q] == x);
                } else {
                    assert(t[q + 1] == x);
                }
            }
            if x == k {
                assert(t[i as int] == x);
            }
            if t.contains(x) && x != k {
                let q = choose|q: int| 0 <= q < t.len() && t[q] == x;
                if q < i {
                    assert(s[q] == x);
                } else {
                    assert(s[q - 1] == x);
                }
            }
        }
    }
}

/// Keys in the order in which they are written, each once.
pub fn write_order(keys: &Vec<i64>) -> (ks: Vec<i64>)
    ensures
        as_ints(ks@) == written(as_ints(keys@).to_set()),
        are_written(as_ints(ks@), as_ints(keys@).to_set()),
{
    let ghost all = as_ints(keys@);
    let mut ks: Vec<i64> = Vec::new();
    assert(as_ints(ks@) =~= Seq::empty());
    let mut i: usize = 0;
    while i < keys.len()
        invariant
            i <= keys@.len(),
            all == as_ints(keys@),
            keys_ordered(as_ints(ks@)),
            forall|x: int|
                #[trigger] as_ints(ks@).contains(x) <==> exists|q: int|
                    0 <= q < i && #[trigger] all[q] == x,
        decreases keys@.len() - i,
    {
        let ghost before_ks = as_ints(ks@);
        assert(all[i as int] == keys@[i as int]);
        insert_key(&mut ks, keys[i]);
        assert forall|x: int| #[trigger] as_ints(ks@).contains(x) <==> exists|q: int|
            0 <= q < i + 1 && #[trigger] all[q] == x by {
            if before_ks.contains(x) {
                let q = choose|q: int| 0 <= q < i && #[trigger] all[q] == x;
                assert(all[q] == x);
            }
        }
        i += 1;
    }
    proof {
        let set = all.to_set();
        assert forall|k: int| as_ints(ks@).contains(k) <==> set.contains(k) by {
            if set.contains(k) {
                assert(all.contains(k));
                let q = choose|q: int| 0 <= q < all.len() && all[q] == k;
                assert(all[q] == k);
            }
            if as_ints(ks@).contains(k) {
                let q = choose|q: int| 0 <= q < all.len() && #[trigger] all[q] == k;
                assert(all.contains(k));
            }
        }
        assert(are_written(as_ints(ks@), set));
        law_one_written_order(as_ints(ks@), written(set), set);
    }
    ks
}

} // verus!
