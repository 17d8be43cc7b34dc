//! Walking hash maps in the order of their keys.
use std::collections::HashMap;
use vstd::prelude::*;
use vstd::std_specs::iter::IteratorSpec;

verus! {

/// Each key once, in increasing order.
pub open spec fn increasing(ks: Seq<u32>) -> bool {
    forall|i: int, j: int| 0 <= i < j < ks.len() ==> ks[i] < ks[j]
}

/// The keys of a map in order.
pub open spec fn are_keys(ks: Seq<u32>, keys: Set<u32>) -> bool {
    increasing(ks) && forall|k: u32| ks.contains(k) <==> keys.contains(k)
}

/// The keys of a set in order.
pub open spec fn in_order(keys: Set<u32>) -> Seq<u32> {
    choose|ks: Seq<u32>| are_keys(ks, keys)
}

/// There is only one order of keys.
pub proof fn lemma_one_order(a: Seq<u32>, b: Seq<u32>, keys: Set<u32>)
    requires
        are_keys(a, keys),
        are_keys(b, keys),
    ensures
        a == b,
    decreases a.len(),
{
    if a.len() == 0 {
        if b.len() > 0 {
            assert(b.contains(b[0]));
            assert(a.contains(b[0]));
        }
    } else {
        assert(a.contains(a[0]));
        assert(b.contains(a[0]));
        assert(b.len() > 0);
        assert(b.contains(b[0]));
        assert(a.contains(b[0]));
        let i = choose|i: int| 0 <= i < b.len() && b[i] == a[0];
        let j = choose|j: int| 0 <= j < a.len() && a[j] == b[0];
        assert(a[0] == b[0]) by {
            if i > 0 {
                assert(b[0] < b[i]);
            }
            if j > 0 {
                assert(a[0] < a[j]);
            }
        }
        let rest = keys.remove(a[0]);
        lemma_rest_order(a, keys);
        lemma_rest_order(b, keys);
        lemma_one_order(a.skip(1), b.skip(1), rest);
        assert(a =~= seq![a[0]] + a.skip(1));
        assert(b =~= seq![b[0]] + b.skip(1));
    }
}

/// The keys below `n`, from the lowest on.
spec fn keys_below(keys: Set<u32>, n: int) -> Seq<u32>
    decreases n,
{
    if n <= 0 {
        Seq::empty()
    } else if keys.contains((n - 1) as u32) {
        keys_below(keys, n - 1).push((n - 1) as u32)
    } else {
        keys_below(keys, n - 1)
    }
}

proof fn lemma_keys_below(keys: Set<u32>, n: int)
    requires
        0 <= n <= 0x1_0000_0000,
    ensures
        increasing(keys_below(keys, n)),
        forall|k: u32| #[trigger]
            keys_below(keys, n).contains(k) <==> keys.contains(k) && k < n,
    decreases n,
{
    if n > 0 {
        lemma_keys_below(keys, n - 1);
        let r = keys_below(keys, n - 1);
        let last = (n - 1) as u32;
        if keys.contains(last) {
            let s = r.push(last);
            assert forall|k: u32| #[trigger] s.contains(k) <==> keys.contains(k) && k < n by {
                if r.contains(k) {
                    let j = choose|j: int| 0 <= j < r.len() && r[j] == k;
                    assert(s[j] == k);
                }
                if k == last {
                    assert(s[r.len() as int] == k);
                }
                if s.contains(k) && k != last {
                    let j = choose|j: int| 0 <= j < s.len() && s[j] == k;
                    assert(r[j] == k);
                }
            }
            assert forall|i: int, j: int| 0 <= i < j < s.len() implies s[i] < s[j] by {
                assert(r.contains(r[i]));
            }
        }
    }
}

/// Every set of keys has an order.
pub proof fn lemma_in_order(keys: Set<u32>)
    ensures
        are_keys(in_order(keys), keys),
{
    lemma_keys_below(keys, 0x1_0000_0000);
    assert(are_keys(keys_below(keys, 0x1_0000_0000), keys));
}

proof fn lemma_rest_order(a: Seq<u32>, keys: Set<u32>)
    requires
        are_keys(a, keys),
        a.len() > 0,
    ensures
        are_keys(a.skip(1), keys.remove(a[0])),
{
    let s = a.skip(1);
    assert forall|k: u32| s.contains(k) <==> keys.remove(a[0]).contains(k) by {
        if s.contains(k) {
            let i = choose|i: int| 0 <= i < s.len() && s[i] == k;
            assert(a[i + 1] == k);
            assert(a.contains(k));
            assert(a[0] < a[i + 1]);
        }
        if keys.remove(a[0]).contains(k) {
            assert(a.contains(k));
            let i = choose|i: int| 0 <= i < a.len() && a[i] == k;
            assert(s[i - 1] == k);
        }
    }
}

/// Puts a key into its place, unless it is there.
fn insert_key(ks: &mut Vec<u32>, k: u32)
    requires
        increasing(old(ks)@),
    ensures
        increasing(final(ks)@),
        forall|x: u32| #[trigger] final(ks)@.contains(x) <==> (old(ks)@.contains(x) || x == k),
{
    let ghost ks0 = ks@;
    let mut i: usize = 0;
    while i < ks.len() && ks[i] < k
        invariant
            ks@ == ks0,
            increasing(ks0),
            i <= ks@.len(),
            forall|j: int| 0 <= j < i ==> ks0[j] < k,
        decreases ks@.len() - i,
    {
        i += 1;
    }
    if i < ks.len() && ks[i] == k {
        assert(ks0.contains(k));
        return ;
    }
    ks.insert(i, k);
    proof {
        assert forall|x: u32| #[trigger] ks@.contains(x) <==> (ks0.contains(x) || x == k) by {
            if ks0.contains(x) {
                let j = choose|j: int| 0 <= j < ks0.len() && ks0[j] == x;
                if j < i {
                    assert(ks@[j] == x);
                } else {
                    assert(ks@[j + 1] == x);
                }
            }
            if x == k {
                assert(ks@[i as int] == k);
            }
            if ks@.contains(x) && x != k {
                let j = choose|j: int| 0 <= j < ks@.len() && ks@[j] == x;
                if j < i {
                    assert(ks0[j] == x);
                } else {
                    assert(ks0[j - 1] == x);
                }
            }
        }
    }
}

/// Whether a key is among the first `n`.
spec fn among(all: Seq<&u32>, n: int, x: u32) -> bool {
    exists|j: int| 0 <= j < n && *(#[trigger] all[j]) == x
}

proof fn lemma_all_keys(all: Seq<&u32>, keys: Set<u32>)
    requires
        all.unref().to_set() == keys,
    ensures
        forall|x: u32| #[trigger] among(all, all.len() as int, x) <==> keys.contains(x),
{
    assert forall|x: u32| #[trigger] among(all, all.len() as int, x) <==> keys.contains(x) by {
        let u = all.unref();
        assert(keys.contains(x) <==> u.contains(x));
        if u.contains(x) {
            let j = choose|j: int| 0 <= j < u.len() && u[j] == x;
            assert(*all[j] == x);
        }
        if among(all, all.len() as int, x) {
            let j = choose|j: int| 0 <= j < all.len() && *(#[trigger] all[j]) == x;
            assert(u[j] == x);
        }
    }
}

/// The keys of a map in order.
pub fn sorted_keys<V>(m: &HashMap<u32, V>) -> (ks: Vec<u32>)
    ensures
        are_keys(ks@, m@.dom()),
        ks@ == in_order(m@.dom()),
{
    broadcast use vstd::std_specs::hash::group_hash_axioms;

    let mut ks: Vec<u32> = Vec::new();
    let ghost all = vstd::std_specs::hash::spec_keys_iter(m).remaining();
    proof {
        lemma_all_keys(all, m@.dom());
    }
    for k in it: m.keys()
        invariant
            increasing(ks@),
            it.seq() == all,
            forall|x: u32| #[trigger] ks@.contains(x) <==> among(all, it.index() as int, x),
            forall|x: u32| #[trigger] among(all, all.len() as int, x) <==> m@.dom().contains(x),
    {
        insert_key(&mut ks, *k);
        proof {
            let n = it.index() as int;
            assert(*all[n] == *k);
            assert forall|x: u32| #[trigger] ks@.contains(x) <==> among(all, n + 1, x) by {
                if x == *k {
                    assert(among(all, n + 1, x));
                } else {
                    assert(among(all, n + 1, x) <==> among(all, n, x));
                }
            }
        }
    }
    proof {
        assert(are_keys(ks@, m@.dom()));
        lemma_one_order(ks@, in_order(m@.dom()), m@.dom());
    }
    ks
}

/// The lowest key, if there is one.
pub open spec fn is_lowest(keys: Set<u32>, low: Option<u32>) -> bool {
    match low {
        Some(k) => keys.contains(k) && forall|x: u32| keys.contains(x) ==> k <= x,
        None => forall|x: u32| !keys.contains(x),
    }
}

/// The lowest key of a map.
pub fn lowest_key<V>(m: &HashMap<u32, V>) -> (low: Option<u32>)
    ensures
        is_lowest(m@.dom(), low),
{
    let ks = sorted_keys(m);
    if ks.len() == 0 {
        assert forall|x: u32| !m@.dom().contains(x) by {
            assert(!ks@.contains(x));
        }
        None
    } else {
        proof {
            assert(ks@.contains(ks@[0]));
            assert forall|x: u32| m@.dom().contains(x) implies ks@[0] <= x by {
                assert(ks@.contains(x));
                let j = choose|j: int| 0 <= j < ks@.len() && ks@[j] == x;
                assert(ks@[j] == x);
            }
        }
        Some(ks[0])
    }
}

/// What a map of lists says.
pub open spec fn lists<T>(m: Map<u32, Vec<T>>) -> Map<u32, Seq<T>> {
    m.map_values(|v: Vec<T>| v@)
}

/// What a map of texts says.
pub open spec fn labels(m: Map<u32, String>) -> Map<u32, Seq<char>> {
    m.map_values(|s: String| s@)
}

/// The list of a key; empty where it has none.
pub open spec fn list_of<T>(m: Map<u32, Seq<T>>, k: u32) -> Seq<T> {
    if m.contains_key(k) {
        m[k]
    } else {
        Seq::empty()
    }
}

/// The lists with one more item at the end of a key's.
pub open spec fn pushed<T>(m: Map<u32, Seq<T>>, k: u32, x: T) -> Map<u32, Seq<T>> {
    m.insert(k, list_of(m, k).push(x))
}

/// Appends to the list of a key.
pub fn push_to<T>(m: &mut HashMap<u32, Vec<T>>, k: u32, x: T)
    ensures
        lists(final(m)@) == pushed(lists(old(m)@), k, x),
{
    broadcast use vstd::std_specs::hash::group_hash_axioms;

    let ghost m0 = m@;
    let mut v = match m.remove(&k) {
        Some(v) => v,
        None => Vec::new(),
    };
    v.push(x);
    m.insert(k, v);
    assert(lists(m@) =~= pushed(lists(m0), k, x));
}

} // verus!
