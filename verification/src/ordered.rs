//! Sets and maps keyed by program counters, walked in ascending order.

use std::collections::{BTreeMap, BTreeSet};
use vstd::prelude::*;
use vstd::std_specs::cmp::OrdSpec;
use vstd::std_specs::iter::IteratorSpec;

verus! {

broadcast use vstd::laws_cmp::group_laws_cmp;

pub open spec fn increasing(s: Seq<usize>) -> bool {
    forall|i: int, j: int| 0 <= i < j < s.len() ==> s[i] < s[j]
}

/// The members of a finite set in ascending order.
pub open spec fn ascending(s: Set<usize>) -> Seq<usize> {
    choose|v: Seq<usize>| increasing(v) && v.to_set() == s
}

proof fn lemma_increasing_unique(a: Seq<usize>, b: Seq<usize>)
    requires
        increasing(a),
        increasing(b),
        a.to_set() == b.to_set(),
    ensures
        a == b,
    decreases a.len(),
{
    if a.len() == 0 {
        if b.len() > 0 {
            assert(b.to_set().contains(b[0]));
            assert(a.to_set().contains(b[0]));
        }
        assert(a =~= b);
    } else {
        assert(a.to_set().contains(a.last()));
        assert(b.to_set().contains(a.last()));
        assert(b.len() > 0);
        assert(b.to_set().contains(b.last()));
        assert(a.to_set().contains(b.last()));
        assert(a.last() == b.last());
        let a1 = a.drop_last();
        let b1 = b.drop_last();
        assert forall|x: usize| a1.to_set().contains(x) implies b1.to_set().contains(x) by {
            assert(a1.contains(x));
            let i = choose|i: int| 0 <= i < a1.len() && a1[i] == x;
            assert(a[i] == x);
            assert(a.to_set().contains(x));
            assert(b.contains(x));
            let j = choose|j: int| 0 <= j < b.len() && b[j] == x;
            assert(j != b.len() - 1);
            assert(b1[j] == x);
        }
        assert forall|x: usize| b1.to_set().contains(x) implies a1.to_set().contains(x) by {
            assert(b1.contains(x));
            let i = choose|i: int| 0 <= i < b1.len() && b1[i] == x;
            assert(b[i] == x);
            assert(b.to_set().contains(x));
            assert(a.contains(x));
            let j = choose|j: int| 0 <= j < a.len() && a[j] == x;
            assert(j != a.len() - 1);
            assert(a1[j] == x);
        }
        assert(a1.to_set() =~= b1.to_set());
        lemma_increasing_unique(a1, b1);
        assert(a =~= a1.push(a.last()));
        assert(b =~= b1.push(b.last()));
    }
}

/// An increasing sequence is the ascending sequence of its members.
pub proof fn lemma_ascending(v: Seq<usize>, s: Set<usize>)
    requires
        increasing(v),
        v.to_set() == s,
    ensures
        ascending(s) == v,
{
    lemma_increasing_unique(ascending(s), v);
}

proof fn lemma_insertion(v: Seq<usize>, s: Set<usize>, x: usize) -> (w: Seq<usize>)
    requires
        increasing(v),
        v.to_set() == s,
        !s.contains(x),
    ensures
        increasing(w),
        w.to_set() == s.insert(x),
    decreases v.len(),
{
    if v.len() == 0 || v.last() < x {
        let w = v.push(x);
        assert(w.to_set() =~= s.insert(x)) by {
            assert forall|y: usize| s.insert(x).contains(y) implies w.to_set().contains(y) by {
                if y == x {
                    assert(w[v.len() as int] == x);
                } else {
                    assert(v.contains(y));
                    let i = choose|i: int| 0 <= i < v.len() && v[i] == y;
                    assert(w[i] == y);
                }
            }
            assert forall|y: usize| w.to_set().contains(y) implies s.insert(x).contains(y) by {
                assert(w.contains(y));
                let i = choose|i: int| 0 <= i < w.len() && w[i] == y;
                if i < v.len() {
                    assert(v[i] == y);
                    assert(v.to_set().contains(y));
                }
            }
        }
        w
    } else {
        let m = v.last();
        let v1 = v.drop_last();
        assert(v.to_set().contains(m));
        assert(v1.to_set() =~= s.remove(m)) by {
            assert forall|y: usize| s.remove(m).contains(y) implies v1.to_set().contains(y) by {
                assert(v.contains(y));
                let i = choose|i: int| 0 <= i < v.len() && v[i] == y;
                assert(v1[i] == y);
            }
            assert forall|y: usize| v1.to_set().contains(y) implies s.remove(m).contains(y) by {
                assert(v1.contains(y));
                let i = choose|i: int| 0 <= i < v1.len() && v1[i] == y;
                assert(v[i] == y);
                assert(v.to_set().contains(y));
            }
        }
        let w1 = lemma_insertion(v1, s.remove(m), x);
        assert forall|i: int| 0 <= i < w1.len() implies w1[i] < m by {
            assert(w1.to_set().contains(w1[i]));
            if w1[i] != x {
                assert(v1.to_set().contains(w1[i]));
                assert(v1.contains(w1[i]));
                let j = choose|j: int| 0 <= j < v1.len() && v1[j] == w1[i];
                assert(v[j] == w1[i]);
            }
        }
        let w = w1.push(m);
        assert(w.to_set() =~= s.insert(x)) by {
            assert forall|y: usize| s.insert(x).contains(y) implies w.to_set().contains(y) by {
                if y == m {
                    assert(w[w1.len() as int] == m);
                } else {
                    assert(w1.to_set().contains(y));
                    assert(w1.contains(y));
                    let i = choose|i: int| 0 <= i < w1.len() && w1[i] == y;
                    assert(w[i] == y);
                }
            }
            assert forall|y: usize| w.to_set().contains(y) implies s.insert(x).contains(y) by {
                assert(w.contains(y));
                let i = choose|i: int| 0 <= i < w.len() && w[i] == y;
                if i < w1.len() {
                    assert(w1[i] == y);
                    assert(w1.to_set().contains(y));
                }
            }
        }
        w
    }
}

/// Every finite set has its members in ascending order.
pub proof fn lemma_ascending_exists(s: Set<usize>)
    requires
        s.finite(),
    ensures
        increasing(ascending(s)),
        ascending(s).to_set() == s,
        ascending(s).len() == s.len(),
    decreases s.len(),
{
    if s.len() == 0 {
        let v = Seq::<usize>::empty();
        assert(s =~= Set::empty());
        assert(v.to_set() =~= s);
        lemma_ascending(v, s);
    } else {
        let x = s.choose();
        lemma_ascending_exists(s.remove(x));
        let w = lemma_insertion(ascending(s.remove(x)), s.remove(x), x);
        assert(s.remove(x).insert(x) =~= s);
        lemma_ascending(w, s);
    }
    let v = ascending(s);
    assert(v.no_duplicates());
    v.unique_seq_to_set();
}

/// The keys of a map in ascending order.
pub fn keys_of<V>(m: &BTreeMap<usize, V>) -> (v: Vec<usize>)
    ensures
        v@ == ascending(m@.dom()),
        increasing(v@),
        v@.to_set() == m@.dom(),
        v@.len() == m@.dom().len(),
{
    let mut v: Vec<usize> = Vec::new();
    let ghost keys = vstd::std_specs::btree::spec_keys_iter(m).remaining();
    for k in it: m.keys()
        invariant
            it.seq() == keys,
            v@ =~= keys.unref().take(it.index()),
    {
        v.push(*k);
    }
    proof {
        assert(v@ =~= keys.unref());
        lemma_cmp_increasing(keys);
        lemma_ascending(v@, m@.dom());
    }
    v
}

/// The members of a set in ascending order.
pub fn members_of(s: &BTreeSet<usize>) -> (v: Vec<usize>)
    ensures
        v@ == ascending(s@),
        increasing(v@),
        v@.to_set() == s@,
        v@.len() == s@.len(),
{
    let mut v: Vec<usize> = Vec::new();
    let ghost keys = vstd::std_specs::btree::spec_btree_keys_iter(s).remaining();
    for k in it: s.iter()
        invariant
            it.seq() == keys,
            v@ =~= keys.unref().take(it.index()),
    {
        v.push(*k);
    }
    proof {
        assert(v@ =~= keys.unref());
        lemma_cmp_increasing(keys);
        lemma_ascending(v@, s@);
    }
    v
}

proof fn lemma_cmp_increasing(keys: Seq<&usize>)
    requires
        vstd::std_specs::btree::increasing_seq(keys),
    ensures
        increasing(keys.unref()),
{
    assert(vstd::laws_cmp::obeys_cmp::<&usize>());
    assert forall|i: int, j: int| 0 <= i < j < keys.unref().len() implies keys.unref()[i]
        < keys.unref()[j] by {
        assert((&keys[i]).cmp_spec(&keys[j]) is Less);
    }
}

/// The keys of a map keyed by program counter and register, in order.
pub fn pair_keys_of<V>(m: &BTreeMap<(usize, u8), V>) -> (v: Vec<(usize, u8)>)
    ensures
        v@ == ascending_pairs(m@.dom()),
        v@.to_set() == m@.dom(),
        v@.no_duplicates(),
        pairs_increasing(v@),
        v@.len() == m@.dom().len(),
{
    let mut v: Vec<(usize, u8)> = Vec::new();
    let ghost keys = vstd::std_specs::btree::spec_keys_iter(m).remaining();
    for k in it: m.keys()
        invariant
            it.seq() == keys,
            v@ =~= keys.unref().take(it.index()),
    {
        v.push(*k);
    }
    proof {
        assert(v@ =~= keys.unref());
        lemma_pairs_increasing(keys);
        lemma_ascending_pairs(v@, m@.dom());
        assert(v@.no_duplicates());
    }
    v
}

pub open spec fn pair_less(a: (usize, u8), b: (usize, u8)) -> bool {
    a.0 < b.0 || (a.0 == b.0 && a.1 < b.1)
}

pub open spec fn pairs_increasing(s: Seq<(usize, u8)>) -> bool {
    forall|i: int, j: int| 0 <= i < j < s.len() ==> pair_less(#[trigger] s[i], #[trigger] s[j])
}

/// The members of a finite set of pairs in order.
pub open spec fn ascending_pairs(s: Set<(usize, u8)>) -> Seq<(usize, u8)> {
    choose|v: Seq<(usize, u8)>| pairs_increasing(v) && v.to_set() == s
}

proof fn lemma_pairs_unique(a: Seq<(usize, u8)>, b: Seq<(usize, u8)>)
    requires
        pairs_increasing(a),
        pairs_increasing(b),
        a.to_set() == b.to_set(),
    ensures
        a == b,
    decreases a.len(),
{
    if a.len() == 0 {
        if b.len() > 0 {
            assert(b.to_set().contains(b[0]));
            assert(a.to_set().contains(b[0]));
        }
        assert(a =~= b);
    } else {
        assert(a.to_set().contains(a.last()));
        assert(b.to_set().contains(a.last()));
        assert(b.len() > 0);
        assert(b.to_set().contains(b.last()));
        assert(a.to_set().contains(b.last()));
        if a.last() != b.last() {
            let i = choose|i: int| 0 <= i < a.len() && a[i] == b.last();
            let j = choose|j: int| 0 <= j < b.len() && b[j] == a.last();
            assert(pair_less(a[i], a[a.len() - 1]));
            assert(pair_less(b[j], b[b.len() - 1]));
        }
        let a1 = a.drop_last();
        let b1 = b.drop_last();
        assert forall|x: (usize, u8)| a1.to_set().contains(x) implies b1.to_set().contains(x) by {
            assert(a1.contains(x));
            let i = choose|i: int| 0 <= i < a1.len() && a1[i] == x;
            assert(a[i] == x);
            assert(a.to_set().contains(x));
            assert(b.contains(x));
            let j = choose|j: int| 0 <= j < b.len() && b[j] == x;
            assert(j != b.len() - 1);
            assert(b1[j] == x);
        }
        assert forall|x: (usize, u8)| b1.to_set().contains(x) implies a1.to_set().contains(x) by {
            assert(b1.contains(x));
            let i = choose|i: int| 0 <= i < b1.len() && b1[i] == x;
            assert(b[i] == x);
            assert(b.to_set().contains(x));
            assert(a.contains(x));
            let j = choose|j: int| 0 <= j < a.len() && a[j] == x;
            assert(j != a.len() - 1);
            assert(a1[j] == x);
        }
        assert(a1.to_set() =~= b1.to_set());
        lemma_pairs_unique(a1, b1);
        assert(a =~= a1.push(a.last()));
        assert(b =~= b1.push(b.last()));
    }
}

/// An increasing sequence of pairs is the ascending sequence of its members.
pub proof fn lemma_ascending_pairs(v: Seq<(usize, u8)>, s: Set<(usize, u8)>)
    requires
        pairs_increasing(v),
        v.to_set() == s,
    ensures
        ascending_pairs(s) == v,
{
    lemma_pairs_unique(ascending_pairs(s), v);
}

proof fn lemma_pairs_increasing(keys: Seq<&(usize, u8)>)
    requires
        vstd::std_specs::btree::increasing_seq(keys),
    ensures
        pairs_increasing(keys.unref()),
{
    assert(vstd::laws_cmp::obeys_cmp::<(usize, u8)>());
    assert(vstd::laws_cmp::obeys_cmp::<&(usize, u8)>());
    assert forall|i: int, j: int| 0 <= i < j < keys.unref().len() implies pair_less(
        #[trigger] keys.unref()[i],
        #[trigger] keys.unref()[j],
    ) by {
        assert((&keys[i]).cmp_spec(&keys[j]) is Less);
    }
}

/// What a list holds with one more element.
pub proof fn lemma_push_key<K>(s: Seq<K>, x: K, v: K)
    ensures
        s.push(x).contains(v) <==> s.contains(v) || v == x,
{
    if s.contains(v) {
        let i = choose|i: int| 0 <= i < s.len() && s[i] == v;
        assert(s.push(x)[i] == v);
    }
    assert(s.push(x)[s.len() as int] == x);
    if s.push(x).contains(v) && v != x {
        let i = choose|i: int| 0 <= i < s.push(x).len() && s.push(x)[i] == v;
        assert(s[i] == v);
    }
}

/// The members of a list with one more element.
pub proof fn lemma_push_to_set<K>(s: Seq<K>, x: K)
    ensures
        s.push(x).to_set() == s.to_set().insert(x),
{
    assert forall|t: K| #[trigger] s.push(x).to_set().contains(t) == s.to_set().insert(x).contains(
        t,
    ) by {
        lemma_push_key(s, x, t);
    }
    assert(s.push(x).to_set() =~= s.to_set().insert(x));
}

proof fn lemma_pair_insertion(v: Seq<(usize, u8)>, s: Set<(usize, u8)>, x: (usize, u8)) -> (w: Seq<(usize, u8)>)
    requires
        pairs_increasing(v),
        v.to_set() == s,
        !s.contains(x),
    ensures
        pairs_increasing(w),
        w.to_set() == s.insert(x),
    decreases v.len(),
{
    if v.len() == 0 || pair_less(v.last(), x) {
        let w = v.push(x);
        assert(w.to_set() =~= s.insert(x)) by {
            assert forall|y: (usize, u8)| s.insert(x).contains(y) implies w.to_set().contains(y) by {
                if y == x {
                    assert(w[v.len() as int] == x);
                } else {
                    assert(v.contains(y));
                    let i = choose|i: int| 0 <= i < v.len() && v[i] == y;
                    assert(w[i] == y);
                }
            }
            assert forall|y: (usize, u8)| w.to_set().contains(y) implies s.insert(x).contains(y) by {
                assert(w.contains(y));
                let i = choose|i: int| 0 <= i < w.len() && w[i] == y;
                if i < v.len() {
                    assert(v[i] == y);
                    assert(v.to_set().contains(y));
                }
            }
        }
        w
    } else {
        let m = v.last();
        let v1 = v.drop_last();
        assert(v.to_set().contains(m));
        assert(v1.to_set() =~= s.remove(m)) by {
            assert forall|y: (usize, u8)| s.remove(m).contains(y) implies v1.to_set().contains(y) by {
                assert(v.contains(y));
                let i = choose|i: int| 0 <= i < v.len() && v[i] == y;
                assert(v1[i] == y);
            }
            assert forall|y: (usize, u8)| v1.to_set().contains(y) implies s.remove(m).contains(y) by {
                assert(v1.contains(y));
                let i = choose|i: int| 0 <= i < v1.len() && v1[i] == y;
                assert(v[i] == y);
                assert(v.to_set().contains(y));
            }
        }
        let w1 = lemma_pair_insertion(v1, s.remove(m), x);
        assert forall|i: int| 0 <= i < w1.len() implies pair_less(w1[i], m) by {
            assert(w1.to_set().contains(w1[i]));
            if w1[i] != x {
                assert(v1.to_set().contains(w1[i]));
                assert(v1.contains(w1[i]));
                let j = choose|j: int| 0 <= j < v1.len() && v1[j] == w1[i];
                assert(v[j] == w1[i]);
            }
        }
        let w = w1.push(m);
        assert(w.to_set() =~= s.insert(x)) by {
            assert forall|y: (usize, u8)| s.insert(x).contains(y) implies w.to_set().contains(y) by {
                if y == m {
                    assert(w[w1.len() as int] == m);
                } else {
                    assert(w1.to_set().contains(y));
                    assert(w1.contains(y));
                    let i = choose|i: int| 0 <= i < w1.len() && w1[i] == y;
                    assert(w[i] == y);
                }
            }
            assert forall|y: (usize, u8)| w.to_set().contains(y) implies s.insert(x).contains(y) by {
                assert(w.contains(y));
                let i = choose|i: int| 0 <= i < w.len() && w[i] == y;
                if i < w1.len() {
                    assert(w1[i] == y);
                    assert(w1.to_set().contains(y));
                }
            }
        }
        w
    }
}

/// Every finite set of pairs has its members in ascending order.
pub proof fn lemma_ascending_pairs_exists(s: Set<(usize, u8)>)
    requires
        s.finite(),
    ensures
        pairs_increasing(ascending_pairs(s)),
        ascending_pairs(s).to_set() == s,
    decreases s.len(),
{
    if s.len() == 0 {
        let v = Seq::<(usize, u8)>::empty();
        assert(s =~= Set::empty());
        assert(v.to_set() =~= s);
        lemma_ascending_pairs(v, s);
    } else {
        let x = s.choose();
        lemma_ascending_pairs_exists(s.remove(x));
        let w = lemma_pair_insertion(ascending_pairs(s.remove(x)), s.remove(x), x);
        assert(s.remove(x).insert(x) =~= s);
        lemma_ascending_pairs(w, s);
    }
}

} // verus!
