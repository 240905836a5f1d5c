//! What can be reached along given edges.

use crate::ordered;
use std::collections::{BTreeMap, BTreeSet};
use vstd::prelude::*;

verus! {

broadcast use vstd::laws_cmp::group_laws_cmp;

/// The lists that a map holds.
pub open spec fn lists(m: Map<usize, Vec<usize>>) -> Map<usize, Seq<usize>> {
    m.map_values(|v: Vec<usize>| v@)
}

/// The edges that a map of lists stands for.
pub open spec fn leads(next: Map<usize, Seq<usize>>, from: usize, to: usize) -> bool {
    next.contains_key(from) && next[from].contains(to)
}

/// Whether a path of `k` edges leads from one of `starts` to `n` without touching
/// what is barred.
pub open spec fn reached_in(
    next: Map<usize, Seq<usize>>,
    starts: Seq<usize>,
    barred: Set<usize>,
    n: usize,
    k: nat,
) -> bool
    decreases k,
{
    !barred.contains(n) && if k == 0 {
        starts.contains(n)
    } else {
        exists|m: usize|
            #[trigger] leads(next, m, n) && reached_in(next, starts, barred, m, (k - 1) as nat)
    }
}

/// What can be reached from `starts` without touching what is barred.
pub open spec fn reached(
    next: Map<usize, Seq<usize>>,
    starts: Seq<usize>,
    barred: Set<usize>,
) -> Set<usize> {
    Set::new(|n: usize| exists|k: nat| reached_in(next, starts, barred, n, k))
}

/// Everything that an edge leads to, and the starting points.
spec fn nodes(next: Map<usize, Seq<usize>>, starts: Seq<usize>) -> Set<usize> {
    starts.to_set().union(Set::new(|n: usize| exists|m: usize| leads(next, m, n)))
}

proof fn lemma_nodes_finite(next: Map<usize, Seq<usize>>, starts: Seq<usize>)
    requires
        next.dom().finite(),
    ensures
        nodes(next, starts).finite(),
{
    lemma_targets_finite(next, next.dom());
    let all = Set::new(|n: usize| exists|m: usize| leads(next, m, n));
    let some = Set::new(
        |n: usize| exists|m: usize| next.dom().contains(m) && #[trigger] leads(next, m, n),
    );
    assert(all =~= some);
}

proof fn lemma_targets_finite(next: Map<usize, Seq<usize>>, from: Set<usize>)
    requires
        from.finite(),
    ensures
        Set::new(
            |n: usize| exists|m: usize| from.contains(m) && #[trigger] leads(next, m, n),
        ).finite(),
    decreases from.len(),
{
    let all = Set::new(
        |n: usize| exists|m: usize| from.contains(m) && #[trigger] leads(next, m, n),
    );
    if from.len() == 0 {
        assert(from =~= Set::empty());
        assert(all =~= Set::empty());
    } else {
        let x = from.choose();
        let rest = from.remove(x);
        lemma_targets_finite(next, rest);
        let fewer = Set::new(
            |n: usize| exists|m: usize| rest.contains(m) && #[trigger] leads(next, m, n),
        );
        let own = if next.contains_key(x) {
            next[x].to_set()
        } else {
            Set::empty()
        };
        assert forall|n: usize| all.contains(n) implies fewer.union(own).contains(n) by {
            let m = choose|m: usize| from.contains(m) && #[trigger] leads(next, m, n);
            if m != x {
                assert(rest.contains(m));
            }
        }
        assert(all.subset_of(fewer.union(own)));
        vstd::set_lib::lemma_set_subset_finite(fewer.union(own), all);
    }
}

/// All that is reached, `seen` being some of it and `todo` the rest of the border.
proof fn lemma_closed(
    next: Map<usize, Seq<usize>>,
    starts: Seq<usize>,
    barred: Set<usize>,
    seen: Set<usize>,
    n: usize,
    k: nat,
)
    requires
        forall|m: usize| starts.contains(m) && !barred.contains(m) ==> #[trigger] seen.contains(m),
        forall|m: usize, t: usize| #[trigger]
            leads(next, m, t) && seen.contains(m) && !barred.contains(t) ==> seen.contains(t),
        reached_in(next, starts, barred, n, k),
    ensures
        seen.contains(n),
    decreases k,
{
    if k == 0 {
        assert(starts.contains(n));
    } else {
        let m = choose|m: usize|
            #[trigger] leads(next, m, n) && reached_in(next, starts, barred, m, (k - 1) as nat);
        lemma_closed(next, starts, barred, seen, m, (k - 1) as nat);
    }
}

/// Collect what can be reached.
pub fn reach_from(
    edges: &BTreeMap<usize, Vec<usize>>,
    starts: &Vec<usize>,
    barred: &BTreeSet<usize>,
) -> (r: BTreeSet<usize>)
    ensures
        r@ == reached(lists(edges@), starts@, barred@),
{
    let ghost next = lists(edges@);
    let ghost all = nodes(next, starts@);
    assert(next.dom() =~= edges@.dom());
    proof {
        lemma_nodes_finite(next, starts@);
    }
    let mut seen: BTreeSet<usize> = BTreeSet::new();
    let mut todo: Vec<usize> = Vec::new();
    let mut i: usize = 0;
    while i < starts.len()
        invariant
            i <= starts@.len(),
            todo@ == starts@.take(i as int),
        decreases starts@.len() - i,
    {
        todo.push(starts[i]);
        assert(starts@.take(i + 1) =~= starts@.take(i as int).push(starts@[i as int]));
        i = i + 1;
    }
    assert(todo@ =~= starts@);
    proof {
        assert forall|m: usize| #[trigger] todo@.contains(m) && !barred@.contains(m) implies reached(
            next,
            starts@,
            barred@,
        ).contains(m) by {
            assert(reached_in(next, starts@, barred@, m, 0));
        }
    }
    while todo.len() > 0
        invariant
            next == lists(edges@),
            all == nodes(next, starts@),
            all.finite(),
            seen@.subset_of(all),
            forall|m: usize| #[trigger] todo@.contains(m) ==> all.contains(m),
            forall|m: usize| #[trigger]
                seen@.contains(m) ==> reached(next, starts@, barred@).contains(m),
            forall|m: usize| #[trigger]
                todo@.contains(m) && !barred@.contains(m) ==> reached(
                    next,
                    starts@,
                    barred@,
                ).contains(m),
            forall|m: usize|
                starts@.contains(m) && !barred@.contains(m) ==> #[trigger] seen@.contains(m)
                    || todo@.contains(m),
            forall|m: usize, t: usize| #[trigger]
                leads(next, m, t) && seen@.contains(m) && !barred@.contains(t) ==> seen@.contains(
                    t,
                ) || todo@.contains(t),
        decreases all.difference(seen@).len(), todo@.len(),
    {
        let ghost before = todo@;
        let ghost held = seen@;
        let node: usize = match todo.pop() {
            Some(n) => n,
            None => 0,
        };
        proof {
            assert(before =~= todo@.push(node));
            assert forall|m: usize|
                #![trigger todo@.contains(m)]
                #![trigger before.contains(m)]
                before.contains(m) == (todo@.contains(m) || m == node) by {
                ordered::lemma_push_key(todo@, node, m);
            }
        }
        if barred.contains(&node) || seen.contains(&node) {
            continue;
        }
        seen.insert(node);
        proof {
            assert(before.contains(node));
            assert(all.difference(seen@) =~= all.difference(held).remove(node));
            assert(all.difference(held).contains(node));
        }
        assert(next.contains_key(node) == edges@.contains_key(node));
        if let Some(list) = edges.get(&node) {
            let mut j: usize = 0;
            while j < list.len()
                invariant
                    j <= list@.len(),
                    next.contains_key(node),
                    next == lists(edges@),
                    list@ == next[node],
                    all == nodes(next, starts@),
                    seen@ == held.insert(node),
                    reached(next, starts@, barred@).contains(node),
                    forall|m: usize| #[trigger] todo@.contains(m) ==> all.contains(m),
                    forall|m: usize| #[trigger]
                        todo@.contains(m) && !barred@.contains(m) ==> reached(
                            next,
                            starts@,
                            barred@,
                        ).contains(m),
                    forall|m: usize|
                        before.contains(m) && m != node ==> #[trigger] todo@.contains(m),
                    forall|k: int|
                        0 <= k < j ==> seen@.contains(#[trigger] list@[k]) || todo@.contains(
                            list@[k],
                        ),
                decreases list@.len() - j,
            {
                let t: usize = list[j];
                if !seen.contains(&t) {
                    let ghost w = todo@;
                    todo.push(t);
                    proof {
                        assert forall|m: usize| #[trigger]
                            todo@.contains(m) == (w.contains(m) || m == t) by {
                            ordered::lemma_push_key(w, t, m);
                        }
                        assert(leads(next, node, t));
                        if !barred@.contains(t) {
                            let k = choose|k: nat|
                                reached_in(next, starts@, barred@, node, k);
                            assert(reached_in(next, starts@, barred@, t, k + 1));
                        }
                    }
                }
                j = j + 1;
            }
            assert forall|t: usize| #[trigger] leads(next, node, t) implies seen@.contains(t)
                || todo@.contains(t) by {
                let k = choose|k: int| 0 <= k < list@.len() && list@[k] == t;
                assert(seen@.contains(list@[k]) || todo@.contains(list@[k]));
            }
        }
    }
    proof {
        assert forall|n: usize| reached(next, starts@, barred@).contains(n) implies seen@.contains(
            n,
        ) by {
            let k = choose|k: nat| reached_in(next, starts@, barred@, n, k);
            lemma_closed(next, starts@, barred@, seen@, n, k);
        }
        assert(seen@ =~= reached(next, starts@, barred@));
    }
    seen
}

/// What can be reached is finite, and touches nothing that is barred.
pub proof fn lemma_reached(next: Map<usize, Seq<usize>>, starts: Seq<usize>, barred: Set<usize>)
    requires
        next.dom().finite(),
    ensures
        reached(next, starts, barred).finite(),
        forall|n: usize| #[trigger]
            reached(next, starts, barred).contains(n) ==> !barred.contains(n),
        forall|n: usize|
            starts.contains(n) && !barred.contains(n) ==> #[trigger] reached(
                next,
                starts,
                barred,
            ).contains(n),
{
    lemma_nodes_finite(next, starts);
    let all = nodes(next, starts);
    let r = reached(next, starts, barred);
    assert forall|n: usize| r.contains(n) implies all.contains(n) && !barred.contains(n) by {
        let k = choose|k: nat| reached_in(next, starts, barred, n, k);
        if k == 0 {
            assert(starts.contains(n));
        } else {
            let m = choose|m: usize|
                #[trigger] leads(next, m, n) && reached_in(next, starts, barred, m, (k - 1) as nat);
            assert(leads(next, m, n));
        }
    }
    vstd::set_lib::lemma_set_subset_finite(all, r);
    assert forall|n: usize| starts.contains(n) && !barred.contains(n) implies #[trigger] r.contains(
        n,
    ) by {
        assert(reached_in(next, starts, barred, n, 0));
    }
}

/// An edge leads from what is reached only to what is reached or barred.
pub proof fn lemma_reached_closed(
    next: Map<usize, Seq<usize>>,
    starts: Seq<usize>,
    barred: Set<usize>,
    m: usize,
    n: usize,
)
    requires
        reached(next, starts, barred).contains(m),
        leads(next, m, n),
        !barred.contains(n),
    ensures
        reached(next, starts, barred).contains(n),
{
    let k = choose|k: nat| reached_in(next, starts, barred, m, k);
    assert(reached_in(next, starts, barred, n, k + 1)) by {
        assert(leads(next, m, n) && reached_in(next, starts, barred, m, k));
    }
}

} // verus!
