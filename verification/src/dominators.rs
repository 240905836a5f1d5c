//! Dominators of a control flow graph.
//!
//! A block `a` dominates a block `b` if every path from the entry to `b` passes `a`.

use crate::cfg::ControlFlowGraph;
use crate::graph;
use crate::graph::{post_order_from, Walk};
use crate::ordered;
use crate::ordered::keys_of;
use std::collections::{BTreeMap, BTreeSet};
use vstd::prelude::*;

verus! {

broadcast use vstd::laws_cmp::group_laws_cmp;

pub open spec fn edge(cfg: ControlFlowGraph, from: usize, to: usize) -> bool {
    cfg.blocks@.contains_key(from) && cfg.blocks@[from].successors@.contains(to)
}

/// Whether a path of `n` edges leads from the entry to `pc` without passing `avoid`.
pub open spec fn path_to(cfg: ControlFlowGraph, avoid: Set<usize>, pc: usize, n: nat) -> bool
    decreases n,
{
    !avoid.contains(pc) && if n == 0 {
        pc == cfg.entry_pc
    } else {
        exists|q: usize| path_to(cfg, avoid, q, (n - 1) as nat) && #[trigger] edge(cfg, q, pc)
    }
}

/// Whether some path leads from the entry to `pc` without passing `avoid`.
pub open spec fn reachable(cfg: ControlFlowGraph, avoid: Set<usize>, pc: usize) -> bool {
    exists|n: nat| path_to(cfg, avoid, pc, n)
}

/// A block that can be reached from the entry.
pub open spec fn is_node(cfg: ControlFlowGraph, pc: usize) -> bool {
    cfg.blocks@.contains_key(pc) && reachable(cfg, Set::empty(), pc)
}

/// Whether every path from the entry to the block `b` passes `a`.
pub open spec fn dominates(cfg: ControlFlowGraph, a: usize, b: usize) -> bool {
    a == b || (is_node(cfg, b) && !reachable(cfg, set![a], b))
}

pub open spec fn strictly_dominates(cfg: ControlFlowGraph, a: usize, b: usize) -> bool {
    a != b && dominates(cfg, a, b)
}

/// Whether `d` is the immediate dominator of `b`: a strict dominator that all others dominate.
pub open spec fn immediately_dominates(cfg: ControlFlowGraph, d: usize, b: usize) -> bool {
    &&& strictly_dominates(cfg, d, b)
    &&& forall|a: usize| #[trigger] strictly_dominates(cfg, a, b) ==> dominates(cfg, a, d)
}

/// Whether a path of `n` edges leads from `from` to `to` that does not enter `avoid`.
spec fn tail(cfg: ControlFlowGraph, avoid: Set<usize>, from: usize, to: usize, n: nat) -> bool
    decreases n,
{
    if n == 0 {
        from == to
    } else {
        !avoid.contains(to) && exists|q: usize| tail(cfg, avoid, from, q, (n - 1) as nat) && #[trigger] edge(cfg, q, to)
    }
}

proof fn lemma_avoid_less(
    cfg: ControlFlowGraph,
    less: Set<usize>,
    more: Set<usize>,
    pc: usize,
    n: nat,
)
    requires
        less.subset_of(more),
        path_to(cfg, more, pc, n),
    ensures
        path_to(cfg, less, pc, n),
    decreases n,
{
    if n > 0 {
        let q = choose|q: usize| path_to(cfg, more, q, (n - 1) as nat) && #[trigger] edge(cfg, q, pc);
        lemma_avoid_less(cfg, less, more, q, (n - 1) as nat);
        assert(path_to(cfg, less, q, (n - 1) as nat));
    }
}

proof fn lemma_append_tail(
    cfg: ControlFlowGraph,
    avoid: Set<usize>,
    wider: Set<usize>,
    from: usize,
    to: usize,
    m: nat,
    n: nat,
)
    requires
        avoid.subset_of(wider),
        path_to(cfg, avoid, from, m),
        tail(cfg, wider, from, to, n),
    ensures
        path_to(cfg, avoid, to, m + n),
    decreases n,
{
    if n > 0 {
        let q = choose|q: usize| tail(cfg, wider, from, q, (n - 1) as nat) && #[trigger] edge(cfg, q, to);
        lemma_append_tail(cfg, avoid, wider, from, q, m, (n - 1) as nat);
        assert(path_to(cfg, avoid, q, (m + n - 1) as nat));
    }
}

/// Of a path, either nothing or what comes behind the last of `a` and `b` avoids both.
proof fn lemma_last_of_two(cfg: ControlFlowGraph, a: usize, b: usize, v: usize, n: nat)
    requires
        path_to(cfg, Set::empty(), v, n),
    ensures
        reachable(cfg, set![a, b], v) || (reachable(cfg, Set::empty(), a) && exists|m: nat|
            tail(cfg, set![a, b], a, v, m)) || (reachable(cfg, Set::empty(), b) && exists|m: nat|
            tail(cfg, set![a, b], b, v, m)),
    decreases n,
{
    let both = set![a, b];
    if v == a {
        assert(tail(cfg, both, a, v, 0));
    } else if v == b {
        assert(tail(cfg, both, b, v, 0));
    } else if n == 0 {
        assert(path_to(cfg, both, v, 0));
    } else {
        let q = choose|q: usize| path_to(cfg, Set::empty(), q, (n - 1) as nat) && #[trigger] edge(cfg, q, v);
        lemma_last_of_two(cfg, a, b, q, (n - 1) as nat);
        if reachable(cfg, both, q) {
            let k = choose|k: nat| path_to(cfg, both, q, k);
            assert(path_to(cfg, both, v, k + 1));
        } else if reachable(cfg, Set::empty(), a) && exists|m: nat| tail(cfg, both, a, q, m) {
            let m = choose|m: nat| tail(cfg, both, a, q, m);
            assert(tail(cfg, both, a, v, m + 1));
        } else {
            let m = choose|m: nat| tail(cfg, both, b, q, m);
            assert(tail(cfg, both, b, v, m + 1));
        }
    }
}

/// A path to `c` that cannot avoid `b` reaches `b` earlier.
proof fn lemma_passes(cfg: ControlFlowGraph, avoid: Set<usize>, b: usize, c: usize, n: nat) -> (m:
    nat)
    requires
        path_to(cfg, avoid, c, n),
        b != c,
        !reachable(cfg, avoid.insert(b), c),
    ensures
        m < n,
        path_to(cfg, avoid, b, m),
    decreases n,
{
    if n == 0 {
        assert(path_to(cfg, avoid.insert(b), c, 0));
        0
    } else {
        let q = choose|q: usize| path_to(cfg, avoid, q, (n - 1) as nat) && #[trigger] edge(cfg, q, c);
        if q == b {
            (n - 1) as nat
        } else {
            if reachable(cfg, avoid.insert(b), q) {
                let k = choose|k: nat| path_to(cfg, avoid.insert(b), q, k);
                assert(path_to(cfg, avoid.insert(b), c, k + 1));
            }
            lemma_passes(cfg, avoid, b, q, (n - 1) as nat)
        }
    }
}

proof fn lemma_empty_insert(a: usize)
    ensures
        Set::<usize>::empty().insert(a) == set![a],
{
    assert(Set::<usize>::empty().insert(a) =~= set![a]);
}

/// A strict dominator is itself a block that can be reached.
proof fn lemma_dominator_is_node(cfg: ControlFlowGraph, a: usize, b: usize)
    requires
        strictly_dominates(cfg, a, b),
    ensures
        is_node(cfg, a),
{
    lemma_empty_insert(a);
    let n = choose|n: nat| path_to(cfg, Set::empty(), b, n);
    let m = lemma_passes(cfg, Set::empty(), a, b, n);
    assert(reachable(cfg, Set::empty(), a));
    lemma_last_of_two(cfg, a, a, b, n);
    assert(set![a, a] =~= set![a]);
    let k = choose|k: nat| tail(cfg, set![a, a], a, b, k);
    lemma_tail_starts(cfg, set![a, a], a, b, k);
}

proof fn lemma_tail_starts(cfg: ControlFlowGraph, avoid: Set<usize>, from: usize, to: usize, n: nat)
    requires
        tail(cfg, avoid, from, to, n),
        from != to,
    ensures
        cfg.blocks@.contains_key(from),
    decreases n,
{
    let q = choose|q: usize| tail(cfg, avoid, from, q, (n - 1) as nat) && #[trigger] edge(cfg, q, to);
    if q != from {
        lemma_tail_starts(cfg, avoid, from, q, (n - 1) as nat);
    }
}

/// What dominates a dominator of a block dominates the block.
pub proof fn law_dominance_transitive(cfg: ControlFlowGraph, a: usize, b: usize, c: usize)
    requires
        dominates(cfg, a, b),
        dominates(cfg, b, c),
    ensures
        dominates(cfg, a, c),
{
    if a != b && b != c && a != c {
        if reachable(cfg, set![a], c) {
            let n = choose|n: nat| path_to(cfg, set![a], c, n);
            if reachable(cfg, set![a].insert(b), c) {
                let k = choose|k: nat| path_to(cfg, set![a].insert(b), c, k);
                lemma_avoid_less(cfg, set![b], set![a].insert(b), c, k);
            }
            let m = lemma_passes(cfg, set![a], b, c, n);
            assert(reachable(cfg, set![a], b));
        }
    }
}

proof fn lemma_no_mutual(cfg: ControlFlowGraph, a: usize, b: usize, n: nat)
    requires
        dominates(cfg, a, b),
        dominates(cfg, b, a),
        path_to(cfg, Set::empty(), b, n),
    ensures
        a == b,
    decreases n,
{
    if a != b {
        lemma_empty_insert(a);
        let m = lemma_passes(cfg, Set::empty(), a, b, n);
        lemma_no_mutual(cfg, b, a, m);
    }
}

/// Two blocks that dominate each other are the same.
pub proof fn law_dominance_antisymmetric(cfg: ControlFlowGraph, a: usize, b: usize)
    requires
        dominates(cfg, a, b),
        dominates(cfg, b, a),
    ensures
        a == b,
{
    if a != b {
        let n = choose|n: nat| path_to(cfg, Set::empty(), b, n);
        lemma_no_mutual(cfg, a, b, n);
    }
}

/// Of two dominators of a block, one dominates the other.
pub proof fn law_dominators_are_linear(cfg: ControlFlowGraph, a: usize, b: usize, c: usize)
    requires
        dominates(cfg, a, c),
        dominates(cfg, b, c),
    ensures
        dominates(cfg, a, b) || dominates(cfg, b, a),
{
    if a != b && a != c && b != c && !dominates(cfg, a, b) && !dominates(cfg, b, a) {
        lemma_dominator_is_node(cfg, a, c);
        lemma_dominator_is_node(cfg, b, c);
        let both = set![a, b];
        let n = choose|n: nat| path_to(cfg, Set::empty(), c, n);
        lemma_last_of_two(cfg, a, b, c, n);
        let pa = choose|m: nat| path_to(cfg, set![b], a, m);
        let pb = choose|m: nat| path_to(cfg, set![a], b, m);
        if reachable(cfg, both, c) {
            let k = choose|k: nat| path_to(cfg, both, c, k);
            lemma_avoid_less(cfg, set![a], both, c, k);
        } else if exists|m: nat| tail(cfg, both, a, c, m) {
            let m = choose|m: nat| tail(cfg, both, a, c, m);
            lemma_append_tail(cfg, set![b], both, a, c, pa, m);
        } else {
            let m = choose|m: nat| tail(cfg, both, b, c, m);
            lemma_append_tail(cfg, set![a], both, b, c, pb, m);
        }
    }
}

pub open spec fn strict_dominators(cfg: ControlFlowGraph, b: usize) -> Set<usize> {
    Set::new(|a: usize| strictly_dominates(cfg, a, b))
}

proof fn lemma_strict_dominators_finite(cfg: ControlFlowGraph, b: usize)
    ensures
        strict_dominators(cfg, b).finite(),
{
    assert forall|a: usize| strict_dominators(cfg, b).contains(
        a,
    ) implies cfg.blocks@.dom().contains(a) by {
        lemma_dominator_is_node(cfg, a, b);
    }
    vstd::set_lib::lemma_len_subset(strict_dominators(cfg, b), cfg.blocks@.dom());
}

proof fn lemma_fewer_dominators(cfg: ControlFlowGraph, d: usize, b: usize)
    requires
        strictly_dominates(cfg, d, b),
    ensures
        strict_dominators(cfg, d).len() < strict_dominators(cfg, b).len(),
{
    lemma_strict_dominators_finite(cfg, d);
    lemma_strict_dominators_finite(cfg, b);
    let small = strict_dominators(cfg, d);
    assert forall|a: usize| small.insert(d).contains(a) implies strict_dominators(cfg, b).contains(
        a,
    ) by {
        if a != d {
            law_dominance_transitive(cfg, a, d, b);
            if a == b {
                law_dominance_antisymmetric(cfg, d, b);
            }
        }
    }
    vstd::set_lib::lemma_len_subset(small.insert(d), strict_dominators(cfg, b));
}

/// Dominator tree of a control flow graph.
#[derive(Debug)]
pub struct DominatorTree {
    /// Immediate dominator for each block (block PC -> idom PC); the entry has itself.
    pub idom: BTreeMap<usize, usize>,
    /// Children in the dominator tree (block PC -> children PCs).
    pub children: BTreeMap<usize, Vec<usize>>,
    /// Reverse post-order of block PCs.
    pub rpo: Vec<usize>,
}

/// Whether `a` comes within `n` steps up from `b`.
pub open spec fn climbs(idom: Map<usize, usize>, a: usize, b: usize, n: nat) -> bool
    decreases n,
{
    n > 0 && idom.contains_key(b) && idom[b] != b && (idom[b] == a || climbs(
        idom,
        a,
        idom[b],
        (n - 1) as nat,
    ))
}

/// Whether `a` is `b` or lies above it in the tree.
pub open spec fn above(idom: Map<usize, usize>, a: usize, b: usize) -> bool {
    a == b || exists|n: nat| climbs(idom, a, b, n)
}

/// Whether `n` steps up from `b` reach a root.
pub open spec fn rooted(idom: Map<usize, usize>, b: usize, n: nat) -> bool
    decreases n,
{
    !idom.contains_key(b) || idom[b] == b || (n > 0 && rooted(idom, idom[b], (n - 1) as nat))
}

/// Blocks reachable from the entry in reverse post-order.
pub open spec fn reverse_post_order(cfg: ControlFlowGraph) -> Seq<usize> {
    graph::post_order(cfg, seq![cfg.entry_pc]).filter(|pc: usize| cfg.blocks@.contains_key(pc)).reverse()
}

/// Keys whose immediate dominator is `d`, other than `d` itself.
pub open spec fn children_of(idom: Map<usize, usize>, d: usize) -> Set<usize> {
    Set::new(|b: usize| idom.contains_key(b) && idom[b] == d && b != d)
}

impl DominatorTree {
    /// Whether each walk up the tree ends.
    pub open spec fn wf(self) -> bool {
        forall|b: usize| #[trigger]
            self.idom@.contains_key(b) ==> exists|n: nat| rooted(self.idom@, b, n)
    }

    /// Whether this is the dominator tree of `cfg`.
    pub open spec fn is_tree_of(self, cfg: ControlFlowGraph) -> bool {
        &&& self.wf()
        &&& self.rpo@ == reverse_post_order(cfg)
        &&& forall|b: usize| #[trigger]
            self.idom@.contains_key(b) <==> b == cfg.entry_pc || is_node(cfg, b)
        &&& self.idom@[cfg.entry_pc] == cfg.entry_pc
        &&& forall|b: usize| #[trigger]
            self.idom@.contains_key(b) && b != cfg.entry_pc ==> immediately_dominates(
                cfg,
                self.idom@[b],
                b,
            )
        &&& forall|d: usize|
            {
                &&& #[trigger] self.children@.contains_key(d) <==> exists|b: usize| #[trigger]
                    children_of(self.idom@, d).contains(b)
                &&& self.children@.contains_key(d) ==> self.children@[d]@ == ordered::ascending(
                    children_of(self.idom@, d),
                )
            }
    }

    /// Does block `a` dominate block `b`?
    pub fn dominates(&self, a: usize, b: usize) -> (r: bool)
        requires
            self.wf(),
        ensures
            r == above(self.idom@, a, b),
    {
        if a == b {
            return true;
        }
        let mut cur: usize = b;
        let ghost mut left: nat = choose|n: nat| rooted(self.idom@, b, n);
        let ghost mut up: nat = 0;
        loop
            invariant
                self.wf(),
                a != b,
                rooted(self.idom@, cur, left),
                forall|n: nat| #[trigger]
                    climbs(self.idom@, a, b, n) ==> n >= up && climbs(
                        self.idom@,
                        a,
                        cur,
                        (n - up) as nat,
                    ),
                forall|n: nat| #[trigger]
                    climbs(self.idom@, a, cur, n) ==> climbs(self.idom@, a, b, n + up),
            decreases left,
        {
            let dom: usize = match self.idom.get(&cur) {
                Some(d) => *d,
                None => {
                    return false;
                },
            };
            if dom == cur {
                return false;
            }
            if dom == a {
                assert(climbs(self.idom@, a, cur, 1));
                return true;
            }
            assert forall|n: nat| #[trigger] climbs(self.idom@, a, b, n) implies n >= up + 1
                && climbs(self.idom@, a, dom, (n - (up + 1)) as nat) by {
                assert(climbs(self.idom@, a, cur, (n - up) as nat));
            }
            assert forall|n: nat| #[trigger] climbs(self.idom@, a, dom, n) implies climbs(
                self.idom@,
                a,
                b,
                n + (up + 1),
            ) by {
                assert(climbs(self.idom@, a, cur, n + 1));
            }
            cur = dom;
            proof {
                left = (left - 1) as nat;
                up = up + 1;
            }
        }
    }
}

/// Nodes that can be reached from the entry without passing `avoid`.
fn reachable_avoiding(cfg: &ControlFlowGraph, avoid: Option<usize>) -> (found: BTreeSet<usize>)
    ensures
        forall|pc: usize| #[trigger]
            found@.contains(pc) <==> reachable(
                *cfg,
                match avoid {
                    Some(a) => set![a],
                    None => Set::empty(),
                },
                pc,
            ),
{
    let ghost s: Set<usize> = match avoid {
        Some(a) => set![a],
        None => Set::empty(),
    };
    let mut found: BTreeSet<usize> = BTreeSet::new();
    let mut stack: Vec<usize> = Vec::new();
    if avoid != Some(cfg.entry_pc) {
        found.insert(cfg.entry_pc);
        stack.push(cfg.entry_pc);
        assert(path_to(*cfg, s, cfg.entry_pc, 0));
        assert(stack@[0] == cfg.entry_pc);
    }
    let ghost universe = graph::edge_targets(*cfg).insert(cfg.entry_pc);
    proof {
        graph::lemma_edge_targets_finite(*cfg);
    }
    while stack.len() > 0
        invariant
            s == match avoid {
                Some(a) => set![a],
                None => Set::<usize>::empty(),
            },
            universe.finite(),
            graph::edge_targets(*cfg).subset_of(universe),
            found@.finite(),
            found@.subset_of(universe),
            !s.contains(cfg.entry_pc) ==> found@.contains(cfg.entry_pc),
            forall|pc: usize| #[trigger] found@.contains(pc) ==> reachable(*cfg, s, pc),
            forall|i: int| 0 <= i < stack@.len() ==> found@.contains(#[trigger] stack@[i]),
            forall|q: usize, p: usize|
                found@.contains(q) && #[trigger] edge(*cfg, q, p) && !s.contains(p)
                    ==> found@.contains(p) || stack@.contains(q),
        decreases universe.difference(found@).len(), stack@.len(),
    {
        let ghost before = stack@;
        let ghost had = found@;
        if let Some(q) = stack.pop() {
            assert(before.last() == q);
            assert(found@.contains(before[before.len() - 1]));
            let ghost n = choose|n: nat| path_to(*cfg, s, q, n);
            let ghost base = stack@;
            if let Some(block) = cfg.blocks.get(&q) {
                let mut j: usize = 0;
                while j < block.successors.len()
                    invariant
                        s == match avoid {
                            Some(a) => set![a],
                            None => Set::<usize>::empty(),
                        },
                        universe.finite(),
                        graph::edge_targets(*cfg).subset_of(universe),
                        cfg.blocks@.contains_key(q),
                        *block == cfg.blocks@[q],
                        path_to(*cfg, s, q, n),
                        j <= block.successors@.len(),
                        found@.finite(),
                        found@.subset_of(universe),
                        had.subset_of(found@),
                        base.len() <= stack@.len(),
                        forall|i: int| 0 <= i < base.len() ==> stack@[i] == base[i],
                        found@.len() == had.len() ==> stack@ == base && found@ == had,
                        forall|pc: usize| #[trigger] found@.contains(pc) ==> reachable(*cfg, s, pc),
                        forall|i: int|
                            0 <= i < stack@.len() ==> found@.contains(#[trigger] stack@[i]),
                        forall|pc: usize| #[trigger]
                            found@.contains(pc) ==> had.contains(pc) || stack@.contains(pc),
                        forall|k: int|
                            0 <= k < j ==> s.contains(#[trigger] block.successors@[k])
                                || found@.contains(block.successors@[k]),
                    decreases block.successors@.len() - j,
                {
                    let p: usize = block.successors[j];
                    assert(edge(*cfg, q, p)) by {
                        assert(block.successors@[j as int] == p);
                    }
                    assert(graph::edge_targets(*cfg).contains(p));
                    let ghost pushed = stack@;
                    let ghost known = found@;
                    if avoid != Some(p) && !found.contains(&p) {
                        found.insert(p);
                        stack.push(p);
                        proof {
                            assert(path_to(*cfg, s, p, n + 1));
                            assert(stack@[pushed.len() as int] == p);
                            vstd::set_lib::lemma_len_subset(had, known);
                            assert forall|pc: usize| #[trigger]
                                found@.contains(pc) implies had.contains(pc) || stack@.contains(
                                pc,
                            ) by {
                                if pc != p && !had.contains(pc) {
                                    assert(known.contains(pc));
                                    let i = choose|i: int|
                                        0 <= i < pushed.len() && pushed[i] == pc;
                                    assert(stack@[i] == pc);
                                }
                            }
                        }
                    }
                    j = j + 1;
                }
            }
            proof {
                assert forall|x: usize, p: usize|
                    found@.contains(x) && #[trigger] edge(*cfg, x, p) && !s.contains(
                        p,
                    ) implies found@.contains(p) || stack@.contains(x) by {
                    if x == q {
                        let k = choose|k: int|
                            0 <= k < cfg.blocks@[q].successors@.len()
                                && cfg.blocks@[q].successors@[k] == p;
                        assert(cfg.blocks@[q].successors@[k] == p);
                    } else if had.contains(x) {
                        if !had.contains(p) {
                            assert(before.contains(x));
                            let i = choose|i: int| 0 <= i < before.len() && before[i] == x;
                            assert(base[i] == x);
                            assert(stack@[i] == x);
                        }
                    }
                }
                if found@.len() == had.len() {
                    assert(stack@.len() < before.len());
                } else {
                    vstd::set_lib::lemma_len_subset(had, found@);
                    vstd::set_lib::lemma_len_difference(universe, found@);
                    assert(universe.difference(found@).len() < universe.difference(had).len()) by {
                        lemma_difference_len(universe, found@);
                        lemma_difference_len(universe, had);
                    }
                }
            }
        }
    }
    assert forall|pc: usize| reachable(*cfg, s, pc) implies #[trigger] found@.contains(pc) by {
        let n = choose|n: nat| path_to(*cfg, s, pc, n);
        lemma_closed_reaches(*cfg, s, found@, pc, n);
    }
    found
}

proof fn lemma_difference_len(universe: Set<usize>, part: Set<usize>)
    requires
        universe.finite(),
        part.subset_of(universe),
    ensures
        universe.difference(part).len() == universe.len() - part.len(),
    decreases part.len(),
{
    vstd::set_lib::lemma_len_subset(part, universe);
    if part.len() == 0 {
        assert(part =~= Set::empty());
        assert(universe.difference(part) =~= universe);
    } else {
        let x = part.choose();
        lemma_difference_len(universe, part.remove(x));
        assert(universe.difference(part) =~= universe.difference(part.remove(x)).remove(x));
    }
}

proof fn lemma_closed_reaches(
    cfg: ControlFlowGraph,
    s: Set<usize>,
    found: Set<usize>,
    pc: usize,
    n: nat,
)
    requires
        path_to(cfg, s, pc, n),
        !s.contains(cfg.entry_pc) ==> found.contains(cfg.entry_pc),
        forall|q: usize, p: usize|
            found.contains(q) && #[trigger] edge(cfg, q, p) && !s.contains(p) ==> found.contains(p),
    ensures
        found.contains(pc),
    decreases n,
{
    if n > 0 {
        let q = choose|q: usize| path_to(cfg, s, q, (n - 1) as nat) && #[trigger] edge(cfg, q, pc);
        lemma_closed_reaches(cfg, s, found, q, (n - 1) as nat);
    }
}

proof fn lemma_entry_unavoidable(cfg: ControlFlowGraph, pc: usize, n: nat)
    ensures
        !path_to(cfg, set![cfg.entry_pc], pc, n),
    decreases n,
{
    if n > 0 && path_to(cfg, set![cfg.entry_pc], pc, n) {
        let q = choose|q: usize|
            path_to(cfg, set![cfg.entry_pc], q, (n - 1) as nat) && #[trigger] edge(cfg, q, pc);
        lemma_entry_unavoidable(cfg, q, (n - 1) as nat);
    }
}

/// The entry dominates every block that can be reached.
pub proof fn law_entry_dominates(cfg: ControlFlowGraph, b: usize)
    requires
        is_node(cfg, b),
    ensures
        dominates(cfg, cfg.entry_pc, b),
{
    if reachable(cfg, set![cfg.entry_pc], b) {
        let n = choose|n: nat| path_to(cfg, set![cfg.entry_pc], b, n);
        lemma_entry_unavoidable(cfg, b, n);
    }
}

/// The immediate dominator of `b`, found among all nodes: `without[i]` holds what can
/// be reached without passing `nodes[i]`.
fn nearest_dominator(
    cfg: &ControlFlowGraph,
    nodes: &Vec<usize>,
    without: &Vec<BTreeSet<usize>>,
    b: usize,
) -> (d: usize)
    requires
        forall|pc: usize| #[trigger] nodes@.contains(pc) <==> is_node(*cfg, pc),
        without@.len() == nodes@.len(),
        forall|i: int, pc: usize|
            0 <= i < nodes@.len() ==> (#[trigger] without@[i]@.contains(pc) <==> reachable(
                *cfg,
                set![nodes@[i]],
                pc,
            )),
        is_node(*cfg, b),
        b != cfg.entry_pc,
    ensures
        immediately_dominates(*cfg, d, b),
{
    let mut best: usize = nodes.len();
    let mut i: usize = 0;
    while i < nodes.len()
        invariant
            i <= nodes@.len(),
            best == nodes@.len() || best < i,
            without@.len() == nodes@.len(),
            forall|pc: usize| #[trigger] nodes@.contains(pc) <==> is_node(*cfg, pc),
            forall|i: int, pc: usize|
                0 <= i < nodes@.len() ==> (#[trigger] without@[i]@.contains(pc) <==> reachable(
                    *cfg,
                    set![nodes@[i]],
                    pc,
                )),
            is_node(*cfg, b),
            best == nodes@.len() ==> forall|k: int|
                0 <= k < i ==> !strictly_dominates(*cfg, #[trigger] nodes@[k], b),
            best < nodes@.len() ==> strictly_dominates(*cfg, nodes@[best as int], b) && forall|
                k: int,
            |
                0 <= k < i && strictly_dominates(*cfg, #[trigger] nodes@[k], b) ==> dominates(
                    *cfg,
                    nodes@[k],
                    nodes@[best as int],
                ),
        decreases nodes@.len() - i,
    {
        let a: usize = nodes[i];
        if a != b && !without[i].contains(&b) {
            assert(strictly_dominates(*cfg, a, b));
            if best == nodes.len() {
                best = i;
            } else {
                let old_best: usize = nodes[best];
                proof {
                    law_dominators_are_linear(*cfg, a, old_best, b);
                    assert(nodes@.contains(a));
                }
                let before: bool = old_best == a || !without[best].contains(&a);
                assert(before == dominates(*cfg, old_best, a));
                if before {
                    assert forall|k: int|
                        0 <= k < i + 1 && strictly_dominates(
                            *cfg,
                            #[trigger] nodes@[k],
                            b,
                        ) implies dominates(*cfg, nodes@[k], a) by {
                        if k < i {
                            law_dominance_transitive(*cfg, nodes@[k], old_best, a);
                        }
                    }
                    best = i;
                }
            }
        }
        i = i + 1;
    }
    proof {
        law_entry_dominates(*cfg, b);
        lemma_dominator_is_node(*cfg, cfg.entry_pc, b);
        assert(nodes@.contains(cfg.entry_pc));
        let e = choose|e: int| 0 <= e < nodes@.len() && nodes@[e] == cfg.entry_pc;
        assert(strictly_dominates(*cfg, nodes@[e], b));
        assert forall|a: usize| #[trigger] strictly_dominates(*cfg, a, b) implies dominates(
            *cfg,
            a,
            nodes@[best as int],
        ) by {
            lemma_dominator_is_node(*cfg, a, b);
            assert(nodes@.contains(a));
            let k = choose|k: int| 0 <= k < nodes@.len() && nodes@[k] == a;
            assert(strictly_dominates(*cfg, nodes@[k], b));
        }
    }
    nodes[best]
}

/// What `is_tree_of` says of the immediate dominators.
spec fn idom_of(idom: Map<usize, usize>, cfg: ControlFlowGraph) -> bool {
    &&& forall|b: usize| #[trigger]
        idom.contains_key(b) <==> b == cfg.entry_pc || is_node(cfg, b)
    &&& idom[cfg.entry_pc] == cfg.entry_pc
    &&& forall|b: usize| #[trigger]
        idom.contains_key(b) && b != cfg.entry_pc ==> immediately_dominates(cfg, idom[b], b)
}

proof fn lemma_rooted(cfg: ControlFlowGraph, idom: Map<usize, usize>, b: usize) -> (n: nat)
    requires
        idom_of(idom, cfg),
    ensures
        rooted(idom, b, n),
    decreases strict_dominators(cfg, b).len(),
{
    if !idom.contains_key(b) || idom[b] == b || b == cfg.entry_pc {
        0
    } else {
        lemma_fewer_dominators(cfg, idom[b], b);
        let m = lemma_rooted(cfg, idom, idom[b]);
        m + 1
    }
}

proof fn lemma_climbs_dominates(
    cfg: ControlFlowGraph,
    idom: Map<usize, usize>,
    a: usize,
    b: usize,
    n: nat,
)
    requires
        idom_of(idom, cfg),
        climbs(idom, a, b, n),
    ensures
        dominates(cfg, a, b),
    decreases n,
{
    if idom[b] != a {
        lemma_climbs_dominates(cfg, idom, a, idom[b], (n - 1) as nat);
        law_dominance_transitive(cfg, a, idom[b], b);
    }
}

proof fn lemma_dominates_climbs(cfg: ControlFlowGraph, idom: Map<usize, usize>, a: usize, b: usize) -> (n:
    nat)
    requires
        idom_of(idom, cfg),
        strictly_dominates(cfg, a, b),
    ensures
        climbs(idom, a, b, n),
    decreases strict_dominators(cfg, b).len(),
{
    assert(idom.contains_key(b));
    if b == cfg.entry_pc {
        lemma_dominator_is_node(cfg, a, b);
        law_entry_dominates(cfg, a);
        law_dominance_antisymmetric(cfg, a, b);
    }
    let d = idom[b];
    lemma_fewer_dominators(cfg, d, b);
    if d == a {
        1
    } else {
        let m = lemma_dominates_climbs(cfg, idom, a, d);
        m + 1
    }
}

/// The tree holds `a` above `b` exactly if `a` dominates `b`.
pub proof fn law_tree_is_dominance(
    tree: DominatorTree,
    cfg: ControlFlowGraph,
    a: usize,
    b: usize,
)
    requires
        tree.is_tree_of(cfg),
    ensures
        above(tree.idom@, a, b) <==> dominates(cfg, a, b),
{
    if a != b {
        if exists|n: nat| climbs(tree.idom@, a, b, n) {
            let n = choose|n: nat| climbs(tree.idom@, a, b, n);
            lemma_climbs_dominates(cfg, tree.idom@, a, b, n);
        }
        if dominates(cfg, a, b) {
            let n = lemma_dominates_climbs(cfg, tree.idom@, a, b);
        }
    }
}

/// The keys in `keys` whose value is `d`, other than `d`.
fn children_list(idom: &BTreeMap<usize, usize>, keys: &Vec<usize>, d: usize) -> (r: Vec<usize>)
    requires
        keys@ == ordered::ascending(idom@.dom()),
        crate::ordered::increasing(keys@),
        keys@.to_set() == idom@.dom(),
    ensures
        r@ == ordered::ascending(children_of(idom@, d)),
        r@.len() > 0 <==> exists|b: usize| children_of(idom@, d).contains(b),
{
    let mut r: Vec<usize> = Vec::new();
    let mut i: usize = 0;
    while i < keys.len()
        invariant
            i <= keys@.len(),
            crate::ordered::increasing(keys@),
            keys@.to_set() == idom@.dom(),
            crate::ordered::increasing(r@),
            forall|k: int|
                0 <= k < r@.len() ==> children_of(idom@, d).contains(#[trigger] r@[k]) && (i > 0
                    && r@[k] <= keys@[i - 1]),
            forall|k: int|
                0 <= k < i && children_of(idom@, d).contains(#[trigger] keys@[k])
                    ==> r@.contains(keys@[k]),
        decreases keys@.len() - i,
    {
        let b: usize = keys[i];
        assert(keys@.to_set().contains(b));
        let ghost before = r@;
        if let Some(p) = idom.get(&b) {
            if *p == d && b != d {
                r.push(b);
                proof {
                    assert(r@[before.len() as int] == b);
                    assert forall|k: int|
                        0 <= k < i + 1 && children_of(idom@, d).contains(
                            #[trigger] keys@[k],
                        ) implies r@.contains(keys@[k]) by {
                        if k < i {
                            let j = choose|j: int|
                                0 <= j < before.len() && before[j] == keys@[k];
                            assert(r@[j] == keys@[k]);
                        }
                    }
                }
            }
        }
        i = i + 1;
    }
    proof {
        assert forall|b: usize| r@.to_set().contains(b) <==> children_of(idom@, d).contains(b) by {
            if children_of(idom@, d).contains(b) {
                assert(keys@.to_set().contains(b));
                let k = choose|k: int| 0 <= k < keys@.len() && keys@[k] == b;
                assert(r@.contains(keys@[k]));
            }
        }
        assert(r@.to_set() =~= children_of(idom@, d));
        crate::ordered::lemma_ascending(r@, children_of(idom@, d));
        if r@.len() > 0 {
            assert(children_of(idom@, d).contains(r@[0]));
        }
        if exists|b: usize| children_of(idom@, d).contains(b) {
            let b = choose|b: usize| children_of(idom@, d).contains(b);
            assert(r@.to_set().contains(b));
        }
    }
    r
}

/// Children of every node of the tree.
fn children_map(idom: &BTreeMap<usize, usize>) -> (children: BTreeMap<usize, Vec<usize>>)
    requires
        forall|b: usize| #[trigger] idom@.contains_key(b) ==> idom@.contains_key(idom@[b]),
    ensures
        forall|d: usize|
            {
                &&& #[trigger] children@.contains_key(d) <==> exists|b: usize| #[trigger]
                    children_of(idom@, d).contains(b)
                &&& children@.contains_key(d) ==> children@[d]@ == ordered::ascending(
                    children_of(idom@, d),
                )
            },
{
    let keys: Vec<usize> = keys_of(idom);
    let mut children: BTreeMap<usize, Vec<usize>> = BTreeMap::new();
    let mut i: usize = 0;
    while i < keys.len()
        invariant
            i <= keys@.len(),
            keys@ == ordered::ascending(idom@.dom()),
            crate::ordered::increasing(keys@),
            keys@.to_set() == idom@.dom(),
            forall|d: usize|
                {
                    &&& #[trigger] children@.contains_key(d) <==> keys@.take(
                        i as int,
                    ).to_set().contains(d) && exists|b: usize| #[trigger]
                        children_of(idom@, d).contains(b)
                    &&& children@.contains_key(d) ==> children@[d]@ == ordered::ascending(
                        children_of(idom@, d),
                    )
                },
        decreases keys@.len() - i,
    {
        let d: usize = keys[i];
        proof {
            let taken = keys@.take(i as int);
            assert(keys@.take(i + 1) =~= taken.push(d));
            crate::ordered::lemma_push_to_set(taken, d);
        }
        let list = children_list(idom, &keys, d);
        if list.len() > 0 {
            children.insert(d, list);
        }
        i = i + 1;
    }
    proof {
        assert(keys@.take(i as int) =~= keys@);
        assert forall|d: usize| (exists|b: usize| #[trigger] children_of(idom@, d).contains(
            b,
        )) implies #[trigger] children@.contains_key(d) by {
            let b = choose|b: usize| #[trigger] children_of(idom@, d).contains(b);
            assert(idom@.contains_key(b));
            assert(keys@.to_set().contains(d));
        }
    }
    children
}

impl DominatorTree {
    /// Compute reverse post-order traversal from the entry block.
    fn compute_rpo(cfg: &ControlFlowGraph) -> (rpo: Vec<usize>)
        ensures
            rpo@ == reverse_post_order(*cfg),
    {
        let mut starts: Vec<usize> = Vec::new();
        starts.push(cfg.entry_pc);
        assert(starts@ =~= seq![cfg.entry_pc]);
        let post = post_order_from(cfg, &starts);
        let ghost keep = |pc: usize| cfg.blocks@.contains_key(pc);
        let mut rpo: Vec<usize> = Vec::new();
        let mut i: usize = post.len();
        assert(post@.skip(i as int) =~= seq![]);
        assert(Seq::<usize>::empty().filter(keep).reverse() =~= seq![]);
        assert(post@.take(i as int) =~= post@);
        while i > 0
            invariant
                i <= post@.len(),
                keep == (|pc: usize| cfg.blocks@.contains_key(pc)),
                rpo@ + post@.take(i as int).filter(keep).reverse() == post@.filter(keep).reverse(),
            decreases i,
        {
            i = i - 1;
            let pc: usize = post[i];
            let ghost before = rpo@;
            proof {
                assert(post@.take(i + 1) =~= post@.take(i as int).push(pc));
                post@.take(i as int).lemma_filter_push(pc, keep);
            }
            let ghost shorter = post@.take(i as int).filter(keep);
            if cfg.blocks.contains_key(&pc) {
                rpo.push(pc);
                assert(before + shorter.push(pc).reverse() =~= rpo@ + shorter.reverse());
            }
        }
        assert(post@.take(0).filter(keep).reverse() =~= seq![]) by {
            assert(post@.take(0) =~= Seq::<usize>::empty());
        }
        assert(rpo@ =~= post@.filter(keep).reverse());
        rpo
    }

    /// Compute the dominator tree for a CFG.
    pub fn compute(cfg: &ControlFlowGraph) -> (tree: Self)
        ensures
            tree.is_tree_of(*cfg),
    {
        let rpo = Self::compute_rpo(cfg);
        let keys: Vec<usize> = keys_of(&cfg.blocks);
        let found = reachable_avoiding(cfg, None);
        let mut nodes: Vec<usize> = Vec::new();
        let mut without: Vec<BTreeSet<usize>> = Vec::new();
        let mut i: usize = 0;
        while i < keys.len()
            invariant
                i <= keys@.len(),
                keys@.to_set() == cfg.blocks@.dom(),
                forall|pc: usize| #[trigger]
                    found@.contains(pc) <==> reachable(*cfg, Set::empty(), pc),
                without@.len() == nodes@.len(),
                forall|k: int|
                    0 <= k < nodes@.len() ==> is_node(*cfg, #[trigger] nodes@[k]),
                forall|k: int|
                    0 <= k < i && is_node(*cfg, #[trigger] keys@[k]) ==> nodes@.contains(keys@[k]),
                forall|k: int, pc: usize|
                    0 <= k < nodes@.len() ==> (#[trigger] without@[k]@.contains(pc) <==> reachable(
                        *cfg,
                        set![nodes@[k]],
                        pc,
                    )),
            decreases keys@.len() - i,
        {
            let pc: usize = keys[i];
            assert(keys@.to_set().contains(pc));
            if found.contains(&pc) {
                let ghost before = nodes@;
                nodes.push(pc);
                without.push(reachable_avoiding(cfg, Some(pc)));
                proof {
                    assert(nodes@[before.len() as int] == pc);
                    assert forall|k: int|
                        0 <= k < i + 1 && is_node(
                            *cfg,
                            #[trigger] keys@[k],
                        ) implies nodes@.contains(keys@[k]) by {
                        if k < i {
                            let j = choose|j: int|
                                0 <= j < before.len() && before[j] == keys@[k];
                            assert(nodes@[j] == keys@[k]);
                        }
                    }
                }
            }
            i = i + 1;
        }
        assert forall|pc: usize| #[trigger] nodes@.contains(pc) <==> is_node(*cfg, pc) by {
            if is_node(*cfg, pc) {
                assert(keys@.to_set().contains(pc));
                let k = choose|k: int| 0 <= k < keys@.len() && keys@[k] == pc;
                assert(nodes@.contains(keys@[k]));
            }
        }
        let mut idom: BTreeMap<usize, usize> = BTreeMap::new();
        idom.insert(cfg.entry_pc, cfg.entry_pc);
        let mut i: usize = 0;
        while i < nodes.len()
            invariant
                i <= nodes@.len(),
                forall|pc: usize| #[trigger] nodes@.contains(pc) <==> is_node(*cfg, pc),
                without@.len() == nodes@.len(),
                forall|k: int, pc: usize|
                    0 <= k < nodes@.len() ==> (#[trigger] without@[k]@.contains(pc) <==> reachable(
                        *cfg,
                        set![nodes@[k]],
                        pc,
                    )),
                idom@.contains_key(cfg.entry_pc),
                idom@[cfg.entry_pc] == cfg.entry_pc,
                forall|k: int| 0 <= k < i ==> idom@.contains_key(#[trigger] nodes@[k]),
                forall|b: usize| #[trigger]
                    idom@.contains_key(b) ==> b == cfg.entry_pc || (is_node(*cfg, b)
                        && immediately_dominates(*cfg, idom@[b], b)),
            decreases nodes@.len() - i,
        {
            let b: usize = nodes[i];
            assert(nodes@.contains(b));
            if b != cfg.entry_pc {
                let d: usize = nearest_dominator(cfg, &nodes, &without, b);
                idom.insert(b, d);
            }
            i = i + 1;
        }
        proof {
            assert forall|b: usize| #[trigger] idom@.contains_key(b) <==> b == cfg.entry_pc
                || is_node(*cfg, b) by {
                if is_node(*cfg, b) {
                    assert(nodes@.contains(b));
                    let k = choose|k: int| 0 <= k < nodes@.len() && nodes@[k] == b;
                    assert(idom@.contains_key(nodes@[k]));
                }
            }
            assert(idom_of(idom@, *cfg));
            assert forall|b: usize| #[trigger] idom@.contains_key(b) implies idom@.contains_key(
                idom@[b],
            ) by {
                if b != cfg.entry_pc {
                    lemma_dominator_is_node(*cfg, idom@[b], b);
                }
            }
        }
        let children = children_map(&idom);
        let tree = DominatorTree { idom, children, rpo };
        assert forall|b: usize| #[trigger] tree.idom@.contains_key(b) implies exists|n: nat|
            rooted(tree.idom@, b, n) by {
            let n = lemma_rooted(*cfg, tree.idom@, b);
        }
        tree
    }
}

spec fn all_reachable(cfg: ControlFlowGraph, w: Walk) -> bool {
    &&& forall|pc: usize| #[trigger]
        w.visited.contains(pc) ==> reachable(cfg, Set::empty(), pc)
    &&& forall|i: int|
        0 <= i < w.path.len() ==> reachable(cfg, Set::empty(), (#[trigger] w.path[i]).0)
    &&& forall|i: int| 0 <= i < w.post.len() ==> reachable(cfg, Set::empty(), #[trigger] w.post[i])
}

proof fn lemma_steps_reachable(cfg: ControlFlowGraph, w: Walk, n: nat)
    requires
        all_reachable(cfg, w),
    ensures
        all_reachable(cfg, graph::walk_steps(cfg, w, n)),
    decreases n,
{
    if n > 0 {
        let v = graph::walk_step(cfg, w);
        if w.path.len() > 0 {
            let (pc, i) = w.path.last();
            assert(reachable(cfg, Set::empty(), w.path[w.path.len() - 1].0));
            let succs = crate::graph::successors_at(cfg, pc);
            if i < succs.len() {
                let s = succs[i as int];
                let k = choose|k: nat| path_to(cfg, Set::empty(), pc, k);
                assert(edge(cfg, pc, s));
                assert(path_to(cfg, Set::empty(), s, k + 1));
                assert forall|j: int| 0 <= j < v.path.len() implies reachable(
                    cfg,
                    Set::empty(),
                    (#[trigger] v.path[j]).0,
                ) by {
                    if j < w.path.len() - 1 {
                        assert(v.path[j] == w.path[j]);
                    }
                }
            } else {
                assert forall|j: int| 0 <= j < v.path.len() implies reachable(
                    cfg,
                    Set::empty(),
                    (#[trigger] v.path[j]).0,
                ) by {
                    assert(v.path[j] == w.path[j]);
                }
            }
        }
        lemma_steps_reachable(cfg, v, (n - 1) as nat);
    }
}

/// The reverse post-order lists exactly the blocks that can be reached from the entry,
/// each once.
pub proof fn law_rpo_lists_nodes(cfg: ControlFlowGraph, pc: usize)
    ensures
        reverse_post_order(cfg).contains(pc) <==> is_node(cfg, pc),
        reverse_post_order(cfg).no_duplicates(),
{
    let starts = seq![cfg.entry_pc];
    let post = graph::post_order(cfg, starts);
    let keep = |p: usize| cfg.blocks@.contains_key(p);
    graph::law_post_order(cfg, starts);
    let none = Walk { visited: Set::empty(), path: seq![], post: seq![] };
    let w0 = Walk {
        visited: none.visited.insert(cfg.entry_pc),
        path: seq![(cfg.entry_pc, 0nat)],
        post: seq![],
    };
    assert(path_to(cfg, Set::empty(), cfg.entry_pc, 0));
    let n = choose|n: nat| graph::walk_steps(cfg, w0, n).path.len() == 0;
    lemma_steps_reachable(cfg, w0, n);
    assert(graph::visit_all(cfg, starts, 0) == none);
    assert(graph::visit_all(cfg, starts, 1) == graph::visit(cfg, none, starts[0]));
    assert(post == graph::walk_steps(cfg, w0, n).post);
    let kept = post.filter(keep);
    if is_node(cfg, pc) {
        let m = choose|m: nat| path_to(cfg, Set::empty(), pc, m);
        assert(post.contains(starts[0]));
        lemma_path_in_post(cfg, post, pc, m);
        let i = choose|i: int| 0 <= i < post.len() && post[i] == pc;
        post.lemma_filter_contains(keep, i);
        let j = choose|j: int| 0 <= j < kept.len() && kept[j] == pc;
        assert(kept.reverse()[kept.len() - 1 - j] == pc);
    }
    if reverse_post_order(cfg).contains(pc) {
        let j = choose|j: int| 0 <= j < kept.reverse().len() && kept.reverse()[j] == pc;
        assert(kept[kept.len() - 1 - j] == pc);
        post.lemma_filter_pred(keep, kept.len() - 1 - j);
        post.lemma_filter_contains_rev(keep, pc);
        let i = choose|i: int| 0 <= i < post.len() && post[i] == pc;
        assert(reachable(cfg, Set::empty(), post[i]));
    }
    lemma_filter_no_duplicates(post, keep);
}

proof fn lemma_filter_no_duplicates(s: Seq<usize>, keep: spec_fn(usize) -> bool)
    requires
        s.no_duplicates(),
    ensures
        s.filter(keep).no_duplicates(),
    decreases s.len(),
{
    if s.len() > 0 {
        let t = s.drop_last();
        lemma_filter_no_duplicates(t, keep);
        assert(s =~= t.push(s.last()));
        t.lemma_filter_push(s.last(), keep);
        assert forall|i: int| 0 <= i < t.filter(keep).len() implies t.filter(keep)[i]
            != s.last() by {
            let x = t.filter(keep)[i];
            assert(t.filter(keep).contains(x));
            t.lemma_filter_contains_rev(keep, x);
            let j = choose|j: int| 0 <= j < t.len() && t[j] == x;
            assert(s[j] == x);
        }
    }
}

proof fn lemma_path_in_post(cfg: ControlFlowGraph, post: Seq<usize>, pc: usize, n: nat)
    requires
        path_to(cfg, Set::empty(), pc, n),
        post.contains(cfg.entry_pc),
        graph::closed_under_edges(cfg, post),
    ensures
        post.contains(pc),
    decreases n,
{
    if n > 0 {
        let q = choose|q: usize|
            path_to(cfg, Set::empty(), q, (n - 1) as nat) && #[trigger] edge(cfg, q, pc);
        lemma_path_in_post(cfg, post, q, (n - 1) as nat);
        let succs = crate::graph::successors_at(cfg, q);
        let k = choose|k: int| 0 <= k < succs.len() && succs[k] == pc;
        assert(post.contains(crate::graph::successors_at(cfg, q)[k]));
    }
}

} // verus!
