//! Loops: their headers and the blocks that belong to them.

use crate::cfg;
use crate::cfg::{copy_pcs, ControlFlowGraph};
use crate::dominators;
use crate::dominators::DominatorTree;
use crate::ordered::{keys_of, members_of};
use crate::ordered;
use crate::reach;
use crate::reach::reach_from;
use std::collections::{BTreeMap, BTreeSet};
use vstd::prelude::*;

verus! {

broadcast use vstd::laws_cmp::group_laws_cmp;

/// Whether the block at `b` has an edge back to `h`, which lies above it in the
/// dominator tree.
pub open spec fn back_edge(
    cfg: ControlFlowGraph,
    idom: Map<usize, usize>,
    b: usize,
    h: usize,
) -> bool {
    cfg.blocks@.contains_key(b) && cfg.blocks@[b].successors@.contains(h) && dominators::above(
        idom,
        h,
        cfg.blocks@[b].start_pc,
    )
}

/// The targets of back edges.
pub open spec fn loop_headers(cfg: ControlFlowGraph, idom: Map<usize, usize>) -> Set<usize> {
    Set::new(|h: usize| exists|b: usize| back_edge(cfg, idom, b, h))
}

/// The predecessors of each block.
pub open spec fn predecessor_lists(cfg: ControlFlowGraph) -> Map<usize, Seq<usize>> {
    cfg.blocks@.map_values(|b: cfg::BasicBlock| b.predecessors@)
}

/// The predecessors of `h` that it lies above.
pub open spec fn latches(cfg: ControlFlowGraph, idom: Map<usize, usize>, h: usize) -> Seq<usize> {
    if cfg.blocks@.contains_key(h) {
        cfg.blocks@[h].predecessors@.filter(|p: usize| dominators::above(idom, h, p))
    } else {
        seq![]
    }
}

/// The blocks of the loop with header `h`: the header, and all from which a latch can
/// be reached without passing it.
pub open spec fn loop_body(cfg: ControlFlowGraph, idom: Map<usize, usize>, h: usize) -> Set<usize> {
    reach::reached(
        predecessor_lists(cfg),
        latches(cfg, idom, h),
        Set::empty().insert(h),
    ).insert(h)
}

pub fn list_predecessors(cfg: &ControlFlowGraph) -> (m: BTreeMap<usize, Vec<usize>>)
    ensures
        reach::lists(m@) == predecessor_lists(*cfg),
{
    let keys = keys_of(&cfg.blocks);
    let mut m: BTreeMap<usize, Vec<usize>> = BTreeMap::new();
    let mut i: usize = 0;
    while i < keys.len()
        invariant
            i <= keys@.len(),
            keys@.to_set() == cfg.blocks@.dom(),
            forall|k: usize| #[trigger] m@.contains_key(k) <==> keys@.take(i as int).contains(k),
            forall|k: usize| #[trigger]
                m@.contains_key(k) ==> cfg.blocks@.contains_key(k) && m@[k]@
                    == cfg.blocks@[k].predecessors@,
        decreases keys@.len() - i,
    {
        let k: usize = keys[i];
        assert(keys@.to_set().contains(k));
        let ghost before = m@;
        if let Some(b) = cfg.blocks.get(&k) {
            m.insert(k, copy_pcs(&b.predecessors));
        }
        assert(keys@.take(i + 1) =~= keys@.take(i as int).push(k));
        assert forall|j: usize| #[trigger] m@.contains_key(j) <==> keys@.take(i + 1).contains(j) by {
            ordered::lemma_push_key(keys@.take(i as int), k, j);
            assert(before.contains_key(j) <==> keys@.take(i as int).contains(j));
        }
        i = i + 1;
    }
    proof {
        assert(keys@.take(i as int) =~= keys@);
        let want = predecessor_lists(*cfg);
        assert forall|k: usize| reach::lists(m@).contains_key(k) == want.contains_key(k) by {
            assert(m@.contains_key(k) <==> keys@.contains(k));
            assert(keys@.to_set().contains(k) == cfg.blocks@.contains_key(k));
        }
        assert forall|k: usize| reach::lists(m@).contains_key(k) implies reach::lists(m@)[k]
            == want[k] by {
            assert(m@.contains_key(k));
        }
        assert(reach::lists(m@) =~= want);
    }
    m
}

/// Detect loop headers: blocks that are targets of back-edges (successor dominates
/// predecessor).
pub fn detect_loop_headers(cfg: &ControlFlowGraph, dom_tree: &DominatorTree) -> (r: BTreeSet<usize>)
    requires
        dom_tree.wf(),
    ensures
        r@ == loop_headers(*cfg, dom_tree.idom@),
{
    let ghost idom = dom_tree.idom@;
    let keys = keys_of(&cfg.blocks);
    let mut r: BTreeSet<usize> = BTreeSet::new();
    let mut i: usize = 0;
    while i < keys.len()
        invariant
            i <= keys@.len(),
            dom_tree.wf(),
            idom == dom_tree.idom@,
            keys@.to_set() == cfg.blocks@.dom(),
            forall|h: usize| #[trigger]
                r@.contains(h) <==> exists|k: int|
                    0 <= k < i && back_edge(*cfg, idom, #[trigger] keys@[k], h),
        decreases keys@.len() - i,
    {
        let key: usize = keys[i];
        assert(keys@.to_set().contains(key));
        if let Some(b) = cfg.blocks.get(&key) {
            let ghost before = r@;
            let mut j: usize = 0;
            while j < b.successors.len()
                invariant
                    j <= b.successors@.len(),
                    dom_tree.wf(),
                    idom == dom_tree.idom@,
                    forall|h: usize| #[trigger]
                        r@.contains(h) <==> before.contains(h) || exists|k: int|
                            0 <= k < j && #[trigger] b.successors@[k] == h && dominators::above(
                                idom,
                                h,
                                b.start_pc,
                            ),
                decreases b.successors@.len() - j,
            {
                let h: usize = b.successors[j];
                let ghost held = r@;
                if dom_tree.dominates(h, b.start_pc) {
                    r.insert(h);
                }
                assert forall|g: usize| #[trigger] r@.contains(g) <==> before.contains(g) || exists|
                    k: int,
                |
                    0 <= k < j + 1 && #[trigger] b.successors@[k] == g && dominators::above(
                        idom,
                        g,
                        b.start_pc,
                    ) by {
                    assert(held.contains(g) <==> before.contains(g) || exists|k: int|
                        0 <= k < j && #[trigger] b.successors@[k] == g && dominators::above(
                            idom,
                            g,
                            b.start_pc,
                        ));
                    if g == h && dominators::above(idom, g, b.start_pc) {
                        assert(b.successors@[j as int] == g);
                    }
                }
                j = j + 1;
            }
            assert forall|h: usize| #[trigger] r@.contains(h) <==> exists|k: int|
                0 <= k < i + 1 && back_edge(*cfg, idom, #[trigger] keys@[k], h) by {
                assert(before.contains(h) <==> exists|k: int|
                    0 <= k < i && back_edge(*cfg, idom, #[trigger] keys@[k], h));
                if back_edge(*cfg, idom, keys@[i as int], h) {
                    let k = choose|k: int|
                        0 <= k < b.successors@.len() && b.successors@[k] == h;
                    assert(b.successors@[k] == h);
                }
                if exists|k: int|
                    0 <= k < j && #[trigger] b.successors@[k] == h && dominators::above(
                        idom,
                        h,
                        b.start_pc,
                    ) {
                    assert(back_edge(*cfg, idom, keys@[i as int], h));
                }
            }
        }
        i = i + 1;
    }
    proof {
        assert forall|h: usize| r@.contains(h) == loop_headers(*cfg, idom).contains(h) by {
            if loop_headers(*cfg, idom).contains(h) {
                let b = choose|b: usize| back_edge(*cfg, idom, b, h);
                assert(keys@.to_set().contains(b));
                let k = choose|k: int| 0 <= k < keys@.len() && keys@[k] == b;
                assert(back_edge(*cfg, idom, keys@[k], h));
            }
        }
        assert(r@ =~= loop_headers(*cfg, idom));
    }
    r
}

fn list_latches(cfg: &ControlFlowGraph, dom_tree: &DominatorTree, h: usize) -> (r: Vec<usize>)
    requires
        dom_tree.wf(),
    ensures
        r@ == latches(*cfg, dom_tree.idom@, h),
{
    let mut r: Vec<usize> = Vec::new();
    if let Some(b) = cfg.blocks.get(&h) {
        let ghost f = |p: usize| dominators::above(dom_tree.idom@, h, p);
        let ghost list = b.predecessors@;
        let mut i: usize = 0;
        assert(list.take(0) =~= seq![]);
        assert(list.take(0).filter(f) =~= seq![]) by {
            reveal(Seq::filter);
        }
        while i < b.predecessors.len()
            invariant
                i <= list.len(),
                list == b.predecessors@,
                dom_tree.wf(),
                f == (|p: usize| dominators::above(dom_tree.idom@, h, p)),
                r@ == list.take(i as int).filter(f),
            decreases list.len() - i,
        {
            let p: usize = b.predecessors[i];
            proof {
                assert(list.take(i + 1) =~= list.take(i as int).push(p));
                assert(list.take(i + 1).drop_last() =~= list.take(i as int));
                reveal(Seq::filter);
            }
            if dom_tree.dominates(h, p) {
                r.push(p);
            }
            i = i + 1;
        }
        assert(list.take(i as int) =~= list);
    }
    r
}

/// Collect loop body blocks for each loop header by reverse-walking predecessors.
pub fn collect_loop_bodies(
    cfg: &ControlFlowGraph,
    dom_tree: &DominatorTree,
    headers: &BTreeSet<usize>,
) -> (r: BTreeMap<usize, BTreeSet<usize>>)
    requires
        dom_tree.wf(),
    ensures
        r@.dom() == headers@,
        forall|h: usize| #[trigger]
            r@.contains_key(h) ==> r@[h]@ == loop_body(*cfg, dom_tree.idom@, h),
{
    let edges = list_predecessors(cfg);
    let list = members_of(headers);
    let mut r: BTreeMap<usize, BTreeSet<usize>> = BTreeMap::new();
    let mut i: usize = 0;
    while i < list.len()
        invariant
            i <= list@.len(),
            dom_tree.wf(),
            list@.to_set() == headers@,
            reach::lists(edges@) == predecessor_lists(*cfg),
            forall|h: usize| #[trigger] r@.contains_key(h) <==> list@.take(i as int).contains(h),
            forall|h: usize| #[trigger]
                r@.contains_key(h) ==> r@[h]@ == loop_body(*cfg, dom_tree.idom@, h),
        decreases list@.len() - i,
    {
        let h: usize = list[i];
        let starts = list_latches(cfg, dom_tree, h);
        let mut barred: BTreeSet<usize> = BTreeSet::new();
        barred.insert(h);
        let mut body = reach_from(&edges, &starts, &barred);
        body.insert(h);
        let ghost before = r@;
        r.insert(h, body);
        assert(list@.take(i + 1) =~= list@.take(i as int).push(h));
        assert forall|j: usize| #[trigger] r@.contains_key(j) <==> list@.take(i + 1).contains(j) by {
            ordered::lemma_push_key(list@.take(i as int), h, j);
            assert(before.contains_key(j) <==> list@.take(i as int).contains(j));
        }
        i = i + 1;
    }
    proof {
        assert(list@.take(i as int) =~= list@);
        assert forall|h: usize| r@.dom().contains(h) == headers@.contains(h) by {
            assert(r@.contains_key(h) <==> list@.contains(h));
            assert(list@.to_set().contains(h) == headers@.contains(h));
        }
        assert(r@.dom() =~= headers@);
    }
    r
}

/// A loop is entered only through its header: each predecessor of another block of its
/// body belongs to the body.
pub proof fn law_loop_is_entered_by_its_header(
    cfg: ControlFlowGraph,
    idom: Map<usize, usize>,
    h: usize,
    b: usize,
    p: usize,
)
    requires
        loop_body(cfg, idom, h).contains(b),
        b != h,
        cfg.blocks@.contains_key(b),
        cfg.blocks@[b].predecessors@.contains(p),
    ensures
        loop_body(cfg, idom, h).contains(p),
{
    let next = predecessor_lists(cfg);
    let barred = Set::empty().insert(h);
    assert(reach::leads(next, b, p));
    if p != h {
        reach::lemma_reached_closed(next, latches(cfg, idom, h), barred, b, p);
    }
}

/// A loop holds its header and the blocks that lead back to it.
pub proof fn law_loop_holds_its_latches(
    cfg: ControlFlowGraph,
    idom: Map<usize, usize>,
    h: usize,
    latch: usize,
)
    requires
        latches(cfg, idom, h).contains(latch),
    ensures
        loop_body(cfg, idom, h).contains(h),
        loop_body(cfg, idom, h).contains(latch),
{
    let next = predecessor_lists(cfg);
    let starts = latches(cfg, idom, h);
    if latch != h {
        assert(reach::reached_in(next, starts, Set::empty().insert(h), latch, 0));
    }
}

} // verus!
