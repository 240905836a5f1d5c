//! Depth-first walks over a control flow graph.
//!
//! A walk keeps the nodes it has seen, the path it is on with the number of
//! successors already followed from each node, and the nodes it has left, in the
//! order in which it left them (post-order).

use crate::cfg::ControlFlowGraph;
use std::collections::BTreeSet;
use vstd::prelude::*;

verus! {

broadcast use vstd::laws_cmp::group_laws_cmp;

/// Successors of the block at `pc`; none where no block starts there.
pub open spec fn successors_at(cfg: ControlFlowGraph, pc: usize) -> Seq<usize> {
    if cfg.blocks@.contains_key(pc) {
        cfg.blocks@[pc].successors@
    } else {
        seq![]
    }
}

pub struct Walk {
    pub visited: Set<usize>,
    pub path: Seq<(usize, nat)>,
    pub post: Seq<usize>,
}

/// One step of a walk: follow the next edge of the last node of the path, or leave it.
pub open spec fn walk_step(cfg: ControlFlowGraph, w: Walk) -> Walk {
    if w.path.len() == 0 {
        w
    } else {
        let (pc, i) = w.path.last();
        let succs = successors_at(cfg, pc);
        if i < succs.len() {
            let s = succs[i as int];
            let path = w.path.drop_last().push((pc, i + 1));
            if w.visited.contains(s) {
                Walk { path, ..w }
            } else {
                Walk { visited: w.visited.insert(s), path: path.push((s, 0)), post: w.post }
            }
        } else {
            Walk { visited: w.visited, path: w.path.drop_last(), post: w.post.push(pc) }
        }
    }
}

pub open spec fn walk_steps(cfg: ControlFlowGraph, w: Walk, n: nat) -> Walk
    decreases n,
{
    if n == 0 {
        w
    } else {
        walk_steps(cfg, walk_step(cfg, w), (n - 1) as nat)
    }
}

/// The walk, finished.
pub open spec fn walked(cfg: ControlFlowGraph, w: Walk) -> Walk {
    walk_steps(cfg, w, choose|n: nat| walk_steps(cfg, w, n).path.len() == 0)
}

/// The walk `w`, which is not on a path, continued from `start` unless it has seen it.
pub open spec fn visit(cfg: ControlFlowGraph, w: Walk, start: usize) -> Walk {
    if w.visited.contains(start) {
        w
    } else {
        walked(
            cfg,
            Walk { visited: w.visited.insert(start), path: seq![(start, 0nat)], post: w.post },
        )
    }
}

/// The walk that starts from each of the first `n` of `starts` in turn.
pub open spec fn visit_all(cfg: ControlFlowGraph, starts: Seq<usize>, n: nat) -> Walk
    decreases n,
{
    if n == 0 {
        Walk { visited: Set::empty(), path: seq![], post: seq![] }
    } else {
        visit(cfg, visit_all(cfg, starts, (n - 1) as nat), starts[n - 1])
    }
}

/// Post-order of the nodes that can be reached from `starts`.
pub open spec fn post_order(cfg: ControlFlowGraph, starts: Seq<usize>) -> Seq<usize> {
    visit_all(cfg, starts, starts.len()).post
}

proof fn lemma_finished_stays(cfg: ControlFlowGraph, w: Walk, n: nat)
    requires
        w.path.len() == 0,
    ensures
        walk_steps(cfg, w, n) == w,
    decreases n,
{
    if n > 0 {
        lemma_finished_stays(cfg, walk_step(cfg, w), (n - 1) as nat);
    }
}

proof fn lemma_steps_add(cfg: ControlFlowGraph, w: Walk, a: nat, b: nat)
    ensures
        walk_steps(cfg, w, a + b) == walk_steps(cfg, walk_steps(cfg, w, a), b),
    decreases a,
{
    if a > 0 {
        lemma_steps_add(cfg, walk_step(cfg, w), (a - 1) as nat, b);
    }
}

proof fn lemma_walked(cfg: ControlFlowGraph, w: Walk, n: nat)
    requires
        walk_steps(cfg, w, n).path.len() == 0,
    ensures
        walked(cfg, w) == walk_steps(cfg, w, n),
{
    let m = choose|m: nat| walk_steps(cfg, w, m).path.len() == 0;
    if m <= n {
        lemma_steps_add(cfg, w, m, (n - m) as nat);
        lemma_finished_stays(cfg, walk_steps(cfg, w, m), (n - m) as nat);
    } else {
        lemma_steps_add(cfg, w, n, (m - n) as nat);
        lemma_finished_stays(cfg, walk_steps(cfg, w, n), (m - n) as nat);
    }
}

/// Nodes that edges lead to.
pub open spec fn edge_targets(cfg: ControlFlowGraph) -> Set<usize> {
    Set::new(
        |s: usize|
            exists|pc: usize|
                #![trigger cfg.blocks@.contains_key(pc)]
                cfg.blocks@.contains_key(pc) && cfg.blocks@[pc].successors@.contains(s),
    )
}

/// Nodes that edges from the blocks in `d` lead to.
spec fn targets_within(cfg: ControlFlowGraph, d: Set<usize>) -> Set<usize> {
    Set::new(
        |s: usize|
            exists|pc: usize|
                #![trigger cfg.blocks@.contains_key(pc)]
                cfg.blocks@.contains_key(pc) && d.contains(pc)
                    && cfg.blocks@[pc].successors@.contains(s),
    )
}

proof fn lemma_targets_finite(cfg: ControlFlowGraph, dom: Set<usize>)
    requires
        dom.finite(),
    ensures
        targets_within(cfg, dom).finite(),
    decreases dom.len(),
{
    if dom.len() == 0 {
        assert(dom =~= Set::empty());
        assert(targets_within(cfg, dom) =~= Set::empty());
    } else {
        let x = dom.choose();
        lemma_targets_finite(cfg, dom.remove(x));
        let more = successors_at(cfg, x).to_set();
        let all = targets_within(cfg, dom.remove(x)).union(more);
        assert forall|s: usize| #[trigger]
            targets_within(cfg, dom).contains(s) implies all.contains(s) by {
            let pc = choose|pc: usize|
                #![trigger cfg.blocks@.contains_key(pc)]
                cfg.blocks@.contains_key(pc) && dom.contains(pc)
                    && cfg.blocks@[pc].successors@.contains(s);
            if pc == x {
                assert(more.contains(s));
            } else {
                assert(dom.remove(x).contains(pc));
            }
        }
        vstd::set_lib::lemma_len_subset(targets_within(cfg, dom), all);
    }
}

pub proof fn lemma_edge_targets_finite(cfg: ControlFlowGraph)
    ensures
        edge_targets(cfg).finite(),
{
    let dom = cfg.blocks@.dom();
    lemma_targets_finite(cfg, dom);
    assert(edge_targets(cfg) =~= targets_within(cfg, dom));
}

/// Edges left to follow and nodes left to leave on a path.
spec fn path_work(cfg: ControlFlowGraph, path: Seq<(usize, nat)>) -> nat
    decreases path.len(),
{
    if path.len() == 0 {
        0
    } else {
        let (pc, i) = path.last();
        let left = if i < successors_at(cfg, pc).len() {
            (successors_at(cfg, pc).len() - i) as nat
        } else {
            0
        };
        path_work(cfg, path.drop_last()) + left + 1
    }
}

/// What holds throughout a walk: every node seen is on the path or left, once; of a
/// node that was left all successors are seen, of one on the path those already
/// followed.
pub open spec fn walk_inv(cfg: ControlFlowGraph, w: Walk) -> bool {
    &&& w.post.no_duplicates()
    &&& forall|i: int, j: int|
        0 <= i < j < w.path.len() ==> (#[trigger] w.path[i]).0 != (#[trigger] w.path[j]).0
    &&& forall|i: int| 0 <= i < w.path.len() ==> !w.post.contains((#[trigger] w.path[i]).0)
    &&& forall|pc: usize| #[trigger]
        w.visited.contains(pc) <==> (w.post.contains(pc) || on_path(w.path, pc))
    &&& forall|pc: usize, k: int|
        w.post.contains(pc) && 0 <= k < successors_at(cfg, pc).len() ==> w.visited.contains(
            #[trigger] successors_at(cfg, pc)[k],
        )
    &&& forall|i: int, k: int|
        0 <= i < w.path.len() && 0 <= k < w.path[i].1 && k < successors_at(
            cfg,
            w.path[i].0,
        ).len() ==> w.visited.contains(#[trigger] successors_at(cfg, (#[trigger] w.path[i]).0)[k])
}

pub open spec fn on_path(path: Seq<(usize, nat)>, pc: usize) -> bool {
    exists|i: int| 0 <= i < path.len() && (#[trigger] path[i]).0 == pc
}

proof fn lemma_walk_inv_step(cfg: ControlFlowGraph, w: Walk)
    requires
        walk_inv(cfg, w),
    ensures
        walk_inv(cfg, walk_step(cfg, w)),
{
    if w.path.len() > 0 {
        let v = walk_step(cfg, w);
        let last = w.path.len() - 1;
        let (pc, i) = w.path.last();
        let succs = successors_at(cfg, pc);
        if i < succs.len() {
            let s = succs[i as int];
            let path = w.path.drop_last().push((pc, i + 1));
            assert forall|x: usize| on_path(path, x) <==> on_path(w.path, x) by {
                if on_path(path, x) {
                    let j = choose|j: int| 0 <= j < path.len() && (#[trigger] path[j]).0 == x;
                    assert(w.path[j].0 == x);
                }
                if on_path(w.path, x) {
                    let j = choose|j: int| 0 <= j < w.path.len() && (#[trigger] w.path[j]).0 == x;
                    assert(path[j].0 == x);
                }
            }
            if w.visited.contains(s) {
                assert(v.path == path);
            } else {
                assert(v.path == path.push((s, 0nat)));
                assert forall|x: usize| on_path(v.path, x) <==> (x == s || on_path(path, x)) by {
                    if on_path(path, x) {
                        let j = choose|j: int| 0 <= j < path.len() && (#[trigger] path[j]).0 == x;
                        assert(v.path[j].0 == x);
                    }
                    assert(v.path[path.len() as int].0 == s);
                }
            }
            assert forall|x: usize| #[trigger] v.visited.contains(x) implies v.post.contains(x)
                || on_path(v.path, x) by {
                if x != s || w.visited.contains(s) {
                    assert(w.visited.contains(x));
                    if !w.post.contains(x) {
                        assert(on_path(w.path, x));
                        assert(on_path(path, x));
                    }
                } else {
                    assert(v.path[path.len() as int].0 == s);
                }
            }
            assert forall|j: int| 0 <= j < w.path.len() implies (#[trigger] v.path[j]).0
                == w.path[j].0 && (j < last ==> v.path[j] == w.path[j]) by {}
            assert forall|j: int| 0 <= j < v.path.len() implies !v.post.contains(
                (#[trigger] v.path[j]).0,
            ) by {
                if j < w.path.len() {
                    assert(!w.post.contains(w.path[j].0));
                }
            }
            assert forall|a: int, b: int| 0 <= a < b < v.path.len() implies (#[trigger] v.path[a]).0
                != (#[trigger] v.path[b]).0 by {
                if b < w.path.len() {
                    assert(w.path[a].0 != w.path[b].0);
                } else {
                    assert(on_path(w.path, w.path[a].0));
                    assert(w.visited.contains(w.path[a].0));
                }
            }
            assert forall|a: int, k: int|
                0 <= a < v.path.len() && 0 <= k < v.path[a].1 && k < successors_at(
                    cfg,
                    v.path[a].0,
                ).len() implies v.visited.contains(
                #[trigger] successors_at(cfg, (#[trigger] v.path[a]).0)[k],
            ) by {
                if a < last {
                    assert(w.visited.contains(successors_at(cfg, w.path[a].0)[k]));
                } else if a == last {
                    if k < i {
                        assert(w.visited.contains(successors_at(cfg, w.path[a].0)[k]));
                    }
                }
            }
        } else {
            assert(v.post == w.post.push(pc));
            assert(!w.post.contains(w.path[last].0));
            assert forall|x: usize| v.post.contains(x) <==> (x == pc || w.post.contains(x)) by {
                if w.post.contains(x) {
                    let j = choose|j: int| 0 <= j < w.post.len() && w.post[j] == x;
                    assert(v.post[j] == x);
                }
                assert(v.post[w.post.len() as int] == pc);
            }
            assert forall|x: usize| on_path(w.path, x) <==> (x == pc || on_path(v.path, x)) by {
                if on_path(w.path, x) {
                    let j = choose|j: int| 0 <= j < w.path.len() && (#[trigger] w.path[j]).0 == x;
                    if j < last {
                        assert(v.path[j].0 == x);
                    }
                }
                if on_path(v.path, x) {
                    let j = choose|j: int| 0 <= j < v.path.len() && (#[trigger] v.path[j]).0 == x;
                    assert(w.path[j].0 == x);
                }
                assert(w.path[last].0 == pc);
            }
            assert forall|x: usize| #[trigger] v.visited.contains(x) implies v.post.contains(x)
                || on_path(v.path, x) by {
                assert(w.visited.contains(x));
            }
            assert forall|j: int| 0 <= j < v.path.len() implies !v.post.contains(
                (#[trigger] v.path[j]).0,
            ) by {
                assert(v.path[j] == w.path[j]);
                assert(w.path[j].0 != w.path[last].0);
                assert(!w.post.contains(w.path[j].0));
            }
            assert forall|a: int, k: int|
                0 <= a < v.path.len() && 0 <= k < v.path[a].1 && k < successors_at(
                    cfg,
                    v.path[a].0,
                ).len() implies v.visited.contains(
                #[trigger] successors_at(cfg, (#[trigger] v.path[a]).0)[k],
            ) by {
                assert(v.path[a] == w.path[a]);
                assert(w.visited.contains(successors_at(cfg, w.path[a].0)[k]));
            }
            assert forall|x: usize, k: int|
                v.post.contains(x) && 0 <= k < successors_at(
                    cfg,
                    x,
                ).len() implies v.visited.contains(#[trigger] successors_at(cfg, x)[k]) by {
                if x == pc {
                    assert(w.visited.contains(successors_at(cfg, w.path[last].0)[k]));
                }
            }
        }
    }
}

/// Continue a walk from `start`.
fn visit_from(
    cfg: &ControlFlowGraph,
    start: usize,
    visited: &mut BTreeSet<usize>,
    post: &mut Vec<usize>,
)
    requires
        walk_inv(*cfg, Walk { visited: old(visited)@, path: seq![], post: old(post)@ }),
        old(visited)@.finite(),
    ensures
        (Walk { visited: final(visited)@, path: seq![], post: final(post)@ }) == visit(
            *cfg,
            Walk { visited: old(visited)@, path: seq![], post: old(post)@ },
            start,
        ),
        walk_inv(*cfg, Walk { visited: final(visited)@, path: seq![], post: final(post)@ }),
        final(visited)@.finite(),
        final(visited)@.contains(start),
        old(visited)@.subset_of(final(visited)@),
{
    let ghost before = Walk { visited: visited@, path: seq![], post: post@ };
    if !visited.insert(start) {
        assert(visited@ =~= before.visited);
        return ;
    }
    let ghost w0 = Walk {
        visited: before.visited.insert(start),
        path: seq![(start, 0nat)],
        post: post@,
    };
    let ghost universe = edge_targets(*cfg).union(w0.visited);
    proof {
        lemma_edge_targets_finite(*cfg);
        assert(w0.path[0].0 == start);
        assert(on_path(w0.path, start));
        assert(walk_inv(*cfg, w0)) by {
            assert forall|x: usize| #[trigger] w0.visited.contains(x) <==> (w0.post.contains(x)
                || on_path(w0.path, x)) by {
                assert(before.visited.contains(x) <==> before.post.contains(x));
            }
            assert(!before.visited.contains(start));
        }
    }
    let mut stack: Vec<(usize, usize)> = Vec::new();
    stack.push((start, 0));
    let ghost mut n: nat = 0;
    let ghost mut w = w0;
    while stack.len() > 0
        invariant
            w == walk_steps(*cfg, w0, n),
            walk_inv(*cfg, w),
            w.visited == visited@,
            w.post == post@,
            w.path.len() == stack@.len(),
            forall|i: int|
                0 <= i < stack@.len() ==> (#[trigger] w.path[i]).0 == stack@[i].0 && w.path[i].1
                    == stack@[i].1,
            universe.finite(),
            universe == edge_targets(*cfg).union(w0.visited),
            visited@.finite(),
            visited@.subset_of(universe),
            visited@.contains(start),
            w0.visited.subset_of(visited@),
        decreases universe.difference(visited@).len(), path_work(*cfg, w.path),
    {
        let ghost v = walk_step(*cfg, w);
        let last: usize = stack.len() - 1;
        let (pc, i): (usize, usize) = stack[last];
        proof {
            lemma_walk_inv_step(*cfg, w);
            lemma_steps_add(*cfg, w0, n, 1);
            assert(walk_steps(*cfg, w, 1) == v) by {
                reveal_with_fuel(walk_steps, 2);
            }
            assert(w.path.last().0 == pc && w.path.last().1 == i);
            assert(w.path.last() == (pc, i as nat));
        }
        let next: Option<usize> = match cfg.blocks.get(&pc) {
            Some(block) => if i < block.successors.len() {
                Some(block.successors[i])
            } else {
                None
            },
            None => None,
        };
        match next {
            Some(s) => {
                stack.set(last, (pc, i + 1));
                let ghost seen = visited@;
                proof {
                    let path = w.path.drop_last().push((pc, (i + 1) as nat));
                    assert(path.drop_last() =~= w.path.drop_last());
                    assert(path_work(*cfg, path) < path_work(*cfg, w.path));
                    assert(cfg.blocks@[pc].successors@.contains(s));
                    assert(edge_targets(*cfg).contains(s));
                }
                if visited.insert(s) {
                    stack.push((s, 0));
                    proof {
                        assert(universe.difference(seen).contains(s));
                        assert(universe.difference(visited@) =~= universe.difference(seen).remove(
                            s,
                        ));
                    }
                } else {
                    assert(visited@ =~= seen);
                }
            },
            None => {
                stack.pop();
                post.push(pc);
            },
        }
        proof {
            n = n + 1;
            w = v;
        }
    }
    proof {
        lemma_walked(*cfg, w0, n);
        assert(w.path =~= seq![]);
    }
}

/// Post-order of the blocks reachable from `starts`.
pub fn post_order_from(cfg: &ControlFlowGraph, starts: &Vec<usize>) -> (post: Vec<usize>)
    ensures
        post@ == post_order(*cfg, starts@),
        post@.no_duplicates(),
        forall|i: int| 0 <= i < starts@.len() ==> post@.contains(#[trigger] starts@[i]),
        closed_under_edges(*cfg, post@),
{
    let mut visited: BTreeSet<usize> = BTreeSet::new();
    let mut post: Vec<usize> = Vec::new();
    let mut i: usize = 0;
    while i < starts.len()
        invariant
            i <= starts@.len(),
            (Walk { visited: visited@, path: seq![], post: post@ }) == visit_all(
                *cfg,
                starts@,
                i as nat,
            ),
            walk_inv(*cfg, Walk { visited: visited@, path: seq![], post: post@ }),
            visited@.finite(),
            forall|k: int| 0 <= k < i ==> visited@.contains(#[trigger] starts@[k]),
        decreases starts@.len() - i,
    {
        visit_from(cfg, starts[i], &mut visited, &mut post);
        i = i + 1;
    }
    proof {
        let w = Walk { visited: visited@, path: seq![], post: post@ };
        assert forall|pc: usize, k: int|
            post@.contains(pc) && 0 <= k < successors_at(*cfg, pc).len() implies post@.contains(
            #[trigger] successors_at(*cfg, pc)[k],
        ) by {
            assert(w.visited.contains(successors_at(*cfg, pc)[k]));
        }
        assert forall|k: int| 0 <= k < starts@.len() implies post@.contains(
            #[trigger] starts@[k],
        ) by {
            assert(w.visited.contains(starts@[k]));
        }
    }
    post
}

/// Whether the edges from the members of `s` lead to members of `s`.
pub open spec fn closed_under_edges(cfg: ControlFlowGraph, s: Seq<usize>) -> bool {
    forall|pc: usize, k: int|
        s.contains(pc) && 0 <= k < successors_at(cfg, pc).len() ==> s.contains(
            #[trigger] successors_at(cfg, pc)[k],
        )
}

/// Every walk comes to an end.
proof fn lemma_walk_ends(cfg: ControlFlowGraph, w: Walk, universe: Set<usize>) -> (n: nat)
    requires
        walk_inv(cfg, w),
        universe.finite(),
        edge_targets(cfg).subset_of(universe),
        w.visited.subset_of(universe),
    ensures
        walk_steps(cfg, w, n).path.len() == 0,
        walk_inv(cfg, walk_steps(cfg, w, n)),
        w.visited.subset_of(walk_steps(cfg, w, n).visited),
        walk_steps(cfg, w, n).visited.subset_of(universe),
    decreases universe.difference(w.visited).len(), path_work(cfg, w.path),
{
    if w.path.len() == 0 {
        0
    } else {
        let v = walk_step(cfg, w);
        lemma_walk_inv_step(cfg, w);
        let (pc, i) = w.path.last();
        let succs = successors_at(cfg, pc);
        if i < succs.len() {
            let s = succs[i as int];
            let path = w.path.drop_last().push((pc, i + 1));
            assert(path.drop_last() =~= w.path.drop_last());
            assert(path_work(cfg, path) < path_work(cfg, w.path));
            assert(cfg.blocks@[pc].successors@.contains(s));
            assert(edge_targets(cfg).contains(s));
            if !w.visited.contains(s) {
                assert(universe.difference(w.visited).contains(s));
                assert(universe.difference(v.visited) =~= universe.difference(w.visited).remove(s));
            }
        }
        let m = lemma_walk_ends(cfg, v, universe);
        m + 1
    }
}

proof fn lemma_visit(cfg: ControlFlowGraph, w: Walk, start: usize)
    requires
        walk_inv(cfg, w),
        w.path.len() == 0,
        w.visited.finite(),
    ensures
        walk_inv(cfg, visit(cfg, w, start)),
        visit(cfg, w, start).path.len() == 0,
        visit(cfg, w, start).visited.finite(),
        visit(cfg, w, start).visited.contains(start),
        w.visited.subset_of(visit(cfg, w, start).visited),
{
    if !w.visited.contains(start) {
        let w0 = Walk { visited: w.visited.insert(start), path: seq![(start, 0nat)], post: w.post };
        let universe = edge_targets(cfg).union(w0.visited);
        lemma_edge_targets_finite(cfg);
        assert(w0.path[0].0 == start);
        assert(on_path(w0.path, start));
        assert(walk_inv(cfg, w0)) by {
            assert forall|x: usize| #[trigger] w0.visited.contains(x) <==> (w0.post.contains(x)
                || on_path(w0.path, x)) by {
                assert(w.visited.contains(x) <==> w.post.contains(x) || on_path(w.path, x));
            }
        }
        let n = lemma_walk_ends(cfg, w0, universe);
        lemma_walked(cfg, w0, n);
        vstd::set_lib::lemma_len_subset(visit(cfg, w, start).visited, universe);
    }
}

proof fn lemma_visit_all(cfg: ControlFlowGraph, starts: Seq<usize>, n: nat)
    requires
        n <= starts.len(),
    ensures
        walk_inv(cfg, visit_all(cfg, starts, n)),
        visit_all(cfg, starts, n).path.len() == 0,
        visit_all(cfg, starts, n).visited.finite(),
        forall|i: int|
            0 <= i < n ==> visit_all(cfg, starts, n).visited.contains(#[trigger] starts[i]),
    decreases n,
{
    if n > 0 {
        lemma_visit_all(cfg, starts, (n - 1) as nat);
        lemma_visit(cfg, visit_all(cfg, starts, (n - 1) as nat), starts[n - 1]);
    }
}

/// A post-order lists each node once, lists every start, and with a node all nodes
/// that it has edges to.
pub proof fn law_post_order(cfg: ControlFlowGraph, starts: Seq<usize>)
    ensures
        post_order(cfg, starts).no_duplicates(),
        forall|i: int|
            0 <= i < starts.len() ==> post_order(cfg, starts).contains(#[trigger] starts[i]),
        closed_under_edges(cfg, post_order(cfg, starts)),
{
    lemma_visit_all(cfg, starts, starts.len());
    let w = visit_all(cfg, starts, starts.len());
    assert forall|i: int| 0 <= i < starts.len() implies w.post.contains(#[trigger] starts[i]) by {
        assert(w.visited.contains(starts[i]));
    }
    assert forall|pc: usize, k: int|
        w.post.contains(pc) && 0 <= k < successors_at(cfg, pc).len() implies w.post.contains(
        #[trigger] successors_at(cfg, pc)[k],
    ) by {
        assert(w.visited.contains(successors_at(cfg, pc)[k]));
    }
}

} // verus!
