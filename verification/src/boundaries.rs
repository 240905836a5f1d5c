//! What holds of detected functions.

use crate::cfg;
use crate::cfg::ControlFlowGraph;
use crate::dominators;
use crate::functions;
use crate::functions::Parts;
use crate::ordered;
use crate::reach;
use vstd::prelude::*;

verus! {

/// Whether no two of several sets have a member in common.
pub open spec fn apart(sets: Seq<Set<usize>>) -> bool {
    forall|i: int, j: int, x: usize|
        0 <= i < j < sets.len() && #[trigger] sets[i].contains(x) ==> !(#[trigger] sets[j].contains(
            x,
        ))
}

/// Whether no two of several functions share a block.
pub open spec fn pieces_apart(s: Seq<(usize, Set<usize>)>) -> bool {
    forall|i: int, j: int, x: usize|
        0 <= i < j < s.len() && #[trigger] s[i].1.contains(x) ==> !(#[trigger] s[j].1.contains(x))
}

/// Whether each function holds its entry.
pub open spec fn pieces_homed(s: Seq<(usize, Set<usize>)>) -> bool {
    forall|i: int| 0 <= i < s.len() ==> (#[trigger] s[i]).1.contains(s[i].0)
}

/// Components found so far: apart, finite, not empty, and visited.
spec fn sound(p: Parts) -> bool {
    &&& apart(p.list)
    &&& forall|i: int|
        0 <= i < p.list.len() ==> (#[trigger] p.list[i]).finite() && p.list[i].len() > 0
    &&& forall|i: int, x: usize|
        0 <= i < p.list.len() && #[trigger] p.list[i].contains(x) ==> p.visited.contains(x)
}

proof fn lemma_add_part(cfg: ControlFlowGraph, p: Parts, start: usize)
    requires
        cfg.blocks@.dom().finite(),
        sound(p),
    ensures
        sound(functions::add_part(cfg, p, start)),
{
    if !p.visited.contains(start) {
        let next = functions::neighbours(cfg);
        assert(next.dom() =~= cfg.blocks@.dom());
        let starts = seq![start];
        let c = reach::reached(next, starts, p.visited);
        reach::lemma_reached(next, starts, p.visited);
        assert(starts[0] == start);
        assert(c.contains(start));
        let q = functions::add_part(cfg, p, start);
        assert(q.list == p.list.push(c));
        assert forall|i: int, j: int, x: usize|
            0 <= i < j < q.list.len() && #[trigger] q.list[i].contains(x) implies !(
        #[trigger] q.list[j].contains(x)) by {
            assert(p.list[i].contains(x));
        }
        assert forall|i: int| 0 <= i < q.list.len() implies (#[trigger] q.list[i]).finite()
            && q.list[i].len() > 0 by {
            if i < p.list.len() {
                assert(q.list[i] == p.list[i]);
            }
        }
        assert forall|i: int, x: usize|
            0 <= i < q.list.len() && #[trigger] q.list[i].contains(x) implies q.visited.contains(
            x,
        ) by {
            if i < p.list.len() {
                assert(p.list[i].contains(x));
            }
        }
    }
}

proof fn lemma_add_parts(cfg: ControlFlowGraph, p: Parts, starts: Seq<usize>, n: nat)
    requires
        cfg.blocks@.dom().finite(),
        sound(p),
    ensures
        sound(functions::add_parts(cfg, p, starts, n)),
    decreases n,
{
    if n > 0 {
        lemma_add_parts(cfg, p, starts, (n - 1) as nat);
        lemma_add_part(
            cfg,
            functions::add_parts(cfg, p, starts, (n - 1) as nat),
            starts[n - 1],
        );
    }
}

/// No block belongs to two components.
pub proof fn law_components_are_apart(cfg: ControlFlowGraph)
    requires
        cfg.blocks@.dom().finite(),
    ensures
        apart(functions::components(cfg)),
        forall|i: int|
            0 <= i < functions::components(cfg).len() ==> (#[trigger] functions::components(
                cfg,
            )[i]).finite() && functions::components(cfg)[i].len() > 0,
{
    let none = Parts { list: seq![], visited: Set::empty() };
    let first = if cfg.blocks@.contains_key(cfg.entry_pc) {
        functions::add_part(cfg, none, cfg.entry_pc)
    } else {
        none
    };
    lemma_add_part(cfg, none, cfg.entry_pc);
    let keys = ordered::ascending(cfg.blocks@.dom());
    lemma_add_parts(cfg, first, keys, keys.len());
}

proof fn lemma_first_outer(cfg: ControlFlowGraph, c: Set<usize>, list: Seq<usize>, i: int)
    ensures
        functions::first_outer(cfg, c, list, i) is Some ==> list.contains(
            functions::first_outer(cfg, c, list, i)->0,
        ),
    decreases list.len() - i,
{
    if 0 <= i < list.len() && !functions::entered_from_outside(cfg, list[i], c) {
        lemma_first_outer(cfg, c, list, i + 1);
    }
}

proof fn lemma_entry_within(cfg: ControlFlowGraph, c: Set<usize>)
    requires
        c.finite(),
        c.len() > 0,
    ensures
        c.contains(functions::entry_of(cfg, c)),
        ordered::ascending(c).len() > 0,
        c.contains(ordered::ascending(c)[0]),
{
    ordered::lemma_ascending_exists(c);
    let list = ordered::ascending(c);
    lemma_first_outer(cfg, c, list, 0);
    assert(list.contains(list[0]));
    assert(list.to_set().contains(list[0]));
    if functions::first_outer(cfg, c, list, 0) is Some {
        assert(list.to_set().contains(functions::first_outer(cfg, c, list, 0)->0));
    }
}

proof fn lemma_frame_entries(
    cfg: ControlFlowGraph,
    c: Set<usize>,
    entry: usize,
    list: Seq<usize>,
    n: nat,
)
    requires
        n <= list.len(),
        ordered::increasing(list),
    ensures
        ({
            let r = functions::frame_entries(cfg, c, entry, list, n);
            &&& forall|i: int| 0 <= i < r.len() ==> r[i] != entry && list.contains(#[trigger] r[i])
            &&& forall|i: int, j: int| 0 <= i < j < r.len() ==> r[i] < r[j]
            &&& forall|i: int, k: int| 0 <= i < r.len() && n <= k < list.len() ==> r[i] < list[k]
        }),
    decreases n,
{
    if n > 0 {
        lemma_frame_entries(cfg, c, entry, list, (n - 1) as nat);
        assert(list.contains(list[n - 1]));
        let rest = functions::frame_entries(cfg, c, entry, list, (n - 1) as nat);
        let r = functions::frame_entries(cfg, c, entry, list, n);
        assert forall|i: int| 0 <= i < r.len() implies r[i] != entry && list.contains(
            #[trigger] r[i],
        ) by {
            if i < rest.len() {
                assert(r[i] == rest[i]);
            }
        }
        assert forall|i: int, j: int| 0 <= i < j < r.len() implies r[i] < r[j] by {
            assert(r[i] == rest[i]);
            if j < rest.len() {
                assert(r[j] == rest[j]);
            } else {
                assert(r[j] == list[n - 1]);
            }
        }
        assert forall|i: int, k: int| 0 <= i < r.len() && n <= k < list.len() implies r[i]
            < list[k] by {
            if i < rest.len() {
                assert(r[i] == rest[i]);
            } else {
                assert(r[i] == list[n - 1]);
            }
        }
    }
}

proof fn lemma_claims_within(
    cfg: ControlFlowGraph,
    c: Set<usize>,
    entries: Seq<usize>,
    k: nat,
    e: usize,
)
    ensures
        ({
            let m = functions::claim_steps(cfg, c, entries, k);
            &&& forall|x: usize| #[trigger] m.contains_key(x) ==> c.contains(x)
            &&& entries.contains(e) && c.contains(e) ==> m.contains_key(e) && m[e] == e
        }),
    decreases k,
{
    if k > 0 {
        lemma_claims_within(cfg, c, entries, (k - 1) as nat, e);
        let before = functions::claim_steps(cfg, c, entries, (k - 1) as nat);
        let m = functions::claim_steps(cfg, c, entries, k);
        assert(m == functions::claim_step(cfg, c, entries, before));
        assert forall|x: usize| #[trigger] m.contains_key(x) implies c.contains(x) by {
            assert(m.dom().contains(x));
            if before.contains_key(x) {
                assert(c.contains(x));
            }
        }
        if entries.contains(e) && c.contains(e) {
            assert(before.contains_key(e));
            assert(m.dom().contains(e));
        }
    }
}

proof fn lemma_split_list(m: Map<usize, usize>, entries: Seq<usize>, n: nat)
    requires
        n <= entries.len(),
        forall|i: int, j: int| 0 <= i < j < entries.len() ==> entries[i] != entries[j],
        forall|i: int|
            0 <= i < entries.len() ==> m.contains_key(#[trigger] entries[i]) && m[entries[i]]
                == entries[i],
    ensures
        ({
            let r = functions::split_list(m, entries, n);
            &&& pieces_apart(r)
            &&& pieces_homed(r)
            &&& forall|i: int|
                0 <= i < r.len() ==> (#[trigger] r[i]).1 == functions::claimed_by(m, r[i].0)
                    && exists|k: int| 0 <= k < n && entries[k] == r[i].0
        }),
    decreases n,
{
    if n > 0 {
        lemma_split_list(m, entries, (n - 1) as nat);
        let rest = functions::split_list(m, entries, (n - 1) as nat);
        let r = functions::split_list(m, entries, n);
        assert(functions::claimed_by(m, entries[n - 1]).contains(entries[n - 1]));
        assert forall|i: int| 0 <= i < r.len() implies (#[trigger] r[i]).1
            == functions::claimed_by(m, r[i].0) && exists|k: int|
            0 <= k < n && entries[k] == r[i].0 by {
            if i < rest.len() {
                assert(r[i] == rest[i]);
                let k = choose|k: int| 0 <= k < n - 1 && entries[k] == rest[i].0;
                assert(entries[k] == r[i].0);
            } else {
                assert(entries[n - 1] == r[i].0);
            }
        }
        assert forall|i: int, j: int, x: usize|
            0 <= i < j < r.len() && #[trigger] r[i].1.contains(x) implies !(
        #[trigger] r[j].1.contains(x)) by {
            assert(r[i] == rest[i]);
            if j < rest.len() {
                assert(r[j] == rest[j]);
                assert(rest[i].1.contains(x));
            } else {
                let k = choose|k: int| 0 <= k < n - 1 && entries[k] == rest[i].0;
                assert(entries[k] != entries[n - 1]);
            }
        }
        assert forall|i: int| 0 <= i < r.len() implies (#[trigger] r[i]).1.contains(r[i].0) by {
            if i < rest.len() {
                assert(r[i] == rest[i]);
            }
        }
    }
}

proof fn lemma_split(cfg: ControlFlowGraph, c: Set<usize>)
    requires
        c.finite(),
        c.len() > 0,
    ensures
        pieces_apart(functions::split(cfg, c)),
        pieces_homed(functions::split(cfg, c)),
        forall|i: int, x: usize|
            0 <= i < functions::split(cfg, c).len() && #[trigger] functions::split(
                cfg,
                c,
            )[i].1.contains(x) ==> c.contains(x),
{
    lemma_entry_within(cfg, c);
    let list = ordered::ascending(c);
    ordered::lemma_ascending_exists(c);
    let entry = functions::entry_of(cfg, c);
    let more = functions::frame_entries(cfg, c, entry, list, list.len());
    lemma_frame_entries(cfg, c, entry, list, list.len());
    if c.len() > 1 && more.len() > 0 {
        let entries = seq![entry] + more;
        let m = functions::claimed(cfg, c, entries);
        assert forall|i: int| 0 <= i < entries.len() implies m.contains_key(#[trigger] entries[i])
            && m[entries[i]] == entries[i] by {
            assert(entries.contains(entries[i]));
            if i > 0 {
                assert(entries[i] == more[i - 1]);
                assert(list.contains(more[i - 1]));
                assert(list.to_set().contains(more[i - 1]));
            }
            lemma_claims_within(cfg, c, entries, c.len(), entries[i]);
        }
        assert forall|i: int, j: int| 0 <= i < j < entries.len() implies entries[i]
            != entries[j] by {
            assert(entries[j] == more[j - 1]);
            if i > 0 {
                assert(entries[i] == more[i - 1]);
            }
        }
        lemma_split_list(m, entries, entries.len());
        lemma_claims_within(cfg, c, entries, c.len(), entry);
    }
}

proof fn lemma_split_all(cfg: ControlFlowGraph, parts: Seq<Set<usize>>, n: nat)
    requires
        n <= parts.len(),
        apart(parts),
        forall|i: int| 0 <= i < parts.len() ==> (#[trigger] parts[i]).finite() && parts[i].len() > 0,
    ensures
        ({
            let r = functions::split_all(cfg, parts, n);
            &&& pieces_apart(r)
            &&& pieces_homed(r)
            &&& forall|i: int, x: usize|
                0 <= i < r.len() && #[trigger] r[i].1.contains(x) ==> exists|k: int|
                    0 <= k < n && (#[trigger] parts[k]).contains(x)
        }),
    decreases n,
{
    if n > 0 {
        lemma_split_all(cfg, parts, (n - 1) as nat);
        lemma_split(cfg, parts[n - 1]);
        let rest = functions::split_all(cfg, parts, (n - 1) as nat);
        let own = functions::split(cfg, parts[n - 1]);
        let r = functions::split_all(cfg, parts, n);
        assert(r == rest + own);
        assert forall|i: int, x: usize|
            0 <= i < r.len() && #[trigger] r[i].1.contains(x) implies exists|k: int|
            0 <= k < n && (#[trigger] parts[k]).contains(x) by {
            if i < rest.len() {
                assert(r[i] == rest[i]);
                assert(rest[i].1.contains(x));
                let k = choose|k: int| 0 <= k < n - 1 && (#[trigger] parts[k]).contains(x);
                assert(parts[k].contains(x));
            } else {
                assert(r[i] == own[i - rest.len()]);
                assert(own[i - rest.len()].1.contains(x));
                assert(parts[n - 1].contains(x));
            }
        }
        assert forall|i: int, j: int, x: usize|
            0 <= i < j < r.len() && #[trigger] r[i].1.contains(x) implies !(
        #[trigger] r[j].1.contains(x)) by {
            if j < rest.len() {
                assert(r[i] == rest[i] && r[j] == rest[j]);
                assert(rest[i].1.contains(x));
            } else if i >= rest.len() {
                assert(r[i] == own[i - rest.len()] && r[j] == own[j - rest.len()]);
                assert(own[i - rest.len()].1.contains(x));
            } else {
                assert(r[i] == rest[i] && r[j] == own[j - rest.len()]);
                assert(rest[i].1.contains(x));
                let k = choose|k: int| 0 <= k < n - 1 && (#[trigger] parts[k]).contains(x);
                if own[j - rest.len()].1.contains(x) {
                    assert(parts[k].contains(x) && parts[n - 1].contains(x));
                }
            }
        }
        assert forall|i: int| 0 <= i < r.len() implies (#[trigger] r[i]).1.contains(r[i].0) by {
            if i < rest.len() {
                assert(r[i] == rest[i]);
            } else {
                assert(r[i] == own[i - rest.len()]);
            }
        }
    }
}

proof fn lemma_place(list: Seq<(usize, Set<usize>)>, entry: usize, n: nat)
    requires
        n <= list.len(),
        forall|i: int, j: int| 0 <= i < j < list.len() ==> list[i].0 < list[j].0,
    ensures
        ({
            let p = functions::place(list, entry, n);
            &&& p <= n
            &&& forall|i: int| 0 <= i < p ==> (#[trigger] list[i]).0 <= entry
            &&& forall|i: int| p <= i < n ==> (#[trigger] list[i]).0 > entry
        }),
    decreases n,
{
    if n > 0 && list[n - 1].0 > entry {
        lemma_place(list, entry, (n - 1) as nat);
    }
}

proof fn lemma_by_entry(all: Seq<(usize, Set<usize>)>, n: nat)
    requires
        n <= all.len(),
        pieces_apart(all),
        pieces_homed(all),
    ensures
        ({
            let r = functions::by_entry(all, n);
            &&& pieces_apart(r)
            &&& pieces_homed(r)
            &&& forall|i: int, j: int| 0 <= i < j < r.len() ==> r[i].0 < r[j].0
            &&& forall|i: int|
                0 <= i < r.len() ==> exists|k: int| 0 <= k < n && #[trigger] all[k] == #[trigger] r[i]
            &&& r.len() == n
        }),
    decreases n,
{
    if n > 0 {
        lemma_by_entry(all, (n - 1) as nat);
        let rest = functions::by_entry(all, (n - 1) as nat);
        let x = all[n - 1];
        lemma_place(rest, x.0, rest.len());
        let p = functions::place(rest, x.0, rest.len()) as int;
        let r = functions::by_entry(all, n);
        assert(r == rest.insert(p, x));
        let old_of = |i: int|
            if i < p {
                i
            } else {
                i - 1
            };
        assert forall|i: int| 0 <= i < r.len() && i != p implies r[i] == rest[old_of(i)] by {}
        assert(r[p] == x);
        assert forall|i: int, y: usize|
            0 <= i < rest.len() && #[trigger] rest[i].1.contains(y) implies !x.1.contains(y) by {
            let k = choose|k: int| 0 <= k < n - 1 && #[trigger] all[k] == rest[i];
            assert(all[k].1.contains(y));
            assert(0 <= k < n - 1 < all.len());
            if x.1.contains(y) {
                assert(all[n - 1].1.contains(y));
            }
        }
        assert forall|i: int, j: int, y: usize|
            0 <= i < j < r.len() && #[trigger] r[i].1.contains(y) implies !(
        #[trigger] r[j].1.contains(y)) by {
            if i == p {
                assert(r[j] == rest[j - 1]);
                if rest[j - 1].1.contains(y) {
                    assert(!x.1.contains(y));
                }
            } else if j == p {
                assert(r[i] == rest[i]);
                assert(rest[i].1.contains(y));
            } else {
                assert(rest[old_of(i)].1.contains(y));
                assert(r[j] == rest[old_of(j)]);
            }
        }
        assert forall|i: int| 0 <= i < r.len() implies (#[trigger] r[i]).1.contains(r[i].0) by {
            if i != p {
                assert(r[i] == rest[old_of(i)]);
            }
        }
        assert forall|i: int| 0 <= i < r.len() implies exists|k: int|
            0 <= k < n && #[trigger] all[k] == #[trigger] r[i] by {
            if i != p {
                assert(r[i] == rest[old_of(i)]);
                let k = choose|k: int| 0 <= k < n - 1 && #[trigger] all[k] == rest[old_of(i)];
                assert(all[k] == r[i]);
            } else {
                assert(all[n - 1] == r[i]);
            }
        }
        assert forall|i: int, j: int| 0 <= i < j < r.len() implies r[i].0 < r[j].0 by {
            if i == p {
                assert(r[j] == rest[j - 1]);
            } else if j == p {
                assert(r[i] == rest[i]);
                if rest[i].0 == x.0 {
                    assert(rest[i].1.contains(x.0));
                    assert(x.1.contains(x.0));
                }
            } else {
                assert(r[i] == rest[old_of(i)] && r[j] == rest[old_of(j)]);
            }
        }
    }
}

/// Detected functions share no block, each holds its entry, and they come by their
/// entries.
pub proof fn law_functions_are_apart(cfg: ControlFlowGraph, i: int, j: int)
    requires
        cfg.blocks@.dom().finite(),
        0 <= i < j < functions::detected(cfg).len(),
    ensures
        functions::detected(cfg)[i].blocks.disjoint(functions::detected(cfg)[j].blocks),
        functions::detected(cfg)[i].blocks.contains(functions::detected(cfg)[i].entry_pc),
        functions::detected(cfg)[j].blocks.contains(functions::detected(cfg)[j].entry_pc),
        functions::detected(cfg)[i].entry_pc < functions::detected(cfg)[j].entry_pc,
{
    let parts = functions::components(cfg);
    law_components_are_apart(cfg);
    lemma_split_all(cfg, parts, parts.len());
    let all = functions::split_all(cfg, parts, parts.len());
    lemma_by_entry(all, all.len());
    let list = functions::by_entry(all, all.len());
    let a = functions::detected(cfg)[i].blocks;
    let b = functions::detected(cfg)[j].blocks;
    assert(a == list[i].1 && b == list[j].1);
    assert forall|x: usize| a.contains(x) implies !b.contains(x) by {
        assert(list[i].1.contains(x));
    }
}

/// Components found so far: they make up what was visited, and no edge leads from one to
/// a block outside it.
spec fn whole(cfg: ControlFlowGraph, p: Parts) -> bool {
    &&& forall|x: usize| #[trigger]
        p.visited.contains(x) ==> exists|i: int|
            0 <= i < p.list.len() && (#[trigger] p.list[i]).contains(x)
    &&& forall|i: int, a: usize, b: usize|
        0 <= i < p.list.len() && #[trigger] p.list[i].contains(a) && #[trigger] reach::leads(
            functions::neighbours(cfg),
            a,
            b,
        ) && cfg.blocks@.contains_key(b) ==> p.list[i].contains(b)
}

proof fn lemma_neighbours_mirrored(cfg: ControlFlowGraph, a: usize, b: usize)
    requires
        cfg::mirrored(cfg),
        reach::leads(functions::neighbours(cfg), a, b),
        cfg.blocks@.contains_key(b),
    ensures
        reach::leads(functions::neighbours(cfg), b, a),
{
    let next = functions::neighbours(cfg);
    let (x, y) = (cfg.blocks@[a], cfg.blocks@[b]);
    let i = choose|i: int| 0 <= i < next[a].len() && next[a][i] == b;
    if i < x.successors@.len() {
        assert(x.successors@[i] == b);
        assert(x.successors@.contains(b));
        assert(y.predecessors@.contains(a));
        let k = choose|k: int| 0 <= k < y.predecessors@.len() && y.predecessors@[k] == a;
        assert(next[b][y.successors@.len() + k] == a);
    } else {
        assert(x.predecessors@[i - x.successors@.len()] == b);
        assert(x.predecessors@.contains(b));
        assert(y.successors@.contains(a));
        let k = choose|k: int| 0 <= k < y.successors@.len() && y.successors@[k] == a;
        assert(next[b][k] == a);
    }
}

proof fn lemma_whole_part(cfg: ControlFlowGraph, p: Parts, start: usize)
    requires
        cfg.blocks@.dom().finite(),
        cfg::mirrored(cfg),
        sound(p),
        whole(cfg, p),
    ensures
        whole(cfg, functions::add_part(cfg, p, start)),
        functions::add_part(cfg, p, start).visited.contains(start),
        p.visited.subset_of(functions::add_part(cfg, p, start).visited),
{
    if !p.visited.contains(start) {
        let next = functions::neighbours(cfg);
        assert(next.dom() =~= cfg.blocks@.dom());
        let starts = seq![start];
        let c = reach::reached(next, starts, p.visited);
        reach::lemma_reached(next, starts, p.visited);
        assert(starts[0] == start);
        assert(c.contains(start));
        let q = functions::add_part(cfg, p, start);
        assert(q.list == p.list.push(c));
        assert forall|x: usize| #[trigger] q.visited.contains(x) implies exists|i: int|
            0 <= i < q.list.len() && (#[trigger] q.list[i]).contains(x) by {
            if p.visited.contains(x) {
                let i = choose|i: int| 0 <= i < p.list.len() && (#[trigger] p.list[i]).contains(x);
                assert(q.list[i].contains(x));
            } else {
                assert(q.list[p.list.len() as int].contains(x));
            }
        }
        assert forall|i: int, a: usize, b: usize|
            0 <= i < q.list.len() && #[trigger] q.list[i].contains(a) && #[trigger] reach::leads(
                next,
                a,
                b,
            ) && cfg.blocks@.contains_key(b) implies q.list[i].contains(b) by {
            if i < p.list.len() {
                assert(p.list[i].contains(a));
            } else if p.visited.contains(b) {
                let k = choose|k: int| 0 <= k < p.list.len() && (#[trigger] p.list[k]).contains(b);
                lemma_neighbours_mirrored(cfg, a, b);
                assert(p.list[k].contains(a));
            } else {
                reach::lemma_reached_closed(next, starts, p.visited, a, b);
            }
        }
    }
}

proof fn lemma_whole_parts(cfg: ControlFlowGraph, p: Parts, starts: Seq<usize>, n: nat)
    requires
        cfg.blocks@.dom().finite(),
        cfg::mirrored(cfg),
        sound(p),
        whole(cfg, p),
        n <= starts.len(),
    ensures
        whole(cfg, functions::add_parts(cfg, p, starts, n)),
        forall|i: int|
            0 <= i < n ==> functions::add_parts(cfg, p, starts, n).visited.contains(
                #[trigger] starts[i],
            ),
    decreases n,
{
    if n > 0 {
        lemma_whole_parts(cfg, p, starts, (n - 1) as nat);
        lemma_add_parts(cfg, p, starts, (n - 1) as nat);
        let q = functions::add_parts(cfg, p, starts, (n - 1) as nat);
        lemma_whole_part(cfg, q, starts[n - 1]);
        assert forall|i: int| 0 <= i < n implies functions::add_parts(
            cfg,
            p,
            starts,
            n,
        ).visited.contains(#[trigger] starts[i]) by {
            if i < n - 1 {
                assert(q.visited.contains(starts[i]));
            }
        }
    }
}

/// Every block belongs to a component, and no edge between blocks leads out of one.
pub proof fn law_components_are_whole(cfg: ControlFlowGraph)
    requires
        cfg.blocks@.dom().finite(),
        cfg::mirrored(cfg),
    ensures
        forall|pc: usize| #[trigger]
            cfg.blocks@.contains_key(pc) ==> exists|i: int|
                0 <= i < functions::components(cfg).len() && (#[trigger] functions::components(
                    cfg,
                )[i]).contains(pc),
        forall|i: int, a: usize, b: usize|
            0 <= i < functions::components(cfg).len() && #[trigger] functions::components(
                cfg,
            )[i].contains(a) && #[trigger] dominators::edge(cfg, a, b) && cfg.blocks@.contains_key(b)
                ==> functions::components(cfg)[i].contains(b),
{
    let none = Parts { list: seq![], visited: Set::empty() };
    let first = if cfg.blocks@.contains_key(cfg.entry_pc) {
        functions::add_part(cfg, none, cfg.entry_pc)
    } else {
        none
    };
    lemma_add_part(cfg, none, cfg.entry_pc);
    lemma_whole_part(cfg, none, cfg.entry_pc);
    let keys = ordered::ascending(cfg.blocks@.dom());
    ordered::lemma_ascending_exists(cfg.blocks@.dom());
    lemma_whole_parts(cfg, first, keys, keys.len());
    let all = functions::add_parts(cfg, first, keys, keys.len());
    assert forall|pc: usize| #[trigger] cfg.blocks@.contains_key(pc) implies exists|i: int|
        0 <= i < functions::components(cfg).len() && (#[trigger] functions::components(
            cfg,
        )[i]).contains(pc) by {
        assert(keys.to_set().contains(pc));
        let k = choose|k: int| 0 <= k < keys.len() && keys[k] == pc;
        assert(all.visited.contains(keys[k]));
        let i = choose|i: int| 0 <= i < all.list.len() && (#[trigger] all.list[i]).contains(pc);
        assert(functions::components(cfg)[i] == all.list[i]);
    }
    assert forall|i: int, a: usize, b: usize|
        0 <= i < functions::components(cfg).len() && #[trigger] functions::components(
            cfg,
        )[i].contains(a) && #[trigger] dominators::edge(cfg, a, b) && cfg.blocks@.contains_key(
            b,
        ) implies functions::components(cfg)[i].contains(b) by {
        lemma_edge_leads(cfg, a, b);
        assert(all.list[i].contains(a));
    }
}

proof fn lemma_edge_leads(cfg: ControlFlowGraph, a: usize, b: usize)
    requires
        dominators::edge(cfg, a, b),
    ensures
        reach::leads(functions::neighbours(cfg), a, b),
{
    let next = functions::neighbours(cfg);
    let x = cfg.blocks@[a];
    let k = choose|k: int| 0 <= k < x.successors@.len() && x.successors@[k] == b;
    assert(next[a][k] == b);
}

proof fn lemma_claims_grow(cfg: ControlFlowGraph, c: Set<usize>, entries: Seq<usize>, k: nat)
    requires
        c.finite(),
        forall|j: nat|
            j < k ==> functions::claim_steps(cfg, c, entries, j + 1) != #[trigger] functions::claim_steps(
                cfg,
                c,
                entries,
                j,
            ),
    ensures
        functions::claim_steps(cfg, c, entries, k).dom().finite(),
        functions::claim_steps(cfg, c, entries, k).dom().subset_of(c),
        functions::claim_steps(cfg, c, entries, k).dom().len() >= k
            + functions::claim_steps(cfg, c, entries, 0).dom().len(),
    decreases k,
{
    let m = functions::claim_steps(cfg, c, entries, k);
    lemma_claims_within(cfg, c, entries, k, 0);
    assert forall|x: usize| m.dom().contains(x) implies c.contains(x) by {
        assert(m.contains_key(x));
    }
    vstd::set_lib::lemma_set_subset_finite(c, m.dom());
    if k > 0 {
        let j = (k - 1) as nat;
        lemma_claims_grow(cfg, c, entries, j);
        let before = functions::claim_steps(cfg, c, entries, j);
        assert(m == functions::claim_step(cfg, c, entries, before));
        assert(functions::claim_steps(cfg, c, entries, j + 1) != before);
        assert(before.dom().subset_of(m.dom())) by {
            assert forall|x: usize| before.dom().contains(x) implies m.dom().contains(x) by {}
        }
        if m.dom() =~= before.dom() {
            assert forall|x: usize| m.dom().contains(x) implies m[x] == before[x] by {
                assert(before.contains_key(x));
            }
            assert(m =~= before);
        }
        vstd::set_lib::lemma_len_subset(before.dom(), m.dom());
        if m.dom().len() == before.dom().len() {
            vstd::set_lib::lemma_subset_equality(before.dom(), m.dom());
        }
    }
}

/// Claiming has come to its end.
proof fn lemma_claims_settled(cfg: ControlFlowGraph, c: Set<usize>, entries: Seq<usize>)
    requires
        c.finite(),
        entries.len() > 0,
        c.contains(entries[0]),
    ensures
        functions::claim_step(cfg, c, entries, functions::claimed(cfg, c, entries))
            == functions::claimed(cfg, c, entries),
{
    let n = c.len();
    if forall|j: nat|
        j < n ==> functions::claim_steps(cfg, c, entries, j + 1) != #[trigger] functions::claim_steps(
            cfg,
            c,
            entries,
            j,
        ) {
        lemma_claims_grow(cfg, c, entries, n);
        let m = functions::claim_steps(cfg, c, entries, n);
        let start = functions::claim_steps(cfg, c, entries, 0);
        lemma_claims_within(cfg, c, entries, 0, entries[0]);
        assert(entries.contains(entries[0]));
        assert(start.dom().contains(entries[0]));
        vstd::set_lib::lemma_len_subset(m.dom(), c);
        lemma_claims_grow(cfg, c, entries, 0);
        assert(start.dom().len() > 0);
    } else {
        let j = choose|j: nat|
            j < n && functions::claim_steps(cfg, c, entries, j + 1) == #[trigger] functions::claim_steps(
                cfg,
                c,
                entries,
                j,
            );
        functions::lemma_claims_settle(cfg, c, entries, j, n);
        functions::lemma_claims_settle(cfg, c, entries, j, n + 1);
    }
}

proof fn lemma_claims_owned(cfg: ControlFlowGraph, c: Set<usize>, entries: Seq<usize>, k: nat, x: usize)
    requires
        functions::claim_steps(cfg, c, entries, k).contains_key(x),
    ensures
        entries.contains(functions::claim_steps(cfg, c, entries, k)[x]),
    decreases k,
{
    if k > 0 {
        let before = functions::claim_steps(cfg, c, entries, (k - 1) as nat);
        let m = functions::claim_steps(cfg, c, entries, k);
        assert(m == functions::claim_step(cfg, c, entries, before));
        if before.contains_key(x) {
            lemma_claims_owned(cfg, c, entries, (k - 1) as nat, x);
        } else {
            assert(m.dom().contains(x));
            lemma_first_claim(cfg, before, entries, x, 0);
        }
    }
}

proof fn lemma_first_claim(
    cfg: ControlFlowGraph,
    m: Map<usize, usize>,
    entries: Seq<usize>,
    pc: usize,
    i: int,
)
    requires
        0 <= i,
    ensures
        functions::first_claim(cfg, m, entries, pc, i) is Some ==> entries.contains(
            functions::first_claim(cfg, m, entries, pc, i)->0,
        ),
        forall|k: int|
            i <= k < entries.len() && functions::claims(cfg, m, #[trigger] entries[k], pc)
                ==> functions::first_claim(cfg, m, entries, pc, i) is Some,
    decreases entries.len() - i,
{
    if i < entries.len() {
        lemma_first_claim(cfg, m, entries, pc, i + 1);
    }
}

proof fn lemma_split_list_holds(m: Map<usize, usize>, entries: Seq<usize>, n: nat, x: usize, k: int)
    requires
        m.dom().finite(),
        0 <= k < n <= entries.len(),
        m.contains_key(x),
        m[x] == entries[k],
    ensures
        exists|i: int|
            0 <= i < functions::split_list(m, entries, n).len() && (#[trigger] functions::split_list(
                m,
                entries,
                n,
            )[i]).1.contains(x),
    decreases n,
{
    let r = functions::split_list(m, entries, n);
    let rest = functions::split_list(m, entries, (n - 1) as nat);
    let own = functions::claimed_by(m, entries[n - 1]);
    if k == n - 1 {
        assert(own.contains(x));
        assert(own.subset_of(m.dom()));
        vstd::set_lib::lemma_set_subset_finite(m.dom(), own);
        assert(own.len() > 0);
        assert(r[rest.len() as int].1.contains(x));
    } else {
        lemma_split_list_holds(m, entries, (n - 1) as nat, x, k);
        let i = choose|i: int| 0 <= i < rest.len() && (#[trigger] rest[i]).1.contains(x);
        assert(r[i].1.contains(x));
    }
}

/// What an edge leads to within a component has a function where the edge starts in one.
proof fn lemma_split_closed(cfg: ControlFlowGraph, c: Set<usize>, i: int, a: usize, b: usize)
    requires
        c.finite(),
        c.len() > 0,
        0 <= i < functions::split(cfg, c).len(),
        functions::split(cfg, c)[i].1.contains(a),
        dominators::edge(cfg, a, b),
        c.contains(b),
    ensures
        exists|j: int|
            0 <= j < functions::split(cfg, c).len() && (#[trigger] functions::split(
                cfg,
                c,
            )[j]).1.contains(b),
{
    let r = functions::split(cfg, c);
    lemma_entry_within(cfg, c);
    let list = ordered::ascending(c);
    ordered::lemma_ascending_exists(c);
    let entry = functions::entry_of(cfg, c);
    let more = functions::frame_entries(cfg, c, entry, list, list.len());
    if c.len() > 1 && more.len() > 0 {
        let entries = seq![entry] + more;
        assert(entries[0] == entry);
        let m = functions::claimed(cfg, c, entries);
        lemma_claims_settled(cfg, c, entries);
        lemma_claims_within(cfg, c, entries, c.len(), entry);
        assert forall|x: usize| m.dom().contains(x) implies c.contains(x) by {
            assert(m.contains_key(x));
        }
        vstd::set_lib::lemma_set_subset_finite(c, m.dom());
        lemma_split_list_owner(m, entries, entries.len(), i);
        assert(m.contains_key(a));
        lemma_claims_owned(cfg, c, entries, c.len(), a);
        let k = choose|k: int| 0 <= k < entries.len() && entries[k] == m[a];
        assert(functions::claims(cfg, m, entries[k], b));
        lemma_first_claim(cfg, m, entries, b, 0);
        let next = functions::claim_step(cfg, c, entries, m);
        assert(next.dom().contains(b));
        assert(m.contains_key(b));
        lemma_claims_owned(cfg, c, entries, c.len(), b);
        let h = choose|h: int| 0 <= h < entries.len() && entries[h] == m[b];
        lemma_split_list_holds(m, entries, entries.len(), b, h);
    } else {
        assert(r[0].1.contains(b));
    }
}

proof fn lemma_split_list_owner(m: Map<usize, usize>, entries: Seq<usize>, n: nat, i: int)
    requires
        0 <= i < functions::split_list(m, entries, n).len(),
        n <= entries.len(),
    ensures
        functions::split_list(m, entries, n)[i].1 == functions::claimed_by(
            m,
            functions::split_list(m, entries, n)[i].0,
        ),
    decreases n,
{
    if n > 0 {
        let rest = functions::split_list(m, entries, (n - 1) as nat);
        if i < rest.len() {
            lemma_split_list_owner(m, entries, (n - 1) as nat, i);
        }
    }
}

/// The component that a piece comes from.
proof fn lemma_piece_source(
    cfg: ControlFlowGraph,
    parts: Seq<Set<usize>>,
    n: nat,
    i: int,
) -> (at: (int, int))
    requires
        n <= parts.len(),
        0 <= i < functions::split_all(cfg, parts, n).len(),
    ensures
        0 <= at.0 < n,
        0 <= at.1 < functions::split(cfg, parts[at.0]).len(),
        functions::split(cfg, parts[at.0])[at.1] == functions::split_all(cfg, parts, n)[i],
    decreases n,
{
    let rest = functions::split_all(cfg, parts, (n - 1) as nat);
    if i < rest.len() {
        lemma_piece_source(cfg, parts, (n - 1) as nat, i)
    } else {
        (n - 1, i - rest.len())
    }
}

proof fn lemma_piece_listed(
    cfg: ControlFlowGraph,
    parts: Seq<Set<usize>>,
    n: nat,
    k: int,
    j: int,
) -> (i: int)
    requires
        n <= parts.len(),
        0 <= k < n,
        0 <= j < functions::split(cfg, parts[k]).len(),
    ensures
        0 <= i < functions::split_all(cfg, parts, n).len(),
        functions::split_all(cfg, parts, n)[i] == functions::split(cfg, parts[k])[j],
    decreases n,
{
    let rest = functions::split_all(cfg, parts, (n - 1) as nat);
    if k == n - 1 {
        rest.len() + j
    } else {
        lemma_piece_listed(cfg, parts, (n - 1) as nat, k, j)
    }
}

proof fn lemma_place_bound(list: Seq<(usize, Set<usize>)>, entry: usize, n: nat)
    ensures
        functions::place(list, entry, n) <= n,
    decreases n,
{
    if n > 0 {
        lemma_place_bound(list, entry, (n - 1) as nat);
    }
}

/// Sorting by entry keeps every piece.
proof fn lemma_by_entry_keeps(all: Seq<(usize, Set<usize>)>, n: nat, k: int) -> (i: int)
    requires
        0 <= k < n <= all.len(),
    ensures
        0 <= i < functions::by_entry(all, n).len(),
        functions::by_entry(all, n)[i] == all[k],
    decreases n,
{
    let rest = functions::by_entry(all, (n - 1) as nat);
    let x = all[n - 1];
    lemma_place_bound(rest, x.0, rest.len());
    let p = functions::place(rest, x.0, rest.len()) as int;
    let r = functions::by_entry(all, n);
    assert(r == rest.insert(p, x));
    if k == n - 1 {
        assert(r[p] == x);
        p
    } else {
        let i = lemma_by_entry_keeps(all, (n - 1) as nat, k);
        if i < p {
            assert(r[i] == rest[i]);
            i
        } else {
            assert(r[i + 1] == rest[i]);
            i + 1
        }
    }
}

/// No edge between blocks leads from a detected function to a block that belongs to none.
pub proof fn law_flow_stays_in_functions(cfg: ControlFlowGraph, i: int, a: usize, b: usize)
    requires
        cfg.blocks@.dom().finite(),
        cfg::mirrored(cfg),
        0 <= i < functions::detected(cfg).len(),
        functions::detected(cfg)[i].blocks.contains(a),
        dominators::edge(cfg, a, b),
        cfg.blocks@.contains_key(b),
    ensures
        exists|j: int|
            0 <= j < functions::detected(cfg).len() && (#[trigger] functions::detected(
                cfg,
            )[j]).blocks.contains(b),
{
    let parts = functions::components(cfg);
    law_components_are_apart(cfg);
    law_components_are_whole(cfg);
    let all = functions::split_all(cfg, parts, parts.len());
    lemma_split_all(cfg, parts, parts.len());
    lemma_by_entry(all, all.len());
    let list = functions::by_entry(all, all.len());
    assert(list[i].1.contains(a));
    let q = choose|q: int| 0 <= q < all.len() && #[trigger] all[q] == list[i];
    let (k, h) = lemma_piece_source(cfg, parts, parts.len(), q);
    lemma_split(cfg, parts[k]);
    assert(functions::split(cfg, parts[k])[h].1.contains(a));
    assert(parts[k].contains(a));
    assert(parts[k].contains(b));
    lemma_split_closed(cfg, parts[k], h, a, b);
    let own = functions::split(cfg, parts[k]);
    let g = choose|g: int| 0 <= g < own.len() && (#[trigger] own[g]).1.contains(b);
    let at = lemma_piece_listed(cfg, parts, parts.len(), k, g);
    let j = lemma_by_entry_keeps(all, all.len(), at);
    assert(functions::detected(cfg)[j].blocks.contains(b));
}

} // verus!
