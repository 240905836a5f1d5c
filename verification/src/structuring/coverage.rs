//! What holds of pseudo-code as a whole.

use crate::cfg::ControlFlowGraph;
use crate::lifting::program::Lifted;
use crate::ordered;
use crate::pvm::Instruction;
use crate::structuring::analysis;
use crate::structuring::analysis::{Condition, Region};
use crate::structuring::emit;
use crate::structuring::page;
use crate::structuring::page::{Page, Plan};
use crate::structuring::pseudo;
use crate::structuring::pseudo::ByHeader;
use vstd::prelude::*;

verus! {

/// Whether `q` comes behind `p`: what was written stays, and so do the blocks dealt with.
pub open spec fn behind(p: Page, q: Page) -> bool {
    &&& p.emitted.subset_of(q.emitted)
    &&& p.out.len() <= q.out.len()
    &&& q.out.subrange(0, p.out.len() as int) == p.out
}

proof fn lemma_behind(p: Page, q: Page, r: Page)
    requires
        behind(p, q),
        behind(q, r),
    ensures
        behind(p, r),
{
    let n = p.out.len() as int;
    assert(r.out.subrange(0, n) =~= r.out.subrange(0, q.out.len() as int).subrange(0, n));
}

proof fn lemma_more(p: Page, q: Page, t: Seq<char>)
    requires
        q.out == p.out + t,
        p.emitted.subset_of(q.emitted),
    ensures
        behind(p, q),
{
    assert(q.out.subrange(0, p.out.len() as int) =~= p.out);
}

proof fn lemma_two(p: Page, q: Page, a: Seq<char>, b: Seq<char>)
    requires
        q.out == p.out + a + b,
        p.emitted.subset_of(q.emitted),
    ensures
        behind(p, q),
{
    assert(q.out =~= p.out + (a + b));
    lemma_more(p, q, a + b);
}

proof fn lemma_four(p: Page, q: Page, a: Seq<char>, b: Seq<char>, c: Seq<char>, d: Seq<char>)
    requires
        q.out == p.out + a + b + c + d,
        p.emitted.subset_of(q.emitted),
    ensures
        behind(p, q),
{
    assert(q.out =~= p.out + (a + b + c + d));
    lemma_more(p, q, a + b + c + d);
}

proof fn lemma_same(p: Page, q: Page)
    requires
        q.out == p.out,
        p.emitted.subset_of(q.emitted),
    ensures
        behind(p, q),
{
    assert(q.out.subrange(0, p.out.len() as int) =~= p.out);
}

proof fn lemma_block_body(cfg: ControlFlowGraph, p: Page, pc: usize, indent: nat, skip: bool)
    ensures
        behind(p, page::block_body(cfg, p, pc, indent, skip)),
        page::block_body(cfg, p, pc, indent, skip).emitted == p.emitted,
{
    let q = page::block_body(cfg, p, pc, indent, skip);
    assert(q.out.subrange(0, p.out.len() as int) =~= p.out);
}

proof fn lemma_inner_block(
    cfg: ControlFlowGraph,
    p: Page,
    pc: usize,
    indent: nat,
    around: Option<(Set<usize>, usize)>,
)
    ensures
        behind(p, page::inner_block(cfg, p, pc, indent, around)),
{
    lemma_block_body(cfg, p, pc, indent, true);
    lemma_block_body(cfg, p, pc, indent, false);
    let q = page::inner_block(cfg, p, pc, indent, around);
    let body = page::block_body(cfg, p, pc, indent, true);
    if let Some(word) = page::loop_keyword(cfg, pc, around) {
        if !page::suppressed(p.lifted, pc) {
            let t = page::pad(indent) + word + "\n"@;
            assert(q.out =~= body.out + t);
            lemma_more(body, q, t);
            lemma_behind(p, body, q);
        }
    }
}

proof fn lemma_inner_blocks(
    cfg: ControlFlowGraph,
    p: Page,
    list: Seq<usize>,
    n: nat,
    indent: nat,
    around: Option<(Set<usize>, usize)>,
)
    requires
        n <= list.len(),
    ensures
        behind(p, page::inner_blocks(cfg, p, list, n, indent, around)),
        forall|i: int|
            0 <= i < n ==> page::inner_blocks(
                cfg,
                p,
                list,
                n,
                indent,
                around,
            ).emitted.contains(#[trigger] list[i]),
    decreases n,
{
    if n == 0 {
        lemma_same(p, p);
    } else {
        lemma_inner_blocks(cfg, p, list, (n - 1) as nat, indent, around);
        let before = page::inner_blocks(cfg, p, list, (n - 1) as nat, indent, around);
        lemma_inner_block(cfg, before, list[n - 1], indent, around);
        let mid = page::inner_block(cfg, before, list[n - 1], indent, around);
        let q = page::inner_blocks(cfg, p, list, n, indent, around);
        lemma_same(mid, q);
        lemma_behind(p, before, mid);
        lemma_behind(p, mid, q);
        assert forall|i: int| 0 <= i < n implies q.emitted.contains(#[trigger] list[i]) by {
            if i < n - 1 {
                assert(before.emitted.contains(list[i]));
            }
        }
    }
}

proof fn lemma_if(
    cfg: ControlFlowGraph,
    p: Page,
    header: usize,
    yes: Seq<usize>,
    no: Seq<usize>,
    c: Option<Condition>,
    indent: nat,
    around: Option<(Set<usize>, usize)>,
)
    ensures
        behind(p, page::if_text(cfg, p, header, yes, no, c, indent, around)),
        page::if_text(cfg, p, header, yes, no, c, indent, around).emitted.contains(header),
{
    let q = page::if_text(cfg, p, header, yes, no, c, indent, around);
    if page::suppressed(p.lifted, header) {
        lemma_same(p, q);
    } else {
        let p1 = page::block_body(cfg, p, header, indent, true);
        lemma_block_body(cfg, p, header, indent, true);
        let cond = page::condition_at(p1.lifted, cfg, header, c);
        let p2 = Page { out: p1.out + page::pad(indent) + "if ("@ + cond + ") {\n"@, ..p1 };
        lemma_four(p1, p2, page::pad(indent), "if ("@, cond, ") {\n"@);
        lemma_behind(p, p1, p2);
        let p3 = page::inner_blocks(cfg, p2, yes, yes.len(), indent + 1, around);
        lemma_inner_blocks(cfg, p2, yes, yes.len(), indent + 1, around);
        lemma_behind(p, p2, p3);
        let p4 = Page { out: p3.out + page::pad(indent) + "} else {\n"@, ..p3 };
        lemma_two(p3, p4, page::pad(indent), "} else {\n"@);
        lemma_behind(p, p3, p4);
        let p5 = page::inner_blocks(cfg, p4, no, no.len(), indent + 1, around);
        lemma_inner_blocks(cfg, p4, no, no.len(), indent + 1, around);
        lemma_behind(p, p4, p5);
        let p6 = if no.len() > 0 {
            p5
        } else {
            p3
        };
        assert(q == (Page {
            out: p6.out + page::pad(indent) + "}\n"@,
            emitted: p6.emitted.insert(header),
            ..p6
        }));
        lemma_two(p6, q, page::pad(indent), "}\n"@);
        lemma_behind(p, p6, q);
    }
}

proof fn lemma_loop_block(plan: Plan, p: Page, header: usize, body: Set<usize>, latch: usize, pc: usize)
    ensures
        behind(p, emit::loop_block(plan, p, header, body, latch, pc)),
{
    let q = emit::loop_block(plan, p, header, body, latch, pc);
    if pc == header || p.emitted.contains(pc) {
        lemma_same(p, q);
    } else {
        let around = Some((body, header));
        let is_latch = pc == latch && plan.fors.contains_key(header);
        let p1 = if is_latch && p.lifted is Some {
            Page {
                lifted: Some(
                    Lifted {
                        eliminated: p.lifted->0.eliminated.insert(plan.fors[header].step_pc),
                        ..p.lifted->0
                    },
                ),
                ..p
            }
        } else {
            p
        };
        lemma_same(p, p1);
        if plan.ifs.contains_key(pc) && plan.ifs[pc] is IfThenElse {
            lemma_if(
                plan.cfg,
                p1,
                pc,
                plan.ifs[pc]->then_blocks,
                plan.ifs[pc]->else_blocks,
                plan.ifs[pc]->IfThenElse_condition,
                1,
                around,
            );
            lemma_behind(p, p1, q);
        } else {
            lemma_block_body(plan.cfg, p1, pc, 1, true);
            lemma_inner_block(plan.cfg, p1, pc, 1, around);
            let p2 = if is_latch {
                page::block_body(plan.cfg, p1, pc, 1, true)
            } else {
                page::inner_block(plan.cfg, p1, pc, 1, around)
            };
            lemma_same(p2, q);
            lemma_behind(p, p1, p2);
            lemma_behind(p, p2, q);
        }
    }
}

proof fn lemma_loop_blocks(
    plan: Plan,
    p: Page,
    header: usize,
    body: Set<usize>,
    latch: usize,
    list: Seq<usize>,
    n: nat,
)
    ensures
        behind(p, emit::loop_blocks(plan, p, header, body, latch, list, n)),
    decreases n,
{
    if n == 0 {
        lemma_same(p, p);
    } else {
        lemma_loop_blocks(plan, p, header, body, latch, list, (n - 1) as nat);
        let before = emit::loop_blocks(plan, p, header, body, latch, list, (n - 1) as nat);
        lemma_loop_block(plan, before, header, body, latch, list[n - 1]);
        lemma_behind(p, before, emit::loop_blocks(plan, p, header, body, latch, list, n));
    }
}

proof fn lemma_loop(
    plan: Plan,
    p: Page,
    header: usize,
    body: Set<usize>,
    latch: usize,
    c: Option<Condition>,
)
    requires
        body.contains(header),
    ensures
        behind(p, emit::loop_text(plan, p, header, body, latch, c)),
        emit::loop_text(plan, p, header, body, latch, c).emitted.contains(header),
{
    let q = emit::loop_text(plan, p, header, body, latch, c);
    if page::suppressed(p.lifted, header) {
        lemma_same(p, q);
    } else {
        let on = analysis::continue_condition(plan.cfg, header, body, c);
        let head = emit::loop_head(
            plan,
            header,
            page::condition_at(p.lifted, plan.cfg, header, on),
        );
        let p1 = Page { out: p.out + head, ..p };
        lemma_more(p, p1, head);
        let p2 = page::block_body(plan.cfg, p1, header, 1, true);
        lemma_block_body(plan.cfg, p1, header, 1, true);
        lemma_behind(p, p1, p2);
        let list = ordered::ascending(body);
        let p3 = emit::loop_blocks(plan, p2, header, body, latch, list, list.len());
        lemma_loop_blocks(plan, p2, header, body, latch, list, list.len());
        lemma_behind(p, p2, p3);
        lemma_more(p3, q, "}\n"@);
        lemma_behind(p, p3, q);
    }
}

proof fn lemma_switch(plan: Plan, p: Page, pc: usize, reg: u8, cases: Seq<(Seq<u32>, usize)>)
    ensures
        behind(p, emit::switch_text(plan, p, pc, reg, cases)),
        emit::switch_text(plan, p, pc, reg, cases).emitted.contains(pc),
{
    let q = emit::switch_text(plan, p, pc, reg, cases);
    if page::suppressed(p.lifted, pc) {
        lemma_same(p, q);
    } else {
        let p1 = page::block_body(plan.cfg, p, pc, 0, true);
        lemma_block_body(plan.cfg, p, pc, 0, true);
        let (name, declaration, l) = emit::switch_var(plan.cfg, p1.lifted, pc, reg);
        let t = declaration + "switch ("@ + name + ") {\n"@ + emit::case_lines(
            plan.labels,
            cases,
            cases.len(),
        ) + "}\n"@;
        assert(q.out =~= p1.out + t);
        lemma_more(p1, q, t);
        lemma_behind(p, p1, q);
    }
}

/// Whether the loops under their headers hold these.
pub open spec fn loops_homed(heads: ByHeader) -> bool {
    forall|h: usize| #[trigger] heads.loops.contains_key(h) ==> heads.loops[h]->body.contains(h)
}

#[verifier::spinoff_prover]
#[verifier::rlimit(60)]
proof fn lemma_region(plan: Plan, heads: ByHeader, p: Page, pc: usize)
    requires
        loops_homed(heads),
    ensures
        behind(p, pseudo::region_text(plan, heads, p, pc)),
        pseudo::region_text(plan, heads, p, pc).emitted.contains(pc),
{
    let q = pseudo::region_text(plan, heads, p, pc);
    if p.emitted.contains(pc) {
        lemma_same(p, q);
    } else {
        let p1 = if plan.labels.contains_key(pc) && !page::unlabeled(p.lifted, pc) {
            Page { out: p.out + plan.labels[pc] + ":\n"@, ..p }
        } else {
            p
        };
        if plan.labels.contains_key(pc) && !page::unlabeled(p.lifted, pc) {
            let t = plan.labels[pc] + ":\n"@;
            assert(p1.out =~= p.out + t);
            lemma_more(p, p1, t);
        } else {
            lemma_same(p, p1);
        }
        if heads.loops.contains_key(pc) {
            let r = heads.loops[pc];
            lemma_loop(plan, p1, pc, r->body, r->latch, r->Loop_condition);
        } else if heads.ifs.contains_key(pc) {
            let r = heads.ifs[pc];
            lemma_if(
                plan.cfg,
                p1,
                pc,
                r->then_blocks,
                r->else_blocks,
                r->IfThenElse_condition,
                0,
                None,
            );
        } else if heads.switches.contains_key(pc) && page::ending(p.lifted, pc) is None {
            let r = heads.switches[pc];
            lemma_switch(plan, p1, pc, r->reg, r->cases);
        } else {
            let p2 = page::block_body(plan.cfg, p1, pc, 0, false);
            lemma_block_body(plan.cfg, p1, pc, 0, false);
            lemma_same(p2, q);
            lemma_behind(p1, p2, q);
        }
        lemma_behind(p, p1, q);
    }
}

proof fn lemma_regions(plan: Plan, heads: ByHeader, p: Page, order: Seq<usize>, n: nat)
    requires
        loops_homed(heads),
        n <= order.len(),
    ensures
        behind(p, pseudo::region_texts(plan, heads, p, order, n)),
        forall|i: int|
            0 <= i < n ==> pseudo::region_texts(plan, heads, p, order, n).emitted.contains(
                #[trigger] order[i],
            ),
    decreases n,
{
    if n == 0 {
        lemma_same(p, p);
    } else {
        lemma_regions(plan, heads, p, order, (n - 1) as nat);
        let before = pseudo::region_texts(plan, heads, p, order, (n - 1) as nat);
        lemma_region(plan, heads, before, order[n - 1]);
        let q = pseudo::region_texts(plan, heads, p, order, n);
        lemma_behind(p, before, q);
        assert forall|i: int| 0 <= i < n implies q.emitted.contains(#[trigger] order[i]) by {
            if i < n - 1 {
                assert(before.emitted.contains(order[i]));
            }
        }
    }
}

proof fn lemma_homed(rs: Seq<Region>, n: nat)
    requires
        n <= rs.len(),
        forall|i: int|
            0 <= i < rs.len() && (#[trigger] rs[i]) is Loop ==> rs[i]->body.contains(
                rs[i]->Loop_header,
            ),
    ensures
        loops_homed(pseudo::by_header(rs, n)),
    decreases n,
{
    if n > 0 {
        lemma_homed(rs, (n - 1) as nat);
        let m = pseudo::by_header(rs, (n - 1) as nat);
        let q = pseudo::by_header(rs, n);
        assert forall|h: usize| #[trigger] q.loops.contains_key(h) implies q.loops[h]->body.contains(
            h,
        ) by {
            if let Region::Loop { header, .. } = rs[n - 1] {
                if h != header {
                    assert(m.loops.contains_key(h));
                }
            } else {
                assert(m.loops.contains_key(h));
            }
        }
    }
}

/// The walk over a function deals with each block that it comes to: the block is written
/// or, if it is suppressed, left out. What was written before stays in front.
pub proof fn law_every_block_is_dealt_with(
    plan: Plan,
    rs: Seq<Region>,
    p: Page,
    order: Seq<usize>,
    i: int,
)
    requires
        forall|k: int|
            0 <= k < rs.len() && (#[trigger] rs[k]) is Loop ==> rs[k]->body.contains(
                rs[k]->Loop_header,
            ),
        0 <= i < order.len(),
    ensures
        ({
            let q = pseudo::region_texts(
                plan,
                pseudo::by_header(rs, rs.len()),
                p,
                order,
                order.len(),
            );
            q.emitted.contains(order[i]) && behind(p, q)
        }),
{
    lemma_homed(rs, rs.len());
    lemma_regions(plan, pseudo::by_header(rs, rs.len()), p, order, order.len());
}

proof fn lemma_no_loops_among_ifs(
    cfg: ControlFlowGraph,
    idom: Map<usize, usize>,
    headers: Set<usize>,
    order: Seq<usize>,
    n: nat,
    k: int,
)
    requires
        0 <= k < analysis::ifs_of(cfg, idom, headers, order, n).len(),
    ensures
        !(analysis::ifs_of(cfg, idom, headers, order, n)[k] is Loop),
    decreases n,
{
    if n > 0 {
        let rest = analysis::ifs_of(cfg, idom, headers, order, (n - 1) as nat);
        if k < rest.len() {
            lemma_no_loops_among_ifs(cfg, idom, headers, order, (n - 1) as nat, k);
        }
    }
}

proof fn lemma_no_loops_among_switches(
    cfg: ControlFlowGraph,
    table: Seq<u32>,
    keys: Seq<usize>,
    n: nat,
    k: int,
)
    requires
        0 <= k < analysis::switches_of(cfg, table, keys, n).len(),
    ensures
        !(analysis::switches_of(cfg, table, keys, n)[k] is Loop),
    decreases n,
{
    if n > 0 {
        let rest = analysis::switches_of(cfg, table, keys, (n - 1) as nat);
        if k < rest.len() {
            lemma_no_loops_among_switches(cfg, table, keys, (n - 1) as nat, k);
        }
    }
}

/// Every block of a function that is reached from its entry is dealt with.
pub proof fn law_functions_are_written_whole(
    cfg: ControlFlowGraph,
    table: Seq<u32>,
    idom: Map<usize, usize>,
    order: Seq<usize>,
    plan: Plan,
    p: Page,
    i: int,
)
    requires
        cfg.blocks@.dom().finite(),
        0 <= i < order.len(),
    ensures
        ({
            let rs = analysis::structures_of(cfg, table, idom, order);
            pseudo::region_texts(
                plan,
                pseudo::by_header(rs, rs.len()),
                p,
                order,
                order.len(),
            ).emitted.contains(order[i])
        }),
{
    let rs = analysis::structures_of(cfg, table, idom, order);
    let loops = analysis::loops_of(cfg, idom);
    let headers = analysis::headers_of(cfg, idom);
    let ifs = analysis::ifs_of(cfg, idom, headers, order, order.len());
    let keys = ordered::ascending(cfg.blocks@.dom());
    let switches = analysis::switches_of(cfg, table, keys, keys.len());
    assert forall|k: int| 0 <= k < rs.len() && (#[trigger] rs[k]) is Loop implies rs[k]->body.contains(
        rs[k]->Loop_header,
    ) by {
        if k < loops.len() {
            analysis::law_loops_are_natural(cfg, idom, k);
            assert(rs[k] == loops[k]);
        } else if k < loops.len() + ifs.len() {
            lemma_no_loops_among_ifs(cfg, idom, headers, order, order.len(), k - loops.len());
        } else {
            lemma_no_loops_among_switches(
                cfg,
                table,
                keys,
                keys.len(),
                k - loops.len() - ifs.len(),
            );
        }
    }
    law_every_block_is_dealt_with(plan, rs, p, order, i);
}

/// A suppressed block adds nothing to the text.
pub proof fn law_suppressed_blocks_are_silent(plan: Plan, heads: ByHeader, p: Page, pc: usize)
    requires
        page::suppressed(p.lifted, pc),
    ensures
        pseudo::region_text(plan, heads, p, pc).out == p.out,
{
}

/// A block with an epilogue, written whole, ends in `return` or `halt()`.
pub proof fn law_epilogue_is_written(cfg: ControlFlowGraph, p: Page, pc: usize, indent: nat)
    requires
        cfg.blocks@.contains_key(pc),
        !page::suppressed(p.lifted, pc),
        page::ending(p.lifted, pc) is Some,
    ensures
        ({
            let q = page::block_body(cfg, p, pc, indent, false);
            let t = page::pad(indent) + page::ending(p.lifted, pc)->0 + "\n\n"@;
            q.out.len() >= t.len() && q.out.subrange(q.out.len() - t.len(), q.out.len() as int) == t
        }),
{
    let code = cfg.blocks@[pc].instructions@;
    let (head, l) = page::code_lines(p.lifted, code, code.len(), page::pad(indent));
    lemma_epilogue_kept(p.lifted, code, code.len(), page::pad(indent));
    let word = page::ending(p.lifted, pc)->0;
    let line = page::pad(indent) + word + "\n"@;
    let q = page::block_body(cfg, p, pc, indent, false);
    reveal_strlit("\n");
    reveal_strlit("\n\n");
    assert((head + line).len() > 0);
    let t = page::pad(indent) + word + "\n\n"@;
    assert(t =~= line + "\n"@);
    assert(q.out == p.out + (head + line) + "\n"@);
    assert(q.out =~= (p.out + head) + t);
    assert(q.out.subrange(q.out.len() - t.len(), q.out.len() as int) =~= t);
}

proof fn lemma_epilogue_kept(
    l: Option<Lifted>,
    code: Seq<(usize, Instruction)>,
    n: nat,
    prefix: Seq<char>,
)
    ensures
        page::code_lines(l, code, n, prefix).1 is Some == l is Some,
        l is Some ==> page::code_lines(l, code, n, prefix).1->0.epilogues == l->0.epilogues,
    decreases n,
{
    if n > 0 {
        lemma_epilogue_kept(l, code, (n - 1) as nat, prefix);
    }
}

} // verus!
