//! That the heads of written branches and loops state when their first part runs.

use crate::cfg;
use crate::cfg::ControlFlowGraph;
use crate::structuring::analysis;
use crate::structuring::analysis::Condition;
use crate::structuring::claims;
use crate::structuring::claims::Claim;
use crate::structuring::emit;
use crate::structuring::page;
use crate::structuring::page::{Page, Plan};
use vstd::prelude::*;

verus! {

/// Whether the text of one page goes on from that of another.
pub open spec fn goes_on_from(a: Page, b: Page) -> bool {
    a.out.is_prefix_of(b.out)
}

proof fn lemma_added(a: Seq<char>, b: Seq<char>, c: Seq<char>)
    requires
        a.is_prefix_of(b),
    ensures
        a.is_prefix_of(b + c),
{
    assert((b + c).subrange(0, a.len() as int) =~= b.subrange(0, a.len() as int));
}

proof fn lemma_self(a: Seq<char>)
    ensures
        a.is_prefix_of(a),
{
    assert(a.subrange(0, a.len() as int) =~= a);
}

proof fn lemma_chained(a: Seq<char>, b: Seq<char>, c: Seq<char>)
    requires
        a.is_prefix_of(b),
        b.is_prefix_of(c),
    ensures
        a.is_prefix_of(c),
{
    assert(c.subrange(0, a.len() as int) =~= b.subrange(0, a.len() as int));
}

proof fn lemma_body(cfg: ControlFlowGraph, p: Page, pc: usize, indent: nat, skip: bool)
    ensures
        goes_on_from(p, page::block_body(cfg, p, pc, indent, skip)),
{
    lemma_self(p.out);
    if cfg.blocks@.contains_key(pc) && !page::suppressed(p.lifted, pc) {
        let code = cfg.blocks@[pc].instructions@;
        let n = if skip && code.len() > 0 {
            (code.len() - 1) as nat
        } else {
            code.len()
        };
        let (head, l) = page::code_lines(p.lifted, code, n, page::pad(indent));
        let lines = if skip {
            head
        } else {
            page::with_ending(l, pc, head, page::pad(indent))
        };
        lemma_added(p.out, p.out, lines);
        lemma_added(p.out, p.out + lines, "\n"@);
    }
}

proof fn lemma_inner(
    cfg: ControlFlowGraph,
    p: Page,
    pc: usize,
    indent: nat,
    around: Option<(Set<usize>, usize)>,
)
    ensures
        goes_on_from(p, page::inner_block(cfg, p, pc, indent, around)),
{
    lemma_body(cfg, p, pc, indent, true);
    lemma_body(cfg, p, pc, indent, false);
    let q = page::block_body(cfg, p, pc, indent, true);
    if let Some(word) = page::loop_keyword(cfg, pc, around) {
        lemma_added(p.out, q.out, page::pad(indent));
        lemma_added(p.out, q.out + page::pad(indent), word);
        lemma_added(p.out, q.out + page::pad(indent) + word, "\n"@);
    }
}

proof fn lemma_inners(
    cfg: ControlFlowGraph,
    p: Page,
    list: Seq<usize>,
    n: nat,
    indent: nat,
    around: Option<(Set<usize>, usize)>,
)
    ensures
        goes_on_from(p, page::inner_blocks(cfg, p, list, n, indent, around)),
    decreases n,
{
    lemma_self(p.out);
    if n > 0 {
        lemma_inners(cfg, p, list, (n - 1) as nat, indent, around);
        let q = page::inner_blocks(cfg, p, list, (n - 1) as nat, indent, around);
        lemma_inner(cfg, q, list[n - 1], indent, around);
        lemma_chained(
            p.out,
            q.out,
            page::inner_block(cfg, q, list[n - 1], indent, around).out,
        );
    }
}

/// The text up to and with the head of an if-then-else.
pub open spec fn if_head(out: Seq<char>, indent: nat, t: Seq<char>) -> Seq<char> {
    out + page::pad(indent) + "if ("@ + t + ") {\n"@
}

proof fn lemma_if(
    cfg: ControlFlowGraph,
    p: Page,
    header: usize,
    then_blocks: Seq<usize>,
    else_blocks: Seq<usize>,
    c: Option<Condition>,
    indent: nat,
    around: Option<(Set<usize>, usize)>,
)
    ensures
        ({
            let q = page::block_body(cfg, p, header, indent, true);
            if_head(q.out, indent, page::condition_at(q.lifted, cfg, header, c)).is_prefix_of(
                page::shown_if(cfg, p, header, then_blocks, else_blocks, c, indent, around).out,
            )
        }),
        goes_on_from(
            p,
            page::shown_if(cfg, p, header, then_blocks, else_blocks, c, indent, around),
        ),
{
    let q = page::block_body(cfg, p, header, indent, true);
    lemma_body(cfg, p, header, indent, true);
    let t = page::condition_at(q.lifted, cfg, header, c);
    let head = if_head(q.out, indent, t);
    let q1 = Page { out: head, ..q };
    lemma_added(p.out, q.out, page::pad(indent));
    lemma_added(p.out, q.out + page::pad(indent), "if ("@);
    lemma_added(p.out, q.out + page::pad(indent) + "if ("@, t);
    lemma_added(p.out, q.out + page::pad(indent) + "if ("@ + t, ") {\n"@);
    lemma_self(head);
    lemma_inners(cfg, q1, then_blocks, then_blocks.len(), indent + 1, around);
    let q2 = page::inner_blocks(cfg, q1, then_blocks, then_blocks.len(), indent + 1, around);
    let q3 = if else_blocks.len() > 0 {
        let turn = Page { out: q2.out + page::pad(indent) + "} else {\n"@, ..q2 };
        lemma_added(head, q2.out, page::pad(indent));
        lemma_added(head, q2.out + page::pad(indent), "} else {\n"@);
        lemma_inners(cfg, turn, else_blocks, else_blocks.len(), indent + 1, around);
        let q3 = page::inner_blocks(
            cfg,
            turn,
            else_blocks,
            else_blocks.len(),
            indent + 1,
            around,
        );
        lemma_chained(head, turn.out, q3.out);
        q3
    } else {
        q2
    };
    lemma_added(head, q3.out, page::pad(indent));
    lemma_added(head, q3.out + page::pad(indent), "}\n"@);
    lemma_chained(
        p.out,
        head,
        page::shown_if(cfg, p, header, then_blocks, else_blocks, c, indent, around).out,
    );
}

/// A written if-then-else begins with its header and with a head whose condition holds
/// exactly where the branch's does.
pub proof fn law_if_head_states_branch(
    cfg: ControlFlowGraph,
    p: Page,
    header: usize,
    then_blocks: Seq<usize>,
    else_blocks: Seq<usize>,
    c: Condition,
    indent: nat,
    around: Option<(Set<usize>, usize)>,
)
    requires
        cfg.blocks@.contains_key(header),
        cfg.blocks@[header].instructions@.len() > 0,
        page::block_body(cfg, p, header, indent, true).lifted is Some,
    ensures
        ({
            let q = page::block_body(cfg, p, header, indent, true);
            let pc = cfg.blocks@[header].instructions@.last().0;
            exists|k: Claim, t: Seq<char>|
                {
                    &&& #[trigger] claims::states(k, t, q.lifted->0, c, pc)
                    &&& if_head(q.out, indent, t).is_prefix_of(
                        page::shown_if(
                            cfg,
                            p,
                            header,
                            then_blocks,
                            else_blocks,
                            Some(c),
                            indent,
                            around,
                        ).out,
                    )
                }
        }),
{
    let q = page::block_body(cfg, p, header, indent, true);
    let pc = cfg.blocks@[header].instructions@.last().0;
    lemma_if(cfg, p, header, then_blocks, else_blocks, Some(c), indent, around);
    claims::law_condition_states_branch(q.lifted->0, c, pc);
    let t = page::lifted_condition(q.lifted->0, c, pc);
    let k = choose|k: Claim| #[trigger] claims::states(k, t, q.lifted->0, c, pc);
    assert(page::condition_at(q.lifted, cfg, header, Some(c)) == t);
    assert(claims::states(k, t, q.lifted->0, c, pc));
}

proof fn lemma_loop_block(
    plan: Plan,
    p: Page,
    header: usize,
    body: Set<usize>,
    latch: usize,
    pc: usize,
)
    ensures
        goes_on_from(p, emit::loop_block(plan, p, header, body, latch, pc)),
{
    lemma_self(p.out);
    if !(pc == header || p.emitted.contains(pc)) {
        let around = Some((body, header));
        let is_latch = pc == latch && plan.fors.contains_key(header);
        let q = if is_latch && p.lifted is Some {
            Page {
                lifted: Some(
                    crate::lifting::program::Lifted {
                        eliminated: p.lifted->0.eliminated.insert(plan.fors[header].step_pc),
                        ..p.lifted->0
                    },
                ),
                ..p
            }
        } else {
            p
        };
        if plan.ifs.contains_key(pc) && plan.ifs[pc] is IfThenElse {
            lemma_if(
                plan.cfg,
                q,
                pc,
                plan.ifs[pc]->then_blocks,
                plan.ifs[pc]->else_blocks,
                plan.ifs[pc]->IfThenElse_condition,
                1,
                around,
            );
        } else {
            lemma_body(plan.cfg, q, pc, 1, true);
            lemma_inner(plan.cfg, q, pc, 1, around);
        }
    }
}

proof fn lemma_loop_blocks(
    plan: Plan,
    p: Page,
    header: usize,
    body: Set<usize>,
    latch: usize,
    list: Seq<usize>,
    n: nat,
)
    ensures
        goes_on_from(p, emit::loop_blocks(plan, p, header, body, latch, list, n)),
    decreases n,
{
    lemma_self(p.out);
    if n > 0 {
        lemma_loop_blocks(plan, p, header, body, latch, list, (n - 1) as nat);
        let q = emit::loop_blocks(plan, p, header, body, latch, list, (n - 1) as nat);
        lemma_loop_block(plan, q, header, body, latch, list[n - 1]);
        lemma_chained(
            p.out,
            q.out,
            emit::loop_block(plan, q, header, body, latch, list[n - 1]).out,
        );
    }
}

/// The head of a loop with the condition `t`: a `for` where one was found for it, and else
/// a `while`.
pub open spec fn head_line(plan: Plan, header: usize, t: Seq<char>) -> Seq<char> {
    if plan.fors.contains_key(header) {
        "for ("@ + plan.fors[header].init + "; "@ + t + "; "@ + plan.fors[header].step + ") {\n"@
    } else {
        "while ("@ + t + ") {\n"@
    }
}

/// A written loop begins with a head whose condition holds exactly where the loop goes on:
/// where the branch of the header is taken, if that leads into the loop, and where it is
/// not, if it leads out.
pub proof fn law_loop_head_states_going_on(
    plan: Plan,
    p: Page,
    header: usize,
    body: Set<usize>,
    latch: usize,
    c: Condition,
)
    requires
        plan.cfg.blocks@.contains_key(header),
        plan.cfg.blocks@[header].instructions@.len() > 0,
        analysis::condition_of(plan.cfg.blocks@[header].instructions@.last().1) == Some(c),
        p.lifted is Some,
    ensures
        ({
            let last = plan.cfg.blocks@[header].instructions@.last();
            exists|k: Claim, t: Seq<char>, d: Condition|
                {
                    &&& #[trigger] claims::states(k, t, p.lifted->0, d, last.0)
                    &&& d.lhs == c.lhs && d.rhs == c.rhs
                    &&& forall|x: u64, y: u64|
                        (#[trigger] d.op.holds(x, y)) == (c.op.holds(x, y) == body.contains(
                            cfg::target_of(last)->0,
                        ))
                    &&& (p.out + head_line(plan, header, t)).is_prefix_of(
                        emit::shown_loop(plan, p, header, body, latch, Some(c)).out,
                    )
                }
        }),
{
    let last = plan.cfg.blocks@[header].instructions@.last();
    analysis::law_loop_head_states_going_on(plan.cfg, header, body, c, 0, 0);
    let d = analysis::continue_condition(plan.cfg, header, body, Some(c))->0;
    assert forall|x: u64, y: u64| (#[trigger] d.op.holds(x, y)) == (c.op.holds(x, y)
        == body.contains(cfg::target_of(last)->0)) by {
        analysis::law_loop_head_states_going_on(plan.cfg, header, body, c, x, y);
    }
    claims::law_condition_states_branch(p.lifted->0, d, last.0);
    let t = page::lifted_condition(p.lifted->0, d, last.0);
    let k = choose|k: Claim| #[trigger] claims::states(k, t, p.lifted->0, d, last.0);
    assert(page::condition_at(p.lifted, plan.cfg, header, Some(d)) == t);
    let head = emit::loop_head(plan, header, t);
    assert(head == head_line(plan, header, t));
    let q1 = Page { out: p.out + head, ..p };
    let q2 = page::block_body(plan.cfg, q1, header, 1, true);
    lemma_body(plan.cfg, q1, header, 1, true);
    let list = crate::ordered::ascending(body);
    lemma_loop_blocks(plan, q2, header, body, latch, list, list.len());
    let q3 = emit::loop_blocks(plan, q2, header, body, latch, list, list.len());
    lemma_chained(q1.out, q2.out, q3.out);
    lemma_added(q1.out, q3.out, "}\n"@);
    assert(claims::states(k, t, p.lifted->0, d, last.0));
}

/// Whether control can go from the block at `pc` to a place outside the loop.
pub open spec fn can_leave(cfg: ControlFlowGraph, pc: usize, body: Set<usize>, header: usize) -> bool {
    exists|s: usize| #[trigger]
        cfg.blocks@[pc].successors@.contains(s) && !body.contains(s) && s != header
}

/// In a loop, a block that control can leave the loop from ends in `break`, one that only
/// leads back to the header ends in `continue`, and no other ends in either.
pub proof fn law_keywords_tell_where_control_goes(
    cfg: ControlFlowGraph,
    pc: usize,
    body: Set<usize>,
    header: usize,
)
    requires
        cfg.blocks@.contains_key(pc),
        cfg.blocks@[pc].instructions@.len() > 0 ==> !(
        cfg.blocks@[pc].instructions@.last().1 is Trap),
    ensures
        can_leave(cfg, pc, body, header) ==> page::loop_keyword(cfg, pc, Some((body, header)))
            == Some("break"@),
        !can_leave(cfg, pc, body, header) && cfg.blocks@[pc].successors@ == seq![header]
            ==> page::loop_keyword(cfg, pc, Some((body, header))) == Some("continue"@),
        !can_leave(cfg, pc, body, header) && cfg.blocks@[pc].successors@ != seq![header]
            ==> page::loop_keyword(cfg, pc, Some((body, header))) is None,
{
    let b = cfg.blocks@[pc];
    let around = (body, header);
    assert(page::leaves_loop(b, around) == can_leave(cfg, pc, body, header)) by {
        if page::leaves_loop(b, around) {
            let i = choose|i: int|
                0 <= i < b.successors@.len() && !around.0.contains(#[trigger] b.successors@[i])
                    && b.successors@[i] != around.1;
            assert(b.successors@.contains(b.successors@[i]));
        }
        if can_leave(cfg, pc, body, header) {
            let s = choose|s: usize| #[trigger]
                b.successors@.contains(s) && !body.contains(s) && s != header;
            let i = choose|i: int| 0 <= i < b.successors@.len() && b.successors@[i] == s;
            assert(!around.0.contains(b.successors@[i]));
        }
    }
    if page::repeats_loop(b, around) {
        assert(b.successors@ =~= seq![header]);
    }
}

} // verus!
