//! Blocks that are not shown.

use crate::cfg::{BasicBlock, ControlFlowGraph};
use crate::functions;
use crate::functions::{DirectCall, DirectCallPattern, Function, HeapAllocPattern, Unit};
use crate::driver::setup;
use crate::driver::setup::{add_pcs, table_holds};
use crate::lifting::expr;
use crate::lifting::expr::{Expr, Expression};
use crate::lifting::program;
use crate::lifting::program::{Lifted, LiftedProgram};
use crate::ordered::{keys_of, members_of};
use crate::ordered;
use crate::reach;
use crate::reach::reach_from;
use crate::dataflow::holds_pc;
use crate::text::{chars_of, same_text};
use std::collections::{BTreeMap, BTreeSet};
use vstd::prelude::*;

verus! {

broadcast use vstd::laws_cmp::group_laws_cmp;

/// Of a list what a set holds, or what it does not hold.
pub open spec fn filtered(list: Seq<usize>, set: Set<usize>, inside: bool, n: nat) -> Seq<usize>
    decreases n,
{
    if n == 0 {
        seq![]
    } else if set.contains(list[n - 1]) == inside {
        filtered(list, set, inside, (n - 1) as nat).push(list[n - 1])
    } else {
        filtered(list, set, inside, (n - 1) as nat)
    }
}

/// The edges to blocks that a set holds, or that it does not hold.
pub open spec fn edges(cfg: ControlFlowGraph, set: Set<usize>, inside: bool) -> Map<
    usize,
    Seq<usize>,
> {
    cfg.blocks@.map_values(
        |b: BasicBlock| filtered(b.successors@, set, inside, b.successors@.len()),
    )
}

fn filter(list: &Vec<usize>, set: &BTreeSet<usize>, inside: bool) -> (r: Vec<usize>)
    ensures
        r@ == filtered(list@, set@, inside, list@.len()),
{
    let mut r: Vec<usize> = Vec::new();
    let mut i: usize = 0;
    while i < list.len()
        invariant
            i <= list@.len(),
            r@ == filtered(list@, set@, inside, i as nat),
        decreases list@.len() - i,
    {
        if set.contains(&list[i]) == inside {
            r.push(list[i]);
        }
        i = i + 1;
    }
    r
}

fn list_edges(cfg: &ControlFlowGraph, set: &BTreeSet<usize>, inside: bool) -> (m: BTreeMap<
    usize,
    Vec<usize>,
>)
    ensures
        reach::lists(m@) == edges(*cfg, set@, inside),
{
    let keys = keys_of(&cfg.blocks);
    let mut m: BTreeMap<usize, Vec<usize>> = BTreeMap::new();
    let ghost want = edges(*cfg, set@, inside);
    let mut i: usize = 0;
    while i < keys.len()
        invariant
            i <= keys@.len(),
            want == edges(*cfg, set@, inside),
            keys@.to_set() == cfg.blocks@.dom(),
            forall|k: usize| #[trigger] m@.contains_key(k) <==> keys@.take(i as int).contains(k),
            forall|k: usize| #[trigger] m@.contains_key(k) ==> m@[k]@ == want[k],
        decreases keys@.len() - i,
    {
        let k: usize = keys[i];
        assert(keys@.to_set().contains(k));
        let ghost before = m@;
        if let Some(b) = cfg.blocks.get(&k) {
            assert(want.contains_key(k));
            let list = filter(&b.successors, set, inside);
            m.insert(k, list);
        }
        assert(keys@.take(i + 1) =~= keys@.take(i as int).push(k));
        assert forall|j: usize| #[trigger] m@.contains_key(j) <==> keys@.take(i + 1).contains(j) by {
            ordered::lemma_push_key(keys@.take(i as int), k, j);
            assert(before.contains_key(j) <==> keys@.take(i as int).contains(j));
        }
        assert forall|j: usize| #[trigger] m@.contains_key(j) implies m@[j]@ == want[j] by {
            if j != k {
                assert(before.contains_key(j));
            }
        }
        i = i + 1;
    }
    proof {
        assert(keys@.take(i as int) =~= keys@);
        assert forall|k: usize| reach::lists(m@).contains_key(k) == want.contains_key(k) by {
            assert(m@.contains_key(k) <==> keys@.contains(k));
            assert(keys@.to_set().contains(k) == cfg.blocks@.contains_key(k));
        }
        assert forall|k: usize| reach::lists(m@).contains_key(k) implies reach::lists(m@)[k]
            == want[k] by {
            assert(m@.contains_key(k));
        }
        assert(reach::lists(m@) =~= want);
    }
    m
}

/// Whether one of the calls jumps to `pc`.
pub open spec fn call_target(calls: Seq<DirectCall>, pc: usize) -> bool {
    exists|i: int| 0 <= i < calls.len() && (#[trigger] calls[i]).target == pc
}

/// Whether a block of a function is where a call comes back: the jump table leads to
/// it, and within the function only what calls jump to.
pub open spec fn landing(
    f: Unit,
    sub: ControlFlowGraph,
    table: Seq<u32>,
    calls: Seq<DirectCall>,
    pc: usize,
) -> bool {
    &&& f.blocks.contains(pc)
    &&& pc != f.entry_pc
    &&& setup::in_table(table, pc)
    &&& sub.blocks@.contains_key(pc)
    &&& forall|i: int|
        0 <= i < sub.blocks@[pc].predecessors@.len() ==> call_target(
            calls,
            #[trigger] sub.blocks@[pc].predecessors@[i],
        )
}

/// Where the blocks of a callee end: at the blocks of calls, at their returns, and where
/// calls come back.
pub open spec fn stops(
    f: Unit,
    sub: ControlFlowGraph,
    table: Seq<u32>,
    calls: Seq<DirectCall>,
) -> Set<usize> {
    Set::new(
        |pc: usize|
            (exists|i: int|
                0 <= i < calls.len() && ((#[trigger] calls[i]).block == pc || calls[i].back == pc))
                || landing(f, sub, table, calls, pc),
    )
}

/// The blocks that the first `n` calls lead to although they stand in the caller.
pub open spec fn callee_blocks(
    start: Set<usize>,
    f: Unit,
    sub: ControlFlowGraph,
    stop: Set<usize>,
    calls: Seq<DirectCall>,
    n: nat,
) -> Set<usize>
    decreases n,
{
    if n == 0 {
        start
    } else {
        let before = callee_blocks(start, f, sub, stop, calls, (n - 1) as nat);
        let c = calls[n - 1];
        if f.blocks.contains(c.target) && c.name != f.name {
            before.union(reach::reached(edges(sub, stop, false), seq![c.target], before))
        } else {
            before
        }
    }
}

fn is_call_target(patterns: &[DirectCallPattern], pc: usize) -> (r: bool)
    ensures
        r == call_target(functions::direct_calls_of(patterns@), pc),
{
    let mut i: usize = 0;
    while i < patterns.len()
        invariant
            i <= patterns@.len(),
            forall|k: int|
                0 <= k < i ==> (#[trigger] functions::direct_calls_of(patterns@)[k]).target != pc,
        decreases patterns@.len() - i,
    {
        assert(functions::direct_calls_of(patterns@)[i as int] == patterns@[i as int]@);
        if patterns[i].jump_target_pc == pc {
            return true;
        }
        i = i + 1;
    }
    false
}

fn is_landing(
    f: &Function,
    sub: &ControlFlowGraph,
    table: &Vec<u32>,
    patterns: &[DirectCallPattern],
    pc: usize,
) -> (r: bool)
    requires
        f.block_pcs@.contains(pc),
    ensures
        r == landing(f@, *sub, table@, functions::direct_calls_of(patterns@), pc),
{
    if pc == f.entry_pc || !table_holds(table, pc) {
        return false;
    }
    match sub.blocks.get(&pc) {
        Some(b) => {
            let mut i: usize = 0;
            while i < b.predecessors.len()
                invariant
                    i <= b.predecessors@.len(),
                    sub.blocks@.contains_key(pc),
                    *b == sub.blocks@[pc],
                    forall|k: int|
                        0 <= k < i ==> call_target(
                            functions::direct_calls_of(patterns@),
                            #[trigger] sub.blocks@[pc].predecessors@[k],
                        ),
                decreases b.predecessors@.len() - i,
            {
                if !is_call_target(patterns, b.predecessors[i]) {
                    assert(!call_target(
                        functions::direct_calls_of(patterns@),
                        sub.blocks@[pc].predecessors@[i as int],
                    ));
                    return false;
                }
                i = i + 1;
            }
            true
        },
        None => false,
    }
}

fn find_stops(
    f: &Function,
    sub: &ControlFlowGraph,
    table: &Vec<u32>,
    patterns: &[DirectCallPattern],
) -> (stop: BTreeSet<usize>)
    ensures
        stop@ == stops(f@, *sub, table@, functions::direct_calls_of(patterns@)),
{
    let ghost calls = functions::direct_calls_of(patterns@);
    let ghost ends = |n: int, pc: usize|
        exists|i: int|
            0 <= i < n && ((#[trigger] calls[i]).block == pc || calls[i].back == pc);
    let mut stop: BTreeSet<usize> = BTreeSet::new();
    let mut i: usize = 0;
    while i < patterns.len()
        invariant
            i <= patterns@.len(),
            calls == functions::direct_calls_of(patterns@),
            ends == |n: int, pc: usize|
                exists|i: int|
                    0 <= i < n && ((#[trigger] calls[i]).block == pc || calls[i].back == pc),
            forall|pc: usize| #[trigger] stop@.contains(pc) <==> ends(i as int, pc),
        decreases patterns@.len() - i,
    {
        assert(calls[i as int] == patterns@[i as int]@);
        let ghost was = stop@;
        stop.insert(patterns[i].caller_block_pc);
        stop.insert(patterns[i].return_pc);
        assert forall|pc: usize| #[trigger] stop@.contains(pc) <==> ends(i + 1, pc) by {
            assert(was.contains(pc) <==> ends(i as int, pc));
            if pc == calls[i as int].block || pc == calls[i as int].back {
                assert(ends(i + 1, pc));
            }
        }
        i = i + 1;
    }
    let members = members_of(&f.block_pcs);
    let ghost first = stop@;
    let mut j: usize = 0;
    while j < members.len()
        invariant
            j <= members@.len(),
            calls == functions::direct_calls_of(patterns@),
            members@.to_set() == f.block_pcs@,
            forall|pc: usize| #[trigger]
                stop@.contains(pc) <==> first.contains(pc) || (members@.take(j as int).contains(pc)
                    && landing(f@, *sub, table@, calls, pc)),
        decreases members@.len() - j,
    {
        let m: usize = members[j];
        assert(members@.to_set().contains(m));
        let ghost was = stop@;
        if is_landing(f, sub, table, patterns, m) {
            stop.insert(m);
        }
        assert(members@.take(j + 1) =~= members@.take(j as int).push(m));
        assert forall|pc: usize| #[trigger] stop@.contains(pc) <==> first.contains(pc) || (
        members@.take(j + 1).contains(pc) && landing(f@, *sub, table@, calls, pc)) by {
            ordered::lemma_push_key(members@.take(j as int), m, pc);
            assert(was.contains(pc) <==> first.contains(pc) || (members@.take(j as int).contains(pc)
                && landing(f@, *sub, table@, calls, pc)));
        }
        j = j + 1;
    }
    assert(members@.take(j as int) =~= members@);
    assert forall|pc: usize| #[trigger] stop@.contains(pc) == stops(f@, *sub, table@, calls).contains(
        pc,
    ) by {
        assert(members@.to_set().contains(pc) == f.block_pcs@.contains(pc));
        assert(first.contains(pc) <==> ends(patterns@.len() as int, pc));
    }
    assert(stop@ =~= stops(f@, *sub, table@, calls));
    stop
}

/// Suppress callee blocks that were misassigned to this function.
pub(crate) fn suppress_callee_blocks(
    suppressed: &mut BTreeSet<usize>,
    f: &Function,
    sub: &ControlFlowGraph,
    table: &Vec<u32>,
    patterns: &[DirectCallPattern],
)
    ensures
        final(suppressed)@ == callee_blocks(
            old(suppressed)@,
            f@,
            *sub,
            stops(f@, *sub, table@, functions::direct_calls_of(patterns@)),
            functions::direct_calls_of(patterns@),
            patterns@.len(),
        ),
{
    let ghost calls = functions::direct_calls_of(patterns@);
    let ghost start = suppressed@;
    let stop = find_stops(f, sub, table, patterns);
    let next = list_edges(sub, &stop, false);
    let mut i: usize = 0;
    while i < patterns.len()
        invariant
            i <= patterns@.len(),
            calls == functions::direct_calls_of(patterns@),
            reach::lists(next@) == edges(*sub, stop@, false),
            suppressed@ == callee_blocks(start, f@, *sub, stop@, calls, i as nat),
        decreases patterns@.len() - i,
    {
        let pat = &patterns[i];
        assert(calls[i as int] == pat@);
        if f.block_pcs.contains(&pat.jump_target_pc) && !same_text(
            pat.callee_name.as_str(),
            f.name.as_str(),
        ) {
            let mut starts: Vec<usize> = Vec::new();
            starts.push(pat.jump_target_pc);
            assert(starts@ =~= seq![pat.jump_target_pc]);
            let found = reach_from(&next, &starts, suppressed);
            let list = members_of(&found);
            add_pcs(suppressed, &list);
        }
        i = i + 1;
    }
}

/// Whether a call jumps from `from` to `to`.
pub open spec fn call_edge(calls: Seq<DirectCall>, from: usize, to: usize) -> bool {
    exists|i: int|
        0 <= i < calls.len() && (#[trigger] calls[i]).block == from && calls[i].target == to
}

/// Whether a shown block leads to `pc`, other than by a call.
pub open spec fn entered(
    cfg: ControlFlowGraph,
    suppressed: Set<usize>,
    calls: Seq<DirectCall>,
    pc: usize,
) -> bool {
    cfg.blocks@.contains_key(pc) && exists|i: int|
        0 <= i < cfg.blocks@[pc].predecessors@.len() && !suppressed.contains(
            #[trigger] cfg.blocks@[pc].predecessors@[i],
        ) && !call_edge(calls, cfg.blocks@[pc].predecessors@[i], pc)
}

/// The entered ones among the first `n` of a list.
pub open spec fn entered_blocks(
    cfg: ControlFlowGraph,
    suppressed: Set<usize>,
    calls: Seq<DirectCall>,
    list: Seq<usize>,
    n: nat,
) -> Seq<usize>
    decreases n,
{
    if n == 0 {
        seq![]
    } else if entered(cfg, suppressed, calls, list[n - 1]) {
        entered_blocks(cfg, suppressed, calls, list, (n - 1) as nat).push(list[n - 1])
    } else {
        entered_blocks(cfg, suppressed, calls, list, (n - 1) as nat)
    }
}

/// The suppressed blocks that no shown block leads to.
pub open spec fn still_suppressed(
    cfg: ControlFlowGraph,
    suppressed: Set<usize>,
    calls: Seq<DirectCall>,
) -> Set<usize> {
    let list = crate::ordered::ascending(suppressed);
    suppressed.difference(
        reach::reached(
            edges(cfg, suppressed, true),
            entered_blocks(cfg, suppressed, calls, list, list.len()),
            Set::empty(),
        ),
    )
}

fn is_call_edge(patterns: &[DirectCallPattern], from: usize, to: usize) -> (r: bool)
    ensures
        r == call_edge(functions::direct_calls_of(patterns@), from, to),
{
    let mut i: usize = 0;
    while i < patterns.len()
        invariant
            i <= patterns@.len(),
            forall|k: int|
                0 <= k < i ==> !((#[trigger] functions::direct_calls_of(patterns@)[k]).block == from
                    && functions::direct_calls_of(patterns@)[k].target == to),
        decreases patterns@.len() - i,
    {
        assert(functions::direct_calls_of(patterns@)[i as int] == patterns@[i as int]@);
        if patterns[i].caller_block_pc == from && patterns[i].jump_target_pc == to {
            return true;
        }
        i = i + 1;
    }
    false
}

fn is_entered(
    cfg: &ControlFlowGraph,
    suppressed: &BTreeSet<usize>,
    patterns: &[DirectCallPattern],
    pc: usize,
) -> (r: bool)
    ensures
        r == entered(*cfg, suppressed@, functions::direct_calls_of(patterns@), pc),
{
    let b = match cfg.blocks.get(&pc) {
        Some(b) => b,
        None => {
            return false;
        },
    };
    let mut i: usize = 0;
    while i < b.predecessors.len()
        invariant
            i <= b.predecessors@.len(),
            cfg.blocks@.contains_key(pc),
            *b == cfg.blocks@[pc],
            forall|k: int|
                0 <= k < i ==> suppressed@.contains(#[trigger] cfg.blocks@[pc].predecessors@[k])
                    || call_edge(
                    functions::direct_calls_of(patterns@),
                    cfg.blocks@[pc].predecessors@[k],
                    pc,
                ),
        decreases b.predecessors@.len() - i,
    {
        let p: usize = b.predecessors[i];
        if !suppressed.contains(&p) && !is_call_edge(patterns, p, pc) {
            assert(!suppressed@.contains(cfg.blocks@[pc].predecessors@[i as int]));
            return true;
        }
        i = i + 1;
    }
    false
}

/// Show suppressed blocks again that a shown block leads to other than by a call, and
/// what they lead to.
pub fn unsuppress_blocks_with_live_incoming_edges(
    lifted: &mut LiftedProgram,
    func_cfg: &ControlFlowGraph,
    direct_call_patterns: &[DirectCallPattern],
)
    ensures
        final(lifted)@ == (Lifted {
            suppressed: still_suppressed(
                *func_cfg,
                old(lifted)@.suppressed,
                functions::direct_calls_of(direct_call_patterns@),
            ),
            ..old(lifted)@
        }),
{
    let ghost calls = functions::direct_calls_of(direct_call_patterns@);
    let ghost before = lifted@;
    let ghost start = lifted.suppressed_blocks@;
    let list = members_of(&lifted.suppressed_blocks);
    let mut starts: Vec<usize> = Vec::new();
    let mut i: usize = 0;
    while i < list.len()
        invariant
            i <= list@.len(),
            calls == functions::direct_calls_of(direct_call_patterns@),
            start == lifted.suppressed_blocks@,
            starts@ == entered_blocks(*func_cfg, start, calls, list@, i as nat),
        decreases list@.len() - i,
    {
        if is_entered(func_cfg, &lifted.suppressed_blocks, direct_call_patterns, list[i]) {
            starts.push(list[i]);
        }
        i = i + 1;
    }
    let next = list_edges(func_cfg, &lifted.suppressed_blocks, true);
    let none: BTreeSet<usize> = BTreeSet::new();
    let found = reach_from(&next, &starts, &none);
    let mut kept: BTreeSet<usize> = BTreeSet::new();
    let mut j: usize = 0;
    while j < list.len()
        invariant
            j <= list@.len(),
            list@.to_set() == start,
            forall|pc: usize| #[trigger]
                kept@.contains(pc) <==> list@.take(j as int).contains(pc) && !found@.contains(pc),
        decreases list@.len() - j,
    {
        let pc: usize = list[j];
        let ghost was = kept@;
        if !found.contains(&pc) {
            kept.insert(pc);
        }
        assert(list@.take(j + 1) =~= list@.take(j as int).push(pc));
        assert forall|q: usize| #[trigger] kept@.contains(q) <==> list@.take(j + 1).contains(q)
            && !found@.contains(q) by {
            ordered::lemma_push_key(list@.take(j as int), pc, q);
            assert(was.contains(q) <==> list@.take(j as int).contains(q) && !found@.contains(q));
        }
        j = j + 1;
    }
    assert(list@.take(j as int) =~= list@);
    assert forall|pc: usize| #[trigger] kept@.contains(pc) == start.difference(found@).contains(
        pc,
    ) by {
        assert(list@.to_set().contains(pc) == start.contains(pc));
    }
    assert(kept@ =~= start.difference(found@));
    lifted.suppressed_blocks = kept;
    assert(lifted@ =~= Lifted {
        suppressed: still_suppressed(*func_cfg, start, calls),
        ..before
    });
}

/// A character of a name.
pub open spec fn word(c: char) -> bool {
    ('0' <= c && c <= '9') || ('A' <= c && c <= 'Z') || ('a' <= c && c <= 'z') || c == '_'
}

/// Where the name at `i` ends.
pub open spec fn word_end(s: Seq<char>, i: int) -> int
    decreases s.len() - i,
{
    if i < 0 || i >= s.len() || !word(s[i]) {
        i
    } else {
        word_end(s, i + 1)
    }
}

/// Whether one of the names in a text, from `i` on, is `name`.
pub open spec fn has_word(s: Seq<char>, name: Seq<char>, i: int) -> bool
    decreases s.len() - i,
{
    if i < 0 || i > s.len() {
        false
    } else {
        let e = word_end(s, i);
        if e < i || e >= s.len() {
            s.subrange(i, s.len() as int) == name
        } else {
            s.subrange(i, e) == name || has_word(s, name, e + 1)
        }
    }
}

/// Whether an expression refers to a variable, in its raw text too.
pub open spec fn refers_to(e: Expr, name: Seq<char>) -> bool
    decreases e,
{
    match e {
        Expr::Var(n) => n == name,
        Expr::Const(_) => false,
        Expr::Raw(s) => has_word(s, name, 0),
        Expr::BinOp { op, lhs, rhs } => refers_to(*lhs, name) || refers_to(*rhs, name),
        Expr::UnaryOp { op, operand } => refers_to(*operand, name),
        Expr::Load { width, base, offset } => refers_to(*base, name),
        Expr::Store { width, base, offset, value } => refers_to(*base, name) || refers_to(
            *value,
            name,
        ),
        Expr::Call { name: callee, args } => exists|i: int|
            0 <= i < args.len() && refers_to(#[trigger] args[i], name),
    }
}

fn same_part(s: &Vec<char>, from: usize, to: usize, name: &Vec<char>) -> (r: bool)
    requires
        from <= to <= s@.len(),
    ensures
        r == (s@.subrange(from as int, to as int) == name@),
{
    if to - from != name.len() {
        return false;
    }
    let ghost part = s@.subrange(from as int, to as int);
    let mut i: usize = 0;
    while i < name.len()
        invariant
            i <= name@.len(),
            from <= to <= s@.len(),
            to - from == name@.len(),
            part == s@.subrange(from as int, to as int),
            forall|k: int| 0 <= k < i ==> part[k] == name@[k],
        decreases name@.len() - i,
    {
        if s[from + i] != name[i] {
            assert(part[i as int] != name@[i as int]);
            return false;
        }
        assert(part[i as int] == s@[from + i]);
        i = i + 1;
    }
    assert(part =~= name@);
    true
}

fn text_has_word(text: &str, name: &str) -> (r: bool)
    ensures
        r == has_word(text@, name@, 0),
{
    let s = chars_of(text);
    let key = chars_of(name);
    let mut start: usize = 0;
    let mut i: usize = 0;
    while i < s.len()
        invariant
            start <= i <= s@.len(),
            s@ == text@,
            key@ == name@,
            word_end(s@, start as int) == word_end(s@, i as int),
            has_word(s@, name@, 0) == has_word(s@, name@, start as int),
        decreases s@.len() - i,
    {
        let c: char = s[i];
        let inner = ('0' <= c && c <= '9') || ('A' <= c && c <= 'Z') || ('a' <= c && c <= 'z') || c
            == '_';
        if !inner {
            assert(word_end(s@, start as int) == i);
            assert(has_word(s@, name@, start as int) == (s@.subrange(start as int, i as int) == name@
                || has_word(s@, name@, i + 1)));
            if same_part(&s, start, i, &key) {
                return true;
            }
            start = i + 1;
        }
        i = i + 1;
    }
    same_part(&s, start, s.len(), &key)
}

/// Check if an expression tree references a variable by name.
pub fn expr_uses_var(e: &Expression, name: &str) -> (r: bool)
    ensures
        r == refers_to(e@, name@),
    decreases e,
{
    match e {
        Expression::Var(n) => same_text(n.as_str(), name),
        Expression::Const(_) => false,
        Expression::Raw(s) => text_has_word(s.as_str(), name),
        Expression::BinOp { lhs, rhs, .. } => expr_uses_var(lhs, name) || expr_uses_var(rhs, name),
        Expression::UnaryOp { operand, .. } => expr_uses_var(operand, name),
        Expression::Load { base, .. } => expr_uses_var(base, name),
        Expression::Store { base, value, .. } => expr_uses_var(base, name) || expr_uses_var(
            value,
            name,
        ),
        Expression::Call { name: callee, args } => {
            proof {
                expr::lemma_call_view(*callee, *args);
            }
            let mut i: usize = 0;
            while i < args.len()
                invariant
                    i <= args@.len(),
                    *e matches Expression::Call { args: a, .. } && a == args,
                    e@ == (Expr::Call { name: callee@, args: expr::exprs_of(args@) }),
                    forall|k: int|
                        0 <= k < i ==> !refers_to(#[trigger] expr::exprs_of(args@)[k], name@),
                decreases args@.len() - i,
            {
                assert(expr::exprs_of(args@)[i as int] == args@[i as int]@);
                if expr_uses_var(&args[i], name) {
                    assert(refers_to(e@->Call_args[i as int], name@));
                    return true;
                }
                i = i + 1;
            }
            false
        },
    }
}

/// The stack variables that the first `n` of a list of stores write.
pub open spec fn stored_vars(l: Lifted, pcs: Seq<usize>, n: nat) -> Seq<Seq<char>>
    decreases n,
{
    if n == 0 {
        seq![]
    } else {
        let rest = stored_vars(l, pcs, (n - 1) as nat);
        match stored_var(l, pcs[n - 1]) {
            Some(name) => rest.push(name),
            None => rest,
        }
    }
}

/// The stack variable that the store at `pc` writes.
pub open spec fn stored_var(l: Lifted, pc: usize) -> Option<Seq<char>> {
    if !l.expressions.contains_key(pc) {
        None
    } else {
        match l.expressions[pc] {
            Expr::Store { base, offset, .. } => match *base {
                Expr::Var(name) => if l.stack_vars.contains_key((name, offset)) {
                    Some(l.stack_vars[(name, offset)])
                } else {
                    None
                },
                _ => None,
            },
            _ => None,
        }
    }
}

/// Whether an expression that is shown, and not one of `pcs`, refers to a variable.
pub open spec fn used_elsewhere(l: Lifted, pcs: Seq<usize>, name: Seq<char>) -> bool {
    exists|pc: usize|
        l.expressions.contains_key(pc) && !pcs.contains(pc) && !l.eliminated.contains(pc)
            && refers_to(#[trigger] l.expressions[pc], name)
}

/// The first variable from the `i`th on that is used elsewhere.
pub open spec fn first_used(
    l: Lifted,
    pcs: Seq<usize>,
    vars: Seq<Seq<char>>,
    i: int,
) -> Option<Seq<char>>
    decreases vars.len() - i,
{
    if i < 0 || i >= vars.len() {
        None
    } else if used_elsewhere(l, pcs, vars[i]) {
        Some(vars[i])
    } else {
        first_used(l, pcs, vars, i + 1)
    }
}

/// A lifted program with its heap allocation boilerplate out of the way.
pub open spec fn heap_suppressed(l: Lifted, h: HeapAllocPattern) -> Lifted {
    let hidden = Lifted {
        eliminated: l.eliminated.union(h.eliminated_pcs@.to_set()).union(
            h.heap_ptr_arithmetic_pcs@.to_set(),
        ).union(h.header_write_pcs@.to_set()),
        suppressed: l.suppressed.union(h.sbrk_blocks@.to_set()),
        hidden: l.hidden.insert(h.convergence_block_pc),
        linear_memory_offset: h.linear_memory_offset,
        ..l
    };
    let pcs = h.heap_ptr_arithmetic_pcs@;
    let found = first_used(hidden, pcs, stored_vars(hidden, pcs, pcs.len()), 0);
    Lifted {
        heap_alloc: Some(h),
        data_ptr: if found is Some {
            found
        } else {
            hidden.data_ptr
        },
        ..hidden
    }
}

pub open spec fn text_views(s: Seq<String>) -> Seq<Seq<char>> {
    s.map_values(|x: String| x@)
}

fn find_stored_vars(l: &LiftedProgram, pcs: &Vec<usize>) -> (vars: Vec<String>)
    ensures
        text_views(vars@) == stored_vars(l@, pcs@, pcs@.len()),
{
    let mut vars: Vec<String> = Vec::new();
    assert(text_views(vars@) =~= seq![]);
    let mut i: usize = 0;
    while i < pcs.len()
        invariant
            i <= pcs@.len(),
            text_views(vars@) == stored_vars(l@, pcs@, i as nat),
        decreases pcs@.len() - i,
    {
        let pc: usize = pcs[i];
        let ghost was = text_views(vars@);
        proof {
            reveal_with_fuel(expr::expr_of, 3);
            assert(l@.expressions.contains_key(pc) == l.expressions@.contains_key(pc));
        }
        if let Some(e) = l.expressions.get(&pc) {
            assert(l@.expressions[pc] == e@);
            if let Expression::Store { base, offset, .. } = e {
                if let Expression::Var(name) = &**base {
                    assert(l@.stack_vars.contains_key((name@, *offset))
                        == l.stack_vars@.contains_key((name@, *offset)));
                    if let Some(slot) = l.stack_vars.get(name.as_str(), *offset) {
                        let copy = slot.as_str().to_owned();
                        let ghost view = copy@;
                        vars.push(copy);
                        assert(text_views(vars@) =~= was.push(view));
                    }
                }
            }
        }
        i = i + 1;
    }
    vars
}

fn is_used_elsewhere(l: &LiftedProgram, pcs: &Vec<usize>, name: &str) -> (r: bool)
    ensures
        r == used_elsewhere(l@, pcs@, name@),
{
    let keys = keys_of(&l.expressions);
    let mut i: usize = 0;
    while i < keys.len()
        invariant
            i <= keys@.len(),
            keys@.to_set() == l.expressions@.dom(),
            forall|k: int|
                0 <= k < i ==> pcs@.contains(#[trigger] keys@[k]) || l@.eliminated.contains(keys@[k])
                    || !refers_to(l@.expressions[keys@[k]], name@),
        decreases keys@.len() - i,
    {
        let pc: usize = keys[i];
        assert(keys@.to_set().contains(pc));
        assert(l@.expressions.contains_key(pc) == l.expressions@.contains_key(pc));
        if !holds_pc(pcs, pc) && !l.eliminated_pcs.contains(&pc) {
            if let Some(e) = l.expressions.get(&pc) {
                assert(l@.expressions[pc] == e@);
                if expr_uses_var(e, name) {
                    assert(refers_to(l@.expressions[pc], name@));
                    return true;
                }
            }
        }
        i = i + 1;
    }
    assert forall|pc: usize|
        l@.expressions.contains_key(pc) && !pcs@.contains(pc) && !l@.eliminated.contains(
            pc,
        ) implies !refers_to(#[trigger] l@.expressions[pc], name@) by {
        assert(l.expressions@.contains_key(pc));
        assert(keys@.to_set().contains(pc));
        let k = choose|k: int| 0 <= k < keys@.len() && keys@[k] == pc;
        assert(keys@[k] == pc);
    }
    false
}

/// Hide heap allocation boilerplate, where a pattern was found.
pub fn apply_heap_alloc_suppression(
    lifted: &mut LiftedProgram,
    heap_alloc: Option<HeapAllocPattern>,
)
    ensures
        final(lifted)@ == match heap_alloc {
            Some(h) => heap_suppressed(old(lifted)@, h),
            None => old(lifted)@,
        },
{
    let h = match heap_alloc {
        Some(h) => h,
        None => {
            return;
        },
    };
    let ghost before = lifted@;
    add_pcs(&mut lifted.eliminated_pcs, &h.eliminated_pcs);
    add_pcs(&mut lifted.eliminated_pcs, &h.heap_ptr_arithmetic_pcs);
    add_pcs(&mut lifted.eliminated_pcs, &h.header_write_pcs);
    add_pcs(&mut lifted.suppressed_blocks, &h.sbrk_blocks);
    lifted.hidden_labels.insert(h.convergence_block_pc);
    lifted.linear_memory_offset = h.linear_memory_offset;
    let ghost hidden = lifted@;
    assert(hidden =~= Lifted {
        eliminated: before.eliminated.union(h.eliminated_pcs@.to_set()).union(
            h.heap_ptr_arithmetic_pcs@.to_set(),
        ).union(h.header_write_pcs@.to_set()),
        suppressed: before.suppressed.union(h.sbrk_blocks@.to_set()),
        hidden: before.hidden.insert(h.convergence_block_pc),
        linear_memory_offset: h.linear_memory_offset,
        ..before
    });
    let ghost pcs = h.heap_ptr_arithmetic_pcs@;
    let vars = find_stored_vars(lifted, &h.heap_ptr_arithmetic_pcs);
    let ghost views = text_views(vars@);
    let mut i: usize = 0;
    while i < vars.len()
        invariant_except_break
            lifted@ == hidden,
            first_used(hidden, pcs, views, 0) == first_used(hidden, pcs, views, i as int),
        invariant
            i <= vars@.len(),
            views == text_views(vars@),
            pcs == h.heap_ptr_arithmetic_pcs@,
        ensures
            lifted@ == (Lifted {
                data_ptr: if first_used(hidden, pcs, views, 0) is Some {
                    first_used(hidden, pcs, views, 0)
                } else {
                    hidden.data_ptr
                },
                ..hidden
            }),
        decreases vars@.len() - i,
    {
        assert(views[i as int] == vars@[i as int]@);
        if is_used_elsewhere(lifted, &h.heap_ptr_arithmetic_pcs, vars[i].as_str()) {
            lifted.heap_alloc_data_ptr = Some(vars[i].as_str().to_owned());
            assert(lifted@ =~= Lifted { data_ptr: Some(views[i as int]), ..hidden });
            break;
        }
        i = i + 1;
    }
    let ghost last = lifted@;
    lifted.heap_alloc = Some(h);
    assert(lifted@ =~= Lifted { heap_alloc: Some(h), ..last });
}

/// Blocks stay suppressed only where no shown block leads to them other than by a call.
/// Each predecessor of a block is a block that has it as a successor.
pub proof fn law_shown_blocks_lead_to_shown_blocks(
    cfg: ControlFlowGraph,
    suppressed: Set<usize>,
    calls: Seq<DirectCall>,
    pc: usize,
)
    requires
        suppressed.finite(),
        forall|b: usize, i: int|
            cfg.blocks@.contains_key(b) && 0 <= i < cfg.blocks@[b].predecessors@.len()
                ==> cfg.blocks@.contains_key(#[trigger] cfg.blocks@[b].predecessors@[i])
                && cfg.blocks@[cfg.blocks@[b].predecessors@[i]].successors@.contains(b),
        still_suppressed(cfg, suppressed, calls).contains(pc),
    ensures
        suppressed.contains(pc),
        !entered(cfg, still_suppressed(cfg, suppressed, calls), calls, pc),
{
    let list = crate::ordered::ascending(suppressed);
    crate::ordered::lemma_ascending_exists(suppressed);
    let starts = entered_blocks(cfg, suppressed, calls, list, list.len());
    let next = edges(cfg, suppressed, true);
    let back = reach::reached(next, starts, Set::empty());
    let left = still_suppressed(cfg, suppressed, calls);
    if entered(cfg, left, calls, pc) {
        let i = choose|i: int|
            0 <= i < cfg.blocks@[pc].predecessors@.len() && !left.contains(
                #[trigger] cfg.blocks@[pc].predecessors@[i],
            ) && !call_edge(calls, cfg.blocks@[pc].predecessors@[i], pc);
        let p = cfg.blocks@[pc].predecessors@[i];
        if !suppressed.contains(p) {
            assert(entered(cfg, suppressed, calls, pc));
            assert(list.to_set().contains(pc));
            lemma_entered_listed(cfg, suppressed, calls, list, list.len(), pc);
            assert(reach::reached_in(next, starts, Set::empty(), pc, 0));
            assert(back.contains(pc));
        } else {
            assert(back.contains(p));
            let s = cfg.blocks@[p].successors@;
            lemma_filtered_holds(s, suppressed, s.len(), pc);
            assert(reach::leads(next, p, pc));
            reach::lemma_reached_closed(next, starts, Set::empty(), p, pc);
        }
        assert(false);
    }
}

proof fn lemma_entered_listed(
    cfg: ControlFlowGraph,
    suppressed: Set<usize>,
    calls: Seq<DirectCall>,
    list: Seq<usize>,
    n: nat,
    pc: usize,
)
    requires
        n <= list.len(),
        entered(cfg, suppressed, calls, pc),
        exists|k: int| 0 <= k < n && list[k] == pc,
    ensures
        entered_blocks(cfg, suppressed, calls, list, n).contains(pc),
    decreases n,
{
    let k = choose|k: int| 0 <= k < n && list[k] == pc;
    let rest = entered_blocks(cfg, suppressed, calls, list, (n - 1) as nat);
    ordered::lemma_push_key(rest, list[n - 1], pc);
    if k < n - 1 {
        lemma_entered_listed(cfg, suppressed, calls, list, (n - 1) as nat, pc);
    }
}

proof fn lemma_filtered_holds(list: Seq<usize>, set: Set<usize>, n: nat, x: usize)
    requires
        n <= list.len(),
        set.contains(x),
        exists|k: int| 0 <= k < n && list[k] == x,
    ensures
        filtered(list, set, true, n).contains(x),
    decreases n,
{
    let k = choose|k: int| 0 <= k < n && list[k] == x;
    ordered::lemma_push_key(filtered(list, set, true, (n - 1) as nat), list[n - 1], x);
    if k < n - 1 {
        lemma_filtered_holds(list, set, (n - 1) as nat, x);
    }
}

} // verus!
