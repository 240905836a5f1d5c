//! Detection of loops, if-then-else and switches.

use crate::cfg;
use crate::cfg::ControlFlowGraph;
use crate::decoder::DecodedProgram;
use crate::dominators;
use crate::dominators::DominatorTree;
use crate::instruction::{register_string, InstructionShape};
use crate::instruction;
use crate::loops;
use crate::loops::list_predecessors;
use crate::ordered;
use crate::ordered::{keys_of, members_of};
use crate::pvm::Instruction;
use crate::reach;
use crate::reach::reach_from;
use crate::text;
use crate::text::{push_dec, push_dec_signed, push_dec_wide, push_hex_prefixed};
use std::collections::BTreeSet;
use vstd::prelude::*;

verus! {

broadcast use vstd::laws_cmp::group_laws_cmp;

/// Function signature information for pseudo-code emission.
#[derive(Debug, Clone)]
pub struct FunctionSignature {
    /// Function name (e.g., "func_0", "main").
    pub name: String,
    /// Parameter register numbers, sorted.
    pub params: Vec<u8>,
}

#[derive(Debug, Clone, Copy, PartialEq, Eq, Structural)]
pub enum CondOp {
    Eq,
    Ne,
    GeS,
    GeU,
    LtU,
    /// Only written as the opposite of `GeS`.
    LtS,
}

#[derive(Debug, Clone, Copy, PartialEq, Eq, Structural)]
pub enum Operand {
    Reg(u8),
    Imm(i32),
}

/// A branch condition extracted from a terminator instruction.
#[derive(Debug, Clone, Copy, PartialEq, Eq, Structural)]
pub struct Condition {
    pub op: CondOp,
    pub lhs: Operand,
    pub rhs: Operand,
}

/// A recovered high-level control structure.
#[derive(Debug, Clone)]
#[allow(inconsistent_fields)]
pub enum Structure {
    /// A natural loop: header block dominates latch, latch has back-edge to header.
    Loop { header: usize, latch: usize, body: BTreeSet<usize>, condition: Option<Condition> },
    /// An if-then-else (diamond) or if-then (triangle) pattern.
    IfThenElse {
        header: usize,
        then_blocks: Vec<usize>,
        /// Empty for if-then (triangle).
        else_blocks: Vec<usize>,
        join: Option<usize>,
        condition: Option<Condition>,
    },
    /// A switch/case via indirect jump table.
    Switch {
        header: usize,
        reg: u8,
        /// Case values and target block PC.
        cases: Vec<(Vec<u32>, usize)>,
    },
}

/// What a structure is.
#[verifier::ext_equal]
#[allow(inconsistent_fields)]
pub enum Region {
    Loop { header: usize, latch: usize, body: Set<usize>, condition: Option<Condition> },
    IfThenElse {
        header: usize,
        then_blocks: Seq<usize>,
        else_blocks: Seq<usize>,
        join: Option<usize>,
        condition: Option<Condition>,
    },
    Switch { header: usize, reg: u8, cases: Seq<(Seq<u32>, usize)> },
}

pub open spec fn case_views(s: Seq<(Vec<u32>, usize)>) -> Seq<(Seq<u32>, usize)> {
    s.map_values(|c: (Vec<u32>, usize)| (c.0@, c.1))
}

impl View for Structure {
    type V = Region;

    open spec fn view(&self) -> Region {
        match *self {
            Structure::Loop { header, latch, body, condition } => Region::Loop {
                header,
                latch,
                body: body@,
                condition,
            },
            Structure::IfThenElse { header, then_blocks, else_blocks, join, condition } => Region::IfThenElse {
                header,
                then_blocks: then_blocks@,
                else_blocks: else_blocks@,
                join,
                condition,
            },
            Structure::Switch { header, reg, cases } => Region::Switch {
                header,
                reg,
                cases: case_views(cases@),
            },
        }
    }
}

pub open spec fn regions(s: Seq<Structure>) -> Seq<Region> {
    s.map_values(|x: Structure| x@)
}

/// The condition on which a branch is taken. A branch on two registers compares the second
/// with the first.
pub open spec fn condition_of(instr: Instruction) -> Option<Condition> {
    match instr {
        Instruction::BranchEqImm { reg, value, .. } => Some(
            Condition { op: CondOp::Eq, lhs: Operand::Reg(reg), rhs: Operand::Imm(value) },
        ),
        Instruction::BranchNeImm { reg, value, .. } => Some(
            Condition { op: CondOp::Ne, lhs: Operand::Reg(reg), rhs: Operand::Imm(value) },
        ),
        Instruction::BranchGeSImm { reg, value, .. } => Some(
            Condition { op: CondOp::GeS, lhs: Operand::Reg(reg), rhs: Operand::Imm(value) },
        ),
        Instruction::BranchGeU { reg1, reg2, .. } => Some(
            Condition { op: CondOp::GeU, lhs: Operand::Reg(reg2), rhs: Operand::Reg(reg1) },
        ),
        Instruction::BranchLtU { reg1, reg2, .. } => Some(
            Condition { op: CondOp::LtU, lhs: Operand::Reg(reg2), rhs: Operand::Reg(reg1) },
        ),
        _ => None,
    }
}

/// Extract a branch condition from a terminator instruction.
pub fn extract_condition(instr: &Instruction) -> (r: Option<Condition>)
    ensures
        r == condition_of(*instr),
{
    match instr {
        Instruction::BranchEqImm { reg, value, .. } => Some(
            Condition { op: CondOp::Eq, lhs: Operand::Reg(*reg), rhs: Operand::Imm(*value) },
        ),
        Instruction::BranchNeImm { reg, value, .. } => Some(
            Condition { op: CondOp::Ne, lhs: Operand::Reg(*reg), rhs: Operand::Imm(*value) },
        ),
        Instruction::BranchGeSImm { reg, value, .. } => Some(
            Condition { op: CondOp::GeS, lhs: Operand::Reg(*reg), rhs: Operand::Imm(*value) },
        ),
        Instruction::BranchGeU { reg1, reg2, .. } => Some(
            Condition { op: CondOp::GeU, lhs: Operand::Reg(*reg2), rhs: Operand::Reg(*reg1) },
        ),
        Instruction::BranchLtU { reg1, reg2, .. } => Some(
            Condition { op: CondOp::LtU, lhs: Operand::Reg(*reg2), rhs: Operand::Reg(*reg1) },
        ),
        _ => None,
    }
}

/// The condition of the last instruction of the block at `pc`.
pub open spec fn block_condition(cfg: ControlFlowGraph, pc: usize) -> Option<Condition> {
    if cfg.blocks@.contains_key(pc) && cfg.blocks@[pc].instructions@.len() > 0 {
        condition_of(cfg.blocks@[pc].instructions@.last().1)
    } else {
        None
    }
}

fn find_condition(cfg: &ControlFlowGraph, pc: usize) -> (r: Option<Condition>)
    ensures
        r == block_condition(*cfg, pc),
{
    match cfg.blocks.get(&pc) {
        Some(block) => {
            let n: usize = block.instructions.len();
            if n > 0 {
                extract_condition(&block.instructions[n - 1].1)
            } else {
                None
            }
        },
        None => None,
    }
}

impl CondOp {
    /// The comparison that holds exactly where this one does not.
    pub open spec fn opposite(self) -> CondOp {
        match self {
            CondOp::Eq => CondOp::Ne,
            CondOp::Ne => CondOp::Eq,
            CondOp::GeS => CondOp::LtS,
            CondOp::LtS => CondOp::GeS,
            CondOp::GeU => CondOp::LtU,
            CondOp::LtU => CondOp::GeU,
        }
    }

    fn negate(self) -> (r: CondOp)
        ensures
            r == self.opposite(),
    {
        match self {
            CondOp::Eq => CondOp::Ne,
            CondOp::Ne => CondOp::Eq,
            CondOp::GeS => CondOp::LtS,
            CondOp::LtS => CondOp::GeS,
            CondOp::GeU => CondOp::LtU,
            CondOp::LtU => CondOp::GeU,
        }
    }

    /// Whether the comparison holds of two values.
    pub open spec fn holds(self, l: u64, r: u64) -> bool {
        match self {
            CondOp::Eq => l == r,
            CondOp::Ne => l != r,
            CondOp::GeS => l as i64 >= r as i64,
            CondOp::LtS => (l as i64) < (r as i64),
            CondOp::GeU => l >= r,
            CondOp::LtU => l < r,
        }
    }
}

/// Whether the block at `header` ends with a branch that, if taken, leaves `body`.
pub open spec fn branches_out(cfg: ControlFlowGraph, header: usize, body: Set<usize>) -> bool {
    let code = cfg.blocks@[header].instructions@;
    &&& cfg.blocks@.contains_key(header)
    &&& code.len() > 0
    &&& instruction::classified(code.last().1).conditional()
    &&& cfg::target_of(code.last()) matches Some(t) && !body.contains(t)
}

/// The condition on which a loop goes on: that of the branch in its header, or the opposite
/// where the branch leaves the loop.
pub open spec fn continue_condition(
    cfg: ControlFlowGraph,
    header: usize,
    body: Set<usize>,
    c: Option<Condition>,
) -> Option<Condition> {
    match c {
        Some(c) => Some(
            if branches_out(cfg, header, body) {
                Condition { op: c.op.opposite(), ..c }
            } else {
                c
            },
        ),
        None => None,
    }
}

fn leads_out(cfg: &ControlFlowGraph, header: usize, body: &BTreeSet<usize>) -> (r: bool)
    ensures
        r == branches_out(*cfg, header, body@),
{
    match cfg.blocks.get(&header) {
        Some(block) => {
            let n: usize = block.instructions.len();
            if n == 0 {
                return false;
            }
            let pc: usize = block.instructions[n - 1].0;
            let shape = InstructionShape::classify(&block.instructions[n - 1].1);
            match shape.branch_offset() {
                Some(offset) => shape.is_conditional_branch() && !body.contains(
                    &ControlFlowGraph::compute_jump_target(pc, offset),
                ),
                None => false,
            }
        },
        None => false,
    }
}

/// Turn the condition of a loop's branch into that on which the loop goes on.
pub fn find_continue_condition(
    cfg: &ControlFlowGraph,
    header: usize,
    body: &BTreeSet<usize>,
    c: &Option<Condition>,
) -> (r: Option<Condition>)
    ensures
        r == continue_condition(*cfg, header, body@, *c),
{
    match c {
        Some(c) => {
            if leads_out(cfg, header, body) {
                Some(Condition { op: c.op.negate(), lhs: c.lhs, rhs: c.rhs })
            } else {
                Some(*c)
            }
        },
        None => None,
    }
}

/// Whether the edge from the block `b` to `h` closes a loop.
pub open spec fn closes_loop(
    b: cfg::BasicBlock,
    idom: Map<usize, usize>,
    h: usize,
) -> bool {
    (dominators::above(idom, h, b.start_pc) && h != b.start_pc) || (h == b.start_pc
        && b.predecessors@.contains(b.start_pc))
}

/// Header and latch for the first `n` edges of a block that close a loop.
pub open spec fn closing_edges(b: cfg::BasicBlock, idom: Map<usize, usize>, n: nat) -> Seq<
    (usize, usize),
>
    decreases n,
{
    if n == 0 {
        seq![]
    } else {
        let rest = closing_edges(b, idom, (n - 1) as nat);
        if closes_loop(b, idom, b.successors@[n - 1]) {
            rest.push((b.successors@[n - 1], b.start_pc))
        } else {
            rest
        }
    }
}

pub open spec fn edges_of_blocks(
    cfg: ControlFlowGraph,
    idom: Map<usize, usize>,
    keys: Seq<usize>,
    n: nat,
) -> Seq<(usize, usize)>
    decreases n,
{
    if n == 0 {
        seq![]
    } else {
        let b = cfg.blocks@[keys[n - 1]];
        edges_of_blocks(cfg, idom, keys, (n - 1) as nat) + closing_edges(
            b,
            idom,
            b.successors@.len(),
        )
    }
}

/// Insert an edge behind those whose header is not greater.
pub open spec fn insert_edge(s: Seq<(usize, usize)>, e: (usize, usize)) -> Seq<(usize, usize)>
    decreases s.len(),
{
    if s.len() == 0 || s.last().0 <= e.0 {
        s.push(e)
    } else {
        insert_edge(s.drop_last(), e).push(s.last())
    }
}

/// The first `n` edges, ordered by header.
pub open spec fn by_header(s: Seq<(usize, usize)>, n: nat) -> Seq<(usize, usize)>
    decreases n,
{
    if n == 0 {
        seq![]
    } else {
        insert_edge(by_header(s, (n - 1) as nat), s[n - 1])
    }
}

/// The edges that close loops, ordered by header.
pub open spec fn loop_edges(cfg: ControlFlowGraph, idom: Map<usize, usize>) -> Seq<(usize, usize)> {
    let keys = ordered::ascending(cfg.blocks@.dom());
    let all = edges_of_blocks(cfg, idom, keys, keys.len());
    by_header(all, all.len())
}

/// The blocks of the loop that the edge from `latch` to `header` closes: all from which
/// the latch can be reached without passing the header.
pub open spec fn natural_loop(cfg: ControlFlowGraph, header: usize, latch: usize) -> Set<usize> {
    if header == latch {
        Set::empty().insert(header)
    } else {
        reach::reached(
            loops::predecessor_lists(cfg),
            seq![latch],
            Set::empty().insert(header),
        ).insert(header)
    }
}

pub open spec fn loop_region(cfg: ControlFlowGraph, edge: (usize, usize)) -> Region {
    Region::Loop {
        header: edge.0,
        latch: edge.1,
        body: natural_loop(cfg, edge.0, edge.1),
        condition: block_condition(cfg, edge.0),
    }
}

/// The loops of a graph.
pub open spec fn loops_of(cfg: ControlFlowGraph, idom: Map<usize, usize>) -> Seq<Region> {
    loop_edges(cfg, idom).map_values(|e: (usize, usize)| loop_region(cfg, e))
}

fn put_edge(s: &mut Vec<(usize, usize)>, e: (usize, usize))
    ensures
        final(s)@ == insert_edge(old(s)@, e),
    decreases old(s)@.len(),
{
    let n: usize = s.len();
    if n == 0 {
        s.push(e);
        return;
    }
    let last: (usize, usize) = s[n - 1];
    if last.0 <= e.0 {
        s.push(e);
        return;
    }
    s.pop();
    assert(s@ =~= old(s)@.drop_last());
    put_edge(s, e);
    s.push(last);
}

fn list_loop_edges(cfg: &ControlFlowGraph, dom_tree: &DominatorTree) -> (r: Vec<(usize, usize)>)
    requires
        dom_tree.wf(),
    ensures
        r@ == loop_edges(*cfg, dom_tree.idom@),
{
    let ghost idom = dom_tree.idom@;
    let keys = keys_of(&cfg.blocks);
    let mut all: Vec<(usize, usize)> = Vec::new();
    let mut n: usize = 0;
    while n < keys.len()
        invariant
            n <= keys@.len(),
            dom_tree.wf(),
            idom == dom_tree.idom@,
            keys@.to_set() == cfg.blocks@.dom(),
            all@ =~= edges_of_blocks(*cfg, idom, keys@, n as nat),
        decreases keys@.len() - n,
    {
        let key: usize = keys[n];
        assert(keys@.to_set().contains(key));
        let ghost head = all@;
        if let Some(b) = cfg.blocks.get(&key) {
            let mut j: usize = 0;
            while j < b.successors.len()
                invariant
                    j <= b.successors@.len(),
                    dom_tree.wf(),
                    idom == dom_tree.idom@,
                    all@ =~= head + closing_edges(*b, idom, j as nat),
                decreases b.successors@.len() - j,
            {
                let h: usize = b.successors[j];
                let closes: bool = if h == b.start_pc {
                    crate::dataflow::holds_pc(&b.predecessors, b.start_pc)
                } else {
                    dom_tree.dominates(h, b.start_pc)
                };
                if closes {
                    all.push((h, b.start_pc));
                }
                j = j + 1;
            }
        }
        n = n + 1;
    }
    let mut r: Vec<(usize, usize)> = Vec::new();
    let mut i: usize = 0;
    while i < all.len()
        invariant
            i <= all@.len(),
            r@ == by_header(all@, i as nat),
        decreases all@.len() - i,
    {
        put_edge(&mut r, all[i]);
        i = i + 1;
    }
    r
}

/// Detect natural loops by finding back-edges.
fn detect_loops(cfg: &ControlFlowGraph, dom_tree: &DominatorTree) -> (r: Vec<Structure>)
    requires
        dom_tree.wf(),
    ensures
        regions(r@) == loops_of(*cfg, dom_tree.idom@),
{
    let edges = list_loop_edges(cfg, dom_tree);
    let before = list_predecessors(cfg);
    let ghost idom = dom_tree.idom@;
    let mut r: Vec<Structure> = Vec::new();
    let mut i: usize = 0;
    while i < edges.len()
        invariant
            i <= edges@.len(),
            edges@ == loop_edges(*cfg, idom),
            reach::lists(before@) == loops::predecessor_lists(*cfg),
            regions(r@) =~= loops_of(*cfg, idom).take(i as int),
        decreases edges@.len() - i,
    {
        let (header, latch) = edges[i];
        let mut body: BTreeSet<usize> = BTreeSet::new();
        if header != latch {
            let mut starts: Vec<usize> = Vec::new();
            starts.push(latch);
            assert(starts@ =~= seq![latch]);
            let mut barred: BTreeSet<usize> = BTreeSet::new();
            barred.insert(header);
            body = reach_from(&before, &starts, &barred);
        }
        body.insert(header);
        let condition = find_condition(cfg, header);
        let ghost held = regions(r@);
        r.push(Structure::Loop { header, latch, body, condition });
        assert(regions(r@) =~= held.push(loop_region(*cfg, edges@[i as int])));
        i = i + 1;
    }
    r
}

/// Whether `n` is `start` or at most `k` edges from it, not touching `stop` on the way.
pub open spec fn within(
    cfg: ControlFlowGraph,
    start: usize,
    stop: usize,
    n: usize,
    k: nat,
) -> bool
    decreases k,
{
    if k == 0 {
        n == start
    } else {
        within(cfg, start, stop, n, (k - 1) as nat) || (n != stop && exists|m: usize|
            #[trigger] dominators::edge(cfg, m, n) && within(cfg, start, stop, m, (k - 1) as nat))
    }
}

/// The blocks near `start`: at most twenty edges away.
pub open spec fn nearby(cfg: ControlFlowGraph, start: usize, stop: usize, k: nat) -> Set<usize> {
    Set::new(|n: usize| within(cfg, start, stop, n, k))
}

/// Number of edges that a forward walk takes at most.
pub const MAX_WALK: usize = 20;

/// Collect blocks reachable in a forward walk from `start`, stopping at back-edges
/// to `stop` and limiting depth.
fn forward_reachable(cfg: &ControlFlowGraph, start: usize, stop: usize) -> (r: BTreeSet<usize>)
    ensures
        r@ == nearby(*cfg, start, stop, MAX_WALK as nat),
{
    let mut r: BTreeSet<usize> = BTreeSet::new();
    r.insert(start);
    assert(r@ =~= nearby(*cfg, start, stop, 0));
    let mut k: usize = 0;
    while k < MAX_WALK
        invariant
            k <= MAX_WALK,
            r@ == nearby(*cfg, start, stop, k as nat),
        decreases MAX_WALK - k,
    {
        let ghost near = r@;
        let list = members_of(&r);
        let mut i: usize = 0;
        while i < list.len()
            invariant
                i <= list@.len(),
                list@.to_set() == near,
                forall|n: usize| #[trigger]
                    r@.contains(n) <==> near.contains(n) || (n != stop && exists|j: int|
                        0 <= j < i && dominators::edge(*cfg, #[trigger] list@[j], n)),
            decreases list@.len() - i,
        {
            let m: usize = list[i];
            let ghost held = r@;
            if let Some(b) = cfg.blocks.get(&m) {
                let mut j: usize = 0;
                while j < b.successors.len()
                    invariant
                        j <= b.successors@.len(),
                        forall|n: usize| #[trigger]
                            r@.contains(n) <==> held.contains(n) || (n != stop
                                && b.successors@.take(j as int).contains(n)),
                    decreases b.successors@.len() - j,
                {
                    let t: usize = b.successors[j];
                    let ghost was = r@;
                    if t != stop {
                        r.insert(t);
                    }
                    assert(b.successors@.take(j + 1) =~= b.successors@.take(j as int).push(t));
                    assert forall|n: usize| #[trigger] r@.contains(n) <==> held.contains(n) || (n
                        != stop && b.successors@.take(j + 1).contains(n)) by {
                        ordered::lemma_push_key(b.successors@.take(j as int), t, n);
                        assert(was.contains(n) <==> held.contains(n) || (n != stop
                            && b.successors@.take(j as int).contains(n)));
                    }
                    j = j + 1;
                }
                assert(b.successors@.take(j as int) =~= b.successors@);
            }
            assert forall|n: usize| #[trigger] r@.contains(n) <==> near.contains(n) || (n != stop
                && exists|j: int|
                0 <= j < i + 1 && dominators::edge(*cfg, #[trigger] list@[j], n)) by {
                assert(held.contains(n) <==> near.contains(n) || (n != stop && exists|j: int|
                    0 <= j < i && dominators::edge(*cfg, #[trigger] list@[j], n)));
                if dominators::edge(*cfg, m, n) {
                    assert(list@[i as int] == m);
                }
            }
            i = i + 1;
        }
        proof {
            assert forall|n: usize| r@.contains(n) == nearby(
                *cfg,
                start,
                stop,
                (k + 1) as nat,
            ).contains(n) by {
                if n != stop && exists|m: usize|
                    #[trigger] dominators::edge(*cfg, m, n) && within(
                        *cfg,
                        start,
                        stop,
                        m,
                        k as nat,
                    ) {
                    let m = choose|m: usize|
                        #[trigger] dominators::edge(*cfg, m, n) && within(
                            *cfg,
                            start,
                            stop,
                            m,
                            k as nat,
                        );
                    assert(near.contains(m));
                    assert(list@.to_set().contains(m));
                    let j = choose|j: int| 0 <= j < list@.len() && list@[j] == m;
                    assert(dominators::edge(*cfg, list@[j], n));
                }
                if exists|j: int|
                    0 <= j < list@.len() && dominators::edge(*cfg, #[trigger] list@[j], n) {
                    let j = choose|j: int|
                        0 <= j < list@.len() && dominators::edge(*cfg, #[trigger] list@[j], n);
                    assert(list@.to_set().contains(list@[j]));
                    assert(near.contains(list@[j]));
                }
            }
            assert(r@ =~= nearby(*cfg, start, stop, (k + 1) as nat));
        }
        k = k + 1;
    }
    r
}

/// A breadth-first search: what waits, what was visited, and what was found.
#[verifier::ext_equal]
pub struct Search {
    pub queue: Seq<usize>,
    pub visited: Set<usize>,
    pub found: Option<usize>,
}

/// Where and what a search for a join looks.
#[verifier::ext_equal]
pub struct Goal {
    pub cfg: ControlFlowGraph,
    pub idom: Map<usize, usize>,
    /// Blocks that the other branch reaches.
    pub near: Set<usize>,
    /// The block that branches.
    pub header: usize,
}

/// Whether the search goes on to `t`.
pub open spec fn goes_on(g: Goal, visited: Set<usize>, t: usize) -> bool {
    !visited.contains(t) && !dominators::above(g.idom, t, g.header)
}

pub open spec fn enqueue(
    g: Goal,
    q: Seq<usize>,
    visited: Set<usize>,
    list: Seq<usize>,
    n: nat,
) -> Seq<usize>
    decreases n,
{
    if n == 0 {
        q
    } else {
        let rest = enqueue(g, q, visited, list, (n - 1) as nat);
        if goes_on(g, visited, list[n - 1]) {
            rest.push(list[n - 1])
        } else {
            rest
        }
    }
}

pub open spec fn search_step(g: Goal, s: Search) -> Search {
    if s.queue.len() == 0 || s.found is Some {
        s
    } else {
        let node = s.queue[0];
        let rest = s.queue.subrange(1, s.queue.len() as int);
        if s.visited.contains(node) {
            Search { queue: rest, ..s }
        } else if g.near.contains(node) {
            Search { queue: rest, visited: s.visited.insert(node), found: Some(node) }
        } else {
            let visited = s.visited.insert(node);
            let list = crate::graph::successors_at(g.cfg, node);
            Search { queue: enqueue(g, rest, visited, list, list.len()), visited, ..s }
        }
    }
}

pub open spec fn search_steps(g: Goal, s: Search, n: nat) -> Search
    decreases n,
{
    if n == 0 {
        s
    } else {
        search_step(g, search_steps(g, s, (n - 1) as nat))
    }
}

/// Whether a search is over.
pub open spec fn over(s: Search) -> bool {
    s.queue.len() == 0 || s.found is Some
}

/// The end of the search from `entry`.
pub open spec fn searched(g: Goal, entry: usize) -> Search {
    let s = Search { queue: seq![entry], visited: Set::empty(), found: None };
    search_steps(g, s, choose|n: nat| over(search_steps(g, s, n)))
}

proof fn lemma_search_rests(g: Goal, s: Search, a: nat, b: nat)
    requires
        over(search_steps(g, s, a)),
        a <= b,
    ensures
        search_steps(g, s, b) == search_steps(g, s, a),
    decreases b,
{
    if a < b {
        lemma_search_rests(g, s, a, (b - 1) as nat);
    }
}

proof fn lemma_search_end(g: Goal, entry: usize, a: nat)
    requires
        over(
            search_steps(
                g,
                Search { queue: seq![entry], visited: Set::empty(), found: None },
                a,
            ),
        ),
    ensures
        searched(g, entry) == search_steps(
            g,
            Search { queue: seq![entry], visited: Set::empty(), found: None },
            a,
        ),
{
    let s = Search { queue: seq![entry], visited: Set::empty(), found: None };
    let b = choose|n: nat| over(search_steps(g, s, n));
    if a <= b {
        lemma_search_rests(g, s, a, b);
    } else {
        lemma_search_rests(g, s, b, a);
    }
}

/// The block where two branches join: the first that a breadth-first search from the
/// second meets among those that the first reaches, its own entry included.
pub open spec fn join_of(
    cfg: ControlFlowGraph,
    idom: Map<usize, usize>,
    a: usize,
    b: usize,
    header: usize,
) -> Option<usize> {
    let near = nearby(cfg, a, header, MAX_WALK as nat);
    searched(Goal { cfg, idom, near, header }, b).found
}

/// Find the nearest common join block reachable from both successors.
fn find_join_point(
    cfg: &ControlFlowGraph,
    a: usize,
    b: usize,
    header: usize,
    dom_tree: &DominatorTree,
) -> (r: Option<usize>)
    requires
        dom_tree.wf(),
    ensures
        r == join_of(*cfg, dom_tree.idom@, a, b, header),
{
    let near = forward_reachable(cfg, a, header);
    let ghost g = Goal { cfg: *cfg, idom: dom_tree.idom@, near: near@, header };
    let ghost start = Search { queue: seq![b], visited: Set::empty(), found: None };
    let ghost all = crate::graph::edge_targets(*cfg).insert(b);
    proof {
        crate::graph::lemma_edge_targets_finite(*cfg);
    }
    let mut queue: Vec<usize> = Vec::new();
    queue.push(b);
    let mut visited: BTreeSet<usize> = BTreeSet::new();
    let mut found: Option<usize> = None;
    let mut steps: Ghost<nat> = Ghost(0nat);
    assert(queue@ =~= seq![b]);
    while queue.len() > 0 && found.is_none()
        invariant
            dom_tree.wf(),
            g == (Goal { cfg: *cfg, idom: dom_tree.idom@, near: near@, header }),
            start == (Search { queue: seq![b], visited: Set::empty(), found: None }),
            all == crate::graph::edge_targets(*cfg).insert(b),
            all.finite(),
            visited@.subset_of(all),
            forall|i: int| 0 <= i < queue@.len() ==> all.contains(#[trigger] queue@[i]),
            search_steps(g, start, steps@) == (Search { queue: queue@, visited: visited@, found }),
        decreases
                (if found.is_none() {
                    1int
                } else {
                    0int
                }),
                all.difference(visited@).len(),
                queue@.len(),
    {
        let ghost before = Search { queue: queue@, visited: visited@, found };
        let ghost held = visited@;
        let node: usize = queue.remove(0);
        let ghost rest = queue@;
        assert(rest =~= before.queue.subrange(1, before.queue.len() as int));
        assert(all.contains(before.queue[0]));
        assert forall|i: int| 0 <= i < rest.len() implies all.contains(#[trigger] rest[i]) by {
            assert(rest[i] == before.queue[i + 1]);
        }
        if !visited.contains(&node) {
            visited.insert(node);
            proof {
                assert(all.difference(visited@) =~= all.difference(held).remove(node));
                assert(all.difference(held).contains(node));
            }
            if near.contains(&node) {
                found = Some(node);
            } else {
                let ghost list = crate::graph::successors_at(*cfg, node);
                if let Some(block) = cfg.blocks.get(&node) {
                    let mut j: usize = 0;
                    while j < block.successors.len()
                        invariant
                            j <= block.successors@.len(),
                            dom_tree.wf(),
                            g == (Goal {
                                cfg: *cfg,
                                idom: dom_tree.idom@,
                                near: near@,
                                header,
                            }),
                            all == crate::graph::edge_targets(*cfg).insert(b),
                            cfg.blocks@.contains_key(node),
                            *block == cfg.blocks@[node],
                            list == block.successors@,
                            queue@ == enqueue(g, rest, visited@, list, j as nat),
                            forall|i: int|
                                0 <= i < queue@.len() ==> all.contains(#[trigger] queue@[i]),
                        decreases block.successors@.len() - j,
                    {
                        let t: usize = block.successors[j];
                        assert(crate::graph::edge_targets(*cfg).contains(t)) by {
                            assert(cfg.blocks@.contains_key(node));
                            assert(block.successors@.contains(t));
                        }
                        if !visited.contains(&t) && !dom_tree.dominates(t, header) {
                            queue.push(t);
                        }
                        j = j + 1;
                    }
                } else {
                    assert(list =~= seq![]);
                }
            }
        }
        proof {
            assert(search_steps(g, start, steps@ + 1) == search_step(
                g,
                search_steps(g, start, steps@),
            ));
            steps@ = steps@ + 1;
        }
    }
    proof {
        lemma_search_end(g, b, steps@);
    }
    found
}

/// The headers of loops.
pub open spec fn headers_of(cfg: ControlFlowGraph, idom: Map<usize, usize>) -> Set<usize> {
    loop_edges(cfg, idom).map_values(|e: (usize, usize)| e.0).to_set()
}

/// The if-then-else at `pc`: a block with two successors that is no loop header and
/// whose edges close no loop. A branch that leads straight to the join is empty.
pub open spec fn if_at(
    cfg: ControlFlowGraph,
    idom: Map<usize, usize>,
    headers: Set<usize>,
    pc: usize,
) -> Option<Region> {
    if cfg.blocks@.contains_key(pc) && cfg.blocks@[pc].successors@.len() == 2 && !headers.contains(
        pc,
    ) {
        let a = cfg.blocks@[pc].successors@[0];
        let b = cfg.blocks@[pc].successors@[1];
        if dominators::above(idom, a, pc) || dominators::above(idom, b, pc) {
            None
        } else {
            let join = join_of(cfg, idom, a, b, pc);
            Some(
                Region::IfThenElse {
                    header: pc,
                    then_blocks: if join == Some(a) {
                        seq![]
                    } else {
                        seq![a]
                    },
                    else_blocks: if join == Some(b) && join != Some(a) {
                        seq![]
                    } else {
                        seq![b]
                    },
                    join,
                    condition: block_condition(cfg, pc),
                },
            )
        }
    } else {
        None
    }
}

/// The if-then-elses among the first `n` blocks of `order`.
pub open spec fn ifs_of(
    cfg: ControlFlowGraph,
    idom: Map<usize, usize>,
    headers: Set<usize>,
    order: Seq<usize>,
    n: nat,
) -> Seq<Region>
    decreases n,
{
    if n == 0 {
        seq![]
    } else {
        let rest = ifs_of(cfg, idom, headers, order, (n - 1) as nat);
        match if_at(cfg, idom, headers, order[n - 1]) {
            Some(r) => rest.push(r),
            None => rest,
        }
    }
}

fn detect_if(
    cfg: &ControlFlowGraph,
    dom_tree: &DominatorTree,
    headers: &BTreeSet<usize>,
    pc: usize,
) -> (r: Option<Structure>)
    requires
        dom_tree.wf(),
    ensures
        match r {
            Some(s) => if_at(*cfg, dom_tree.idom@, headers@, pc) == Some(s@),
            None => if_at(*cfg, dom_tree.idom@, headers@, pc) is None,
        },
{
    let block = match cfg.blocks.get(&pc) {
        Some(b) => b,
        None => {
            return None;
        },
    };
    if block.successors.len() != 2 || headers.contains(&pc) {
        return None;
    }
    let a: usize = block.successors[0];
    let b: usize = block.successors[1];
    if dom_tree.dominates(a, pc) || dom_tree.dominates(b, pc) {
        return None;
    }
    let join = find_join_point(cfg, a, b, pc, dom_tree);
    let mut then_blocks: Vec<usize> = Vec::new();
    let mut else_blocks: Vec<usize> = Vec::new();
    let joins_a: bool = match join {
        Some(j) => j == a,
        None => false,
    };
    let joins_b: bool = match join {
        Some(j) => j == b,
        None => false,
    };
    if !joins_a {
        then_blocks.push(a);
    }
    if joins_a || !joins_b {
        else_blocks.push(b);
    }
    let condition = find_condition(cfg, pc);
    let s = Structure::IfThenElse { header: pc, then_blocks, else_blocks, join, condition };
    assert(s@ =~= if_at(*cfg, dom_tree.idom@, headers@, pc)->0) by {
        assert(then_blocks@ =~= if join == Some(a) {
            seq![]
        } else {
            seq![a]
        });
        assert(else_blocks@ =~= if join == Some(b) && join != Some(a) {
            seq![]
        } else {
            seq![b]
        });
    }
    Some(s)
}

/// Detect if-then-else (diamond) and if-then (triangle) patterns.
fn detect_if_then_else(
    cfg: &ControlFlowGraph,
    dom_tree: &DominatorTree,
    headers: &BTreeSet<usize>,
) -> (r: Vec<Structure>)
    requires
        dom_tree.wf(),
    ensures
        regions(r@) == ifs_of(
            *cfg,
            dom_tree.idom@,
            headers@,
            dom_tree.rpo@,
            dom_tree.rpo@.len(),
        ),
{
    let mut r: Vec<Structure> = Vec::new();
    let mut i: usize = 0;
    while i < dom_tree.rpo.len()
        invariant
            i <= dom_tree.rpo@.len(),
            dom_tree.wf(),
            regions(r@) =~= ifs_of(*cfg, dom_tree.idom@, headers@, dom_tree.rpo@, i as nat),
        decreases dom_tree.rpo@.len() - i,
    {
        let ghost held = regions(r@);
        if let Some(s) = detect_if(cfg, dom_tree, headers, dom_tree.rpo[i]) {
            r.push(s);
            assert(regions(r@) =~= held.push(s@));
        }
        i = i + 1;
    }
    r
}

/// The targets of a jump table.
pub open spec fn table_targets(table: Seq<u32>) -> Set<usize> {
    table.map_values(|t: u32| t as usize).to_set()
}

/// The indices among the first `n` entries that lead to `target`.
pub open spec fn indices_of(table: Seq<u32>, target: usize, n: nat) -> Seq<u32>
    decreases n,
{
    if n == 0 {
        seq![]
    } else {
        let rest = indices_of(table, target, (n - 1) as nat);
        if table[n - 1] as usize == target {
            rest.push((n - 1) as u32)
        } else {
            rest
        }
    }
}

/// The entries of a jump table by target, in ascending order.
pub open spec fn table_cases(table: Seq<u32>) -> Seq<(Seq<u32>, usize)> {
    ordered::ascending(table_targets(table)).map_values(
        |t: usize| (indices_of(table, t, table.len()), t),
    )
}

/// The switch at the block `b`: it ends with an indirect jump, and there is a table.
pub open spec fn switch_at(b: cfg::BasicBlock, table: Seq<u32>) -> Option<Region> {
    if b.instructions@.len() > 0 && table.len() > 0 {
        match b.instructions@.last().1 {
            Instruction::JumpInd { reg, .. } => Some(
                Region::Switch { header: b.start_pc, reg, cases: table_cases(table) },
            ),
            _ => None,
        }
    } else {
        None
    }
}

pub open spec fn switches_of(
    cfg: ControlFlowGraph,
    table: Seq<u32>,
    keys: Seq<usize>,
    n: nat,
) -> Seq<Region>
    decreases n,
{
    if n == 0 {
        seq![]
    } else {
        let rest = switches_of(cfg, table, keys, (n - 1) as nat);
        match switch_at(cfg.blocks@[keys[n - 1]], table) {
            Some(r) => rest.push(r),
            None => rest,
        }
    }
}

fn list_cases(table: &Vec<u32>) -> (r: Vec<(Vec<u32>, usize)>)
    ensures
        case_views(r@) == table_cases(table@),
{
    let ghost seen = table@.map_values(|t: u32| t as usize);
    let mut targets: BTreeSet<usize> = BTreeSet::new();
    let mut i: usize = 0;
    assert(seen.take(0).to_set() =~= Set::empty());
    while i < table.len()
        invariant
            i <= table@.len(),
            seen == table@.map_values(|t: u32| t as usize),
            targets@ == seen.take(i as int).to_set(),
        decreases table@.len() - i,
    {
        let t: usize = table[i] as usize;
        targets.insert(t);
        proof {
            assert(seen.take(i + 1) =~= seen.take(i as int).push(t));
            assert forall|v: usize| seen.take(i + 1).to_set().contains(v) == targets@.contains(
                v,
            ) by {
                ordered::lemma_push_key(seen.take(i as int), t, v);
                assert(seen.take(i as int).to_set().contains(v) == seen.take(i as int).contains(v));
            }
            assert(targets@ =~= seen.take(i + 1).to_set());
        }
        i = i + 1;
    }
    assert(seen.take(i as int) =~= seen);
    let list = members_of(&targets);
    let mut r: Vec<(Vec<u32>, usize)> = Vec::new();
    let mut n: usize = 0;
    while n < list.len()
        invariant
            n <= list@.len(),
            list@ == ordered::ascending(table_targets(table@)),
            case_views(r@) =~= table_cases(table@).take(n as int),
        decreases list@.len() - n,
    {
        let target: usize = list[n];
        let mut values: Vec<u32> = Vec::new();
        let mut j: usize = 0;
        while j < table.len()
            invariant
                j <= table@.len(),
                values@ == indices_of(table@, target, j as nat),
            decreases table@.len() - j,
        {
            if table[j] as usize == target {
                values.push(j as u32);
            }
            j = j + 1;
        }
        let ghost held = case_views(r@);
        r.push((values, target));
        assert(case_views(r@) =~= held.push((values@, target)));
        n = n + 1;
    }
    r
}

/// Detect switch/case patterns from indirect jumps with jump tables.
fn detect_switches(cfg: &ControlFlowGraph, program: &DecodedProgram) -> (r: Vec<Structure>)
    ensures
        regions(r@) == switches_of(
            *cfg,
            program.jump_table@,
            ordered::ascending(cfg.blocks@.dom()),
            ordered::ascending(cfg.blocks@.dom()).len(),
        ),
{
    let ghost table = program.jump_table@;
    let keys = keys_of(&cfg.blocks);
    let mut r: Vec<Structure> = Vec::new();
    let mut n: usize = 0;
    while n < keys.len()
        invariant
            n <= keys@.len(),
            keys@.to_set() == cfg.blocks@.dom(),
            table == program.jump_table@,
            regions(r@) =~= switches_of(*cfg, table, keys@, n as nat),
        decreases keys@.len() - n,
    {
        let key: usize = keys[n];
        assert(keys@.to_set().contains(key));
        if let Some(b) = cfg.blocks.get(&key) {
            let len: usize = b.instructions.len();
            if len > 0 && program.jump_table.len() > 0 {
                if let Instruction::JumpInd { reg, .. } = &b.instructions[len - 1].1 {
                    let cases = list_cases(&program.jump_table);
                    let ghost held = regions(r@);
                    let s = Structure::Switch { header: b.start_pc, reg: *reg, cases };
                    assert(s@ =~= switch_at(*b, table)->0);
                    r.push(s);
                    assert(regions(r@) =~= held.push(s@));
                }
            }
        }
        n = n + 1;
    }
    r
}

/// Result of structural analysis.
#[derive(Debug)]
pub struct StructuralAnalysis {
    pub structures: Vec<Structure>,
    pub dom_tree: DominatorTree,
}

/// The structures of a graph: loops, then if-then-elses, then switches.
pub open spec fn structures_of(
    cfg: ControlFlowGraph,
    table: Seq<u32>,
    idom: Map<usize, usize>,
    order: Seq<usize>,
) -> Seq<Region> {
    if cfg.blocks@.dom().len() == 0 {
        seq![]
    } else {
        let keys = ordered::ascending(cfg.blocks@.dom());
        loops_of(cfg, idom) + ifs_of(cfg, idom, headers_of(cfg, idom), order, order.len())
            + switches_of(cfg, table, keys, keys.len())
    }
}

fn append_structures(to: &mut Vec<Structure>, from: Vec<Structure>)
    ensures
        regions(final(to)@) == regions(old(to)@) + regions(from@),
{
    let ghost added = regions(from@);
    let mut rest = from;
    to.append(&mut rest);
    assert(regions(to@) =~= regions(old(to)@) + added);
}

fn loop_headers_in(structures: &Vec<Structure>, cfg: Ghost<ControlFlowGraph>, idom: Ghost<
    Map<usize, usize>,
>) -> (r: BTreeSet<usize>)
    requires
        regions(structures@) == loops_of(cfg@, idom@),
    ensures
        r@ == headers_of(cfg@, idom@),
{
    let ghost heads = loop_edges(cfg@, idom@).map_values(|e: (usize, usize)| e.0);
    let mut r: BTreeSet<usize> = BTreeSet::new();
    let mut i: usize = 0;
    assert(heads.take(0).to_set() =~= Set::empty());
    assert(regions(structures@).len() == structures@.len());
    while i < structures.len()
        invariant
            i <= structures@.len(),
            structures@.len() == heads.len(),
            heads == loop_edges(cfg@, idom@).map_values(|e: (usize, usize)| e.0),
            regions(structures@) == loops_of(cfg@, idom@),
            r@ == heads.take(i as int).to_set(),
        decreases structures@.len() - i,
    {
        assert(regions(structures@)[i as int] == structures@[i as int]@);
        assert(loops_of(cfg@, idom@)[i as int] == loop_region(
            cfg@,
            loop_edges(cfg@, idom@)[i as int],
        ));
        if let Structure::Loop { header, .. } = &structures[i] {
            r.insert(*header);
        }
        proof {
            let h = heads[i as int];
            assert(heads.take(i + 1) =~= heads.take(i as int).push(h));
            assert forall|v: usize| heads.take(i + 1).to_set().contains(v) == r@.contains(v) by {
                ordered::lemma_push_key(heads.take(i as int), h, v);
                assert(heads.take(i as int).to_set().contains(v) == heads.take(i as int).contains(
                    v,
                ));
            }
            assert(r@ =~= heads.take(i + 1).to_set());
        }
        i = i + 1;
    }
    assert(heads.take(i as int) =~= heads);
    r
}

impl StructuralAnalysis {
    /// Whether this is the analysis of `cfg` with the jump table `table`.
    pub open spec fn is_analysis_of(self, cfg: ControlFlowGraph, table: Seq<u32>) -> bool {
        regions(self.structures@) == structures_of(
            cfg,
            table,
            self.dom_tree.idom@,
            self.dom_tree.rpo@,
        )
    }

    /// Run structural analysis on a CFG.
    /// Computes its own dominator tree; use `analyze_with_dom_tree` when sharing a
    /// pre-computed tree.
    pub fn analyze(cfg: &ControlFlowGraph, program: &DecodedProgram) -> (r: Self)
        ensures
            r.is_analysis_of(*cfg, program.jump_table@),
            r.dom_tree.is_tree_of(*cfg),
    {
        let tree = DominatorTree::compute(cfg);
        StructuralAnalysis::analyze_with_dom_tree(cfg, program, tree)
    }

    /// Run structural analysis reusing a pre-computed dominator tree.
    pub fn analyze_with_dom_tree(
        cfg: &ControlFlowGraph,
        program: &DecodedProgram,
        dom_tree: DominatorTree,
    ) -> (r: Self)
        requires
            dom_tree.wf(),
        ensures
            r.is_analysis_of(*cfg, program.jump_table@),
            r.dom_tree == dom_tree,
    {
        let mut structures: Vec<Structure> = Vec::new();
        if cfg.blocks.len() == 0 {
            assert(regions(structures@) =~= seq![]);
            return StructuralAnalysis { structures, dom_tree };
        }
        let loops = detect_loops(cfg, &dom_tree);
        let headers = loop_headers_in(&loops, Ghost(*cfg), Ghost(dom_tree.idom@));
        let ifs = detect_if_then_else(cfg, &dom_tree, &headers);
        let switches = detect_switches(cfg, program);
        assert(regions(structures@) + regions(loops@) =~= regions(loops@));
        append_structures(&mut structures, loops);
        append_structures(&mut structures, ifs);
        append_structures(&mut structures, switches);
        StructuralAnalysis { structures, dom_tree }
    }
}

impl CondOp {
    pub open spec fn symbol(self) -> Seq<char> {
        match self {
            CondOp::Eq => "=="@,
            CondOp::Ne => "!="@,
            CondOp::GeS => ">=s"@,
            CondOp::GeU => ">=u"@,
            CondOp::LtU => "<u"@,
            CondOp::LtS => "<s"@,
        }
    }

    pub fn as_str(self) -> (text: &'static str)
        ensures
            text@ == self.symbol(),
    {
        match self {
            CondOp::Eq => "==",
            CondOp::Ne => "!=",
            CondOp::GeS => ">=s",
            CondOp::GeU => ">=u",
            CondOp::LtU => "<u",
            CondOp::LtS => "<s",
        }
    }
}

pub open spec fn operand_text(o: Operand) -> Seq<char> {
    match o {
        Operand::Reg(r) => instruction::register_name(r),
        Operand::Imm(v) => text::dec_signed(v as int),
    }
}

pub fn format_operand(o: &Operand) -> (s: String)
    ensures
        s@ == operand_text(*o),
{
    match o {
        Operand::Reg(r) => register_string(*r),
        Operand::Imm(v) => {
            let mut s = String::new();
            push_dec_signed(&mut s, *v as i64);
            assert(s@ =~= text::dec_signed(*v as int));
            s
        },
    }
}

/// A condition over registers.
pub open spec fn condition_text(c: Condition) -> Seq<char> {
    operand_text(c.lhs) + " "@ + c.op.symbol() + " "@ + operand_text(c.rhs)
}

/// Format a condition as a human-readable string.
pub fn format_condition(c: &Condition) -> (s: String)
    ensures
        s@ == condition_text(*c),
{
    let mut s = format_operand(&c.lhs);
    s.append(" ");
    s.append(c.op.as_str());
    s.append(" ");
    s.append(format_operand(&c.rhs).as_str());
    s
}

/// `name` and an address, where there is one.
pub open spec fn address_part(name: Seq<char>, pc: Option<usize>, end: Seq<char>) -> Seq<char> {
    match pc {
        Some(p) => name + text::hex_prefixed(p as nat, 4) + end,
        None => seq![],
    }
}

fn address_string(name: &str, pc: Option<usize>, end: &str) -> (s: String)
    ensures
        s@ == address_part(name@, pc, end@),
{
    match pc {
        Some(p) => {
            let mut s = name.to_owned();
            push_hex_prefixed(&mut s, p as u64, 4);
            s.append(end);
            s
        },
        None => {
            let s = String::new();
            assert(s@ =~= seq![]);
            s
        },
    }
}

pub open spec fn condition_part(c: Option<Condition>) -> Seq<char> {
    match c {
        Some(c) => ", condition="@ + condition_text(c),
        None => seq![],
    }
}

fn condition_string(c: &Option<Condition>) -> (s: String)
    ensures
        s@ == condition_part(*c),
{
    match c {
        Some(c) => {
            let mut s = ", condition=".to_owned();
            s.append(format_condition(c).as_str());
            s
        },
        None => {
            let s = String::new();
            assert(s@ =~= seq![]);
            s
        },
    }
}

pub open spec fn first_of(s: Seq<usize>) -> Option<usize> {
    if s.len() > 0 {
        Some(s[0])
    } else {
        None
    }
}

fn first_pc(v: &Vec<usize>) -> (r: Option<usize>)
    ensures
        r == first_of(v@),
{
    if v.len() > 0 {
        Some(v[0])
    } else {
        None
    }
}

/// The line of a summary for a structure.
pub open spec fn region_line(r: Region) -> Seq<char> {
    match r {
        Region::Loop { header, latch, body, condition } => "\n  Loop: header="@
            + text::hex_prefixed(header as nat, 4) + ", latch="@ + text::hex_prefixed(
            latch as nat,
            4,
        ) + ", body_size="@ + text::dec(body.len()) + condition_part(condition) + "\n"@,
        Region::IfThenElse { header, then_blocks, else_blocks, join, condition } => (
        if else_blocks.len() == 0 {
            "\n  if-then: header="@
        } else {
            "\n  if-then-else: header="@
        }) + text::hex_prefixed(header as nat, 4) + address_part(
            ", then=["@,
            first_of(then_blocks),
            "]"@,
        ) + address_part(", else=["@, first_of(else_blocks), "]"@) + address_part(
            ", join="@,
            join,
            ""@,
        ) + condition_part(condition) + "\n"@,
        Region::Switch { header, reg, cases } => "\n  Switch: header="@ + text::hex_prefixed(
            header as nat,
            4,
        ) + ", reg=r"@ + text::dec(reg as nat) + ", cases="@ + text::dec(cases.len()) + "\n"@,
    }
}

fn structure_line(x: &Structure) -> (s: String)
    ensures
        s@ == region_line(x@),
{
    match x {
        Structure::Loop { header, latch, body, condition } => {
            let mut s = "\n  Loop: header=".to_owned();
            push_hex_prefixed(&mut s, *header as u64, 4);
            s.append(", latch=");
            push_hex_prefixed(&mut s, *latch as u64, 4);
            s.append(", body_size=");
            push_dec_wide(&mut s, body.len() as u128);
            s.append(condition_string(condition).as_str());
            s.append("\n");
            s
        },
        Structure::IfThenElse { header, then_blocks, else_blocks, join, condition } => {
            let mut s = if else_blocks.len() == 0 {
                "\n  if-then: header=".to_owned()
            } else {
                "\n  if-then-else: header=".to_owned()
            };
            push_hex_prefixed(&mut s, *header as u64, 4);
            s.append(address_string(", then=[", first_pc(then_blocks), "]").as_str());
            s.append(address_string(", else=[", first_pc(else_blocks), "]").as_str());
            s.append(address_string(", join=", *join, "").as_str());
            s.append(condition_string(condition).as_str());
            s.append("\n");
            s
        },
        Structure::Switch { header, reg, cases } => {
            let mut s = "\n  Switch: header=".to_owned();
            push_hex_prefixed(&mut s, *header as u64, 4);
            s.append(", reg=r");
            push_dec(&mut s, *reg as u64);
            s.append(", cases=");
            push_dec_wide(&mut s, cases.len() as u128);
            s.append("\n");
            s
        },
    }
}

/// How many of the first `n` structures are loops, if-then-elses and switches.
pub open spec fn tally(rs: Seq<Region>, n: nat) -> (nat, nat, nat)
    decreases n,
{
    if n == 0 {
        (0, 0, 0)
    } else {
        let t = tally(rs, (n - 1) as nat);
        match rs[n - 1] {
            Region::Loop { .. } => (t.0 + 1, t.1, t.2),
            Region::IfThenElse { .. } => (t.0, t.1 + 1, t.2),
            Region::Switch { .. } => (t.0, t.1, t.2 + 1),
        }
    }
}

pub open spec fn region_lines(rs: Seq<Region>, n: nat) -> Seq<char>
    decreases n,
{
    if n == 0 {
        seq![]
    } else {
        region_lines(rs, (n - 1) as nat) + region_line(rs[n - 1])
    }
}

/// The summary of structures: how many of each kind, and each in a line.
pub open spec fn structure_summary(rs: Seq<Region>) -> Seq<char> {
    let t = tally(rs, rs.len());
    "=== Structural Analysis ===\n\n"@ + "Loops detected: "@ + text::dec(t.0) + "\n"@
        + "If-then-else detected: "@ + text::dec(t.1) + "\n"@ + "Switch/case detected: "@
        + text::dec(t.2) + "\n"@ + region_lines(rs, rs.len())
}

impl StructuralAnalysis {
    /// Produce a summary string with structure counts.
    pub fn summarize(&self) -> (s: String)
        ensures
            s@ == structure_summary(regions(self.structures@)),
    {
        let ghost rs = regions(self.structures@);
        let mut loops: usize = 0;
        let mut ifs: usize = 0;
        let mut switches: usize = 0;
        let mut i: usize = 0;
        while i < self.structures.len()
            invariant
                i <= self.structures@.len(),
                rs == regions(self.structures@),
                tally(rs, i as nat) == (loops as nat, ifs as nat, switches as nat),
                loops <= i,
                ifs <= i,
                switches <= i,
            decreases self.structures@.len() - i,
        {
            assert(rs[i as int] == self.structures@[i as int]@);
            match &self.structures[i] {
                Structure::Loop { .. } => {
                    loops = loops + 1;
                },
                Structure::IfThenElse { .. } => {
                    ifs = ifs + 1;
                },
                Structure::Switch { .. } => {
                    switches = switches + 1;
                },
            }
            i = i + 1;
        }
        let mut s = "=== Structural Analysis ===\n\n".to_owned();
        s.append("Loops detected: ");
        push_dec_wide(&mut s, loops as u128);
        s.append("\n");
        s.append("If-then-else detected: ");
        push_dec_wide(&mut s, ifs as u128);
        s.append("\n");
        s.append("Switch/case detected: ");
        push_dec_wide(&mut s, switches as u128);
        s.append("\n");
        let ghost head = s@;
        let mut n: usize = 0;
        assert(head + region_lines(rs, 0) =~= head);
        while n < self.structures.len()
            invariant
                n <= self.structures@.len(),
                rs == regions(self.structures@),
                s@ == head + region_lines(rs, n as nat),
            decreases self.structures@.len() - n,
        {
            assert(rs[n as int] == self.structures@[n as int]@);
            let line = structure_line(&self.structures[n]);
            s.append(line.as_str());
            assert(s@ =~= head + (region_lines(rs, n as nat) + line@));
            n = n + 1;
        }
        s
    }
}

/// Whether `e`, header and latch, is an edge of a graph that closes a loop.
pub open spec fn is_loop_edge(cfg: ControlFlowGraph, idom: Map<usize, usize>, e: (usize, usize)) -> bool {
    exists|k: usize| #[trigger]
        cfg.blocks@.contains_key(k) && cfg.blocks@[k].start_pc == e.1
            && cfg.blocks@[k].successors@.contains(e.0) && closes_loop(cfg.blocks@[k], idom, e.0)
}

proof fn lemma_closing_edges(
    cfg: ControlFlowGraph,
    idom: Map<usize, usize>,
    k: usize,
    n: nat,
    i: int,
)
    requires
        cfg.blocks@.contains_key(k),
        n <= cfg.blocks@[k].successors@.len(),
        0 <= i < closing_edges(cfg.blocks@[k], idom, n).len(),
    ensures
        is_loop_edge(cfg, idom, closing_edges(cfg.blocks@[k], idom, n)[i]),
    decreases n,
{
    let b = cfg.blocks@[k];
    let rest = closing_edges(b, idom, (n - 1) as nat);
    if i < rest.len() {
        lemma_closing_edges(cfg, idom, k, (n - 1) as nat, i);
    } else {
        assert(b.successors@.contains(b.successors@[n - 1]));
    }
}

proof fn lemma_edges_of_blocks(
    cfg: ControlFlowGraph,
    idom: Map<usize, usize>,
    keys: Seq<usize>,
    n: nat,
    i: int,
)
    requires
        n <= keys.len(),
        forall|j: int| 0 <= j < keys.len() ==> cfg.blocks@.contains_key(#[trigger] keys[j]),
        0 <= i < edges_of_blocks(cfg, idom, keys, n).len(),
    ensures
        is_loop_edge(cfg, idom, edges_of_blocks(cfg, idom, keys, n)[i]),
    decreases n,
{
    let rest = edges_of_blocks(cfg, idom, keys, (n - 1) as nat);
    if i < rest.len() {
        lemma_edges_of_blocks(cfg, idom, keys, (n - 1) as nat, i);
    } else {
        let b = cfg.blocks@[keys[n - 1]];
        lemma_closing_edges(cfg, idom, keys[n - 1], b.successors@.len(), i - rest.len());
    }
}

proof fn lemma_insert_edge(s: Seq<(usize, usize)>, e: (usize, usize), i: int)
    requires
        0 <= i < insert_edge(s, e).len(),
    ensures
        insert_edge(s, e)[i] == e || s.contains(insert_edge(s, e)[i]),
    decreases s.len(),
{
    if s.len() == 0 || s.last().0 <= e.0 {
        if i < s.len() {
            assert(s.contains(s[i]));
        }
    } else {
        let inner = insert_edge(s.drop_last(), e);
        if i < inner.len() {
            lemma_insert_edge(s.drop_last(), e, i);
            if s.drop_last().contains(inner[i]) {
                let j = choose|j: int| 0 <= j < s.drop_last().len() && s.drop_last()[j] == inner[i];
                assert(s[j] == inner[i]);
            }
        } else {
            assert(s.contains(s.last()));
        }
    }
}

proof fn lemma_by_header(s: Seq<(usize, usize)>, n: nat, i: int)
    requires
        n <= s.len(),
        0 <= i < by_header(s, n).len(),
    ensures
        s.contains(by_header(s, n)[i]),
    decreases n,
{
    let rest = by_header(s, (n - 1) as nat);
    lemma_insert_edge(rest, s[n - 1], i);
    assert(s.contains(s[n - 1]));
    let x = by_header(s, n)[i];
    if x != s[n - 1] {
        let j = choose|j: int| 0 <= j < rest.len() && rest[j] == x;
        lemma_by_header(s, (n - 1) as nat, j);
    }
}

/// Each loop is closed by an edge of the graph from its latch to its header, which lies
/// above the latch in the dominator tree. The loop holds both, and can be entered only
/// through the header.
pub proof fn law_loops_are_natural(cfg: ControlFlowGraph, idom: Map<usize, usize>, i: int)
    requires
        cfg.blocks@.dom().finite(),
        0 <= i < loops_of(cfg, idom).len(),
    ensures
        ({
            let e = loop_edges(cfg, idom)[i];
            let body = natural_loop(cfg, e.0, e.1);
            &&& loops_of(cfg, idom)[i] == loop_region(cfg, e)
            &&& is_loop_edge(cfg, idom, e)
            &&& e.0 == e.1 || dominators::above(idom, e.0, e.1)
            &&& body.contains(e.0)
            &&& body.contains(e.1)
            &&& forall|b: usize, p: usize|
                body.contains(b) && b != e.0 && cfg.blocks@.contains_key(b)
                    && #[trigger] cfg.blocks@[b].predecessors@.contains(p) ==> body.contains(p)
        }),
{
    let keys = ordered::ascending(cfg.blocks@.dom());
    ordered::lemma_ascending_exists(cfg.blocks@.dom());
    assert forall|j: int| 0 <= j < keys.len() implies cfg.blocks@.contains_key(
        #[trigger] keys[j],
    ) by {
        assert(keys.to_set().contains(keys[j]));
    }
    let all = edges_of_blocks(cfg, idom, keys, keys.len());
    lemma_by_header(all, all.len(), i);
    let e = loop_edges(cfg, idom)[i];
    let j = choose|j: int| 0 <= j < all.len() && all[j] == e;
    lemma_edges_of_blocks(cfg, idom, keys, keys.len(), j);
    let body = natural_loop(cfg, e.0, e.1);
    if e.0 != e.1 {
        let next = loops::predecessor_lists(cfg);
        let barred = Set::empty().insert(e.0);
        let starts = seq![e.1];
        assert(starts[0] == e.1);
        assert(reach::reached_in(next, starts, barred, e.1, 0));
        assert forall|b: usize, p: usize|
            body.contains(b) && b != e.0 && cfg.blocks@.contains_key(b)
                && #[trigger] cfg.blocks@[b].predecessors@.contains(p) implies body.contains(p) by {
            assert(reach::leads(next, b, p));
            if p != e.0 {
                reach::lemma_reached_closed(next, starts, barred, b, p);
            }
        }
    }
}

/// Whether `k` edges lead from `from` to `to`.
pub open spec fn path(cfg: ControlFlowGraph, from: usize, to: usize, k: nat) -> bool
    decreases k,
{
    if k == 0 {
        from == to
    } else {
        exists|m: usize|
            #[trigger] dominators::edge(cfg, m, to) && path(cfg, from, m, (k - 1) as nat)
    }
}

/// Whether edges lead from `from` to `to`.
pub open spec fn reaches(cfg: ControlFlowGraph, from: usize, to: usize) -> bool {
    exists|k: nat| path(cfg, from, to, k)
}

proof fn lemma_reaches_on(cfg: ControlFlowGraph, from: usize, m: usize, to: usize)
    requires
        reaches(cfg, from, m),
        dominators::edge(cfg, m, to),
    ensures
        reaches(cfg, from, to),
{
    let k = choose|k: nat| path(cfg, from, m, k);
    assert(path(cfg, from, m, ((k + 1) - 1) as nat));
    assert(path(cfg, from, to, k + 1));
}

proof fn lemma_enqueue_from(
    g: Goal,
    q: Seq<usize>,
    visited: Set<usize>,
    list: Seq<usize>,
    n: nat,
    x: usize,
)
    requires
        n <= list.len(),
        enqueue(g, q, visited, list, n).contains(x),
    ensures
        q.contains(x) || list.contains(x),
    decreases n,
{
    if n > 0 {
        let rest = enqueue(g, q, visited, list, (n - 1) as nat);
        let all = enqueue(g, q, visited, list, n);
        let i = choose|i: int| 0 <= i < all.len() && all[i] == x;
        if i < rest.len() {
            assert(rest[i] == x);
            lemma_enqueue_from(g, q, visited, list, (n - 1) as nat, x);
        } else {
            assert(list[n - 1] == x);
        }
    }
}

proof fn lemma_search_reaches(g: Goal, entry: usize, n: nat)
    ensures
        ({
            let s = search_steps(
                g,
                Search { queue: seq![entry], visited: Set::empty(), found: None },
                n,
            );
            &&& forall|x: usize| #[trigger] s.queue.contains(x) ==> reaches(g.cfg, entry, x)
            &&& s.found matches Some(j) ==> g.near.contains(j) && reaches(g.cfg, entry, j)
        }),
    decreases n,
{
    let start = Search { queue: seq![entry], visited: Set::empty(), found: None };
    let s = search_steps(g, start, n);
    if n == 0 {
        assert(path(g.cfg, entry, entry, 0));
        assert forall|x: usize| #[trigger] s.queue.contains(x) implies reaches(
            g.cfg,
            entry,
            x,
        ) by {
            assert(x == entry);
        }
    } else {
        lemma_search_reaches(g, entry, (n - 1) as nat);
        let t = search_steps(g, start, (n - 1) as nat);
        if t.queue.len() > 0 && t.found is None {
            let node = t.queue[0];
            let rest = t.queue.subrange(1, t.queue.len() as int);
            let list = crate::graph::successors_at(g.cfg, node);
            assert(t.queue.contains(node));
            assert forall|x: usize| #[trigger] s.queue.contains(x) implies reaches(
                g.cfg,
                entry,
                x,
            ) by {
                if !rest.contains(x) {
                    lemma_enqueue_from(g, rest, t.visited.insert(node), list, list.len(), x);
                    assert(dominators::edge(g.cfg, node, x));
                    lemma_reaches_on(g.cfg, entry, node, x);
                } else {
                    let i = choose|i: int| 0 <= i < rest.len() && rest[i] == x;
                    assert(t.queue[i + 1] == x);
                    assert(t.queue.contains(x));
                }
            }
        }
    }
}

proof fn lemma_within_reaches(cfg: ControlFlowGraph, start: usize, stop: usize, n: usize, k: nat)
    requires
        within(cfg, start, stop, n, k),
    ensures
        reaches(cfg, start, n),
    decreases k,
{
    if start == n {
        assert(path(cfg, start, n, 0));
    } else if within(cfg, start, stop, n, (k - 1) as nat) {
        lemma_within_reaches(cfg, start, stop, n, (k - 1) as nat);
    } else {
        let m = choose|m: usize|
            #[trigger] dominators::edge(cfg, m, n) && within(cfg, start, stop, m, (k - 1) as nat);
        lemma_within_reaches(cfg, start, stop, m, (k - 1) as nat);
        lemma_reaches_on(cfg, start, m, n);
    }
}

/// Two branches lead to the block where they join.
pub proof fn law_branches_lead_to_their_join(
    cfg: ControlFlowGraph,
    idom: Map<usize, usize>,
    a: usize,
    b: usize,
    header: usize,
    j: usize,
)
    requires
        join_of(cfg, idom, a, b, header) == Some(j),
    ensures
        reaches(cfg, a, j),
        reaches(cfg, b, j),
{
    let near = nearby(cfg, a, header, MAX_WALK as nat);
    let g = Goal { cfg, idom, near, header };
    let start = Search { queue: seq![b], visited: Set::empty(), found: None };
    let n = choose|n: nat| over(search_steps(g, start, n));
    lemma_search_reaches(g, b, n);
    lemma_within_reaches(cfg, a, header, j, MAX_WALK as nat);
}

/// A branch condition and its opposite never hold together, and one of them does.
pub proof fn law_opposite_is_negation(op: CondOp, l: u64, r: u64)
    ensures
        op.opposite().holds(l, r) == !op.holds(l, r),
        op.opposite().opposite() == op,
{
}

/// The condition of a branch compares what its instruction shape does, in the same order and
/// by the same operator.
pub proof fn law_condition_agrees_with_shape(instr: Instruction, c: Condition)
    requires
        condition_of(instr) == Some(c),
    ensures
        match instruction::classified(instr) {
            InstructionShape::BranchImm { cond, reg, value, .. } => cond@ == c.op.symbol()
                && c.lhs == Operand::Reg(reg) && c.rhs == Operand::Imm(value),
            InstructionShape::BranchReg { cond, reg1, reg2, .. } => cond@ == c.op.symbol()
                && c.lhs == Operand::Reg(reg1) && c.rhs == Operand::Reg(reg2),
            _ => false,
        },
{
}

/// Where a loop's branch is taken to leave the loop, the head of the loop states the opposite
/// of the branch's condition, and the branch's condition itself where it leads into the loop.
pub proof fn law_loop_head_states_going_on(
    cfg: ControlFlowGraph,
    header: usize,
    body: Set<usize>,
    c: Condition,
    l: u64,
    r: u64,
)
    requires
        cfg.blocks@.contains_key(header),
        cfg.blocks@[header].instructions@.len() > 0,
        condition_of(cfg.blocks@[header].instructions@.last().1) == Some(c),
    ensures
        cfg::target_of(cfg.blocks@[header].instructions@.last()) is Some,
        continue_condition(cfg, header, body, Some(c)) matches Some(d) && d.lhs == c.lhs && d.rhs
            == c.rhs && (d.op.holds(l, r) == (c.op.holds(l, r) == body.contains(
            cfg::target_of(cfg.blocks@[header].instructions@.last())->0,
        ))),
{
    law_condition_agrees_with_shape(cfg.blocks@[header].instructions@.last().1, c);
    law_opposite_is_negation(c.op, l, r);
}

proof fn lemma_indices(table: Seq<u32>, target: usize, n: nat, i: int)
    requires
        n <= table.len(),
        table.len() <= u32::MAX,
        0 <= i < table.len(),
    ensures
        indices_of(table, target, n).contains(i as u32) <==> i < n && table[i] as usize == target,
        forall|a: int, b: int|
            0 <= a < b < indices_of(table, target, n).len() ==> (#[trigger] indices_of(
                table,
                target,
                n,
            )[a]) < (#[trigger] indices_of(table, target, n)[b]),
        forall|a: int|
            0 <= a < indices_of(table, target, n).len() ==> (#[trigger] indices_of(
                table,
                target,
                n,
            )[a]) < n,
    decreases n,
{
    if n > 0 {
        let m = (n - 1) as nat;
        lemma_indices(table, target, m, i);
        let rest = indices_of(table, target, m);
        let all = indices_of(table, target, n);
        if table[n - 1] as usize == target {
            assert(all =~= rest.push((n - 1) as u32));
            assert(all.last() == (n - 1) as u32);
            if rest.contains(i as u32) {
                let k = choose|k: int| 0 <= k < rest.len() && rest[k] == i as u32;
                assert(all[k] == i as u32);
            }
            if all.contains(i as u32) {
                let k = choose|k: int| 0 <= k < all.len() && all[k] == i as u32;
                if k < rest.len() {
                    assert(rest[k] == i as u32);
                }
            }
            if i == n - 1 {
                assert(all[rest.len() as int] == i as u32);
            }
            assert forall|a: int, b: int| 0 <= a < b < all.len() implies (#[trigger] all[a]) < (
            #[trigger] all[b]) by {
                assert(all[a] == rest[a]);
                if b < rest.len() {
                    assert(all[b] == rest[b]);
                }
            }
            assert forall|a: int| 0 <= a < all.len() implies (#[trigger] all[a]) < n by {
                if a < rest.len() {
                    assert(all[a] == rest[a]);
                }
            }
        } else {
            assert(all == rest);
        }
    }
}

/// Whether a case lists exactly the indices of the table entries that lead to its target,
/// in ascending order and each once.
pub open spec fn lists_entries(table: Seq<u32>, values: Seq<u32>, target: usize) -> bool {
    &&& forall|i: int|
        0 <= i < table.len() ==> (#[trigger] values.contains(i as u32) <==> table[i] as usize
            == target)
    &&& forall|a: int, b: int|
        0 <= a < b < values.len() ==> (#[trigger] values[a]) < (#[trigger] values[b])
    &&& forall|a: int| 0 <= a < values.len() ==> (#[trigger] values[a]) < table.len()
}

/// Whether a case leads to `target`.
pub open spec fn has_case(table: Seq<u32>, target: usize) -> bool {
    exists|k: int| 0 <= k < table_cases(table).len() && (#[trigger] table_cases(table)[k]).1 == target
}

/// The cases of a switch are the jump table by target: each case lists the indices that
/// lead to its target, every entry of the table has a case, and targets ascend.
pub proof fn law_cases_are_the_table(table: Seq<u32>)
    requires
        table.len() <= u32::MAX,
    ensures
        forall|k: int|
            0 <= k < table_cases(table).len() ==> lists_entries(
                table,
                (#[trigger] table_cases(table)[k]).0,
                table_cases(table)[k].1,
            ),
        forall|i: int| 0 <= i < table.len() ==> has_case(table, #[trigger] table[i] as usize),
        forall|a: int, b: int|
            0 <= a < b < table_cases(table).len() ==> (#[trigger] table_cases(table)[a]).1 < (
            #[trigger] table_cases(table)[b]).1,
{
    let ts = table_targets(table);
    let list = table.map_values(|t: u32| t as usize);
    vstd::seq_lib::seq_to_set_is_finite(list);
    ordered::lemma_ascending_exists(ts);
    let order = ordered::ascending(ts);
    let cases = table_cases(table);
    assert forall|k: int| 0 <= k < cases.len() implies lists_entries(
        table,
        (#[trigger] cases[k]).0,
        cases[k].1,
    ) by {
        let t = order[k];
        assert(cases[k] == (indices_of(table, t, table.len()), t));
        let values = cases[k].0;
        assert forall|i: int| 0 <= i < table.len() implies (#[trigger] values.contains(i as u32)
            <==> table[i] as usize == t) by {
            lemma_indices(table, t, table.len(), i);
        }
        assert(ts.contains(t)) by {
            assert(order.to_set().contains(t));
        }
        if table.len() > 0 {
            lemma_indices(table, t, table.len(), 0);
        }
    }
    assert forall|i: int| 0 <= i < table.len() implies has_case(
        table,
        #[trigger] table[i] as usize,
    ) by {
        assert(list[i] == table[i] as usize);
        assert(ts.contains(table[i] as usize));
        assert(order.to_set().contains(table[i] as usize));
        let k = choose|k: int| 0 <= k < order.len() && order[k] == table[i] as usize;
        assert(cases[k].1 == table[i] as usize);
    }
}

} // verus!
