//! Function boundary detection.
//!
//! 1. connected components of the control flow graph
//! 2. within a component, blocks that start with a stack frame prologue
//! 3. calls, prologues and epilogues
//!
//! Each detected function is a set of basic blocks with an entry point, so that it can
//! be analyzed on its own.

use crate::cfg;
use crate::cfg::{copy_code, copy_pcs, BasicBlock, ControlFlowGraph};
use crate::decoder::DecodedProgram;
use crate::dominators;
use crate::instruction;
use crate::instruction::{BinOp, InstructionShape};
use crate::lifting::program;
use crate::ordered;
use crate::ordered::{keys_of, members_of};
use crate::pvm;
use crate::pvm::Instruction;
use crate::reach;
use crate::reach::reach_from;
use crate::text;
use crate::text::{push_dec, push_hex_prefixed};
use std::collections::{BTreeMap, BTreeSet};
use vstd::prelude::*;

verus! {

broadcast use vstd::laws_cmp::group_laws_cmp;

/// Detected epilogue type for a block.
#[derive(Debug, Clone)]
#[allow(inconsistent_fields)]
pub enum EpilogueKind {
    /// Function return: restore callee-saved registers, restore r0, sp += N, JumpInd r0.
    /// Contains the PCs of all epilogue instructions to eliminate.
    Return { eliminated_pcs: Vec<usize> },
    /// Program halt: LoadImm reg = -65536, JumpInd reg.
    /// Contains the PCs of the halt instructions to eliminate.
    Halt { eliminated_pcs: Vec<usize> },
}

/// What an epilogue is: its kind and the program counters of its instructions.
#[allow(inconsistent_fields)]
pub enum Epilogue {
    Return(Seq<usize>),
    Halt(Seq<usize>),
}

impl View for EpilogueKind {
    type V = Epilogue;

    open spec fn view(&self) -> Epilogue {
        match *self {
            EpilogueKind::Return { eliminated_pcs } => Epilogue::Return(eliminated_pcs@),
            EpilogueKind::Halt { eliminated_pcs } => Epilogue::Halt(eliminated_pcs@),
        }
    }
}

/// Heap allocation boilerplate of a function: the instructions and blocks that a
/// single `heap_alloc()` stands for.
#[derive(Debug)]
pub struct HeapAllocPattern {
    /// PCs of the allocation sequence itself.
    pub eliminated_pcs: Vec<usize>,
    /// PCs that compute the data pointer from the heap pointer.
    pub heap_ptr_arithmetic_pcs: Vec<usize>,
    /// PCs that write the object header.
    pub header_write_pcs: Vec<usize>,
    /// Blocks that grow the heap.
    pub sbrk_blocks: Vec<usize>,
    /// Block where the two ways meet again.
    pub convergence_block_pc: usize,
    /// Offset of the linear memory, where accesses go through one.
    pub linear_memory_offset: Option<u64>,
}

/// A detected function within the PVM binary.
#[derive(Debug, Clone)]
pub struct Function {
    /// Entry block PC (where execution of this function begins).
    pub entry_pc: usize,
    /// Set of basic block start PCs belonging to this function.
    pub block_pcs: BTreeSet<usize>,
    /// Auto-generated name for display.
    pub name: String,
}

/// What a function is.
#[verifier::ext_equal]
pub struct Unit {
    pub entry_pc: usize,
    pub blocks: Set<usize>,
    pub name: Seq<char>,
}

impl View for Function {
    type V = Unit;

    open spec fn view(&self) -> Unit {
        Unit { entry_pc: self.entry_pc, blocks: self.block_pcs@, name: self.name@ }
    }
}

pub open spec fn units(s: Seq<Function>) -> Seq<Unit> {
    s.map_values(|f: Function| f@)
}

/// The neighbours of each block, in both directions.
pub open spec fn neighbours(cfg: ControlFlowGraph) -> Map<usize, Seq<usize>> {
    cfg.blocks@.map_values(|b: BasicBlock| b.successors@ + b.predecessors@)
}

/// Components found so far, and all that they hold.
#[verifier::ext_equal]
pub struct Parts {
    pub list: Seq<Set<usize>>,
    pub visited: Set<usize>,
}

/// Add the component of `start`, unless it was visited.
pub open spec fn add_part(cfg: ControlFlowGraph, p: Parts, start: usize) -> Parts {
    if p.visited.contains(start) {
        p
    } else {
        let c = reach::reached(neighbours(cfg), seq![start], p.visited);
        Parts { list: p.list.push(c), visited: p.visited.union(c) }
    }
}

pub open spec fn add_parts(cfg: ControlFlowGraph, p: Parts, starts: Seq<usize>, n: nat) -> Parts
    decreases n,
{
    if n == 0 {
        p
    } else {
        add_part(cfg, add_parts(cfg, p, starts, (n - 1) as nat), starts[n - 1])
    }
}

/// The connected components, that of the entry first and the others by their least
/// block.
pub open spec fn components(cfg: ControlFlowGraph) -> Seq<Set<usize>> {
    let none = Parts { list: seq![], visited: Set::empty() };
    let first = if cfg.blocks@.contains_key(cfg.entry_pc) {
        add_part(cfg, none, cfg.entry_pc)
    } else {
        none
    };
    let keys = ordered::ascending(cfg.blocks@.dom());
    add_parts(cfg, first, keys, keys.len()).list
}

fn list_neighbours(cfg: &ControlFlowGraph) -> (m: BTreeMap<usize, Vec<usize>>)
    ensures
        reach::lists(m@) == neighbours(*cfg),
{
    let keys = keys_of(&cfg.blocks);
    let mut m: BTreeMap<usize, Vec<usize>> = BTreeMap::new();
    let mut i: usize = 0;
    while i < keys.len()
        invariant
            i <= keys@.len(),
            keys@.to_set() == cfg.blocks@.dom(),
            forall|k: usize| #[trigger] m@.contains_key(k) <==> keys@.take(i as int).contains(k),
            forall|k: usize| #[trigger]
                m@.contains_key(k) ==> cfg.blocks@.contains_key(k) && m@[k]@
                    == cfg.blocks@[k].successors@ + cfg.blocks@[k].predecessors@,
        decreases keys@.len() - i,
    {
        let k: usize = keys[i];
        assert(keys@.to_set().contains(k));
        let ghost before = m@;
        if let Some(b) = cfg.blocks.get(&k) {
            let mut list = copy_pcs(&b.successors);
            let mut more = copy_pcs(&b.predecessors);
            list.append(&mut more);
            m.insert(k, list);
        }
        assert(keys@.take(i + 1) =~= keys@.take(i as int).push(k));
        assert forall|j: usize| #[trigger] m@.contains_key(j) <==> keys@.take(i + 1).contains(j) by {
            ordered::lemma_push_key(keys@.take(i as int), k, j);
            assert(before.contains_key(j) <==> keys@.take(i as int).contains(j));
        }
        i = i + 1;
    }
    proof {
        assert(keys@.take(i as int) =~= keys@);
        let want = neighbours(*cfg);
        assert forall|k: usize| reach::lists(m@).contains_key(k) == want.contains_key(k) by {
            assert(m@.contains_key(k) <==> keys@.contains(k));
            assert(keys@.to_set().contains(k) == cfg.blocks@.contains_key(k));
        }
        assert forall|k: usize| reach::lists(m@).contains_key(k) implies reach::lists(m@)[k]
            == want[k] by {
            assert(m@.contains_key(k));
        }
        assert(reach::lists(m@) =~= want);
    }
    m
}

spec fn set_views(s: Seq<BTreeSet<usize>>) -> Seq<Set<usize>> {
    s.map_values(|x: BTreeSet<usize>| x@)
}

fn add_component(
    cfg: &ControlFlowGraph,
    edges: &BTreeMap<usize, Vec<usize>>,
    list: &mut Vec<BTreeSet<usize>>,
    visited: &mut BTreeSet<usize>,
    start: usize,
)
    requires
        reach::lists(edges@) == neighbours(*cfg),
    ensures
        (Parts { list: set_views(final(list)@), visited: final(visited)@ }) == add_part(
            *cfg,
            Parts { list: set_views(old(list)@), visited: old(visited)@ },
            start,
        ),
        (forall|i: int| 0 <= i < old(list)@.len() ==> (#[trigger] old(list)@[i])@.len() > 0) ==> (
        forall|i: int| 0 <= i < final(list)@.len() ==> (#[trigger] final(list)@[i])@.len() > 0),
{
    if visited.contains(&start) {
        return;
    }
    let mut starts: Vec<usize> = Vec::new();
    starts.push(start);
    assert(starts@ =~= seq![start]);
    let found = reach_from(edges, &starts, visited);
    let members = members_of(&found);
    let ghost before = visited@;
    let mut i: usize = 0;
    assert(members@.take(0).to_set() =~= Set::empty());
    assert(visited@ =~= before.union(members@.take(0).to_set()));
    while i < members.len()
        invariant
            i <= members@.len(),
            visited@ == before.union(members@.take(i as int).to_set()),
        decreases members@.len() - i,
    {
        visited.insert(members[i]);
        proof {
            let pc = members@[i as int];
            assert(members@.take(i + 1) =~= members@.take(i as int).push(pc));
            ordered::lemma_push_to_set(members@.take(i as int), pc);
            assert(visited@ =~= before.union(members@.take(i + 1).to_set()));
        }
        i = i + 1;
    }
    assert(members@.take(i as int) =~= members@);
    let ghost held = set_views(list@);
    assert(found@.contains(start)) by {
        assert(starts@[0] == start);
        assert(reach::reached_in(neighbours(*cfg), starts@, before, start, 0));
    }
    list.push(found);
    assert(set_views(list@) =~= held.push(found@));
}

/// Find connected components in the CFG (treating successor/predecessor edges as
/// undirected).
fn find_connected_components(cfg: &ControlFlowGraph) -> (list: Vec<BTreeSet<usize>>)
    ensures
        set_views(list@) == components(*cfg),
        forall|i: int| 0 <= i < list@.len() ==> (#[trigger] list@[i])@.len() > 0,
{
    let edges = list_neighbours(cfg);
    let mut list: Vec<BTreeSet<usize>> = Vec::new();
    let mut visited: BTreeSet<usize> = BTreeSet::new();
    assert(set_views(list@) =~= seq![]);
    if cfg.blocks.contains_key(&cfg.entry_pc) {
        add_component(cfg, &edges, &mut list, &mut visited, cfg.entry_pc);
    }
    let ghost first = Parts { list: set_views(list@), visited: visited@ };
    let keys = keys_of(&cfg.blocks);
    let mut i: usize = 0;
    while i < keys.len()
        invariant
            i <= keys@.len(),
            reach::lists(edges@) == neighbours(*cfg),
            forall|j: int| 0 <= j < list@.len() ==> (#[trigger] list@[j])@.len() > 0,
            (Parts { list: set_views(list@), visited: visited@ }) == add_parts(
                *cfg,
                first,
                keys@,
                i as nat,
            ),
        decreases keys@.len() - i,
    {
        add_component(cfg, &edges, &mut list, &mut visited, keys[i]);
        i = i + 1;
    }
    list
}

/// Whether a block starts with a stack frame prologue: a negative number is added to the
/// stack pointer, register 2, or something is stored through it.
pub open spec fn starts_frame(cfg: ControlFlowGraph, pc: usize) -> bool {
    cfg.blocks@.contains_key(pc) && cfg.blocks@[pc].instructions@.len() > 0
        && match instruction::classified(cfg.blocks@[pc].instructions@[0].1) {
        InstructionShape::BinImm { op, dst, src, value, .. } => op == BinOp::Add && dst == 2 && src
            == 2 && value < 0,
        InstructionShape::Store { base, .. } => base == 2,
        _ => false,
    }
}

/// Check if a block starts with a stack frame prologue pattern.
pub fn has_stack_prologue(cfg: &ControlFlowGraph, block_pc: usize) -> (r: bool)
    ensures
        r == starts_frame(*cfg, block_pc),
{
    match cfg.blocks.get(&block_pc) {
        Some(block) => {
            if block.instructions.len() == 0 {
                return false;
            }
            match InstructionShape::classify(&block.instructions[0].1) {
                InstructionShape::BinImm { op, dst, src, value, .. } => {
                    let adds = match op {
                        BinOp::Add => true,
                        _ => false,
                    };
                    adds && dst == 2 && src == 2 && value < 0
                },
                InstructionShape::Store { base, .. } => base == 2,
                _ => false,
            }
        },
        None => false,
    }
}

/// Whether the block at `pc` ends with a jump.
pub open spec fn ends_with_jump(cfg: ControlFlowGraph, pc: usize) -> bool {
    cfg.blocks@.contains_key(pc) && cfg.blocks@[pc].instructions@.len() > 0
        && instruction::classified(cfg.blocks@[pc].instructions@.last().1) is Jump
}

/// Whether a block is jumped to from within the component.
pub open spec fn jumped_to(cfg: ControlFlowGraph, pc: usize, component: Set<usize>) -> bool {
    cfg.blocks@.contains_key(pc) && exists|i: int|
        0 <= i < cfg.blocks@[pc].predecessors@.len() && component.contains(
            #[trigger] cfg.blocks@[pc].predecessors@[i],
        ) && ends_with_jump(cfg, cfg.blocks@[pc].predecessors@[i])
}

fn has_final_jump(cfg: &ControlFlowGraph, pc: usize) -> (r: bool)
    ensures
        r == ends_with_jump(*cfg, pc),
{
    match cfg.blocks.get(&pc) {
        Some(block) => {
            let n: usize = block.instructions.len();
            if n == 0 {
                return false;
            }
            match InstructionShape::classify(&block.instructions[n - 1].1) {
                InstructionShape::Jump { .. } => true,
                _ => false,
            }
        },
        None => false,
    }
}

/// Check if a block looks like a call target: it is jumped to directly (not just
/// fallen through to) from a predecessor.
fn is_call_target(cfg: &ControlFlowGraph, pc: usize, component: &BTreeSet<usize>) -> (r: bool)
    ensures
        r == jumped_to(*cfg, pc, component@),
{
    let block = match cfg.blocks.get(&pc) {
        Some(b) => b,
        None => {
            return false;
        },
    };
    let mut i: usize = 0;
    while i < block.predecessors.len()
        invariant
            i <= block.predecessors@.len(),
            cfg.blocks@.contains_key(pc),
            *block == cfg.blocks@[pc],
            forall|k: int|
                0 <= k < i ==> !(component@.contains(#[trigger] block.predecessors@[k])
                    && ends_with_jump(*cfg, block.predecessors@[k])),
        decreases block.predecessors@.len() - i,
    {
        let p: usize = block.predecessors[i];
        if component.contains(&p) && has_final_jump(cfg, p) {
            assert(cfg.blocks@[pc].predecessors@[i as int] == p);
            return true;
        }
        i = i + 1;
    }
    false
}

/// Whether a block has no predecessor within the component.
pub open spec fn entered_from_outside(
    cfg: ControlFlowGraph,
    pc: usize,
    component: Set<usize>,
) -> bool {
    cfg.blocks@.contains_key(pc) && forall|i: int|
        0 <= i < cfg.blocks@[pc].predecessors@.len() ==> !component.contains(
            #[trigger] cfg.blocks@[pc].predecessors@[i],
        )
}

/// The first of `list`, from the `i`th on, without a predecessor within the component.
pub open spec fn first_outer(
    cfg: ControlFlowGraph,
    component: Set<usize>,
    list: Seq<usize>,
    i: int,
) -> Option<usize>
    decreases list.len() - i,
{
    if i < 0 || i >= list.len() {
        None
    } else if entered_from_outside(cfg, list[i], component) {
        Some(list[i])
    } else {
        first_outer(cfg, component, list, i + 1)
    }
}

/// The entry of a component: the least block without predecessors within it, or else
/// the least block.
pub open spec fn entry_of(cfg: ControlFlowGraph, component: Set<usize>) -> usize {
    let list = ordered::ascending(component);
    match first_outer(cfg, component, list, 0) {
        Some(pc) => pc,
        None => list[0],
    }
}

fn is_entered_from_outside(cfg: &ControlFlowGraph, pc: usize, component: &BTreeSet<usize>) -> (r:
    bool)
    ensures
        r == entered_from_outside(*cfg, pc, component@),
{
    let block = match cfg.blocks.get(&pc) {
        Some(b) => b,
        None => {
            return false;
        },
    };
    let mut i: usize = 0;
    while i < block.predecessors.len()
        invariant
            i <= block.predecessors@.len(),
            cfg.blocks@.contains_key(pc),
            *block == cfg.blocks@[pc],
            forall|k: int|
                0 <= k < i ==> !component@.contains(#[trigger] block.predecessors@[k]),
        decreases block.predecessors@.len() - i,
    {
        if component.contains(&block.predecessors[i]) {
            assert(component@.contains(cfg.blocks@[pc].predecessors@[i as int]));
            return false;
        }
        i = i + 1;
    }
    true
}

/// Find the "entry" of a component - the block with no predecessors within the
/// component (choosing the smallest PC if multiple exist), or the smallest PC as fallback.
fn find_component_entry(cfg: &ControlFlowGraph, component: &BTreeSet<usize>, list: &Vec<usize>) -> (pc:
    usize)
    requires
        list@ == ordered::ascending(component@),
        list@.len() > 0,
    ensures
        pc == entry_of(*cfg, component@),
{
    let mut i: usize = 0;
    while i < list.len()
        invariant
            i <= list@.len(),
            list@ == ordered::ascending(component@),
            list@.len() > 0,
            first_outer(*cfg, component@, list@, 0) == first_outer(
                *cfg,
                component@,
                list@,
                i as int,
            ),
        decreases list@.len() - i,
    {
        if is_entered_from_outside(cfg, list[i], component) {
            return list[i];
        }
        i = i + 1;
    }
    list[0]
}

/// The further entries among the first `n` of `list`: blocks that start a frame and are
/// jumped to.
pub open spec fn frame_entries(
    cfg: ControlFlowGraph,
    component: Set<usize>,
    entry: usize,
    list: Seq<usize>,
    n: nat,
) -> Seq<usize>
    decreases n,
{
    if n == 0 {
        seq![]
    } else {
        let rest = frame_entries(cfg, component, entry, list, (n - 1) as nat);
        if list[n - 1] != entry && starts_frame(cfg, list[n - 1]) && jumped_to(
            cfg,
            list[n - 1],
            component,
        ) {
            rest.push(list[n - 1])
        } else {
            rest
        }
    }
}

/// Whether an edge leads from a block claimed for `entry` to `pc`.
pub open spec fn claims(
    cfg: ControlFlowGraph,
    claimed: Map<usize, usize>,
    entry: usize,
    pc: usize,
) -> bool {
    exists|m: usize|
        #[trigger] dominators::edge(cfg, m, pc) && claimed.contains_key(m) && claimed[m] == entry
}

/// The first of `entries`, from the `i`th on, that claims `pc`.
pub open spec fn first_claim(
    cfg: ControlFlowGraph,
    claimed: Map<usize, usize>,
    entries: Seq<usize>,
    pc: usize,
    i: int,
) -> Option<usize>
    decreases entries.len() - i,
{
    if i < 0 || i >= entries.len() {
        None
    } else if claims(cfg, claimed, entries[i], pc) {
        Some(entries[i])
    } else {
        first_claim(cfg, claimed, entries, pc, i + 1)
    }
}

/// One step further: each block of the component that an edge leads to goes to the
/// first entry that claims it.
pub open spec fn claim_step(
    cfg: ControlFlowGraph,
    component: Set<usize>,
    entries: Seq<usize>,
    claimed: Map<usize, usize>,
) -> Map<usize, usize> {
    Map::new(
        |pc: usize|
            claimed.contains_key(pc) || (component.contains(pc) && first_claim(
                cfg,
                claimed,
                entries,
                pc,
                0,
            ) is Some),
        |pc: usize|
            if claimed.contains_key(pc) {
                claimed[pc]
            } else {
                first_claim(cfg, claimed, entries, pc, 0)->0
            },
    )
}

pub open spec fn claim_steps(
    cfg: ControlFlowGraph,
    component: Set<usize>,
    entries: Seq<usize>,
    k: nat,
) -> Map<usize, usize>
    decreases k,
{
    if k == 0 {
        Map::new(|pc: usize| entries.contains(pc) && component.contains(pc), |pc: usize| pc)
    } else {
        claim_step(cfg, component, entries, claim_steps(cfg, component, entries, (k - 1) as nat))
    }
}

/// The entry that each block belongs to: the nearest, and of several the first. No block
/// is farther than the component is large.
pub open spec fn claimed(
    cfg: ControlFlowGraph,
    component: Set<usize>,
    entries: Seq<usize>,
) -> Map<usize, usize> {
    claim_steps(cfg, component, entries, component.len())
}

/// The blocks that belong to `entry`.
pub open spec fn claimed_by(m: Map<usize, usize>, entry: usize) -> Set<usize> {
    Set::new(|pc: usize| m.contains_key(pc) && m[pc] == entry)
}

pub open spec fn split_list(m: Map<usize, usize>, entries: Seq<usize>, n: nat) -> Seq<
    (usize, Set<usize>),
>
    decreases n,
{
    if n == 0 {
        seq![]
    } else {
        let rest = split_list(m, entries, (n - 1) as nat);
        let own = claimed_by(m, entries[n - 1]);
        if own.len() == 0 {
            rest
        } else {
            rest.push((entries[n - 1], own))
        }
    }
}

/// The functions of a component: entry and blocks.
pub open spec fn split(cfg: ControlFlowGraph, component: Set<usize>) -> Seq<(usize, Set<usize>)> {
    let list = ordered::ascending(component);
    if component.len() <= 1 {
        seq![(list[0], component)]
    } else {
        let entry = entry_of(cfg, component);
        let more = frame_entries(cfg, component, entry, list, list.len());
        if more.len() == 0 {
            seq![(entry, component)]
        } else {
            let entries = seq![entry] + more;
            split_list(claimed(cfg, component, entries), entries, entries.len())
        }
    }
}

fn find_frame_entries(
    cfg: &ControlFlowGraph,
    component: &BTreeSet<usize>,
    entry: usize,
    list: &Vec<usize>,
) -> (r: Vec<usize>)
    ensures
        r@ == frame_entries(*cfg, component@, entry, list@, list@.len()),
{
    let mut r: Vec<usize> = Vec::new();
    let mut i: usize = 0;
    while i < list.len()
        invariant
            i <= list@.len(),
            r@ == frame_entries(*cfg, component@, entry, list@, i as nat),
        decreases list@.len() - i,
    {
        let pc: usize = list[i];
        if pc != entry && has_stack_prologue(cfg, pc) && is_call_target(cfg, pc, component) {
            r.push(pc);
        }
        i = i + 1;
    }
    r
}

/// Whether `entry` takes `pc` next: a block of the component that nobody holds.
pub open spec fn takes(
    cfg: ControlFlowGraph,
    component: Set<usize>,
    held: Map<usize, usize>,
    entry: usize,
    pc: usize,
) -> bool {
    component.contains(pc) && !held.contains_key(pc) && claims(cfg, held, entry, pc)
}

/// Give the blocks that `entry` takes to it.
fn claim_for(
    cfg: &ControlFlowGraph,
    component: &BTreeSet<usize>,
    held: &BTreeMap<usize, usize>,
    fresh: &mut BTreeMap<usize, usize>,
    entry: usize,
)
    ensures
        forall|pc: usize| #[trigger]
            final(fresh)@.contains_key(pc) <==> old(fresh)@.contains_key(pc) || takes(
                *cfg,
                component@,
                held@,
                entry,
                pc,
            ),
        forall|pc: usize| #[trigger]
            final(fresh)@.contains_key(pc) ==> final(fresh)@[pc] == if takes(
                *cfg,
                component@,
                held@,
                entry,
                pc,
            ) {
                entry
            } else {
                old(fresh)@[pc]
            },
{
    let ghost start = fresh@;
    let keys = keys_of(held);
    let ghost open = |pc: usize| component@.contains(pc) && !held@.contains_key(pc);
    let ghost owned = |n: int, pc: usize|
        exists|k: int|
            0 <= k < n && dominators::edge(*cfg, #[trigger] keys@[k], pc) && held@[keys@[k]]
                == entry;
    let mut i: usize = 0;
    while i < keys.len()
        invariant
            i <= keys@.len(),
            keys@.to_set() == held@.dom(),
            open == |pc: usize| component@.contains(pc) && !held@.contains_key(pc),
            owned == |n: int, pc: usize|
                exists|k: int|
                    0 <= k < n && dominators::edge(*cfg, #[trigger] keys@[k], pc)
                        && held@[keys@[k]] == entry,
            forall|pc: usize| #[trigger]
                fresh@.contains_key(pc) <==> start.contains_key(pc) || (open(pc) && owned(
                    i as int,
                    pc,
                )),
            forall|pc: usize| #[trigger]
                fresh@.contains_key(pc) ==> fresh@[pc] == if open(pc) && owned(i as int, pc) {
                    entry
                } else {
                    start[pc]
                },
        decreases keys@.len() - i,
    {
        let m: usize = keys[i];
        assert(keys@.to_set().contains(m));
        let ghost was = fresh@;
        let owner: usize = match held.get(&m) {
            Some(e) => *e,
            None => 0,
        };
        if owner == entry {
            if let Some(block) = cfg.blocks.get(&m) {
                let mut j: usize = 0;
                while j < block.successors.len()
                    invariant
                        j <= block.successors@.len(),
                        open == |pc: usize| component@.contains(pc) && !held@.contains_key(pc),
                        forall|pc: usize| #[trigger]
                            fresh@.contains_key(pc) <==> was.contains_key(pc) || (open(pc)
                                && block.successors@.take(j as int).contains(pc)),
                        forall|pc: usize| #[trigger]
                            fresh@.contains_key(pc) ==> fresh@[pc] == if open(pc)
                                && block.successors@.take(j as int).contains(pc) {
                                entry
                            } else {
                                was[pc]
                            },
                    decreases block.successors@.len() - j,
                {
                    let t: usize = block.successors[j];
                    let ghost now = fresh@;
                    if component.contains(&t) && !held.contains_key(&t) {
                        fresh.insert(t, entry);
                    }
                    proof {
                        let seen = block.successors@.take(j as int);
                        assert(block.successors@.take(j + 1) =~= seen.push(t));
                        assert forall|pc: usize| #[trigger] fresh@.contains_key(pc)
                            <==> was.contains_key(pc) || (open(pc) && seen.push(t).contains(pc)) by {
                            ordered::lemma_push_key(seen, t, pc);
                            assert(now.contains_key(pc) <==> was.contains_key(pc) || (open(pc)
                                && seen.contains(pc)));
                        }
                        assert forall|pc: usize| #[trigger] fresh@.contains_key(pc) implies
                            fresh@[pc] == if open(pc) && seen.push(t).contains(pc) {
                            entry
                        } else {
                            was[pc]
                        } by {
                            ordered::lemma_push_key(seen, t, pc);
                            if pc != t || !open(t) {
                                assert(now.contains_key(pc));
                            }
                        }
                    }
                    j = j + 1;
                }
                assert(block.successors@.take(j as int) =~= block.successors@);
            }
        }
        proof {
            assert forall|pc: usize|
                owned(i + 1, pc) == (owned(i as int, pc) || (owner == entry && dominators::edge(
                    *cfg,
                    m,
                    pc,
                ))) by {
                if dominators::edge(*cfg, m, pc) && owner == entry {
                    assert(dominators::edge(*cfg, keys@[i as int], pc));
                }
            }
            assert forall|pc: usize| #[trigger] fresh@.contains_key(pc) <==> start.contains_key(pc)
                || (open(pc) && owned(i + 1, pc)) by {
                assert(was.contains_key(pc) <==> start.contains_key(pc) || (open(pc) && owned(
                    i as int,
                    pc,
                )));
            }
            assert forall|pc: usize| #[trigger] fresh@.contains_key(pc) implies fresh@[pc]
                == if open(pc) && owned(i + 1, pc) {
                entry
            } else {
                start[pc]
            } by {
                if !(owner == entry && dominators::edge(*cfg, m, pc) && open(pc)) {
                    assert(was.contains_key(pc));
                }
            }
        }
        i = i + 1;
    }
    assert forall|pc: usize| #[trigger] claims(*cfg, held@, entry, pc) == owned(keys@.len() as int, pc) by {
        if claims(*cfg, held@, entry, pc) {
            let m = choose|m: usize|
                #[trigger] dominators::edge(*cfg, m, pc) && held@.contains_key(m) && held@[m]
                    == entry;
            assert(keys@.to_set().contains(m));
            let k = choose|k: int| 0 <= k < keys@.len() && keys@[k] == m;
            assert(dominators::edge(*cfg, keys@[k], pc));
        }
        if owned(keys@.len() as int, pc) {
            let k = choose|k: int|
                0 <= k < keys@.len() && dominators::edge(*cfg, #[trigger] keys@[k], pc)
                    && held@[keys@[k]] == entry;
            assert(keys@.to_set().contains(keys@[k]));
        }
    }
}

/// One step of claiming; tells whether anything was claimed.
fn claim_more(
    cfg: &ControlFlowGraph,
    component: &BTreeSet<usize>,
    entries: &Vec<usize>,
    held: &mut BTreeMap<usize, usize>,
) -> (more: bool)
    ensures
        final(held)@ == claim_step(*cfg, component@, entries@, old(held)@),
        !more ==> final(held)@ == old(held)@,
{
    let ghost before = held@;
    let mut fresh: BTreeMap<usize, usize> = BTreeMap::new();
    let mut i: usize = entries.len();
    while i > 0
        invariant
            i <= entries@.len(),
            held@ == before,
            forall|pc: usize| #[trigger]
                fresh@.contains_key(pc) <==> component@.contains(pc) && !before.contains_key(pc)
                    && first_claim(*cfg, before, entries@, pc, i as int) is Some,
            forall|pc: usize| #[trigger]
                fresh@.contains_key(pc) ==> Some(fresh@[pc]) == first_claim(
                    *cfg,
                    before,
                    entries@,
                    pc,
                    i as int,
                ),
        decreases i,
    {
        i = i - 1;
        let ghost was = fresh@;
        claim_for(cfg, component, held, &mut fresh, entries[i]);
        assert forall|pc: usize| #[trigger] fresh@.contains_key(pc) <==> component@.contains(pc)
            && !before.contains_key(pc) && first_claim(*cfg, before, entries@, pc, i as int) is Some by {
            assert(was.contains_key(pc) <==> component@.contains(pc) && !before.contains_key(pc)
                && first_claim(*cfg, before, entries@, pc, i + 1) is Some);
            assert(takes(*cfg, component@, before, entries@[i as int], pc) ==> claims(
                *cfg,
                before,
                entries@[i as int],
                pc,
            ));
        }
        assert forall|pc: usize| #[trigger] fresh@.contains_key(pc) implies Some(fresh@[pc])
            == first_claim(*cfg, before, entries@, pc, i as int) by {
            if !takes(*cfg, component@, before, entries@[i as int], pc) {
                assert(was.contains_key(pc));
            }
        }
    }
    let keys = keys_of(&fresh);
    let mut j: usize = 0;
    while j < keys.len()
        invariant
            j <= keys@.len(),
            keys@.to_set() == fresh@.dom(),
            forall|pc: usize| #[trigger]
                held@.contains_key(pc) <==> before.contains_key(pc) || keys@.take(j as int).contains(
                    pc,
                ),
            forall|pc: usize| #[trigger]
                held@.contains_key(pc) ==> held@[pc] == if keys@.take(j as int).contains(pc) {
                    fresh@[pc]
                } else {
                    before[pc]
                },
        decreases keys@.len() - j,
    {
        let k: usize = keys[j];
        assert(keys@.to_set().contains(k));
        let ghost was = held@;
        if let Some(e) = fresh.get(&k) {
            held.insert(k, *e);
        }
        assert(keys@.take(j + 1) =~= keys@.take(j as int).push(k));
        assert forall|pc: usize| #[trigger] held@.contains_key(pc) <==> before.contains_key(pc)
            || keys@.take(j + 1).contains(pc) by {
            ordered::lemma_push_key(keys@.take(j as int), k, pc);
            assert(was.contains_key(pc) <==> before.contains_key(pc) || keys@.take(
                j as int,
            ).contains(pc));
        }
        assert forall|pc: usize| #[trigger] held@.contains_key(pc) implies held@[pc]
            == if keys@.take(j + 1).contains(pc) {
            fresh@[pc]
        } else {
            before[pc]
        } by {
            ordered::lemma_push_key(keys@.take(j as int), k, pc);
            if pc != k {
                assert(was.contains_key(pc));
            }
        }
        j = j + 1;
    }
    proof {
        assert(keys@.take(j as int) =~= keys@);
        assert forall|pc: usize| keys@.contains(pc) == #[trigger] fresh@.contains_key(pc) by {
            assert(keys@.to_set().contains(pc) == fresh@.dom().contains(pc));
        }
        let want = claim_step(*cfg, component@, entries@, before);
        assert forall|pc: usize| #[trigger] held@.contains_key(pc) == want.contains_key(pc) by {
            assert(fresh@.contains_key(pc) == keys@.contains(pc));
        }
        assert forall|pc: usize| #[trigger] held@.contains_key(pc) implies held@[pc] == want[pc] by {
            assert(fresh@.contains_key(pc) == keys@.contains(pc));
        }
        assert(held@ =~= want);
        if keys@.len() == 0 {
            assert(held@ =~= before);
        }
    }
    keys.len() > 0
}

pub proof fn lemma_claims_settle(
    cfg: ControlFlowGraph,
    component: Set<usize>,
    entries: Seq<usize>,
    k: nat,
    n: nat,
)
    requires
        claim_steps(cfg, component, entries, k + 1) == claim_steps(cfg, component, entries, k),
        k <= n,
    ensures
        claim_steps(cfg, component, entries, n) == claim_steps(cfg, component, entries, k),
    decreases n,
{
    if n > k {
        lemma_claims_settle(cfg, component, entries, k, (n - 1) as nat);
    }
}

/// Assign each block in the component to the nearest function entry.
fn assign_blocks_to_entries(
    cfg: &ControlFlowGraph,
    component: &BTreeSet<usize>,
    entries: &Vec<usize>,
) -> (held: BTreeMap<usize, usize>)
    ensures
        held@ == claimed(*cfg, component@, entries@),
{
    let mut held: BTreeMap<usize, usize> = BTreeMap::new();
    let mut i: usize = 0;
    while i < entries.len()
        invariant
            i <= entries@.len(),
            forall|pc: usize| #[trigger]
                held@.contains_key(pc) <==> component@.contains(pc) && entries@.take(
                    i as int,
                ).contains(pc),
            forall|pc: usize| #[trigger] held@.contains_key(pc) ==> held@[pc] == pc,
        decreases entries@.len() - i,
    {
        let e: usize = entries[i];
        let ghost was = held@;
        if component.contains(&e) {
            held.insert(e, e);
        }
        assert(entries@.take(i + 1) =~= entries@.take(i as int).push(e));
        assert forall|pc: usize| #[trigger] held@.contains_key(pc) <==> component@.contains(pc)
            && entries@.take(i + 1).contains(pc) by {
            ordered::lemma_push_key(entries@.take(i as int), e, pc);
            assert(was.contains_key(pc) <==> component@.contains(pc) && entries@.take(
                i as int,
            ).contains(pc));
        }
        assert forall|pc: usize| #[trigger] held@.contains_key(pc) implies held@[pc] == pc by {
            if pc != e {
                assert(was.contains_key(pc));
            }
        }
        i = i + 1;
    }
    assert(entries@.take(i as int) =~= entries@);
    assert(held@ =~= claim_steps(*cfg, component@, entries@, 0));
    let size: usize = component.len();
    let mut k: usize = 0;
    while k < size
        invariant
            k <= size,
            size == component@.len(),
            held@ == claim_steps(*cfg, component@, entries@, k as nat),
        decreases size - k,
    {
        let more = claim_more(cfg, component, entries, &mut held);
        if !more {
            proof {
                lemma_claims_settle(*cfg, component@, entries@, k as nat, size as nat);
            }
            return held;
        }
        k = k + 1;
    }
    held
}

/// An entry and its blocks.
pub open spec fn raw_view(f: (usize, BTreeSet<usize>)) -> (usize, Set<usize>) {
    (f.0, f.1@)
}

spec fn raw_views(s: Seq<(usize, BTreeSet<usize>)>) -> Seq<(usize, Set<usize>)> {
    s.map_values(|f: (usize, BTreeSet<usize>)| raw_view(f))
}

fn blocks_held_by(held: &BTreeMap<usize, usize>, entry: usize) -> (own: BTreeSet<usize>)
    ensures
        own@ == claimed_by(held@, entry),
{
    let keys = keys_of(held);
    let mut own: BTreeSet<usize> = BTreeSet::new();
    let mut i: usize = 0;
    while i < keys.len()
        invariant
            i <= keys@.len(),
            keys@.to_set() == held@.dom(),
            forall|pc: usize| #[trigger]
                own@.contains(pc) <==> keys@.take(i as int).contains(pc) && held@[pc] == entry,
        decreases keys@.len() - i,
    {
        let k: usize = keys[i];
        assert(keys@.to_set().contains(k));
        let ghost was = own@;
        if let Some(e) = held.get(&k) {
            if *e == entry {
                own.insert(k);
            }
        }
        assert(keys@.take(i + 1) =~= keys@.take(i as int).push(k));
        assert forall|pc: usize| #[trigger] own@.contains(pc) <==> keys@.take(i + 1).contains(pc)
            && held@[pc] == entry by {
            ordered::lemma_push_key(keys@.take(i as int), k, pc);
            assert(was.contains(pc) <==> keys@.take(i as int).contains(pc) && held@[pc] == entry);
        }
        i = i + 1;
    }
    proof {
        assert(keys@.take(i as int) =~= keys@);
        assert forall|pc: usize| #[trigger] own@.contains(pc) == claimed_by(held@, entry).contains(pc) by {
            assert(keys@.to_set().contains(pc) == held@.dom().contains(pc));
        }
        assert(own@ =~= claimed_by(held@, entry));
    }
    own
}

fn split_by_entries(
    cfg: &ControlFlowGraph,
    component: &BTreeSet<usize>,
    entries: &Vec<usize>,
) -> (list: Vec<(usize, BTreeSet<usize>)>)
    ensures
        raw_views(list@) == split_list(
            claimed(*cfg, component@, entries@),
            entries@,
            entries@.len(),
        ),
{
    let held = assign_blocks_to_entries(cfg, component, entries);
    let mut list: Vec<(usize, BTreeSet<usize>)> = Vec::new();
    assert(raw_views(list@) =~= seq![]);
    let mut i: usize = 0;
    while i < entries.len()
        invariant
            i <= entries@.len(),
            raw_views(list@) == split_list(held@, entries@, i as nat),
        decreases entries@.len() - i,
    {
        let own = blocks_held_by(&held, entries[i]);
        if own.len() > 0 {
            let ghost was = raw_views(list@);
            let ghost blocks = own@;
            list.push((entries[i], own));
            assert(raw_views(list@) =~= was.push((entries@[i as int], blocks)));
        }
        i = i + 1;
    }
    list
}

/// Split a component at stack frame prologues. Without any, the whole component is one
/// function.
fn split_at_prologues(cfg: &ControlFlowGraph, component: BTreeSet<usize>) -> (list: Vec<
    (usize, BTreeSet<usize>),
>)
    requires
        component@.len() > 0,
    ensures
        raw_views(list@) == split(*cfg, component@),
{
    let members = members_of(&component);
    let mut list: Vec<(usize, BTreeSet<usize>)> = Vec::new();
    let ghost whole = component@;
    proof {
        ordered::lemma_ascending_exists(component@);
        if members@.len() == 0 {
            assert(members@.to_set() =~= Set::empty());
        }
    }
    if component.len() <= 1 {
        list.push((members[0], component));
        assert(raw_views(list@) =~= seq![(members@[0], whole)]);
        return list;
    }
    let entry: usize = find_component_entry(cfg, &component, &members);
    let mut more = find_frame_entries(cfg, &component, entry, &members);
    if more.len() == 0 {
        list.push((entry, component));
        assert(raw_views(list@) =~= seq![(entry, whole)]);
        return list;
    }
    let ghost found = more@;
    let mut entries: Vec<usize> = Vec::new();
    entries.push(entry);
    entries.append(&mut more);
    assert(entries@ =~= seq![entry] + found);
    split_by_entries(cfg, &component, &entries)
}

/// The functions of the first `n` components.
pub open spec fn split_all(cfg: ControlFlowGraph, parts: Seq<Set<usize>>, n: nat) -> Seq<
    (usize, Set<usize>),
>
    decreases n,
{
    if n == 0 {
        seq![]
    } else {
        split_all(cfg, parts, (n - 1) as nat) + split(cfg, parts[n - 1])
    }
}

/// Where an entry belongs among the first `n`: behind the last that is not greater.
pub open spec fn place(list: Seq<(usize, Set<usize>)>, entry: usize, n: nat) -> nat
    decreases n,
{
    if n == 0 || list[n - 1].0 <= entry {
        n
    } else {
        place(list, entry, (n - 1) as nat)
    }
}

/// The first `n`, by entry.
pub open spec fn by_entry(list: Seq<(usize, Set<usize>)>, n: nat) -> Seq<(usize, Set<usize>)>
    decreases n,
{
    if n == 0 {
        seq![]
    } else {
        let rest = by_entry(list, (n - 1) as nat);
        rest.insert(place(rest, list[n - 1].0, rest.len()) as int, list[n - 1])
    }
}

/// How many of the first `n` functions are not the main one.
pub open spec fn others(list: Seq<(usize, Set<usize>)>, main: usize, n: nat) -> nat
    decreases n,
{
    if n == 0 {
        0
    } else {
        others(list, main, (n - 1) as nat) + if list[n - 1].0 == main {
            0nat
        } else {
            1nat
        }
    }
}

/// The name of the `i`th function: the one at the program's entry is `main`, the others
/// are numbered.
pub open spec fn unit_name(list: Seq<(usize, Set<usize>)>, main: usize, i: nat) -> Seq<char> {
    if list[i as int].0 == main {
        "main"@
    } else {
        "func_"@ + text::dec(others(list, main, i))
    }
}

/// The functions of a program, by entry.
pub open spec fn detected(cfg: ControlFlowGraph) -> Seq<Unit> {
    let all = split_all(cfg, components(cfg), components(cfg).len());
    let list = by_entry(all, all.len());
    Seq::new(
        list.len(),
        |i: int|
            Unit {
                entry_pc: list[i].0,
                blocks: list[i].1,
                name: unit_name(list, cfg.entry_pc, i as nat),
            },
    )
}

proof fn lemma_raw_concat(a: Seq<(usize, BTreeSet<usize>)>, b: Seq<(usize, BTreeSet<usize>)>)
    ensures
        raw_views(a + b) == raw_views(a) + raw_views(b),
{
    assert(raw_views(a + b) =~= raw_views(a) + raw_views(b));
}

fn split_components(cfg: &ControlFlowGraph) -> (all: Vec<(usize, BTreeSet<usize>)>)
    ensures
        raw_views(all@) == split_all(*cfg, components(*cfg), components(*cfg).len()),
{
    let mut parts = find_connected_components(cfg);
    let ghost total = parts@;
    let mut all: Vec<(usize, BTreeSet<usize>)> = Vec::new();
    assert(raw_views(all@) =~= seq![]);
    let ghost mut n: nat = 0;
    assert(total.skip(0) =~= total);
    while parts.len() > 0
        invariant
            n <= total.len(),
            parts@ == total.skip(n as int),
            set_views(total) == components(*cfg),
            forall|i: int| 0 <= i < total.len() ==> (#[trigger] total[i])@.len() > 0,
            raw_views(all@) == split_all(*cfg, components(*cfg), n),
        decreases parts@.len(),
    {
        let part = parts.remove(0);
        assert(part == total[n as int]);
        assert(set_views(total)[n as int] == part@);
        let mut more = split_at_prologues(cfg, part);
        let ghost was = all@;
        let ghost added = more@;
        all.append(&mut more);
        proof {
            lemma_raw_concat(was, added);
            assert(parts@ =~= total.skip(n as int + 1));
            n = n + 1;
        }
    }
    all
}

fn place_of(list: &Vec<(usize, BTreeSet<usize>)>, entry: usize) -> (p: usize)
    ensures
        p == place(raw_views(list@), entry, list@.len()),
        p <= list@.len(),
{
    let mut p: usize = list.len();
    while p > 0 && list[p - 1].0 > entry
        invariant
            p <= list@.len(),
            place(raw_views(list@), entry, list@.len()) == place(raw_views(list@), entry, p as nat),
        decreases p,
    {
        p = p - 1;
    }
    p
}

fn sort_by_entry(all: Vec<(usize, BTreeSet<usize>)>) -> (list: Vec<(usize, BTreeSet<usize>)>)
    ensures
        raw_views(list@) == by_entry(raw_views(all@), all@.len()),
{
    let ghost total = all@;
    let mut all = all;
    let mut list: Vec<(usize, BTreeSet<usize>)> = Vec::new();
    assert(raw_views(list@) =~= seq![]);
    let ghost mut n: nat = 0;
    assert(total.skip(0) =~= total);
    while all.len() > 0
        invariant
            n <= total.len(),
            all@ == total.skip(n as int),
            raw_views(list@) == by_entry(raw_views(total), n),
        decreases all@.len(),
    {
        let f = all.remove(0);
        assert(f == total[n as int]);
        assert(raw_views(total)[n as int] == raw_view(f));
        let p: usize = place_of(&list, f.0);
        let ghost was = raw_views(list@);
        let ghost item = raw_view(f);
        list.insert(p, f);
        proof {
            assert(raw_views(list@) =~= was.insert(p as int, item));
            assert(all@ =~= total.skip(n as int + 1));
            n = n + 1;
        }
    }
    list
}

/// Detect function boundaries and return a list of functions, by entry.
///
/// 1. Blocks are grouped into connected components.
/// 2. Within each component, stack frame prologues are used to split further.
pub fn detect_functions(cfg: &ControlFlowGraph) -> (functions: Vec<Function>)
    ensures
        units(functions@) == detected(*cfg),
{
    let all = split_components(cfg);
    let mut list = sort_by_entry(all);
    let size: usize = list.len();
    let ghost total = list@;
    let ghost views = raw_views(total);
    let main: usize = cfg.entry_pc;
    let mut functions: Vec<Function> = Vec::new();
    let mut index: u64 = 0;
    let mut n: usize = 0;
    assert(total.skip(0) =~= total);
    while list.len() > 0
        invariant
            n <= size == total.len(),
            list@ == total.skip(n as int),
            views == raw_views(total),
            main == cfg.entry_pc,
            index == others(views, main, n as nat),
            index <= n,
            functions@.len() == n,
            forall|i: int|
                0 <= i < n ==> (#[trigger] functions@[i])@ == (Unit {
                    entry_pc: views[i].0,
                    blocks: views[i].1,
                    name: unit_name(views, main, i as nat),
                }),
        decreases list@.len(),
    {
        let (entry, blocks) = list.remove(0);
        assert((entry, blocks) == total[n as int]);
        let mut name: String;
        if entry == main {
            name = "main".to_owned();
        } else {
            name = "func_".to_owned();
            push_dec(&mut name, index);
            index = index + 1;
        }
        let f = Function { entry_pc: entry, block_pcs: blocks, name };
        assert(f@ == (Unit {
            entry_pc: views[n as int].0,
            blocks: views[n as int].1,
            name: unit_name(views, main, n as nat),
        }));
        functions.push(f);
        proof {
            assert(list@ =~= total.skip(n + 1));
        }
        n = n + 1;
    }
    assert(units(functions@) =~= detected(*cfg));
    functions
}

/// A call site: a block in one function that has an edge to another function's entry.
#[derive(Debug, Clone)]
pub struct CallSite {
    /// PC of the block containing the call (the last instruction is the jump/branch).
    pub caller_block_pc: usize,
    /// Entry PC of the called function.
    pub callee_entry_pc: usize,
    /// Name of the called function.
    pub callee_name: String,
}

/// What a call site is.
pub struct Call {
    pub block: usize,
    pub callee: usize,
    pub name: Seq<char>,
}

impl View for CallSite {
    type V = Call;

    open spec fn view(&self) -> Call {
        Call {
            block: self.caller_block_pc,
            callee: self.callee_entry_pc,
            name: self.callee_name@,
        }
    }
}

pub open spec fn calls_of(s: Seq<CallSite>) -> Seq<Call> {
    s.map_values(|c: CallSite| c@)
}

/// The entry of the function that holds a block; of several the last.
pub open spec fn owner(functions: Seq<Unit>, n: nat, pc: usize) -> Option<usize>
    decreases n,
{
    if n == 0 {
        None
    } else if functions[n - 1].blocks.contains(pc) {
        Some(functions[n - 1].entry_pc)
    } else {
        owner(functions, (n - 1) as nat, pc)
    }
}

/// The name of the function at an entry; of several the last.
pub open spec fn name_at(functions: Seq<Unit>, n: nat, entry: usize) -> Seq<char>
    decreases n,
{
    if n == 0 {
        "func_at_"@ + text::hex_prefixed(entry as nat, 4)
    } else if functions[n - 1].entry_pc == entry {
        functions[n - 1].name
    } else {
        name_at(functions, (n - 1) as nat, entry)
    }
}

fn find_owner(functions: &[Function], pc: usize) -> (r: Option<usize>)
    ensures
        r == owner(units(functions@), functions@.len(), pc),
{
    let mut n: usize = functions.len();
    while n > 0
        invariant
            n <= functions@.len(),
            owner(units(functions@), functions@.len(), pc) == owner(
                units(functions@),
                n as nat,
                pc,
            ),
        decreases n,
    {
        if functions[n - 1].block_pcs.contains(&pc) {
            return Some(functions[n - 1].entry_pc);
        }
        n = n - 1;
    }
    None
}

fn find_name(functions: &[Function], entry: usize) -> (r: String)
    ensures
        r@ == name_at(units(functions@), functions@.len(), entry),
{
    let mut n: usize = functions.len();
    while n > 0
        invariant
            n <= functions@.len(),
            name_at(units(functions@), functions@.len(), entry) == name_at(
                units(functions@),
                n as nat,
                entry,
            ),
        decreases n,
    {
        if functions[n - 1].entry_pc == entry {
            return functions[n - 1].name.as_str().to_owned();
        }
        n = n - 1;
    }
    let mut r = "func_at_".to_owned();
    push_hex_prefixed(&mut r, entry as u64, 4);
    r
}

/// The calls among the first `n` edges out of a block: those to another function's
/// entry.
pub open spec fn block_calls(
    functions: Seq<Unit>,
    caller: usize,
    block: usize,
    targets: Seq<usize>,
    n: nat,
) -> Seq<Call>
    decreases n,
{
    if n == 0 {
        seq![]
    } else {
        let rest = block_calls(functions, caller, block, targets, (n - 1) as nat);
        let t = targets[n - 1];
        if t != caller && owner(functions, functions.len(), t) == Some(t) {
            rest.push(Call { block, callee: t, name: name_at(functions, functions.len(), t) })
        } else {
            rest
        }
    }
}

/// The calls out of the first `n` of a function's blocks.
pub open spec fn unit_calls(
    cfg: ControlFlowGraph,
    functions: Seq<Unit>,
    caller: usize,
    blocks: Seq<usize>,
    n: nat,
) -> Seq<Call>
    decreases n,
{
    if n == 0 {
        seq![]
    } else {
        let rest = unit_calls(cfg, functions, caller, blocks, (n - 1) as nat);
        if cfg.blocks@.contains_key(blocks[n - 1]) {
            let targets = cfg.blocks@[blocks[n - 1]].successors@;
            rest + block_calls(functions, caller, blocks[n - 1], targets, targets.len())
        } else {
            rest
        }
    }
}

/// The call sites of the first `n` functions, by the entry of the caller.
pub open spec fn call_graph(cfg: ControlFlowGraph, functions: Seq<Unit>, n: nat) -> Map<
    usize,
    Seq<Call>,
>
    decreases n,
{
    if n == 0 {
        Map::empty()
    } else {
        let rest = call_graph(cfg, functions, (n - 1) as nat);
        let f = functions[n - 1];
        let list = ordered::ascending(f.blocks);
        let calls = unit_calls(cfg, functions, f.entry_pc, list, list.len());
        if calls.len() == 0 {
            rest
        } else if rest.contains_key(f.entry_pc) {
            rest.insert(f.entry_pc, rest[f.entry_pc] + calls)
        } else {
            rest.insert(f.entry_pc, calls)
        }
    }
}

fn push_block_calls(
    calls: &mut Vec<CallSite>,
    functions: &[Function],
    caller: usize,
    block: usize,
    targets: &Vec<usize>,
)
    ensures
        calls_of(final(calls)@) == calls_of(old(calls)@) + block_calls(
            units(functions@),
            caller,
            block,
            targets@,
            targets@.len(),
        ),
{
    let ghost start = calls_of(calls@);
    assert(start + seq![] =~= start);
    let mut i: usize = 0;
    while i < targets.len()
        invariant
            i <= targets@.len(),
            calls_of(calls@) == start + block_calls(
                units(functions@),
                caller,
                block,
                targets@,
                i as nat,
            ),
        decreases targets@.len() - i,
    {
        let t: usize = targets[i];
        let ghost was = calls_of(calls@);
        let ghost rest = block_calls(units(functions@), caller, block, targets@, i as nat);
        if t != caller {
            if let Some(e) = find_owner(functions, t) {
                if e == t {
                    let site = CallSite {
                        caller_block_pc: block,
                        callee_entry_pc: t,
                        callee_name: find_name(functions, t),
                    };
                    let ghost call = site@;
                    calls.push(site);
                    assert(calls_of(calls@) =~= was.push(call));
                    assert(was.push(call) =~= start + rest.push(call));
                }
            }
        }
        i = i + 1;
    }
}

fn list_unit_calls(cfg: &ControlFlowGraph, functions: &[Function], f: &Function) -> (calls: Vec<
    CallSite,
>)
    ensures
        calls_of(calls@) == unit_calls(
            *cfg,
            units(functions@),
            f.entry_pc,
            ordered::ascending(f.block_pcs@),
            ordered::ascending(f.block_pcs@).len(),
        ),
{
    let blocks = members_of(&f.block_pcs);
    let mut calls: Vec<CallSite> = Vec::new();
    assert(calls_of(calls@) =~= seq![]);
    let mut i: usize = 0;
    while i < blocks.len()
        invariant
            i <= blocks@.len(),
            calls_of(calls@) == unit_calls(
                *cfg,
                units(functions@),
                f.entry_pc,
                blocks@,
                i as nat,
            ),
        decreases blocks@.len() - i,
    {
        if let Some(block) = cfg.blocks.get(&blocks[i]) {
            push_block_calls(&mut calls, functions, f.entry_pc, blocks[i], &block.successors);
        }
        i = i + 1;
    }
    calls
}

/// The call sites of a call graph.
pub open spec fn graph_view(m: Map<usize, Vec<CallSite>>) -> Map<usize, Seq<Call>> {
    m.map_values(|v: Vec<CallSite>| calls_of(v@))
}

/// Build a call graph: find all cross-function edges and map them to call sites.
/// Returns a map from caller function entry PC to the list of call sites.
pub fn build_call_graph(
    cfg: &ControlFlowGraph,
    functions: &[Function],
    _program: &DecodedProgram,
) -> (graph: BTreeMap<usize, Vec<CallSite>>)
    ensures
        graph_view(graph@) == call_graph(*cfg, units(functions@), functions@.len()),
{
    let mut graph: BTreeMap<usize, Vec<CallSite>> = BTreeMap::new();
    assert(graph_view(graph@) =~= Map::empty());
    let mut i: usize = 0;
    while i < functions.len()
        invariant
            i <= functions@.len(),
            graph_view(graph@) == call_graph(*cfg, units(functions@), i as nat),
        decreases functions@.len() - i,
    {
        let f = &functions[i];
        assert(units(functions@)[i as int] == f@);
        let ghost was = graph_view(graph@);
        let entry: usize = f.entry_pc;
        let mut calls = list_unit_calls(cfg, functions, f);
        let ghost found = calls_of(calls@);
        if calls.len() > 0 {
            assert(graph_view(graph@).contains_key(entry) == graph@.contains_key(entry));
            let mut list: Vec<CallSite> = match graph.remove(&entry) {
                Some(held) => held,
                None => Vec::new(),
            };
            let ghost held = calls_of(list@);
            list.append(&mut calls);
            assert(calls_of(list@) =~= held + found);
            graph.insert(entry, list);
            proof {
                if was.contains_key(entry) {
                    assert(graph_view(graph@) =~= was.insert(entry, was[entry] + found));
                } else {
                    assert(held =~= seq![]);
                    assert(held + found =~= found);
                    assert(graph_view(graph@) =~= was.insert(entry, found));
                }
            }
        }
        i = i + 1;
    }
    graph
}

/// A detected direct call pattern: `LoadImm64 r0, N` followed by `Jump target`.
///
/// In the PVM calling convention, the caller sets r0 to the return address
/// (encoded as `(jump_table_index + 1) * 2`) and jumps to the callee.
/// The callee eventually returns via `JumpInd r0`, which goes to
/// `jump_table[r0 / 2 - 1]`.
#[derive(Debug, Clone)]
pub struct DirectCallPattern {
    /// PC of the block containing the call pattern.
    pub caller_block_pc: usize,
    /// PC of the LoadImm64 instruction (to mark as eliminated).
    pub load_imm_pc: usize,
    /// PC of the Jump instruction performing the call.
    pub jump_pc: usize,
    /// PC of the Jump target (callee entry or stack guard).
    pub jump_target_pc: usize,
    /// PC where execution continues after the callee returns.
    pub return_pc: usize,
    /// Resolved callee function name.
    pub callee_name: String,
}

/// What a direct call is.
pub struct DirectCall {
    pub block: usize,
    pub load_pc: usize,
    pub jump_pc: usize,
    pub target: usize,
    pub back: usize,
    pub name: Seq<char>,
}

impl View for DirectCallPattern {
    type V = DirectCall;

    open spec fn view(&self) -> DirectCall {
        DirectCall {
            block: self.caller_block_pc,
            load_pc: self.load_imm_pc,
            jump_pc: self.jump_pc,
            target: self.jump_target_pc,
            back: self.return_pc,
            name: self.callee_name@,
        }
    }
}

pub open spec fn direct_calls_of(s: Seq<DirectCallPattern>) -> Seq<DirectCall> {
    s.map_values(|c: DirectCallPattern| c@)
}

/// PVM jump table alignment factor: addresses are encoded as `(index + 1) * 2`.
const JUMP_ALIGNMENT_FACTOR: u64 = 2;

/// Where an encoded return address leads.
pub open spec fn decoded_return(table: Seq<u32>, value: u64) -> Option<usize> {
    if value != 0 && value % 2 == 0 && value / 2 - 1 < table.len() {
        Some(table[value / 2 - 1] as usize)
    } else {
        None
    }
}

/// The first instruction from `j` on that is not a fallthrough.
pub open spec fn next_real(code: Seq<(usize, Instruction)>, j: int) -> int
    decreases code.len() - j,
{
    if 0 <= j < code.len() && code[j].1 is Fallthrough {
        next_real(code, j + 1)
    } else {
        j
    }
}

/// Whether a function starts at an entry.
pub open spec fn is_entry(functions: Seq<Unit>, entry: usize) -> bool {
    exists|i: int| 0 <= i < functions.len() && (#[trigger] functions[i]).entry_pc == entry
}

/// The function that a jump with a return address calls: the one that holds the
/// target. A jump within the caller is a call only where the return address is another
/// function's entry, and then calls that one.
pub open spec fn callee_of(functions: Seq<Unit>, block: usize, target: usize, back: usize) -> Option<
    usize,
> {
    match (owner(functions, functions.len(), block), owner(functions, functions.len(), target)) {
        (Some(caller), Some(holder)) => if caller != holder {
            Some(holder)
        } else if is_entry(functions, back) && back != caller {
            Some(back)
        } else {
            None
        },
        _ => None,
    }
}

/// The direct call that starts at the `i`th instruction of a block.
pub open spec fn direct_call_at(
    functions: Seq<Unit>,
    table: Seq<u32>,
    block: usize,
    code: Seq<(usize, Instruction)>,
    i: int,
) -> Option<DirectCall> {
    match code[i].1 {
        Instruction::LoadImm64 { reg, value } => {
            let j = next_real(code, i + 1);
            if reg != 0 || j >= code.len() {
                None
            } else {
                match (code[j].1, decoded_return(table, value)) {
                    (Instruction::Jump { offset }, Some(back)) => {
                        let target = cfg::jump_target(code[j].0, offset);
                        match callee_of(functions, block, target, back) {
                            Some(callee) => Some(
                                DirectCall {
                                    block,
                                    load_pc: code[i].0,
                                    jump_pc: code[j].0,
                                    target,
                                    back,
                                    name: name_at(functions, functions.len(), callee),
                                },
                            ),
                            None => None,
                        }
                    },
                    _ => None,
                }
            }
        },
        _ => None,
    }
}

/// The direct calls that start at the first `n` instructions of a block.
pub open spec fn block_direct_calls(
    functions: Seq<Unit>,
    table: Seq<u32>,
    block: usize,
    code: Seq<(usize, Instruction)>,
    n: nat,
) -> Seq<DirectCall>
    decreases n,
{
    if n == 0 {
        seq![]
    } else {
        let rest = block_direct_calls(functions, table, block, code, (n - 1) as nat);
        match direct_call_at(functions, table, block, code, n - 1) {
            Some(c) => rest.push(c),
            None => rest,
        }
    }
}

/// The direct calls in the first `n` blocks.
pub open spec fn direct_calls(
    cfg: ControlFlowGraph,
    functions: Seq<Unit>,
    table: Seq<u32>,
    blocks: Seq<usize>,
    n: nat,
) -> Seq<DirectCall>
    decreases n,
{
    if n == 0 {
        seq![]
    } else {
        let b = cfg.blocks@[blocks[n - 1]];
        direct_calls(cfg, functions, table, blocks, (n - 1) as nat) + block_direct_calls(
            functions,
            table,
            b.start_pc,
            b.instructions@,
            if b.instructions@.len() == 0 {
                0
            } else {
                (b.instructions@.len() - 1) as nat
            },
        )
    }
}

fn decode_return(table: &Vec<u32>, value: u64) -> (r: Option<usize>)
    ensures
        r == decoded_return(table@, value),
{
    if value == 0 || value % JUMP_ALIGNMENT_FACTOR != 0 {
        return None;
    }
    let index: u64 = value / JUMP_ALIGNMENT_FACTOR - 1;
    if index >= table.len() as u64 {
        return None;
    }
    Some(table[index as usize] as usize)
}

fn find_next_real(code: &Vec<(usize, Instruction)>, from: usize) -> (j: usize)
    requires
        from <= code@.len(),
    ensures
        j == next_real(code@, from as int),
        from <= j <= code@.len(),
{
    let mut j: usize = from;
    while j < code.len()
        invariant
            from <= j <= code@.len(),
            next_real(code@, from as int) == next_real(code@, j as int),
        decreases code@.len() - j,
    {
        match code[j].1 {
            Instruction::Fallthrough => {},
            _ => {
                return j;
            },
        }
        j = j + 1;
    }
    j
}

fn starts_function(functions: &[Function], entry: usize) -> (r: bool)
    ensures
        r == is_entry(units(functions@), entry),
{
    let mut i: usize = 0;
    while i < functions.len()
        invariant
            i <= functions@.len(),
            forall|k: int| 0 <= k < i ==> (#[trigger] units(functions@)[k]).entry_pc != entry,
        decreases functions@.len() - i,
    {
        assert(units(functions@)[i as int] == functions@[i as int]@);
        if functions[i].entry_pc == entry {
            return true;
        }
        i = i + 1;
    }
    false
}

fn find_callee(functions: &[Function], block: usize, target: usize, back: usize) -> (r: Option<
    usize,
>)
    ensures
        r == callee_of(units(functions@), block, target, back),
{
    let caller: usize = match find_owner(functions, block) {
        Some(e) => e,
        None => {
            return None;
        },
    };
    let holder: usize = match find_owner(functions, target) {
        Some(e) => e,
        None => {
            return None;
        },
    };
    if caller != holder {
        Some(holder)
    } else if starts_function(functions, back) && back != caller {
        Some(back)
    } else {
        None
    }
}

pub open spec fn direct_view(c: Option<DirectCallPattern>) -> Option<DirectCall> {
    match c {
        Some(x) => Some(x@),
        None => None,
    }
}

fn find_direct_call(
    functions: &[Function],
    table: &Vec<u32>,
    block: usize,
    code: &Vec<(usize, Instruction)>,
    i: usize,
) -> (r: Option<DirectCallPattern>)
    requires
        i < code@.len(),
    ensures
        direct_view(r) == direct_call_at(units(functions@), table@, block, code@, i as int),
{
    match code[i].1 {
        Instruction::LoadImm64 { reg, value } => {
            let size: usize = code.len();
            let j: usize = find_next_real(code, i + 1);
            if reg != 0 || j >= size {
                return None;
            }
            match code[j].1 {
                Instruction::Jump { offset } => {
                    let back: usize = match decode_return(table, value) {
                        Some(b) => b,
                        None => {
                            return None;
                        },
                    };
                    let target: usize = ControlFlowGraph::compute_jump_target(code[j].0, offset);
                    match find_callee(functions, block, target, back) {
                        Some(callee) => Some(
                            DirectCallPattern {
                                caller_block_pc: block,
                                load_imm_pc: code[i].0,
                                jump_pc: code[j].0,
                                jump_target_pc: target,
                                return_pc: back,
                                callee_name: find_name(functions, callee),
                            },
                        ),
                        None => None,
                    }
                },
                _ => None,
            }
        },
        _ => None,
    }
}

/// Detect direct call patterns (`LoadImm64 r0, N` + `Jump`) in the CFG, by block.
///
/// Each pattern identifies:
/// - the call site (block and instruction PCs)
/// - the callee (via the jump target's containing function, with trampoline fallback)
/// - the PC to eliminate from output (the LoadImm64 setting the return address)
pub fn detect_direct_call_patterns(
    cfg: &ControlFlowGraph,
    functions: &[Function],
    program: &DecodedProgram,
) -> (patterns: Vec<DirectCallPattern>)
    ensures
        direct_calls_of(patterns@) == direct_calls(
            *cfg,
            units(functions@),
            program.jump_table@,
            ordered::ascending(cfg.blocks@.dom()),
            ordered::ascending(cfg.blocks@.dom()).len(),
        ),
{
    let keys = keys_of(&cfg.blocks);
    let mut patterns: Vec<DirectCallPattern> = Vec::new();
    assert(direct_calls_of(patterns@) =~= seq![]);
    let mut i: usize = 0;
    while i < keys.len()
        invariant
            i <= keys@.len(),
            keys@.to_set() == cfg.blocks@.dom(),
            direct_calls_of(patterns@) == direct_calls(
                *cfg,
                units(functions@),
                program.jump_table@,
                keys@,
                i as nat,
            ),
        decreases keys@.len() - i,
    {
        assert(keys@.to_set().contains(keys@[i as int]));
        if let Some(block) = cfg.blocks.get(&keys[i]) {
            let code = &block.instructions;
            let last: usize = if code.len() == 0 {
                0
            } else {
                code.len() - 1
            };
            let ghost start = direct_calls_of(patterns@);
            assert(start + seq![] =~= start);
            let mut j: usize = 0;
            while j < last
                invariant
                    j <= last,
                    last == 0 || last + 1 == code@.len(),
                    direct_calls_of(patterns@) == start + block_direct_calls(
                        units(functions@),
                        program.jump_table@,
                        block.start_pc,
                        code@,
                        j as nat,
                    ),
                decreases last - j,
            {
                let ghost rest = block_direct_calls(
                    units(functions@),
                    program.jump_table@,
                    block.start_pc,
                    code@,
                    j as nat,
                );
                let ghost was = direct_calls_of(patterns@);
                match find_direct_call(functions, &program.jump_table, block.start_pc, code, j) {
                    Some(c) => {
                        let ghost call = c@;
                        patterns.push(c);
                        assert(direct_calls_of(patterns@) =~= was.push(call));
                        assert(was.push(call) =~= start + rest.push(call));
                    },
                    None => {},
                }
                j = j + 1;
            }
        }
        i = i + 1;
    }
    patterns
}

/// Keep of a list what a set holds.
pub open spec fn kept(list: Seq<usize>, set: Set<usize>, n: nat) -> Seq<usize>
    decreases n,
{
    if n == 0 {
        seq![]
    } else if set.contains(list[n - 1]) {
        kept(list, set, (n - 1) as nat).push(list[n - 1])
    } else {
        kept(list, set, (n - 1) as nat)
    }
}

/// Whether `sub` is `block` with only the edges within `blocks`.
pub open spec fn narrowed(block: BasicBlock, blocks: Set<usize>, sub: BasicBlock) -> bool {
    &&& sub.start_pc == block.start_pc
    &&& sub.end_pc == block.end_pc
    &&& pvm::same_code(block.instructions@, sub.instructions@)
    &&& sub.successors@ == kept(block.successors@, blocks, block.successors@.len())
    &&& sub.predecessors@ == kept(block.predecessors@, blocks, block.predecessors@.len())
}

/// Whether a function's block starts at `pc`.
pub open spec fn starts_in(cfg: ControlFlowGraph, blocks: Set<usize>, key: usize, pc: usize) -> bool {
    blocks.contains(key) && cfg.blocks@.contains_key(key) && cfg.blocks@[key].start_pc == pc
}

/// Whether `sub` is the part of a graph that belongs to a function: its blocks, each
/// with the edges that stay within.
pub open spec fn is_part(cfg: ControlFlowGraph, f: Unit, sub: ControlFlowGraph) -> bool {
    &&& sub.entry_pc == f.entry_pc
    &&& forall|pc: usize| #[trigger]
        sub.blocks@.contains_key(pc) <==> exists|key: usize|
            #[trigger] starts_in(cfg, f.blocks, key, pc)
    &&& forall|pc: usize| #[trigger]
        sub.blocks@.contains_key(pc) ==> exists|key: usize|
            #[trigger] starts_in(cfg, f.blocks, key, pc) && narrowed(
                cfg.blocks@[key],
                f.blocks,
                sub.blocks@[pc],
            )
}

fn keep(list: &Vec<usize>, set: &BTreeSet<usize>) -> (r: Vec<usize>)
    ensures
        r@ == kept(list@, set@, list@.len()),
{
    let mut r: Vec<usize> = Vec::new();
    let mut i: usize = 0;
    while i < list.len()
        invariant
            i <= list@.len(),
            r@ == kept(list@, set@, i as nat),
        decreases list@.len() - i,
    {
        if set.contains(&list[i]) {
            r.push(list[i]);
        }
        i = i + 1;
    }
    r
}

/// Build a sub-CFG containing only the blocks belonging to a function.
/// Edges to blocks outside the function are removed.
pub fn build_function_cfg(cfg: &ControlFlowGraph, function: &Function) -> (sub: ControlFlowGraph)
    ensures
        is_part(*cfg, function@, sub),
{
    let mut sub = ControlFlowGraph::new(function.entry_pc);
    let members = members_of(&function.block_pcs);
    let ghost blocks = function.block_pcs@;
    let mut i: usize = 0;
    while i < members.len()
        invariant
            i <= members@.len(),
            members@.to_set() == blocks,
            blocks == function.block_pcs@,
            sub.entry_pc == function.entry_pc,
            forall|pc: usize| #[trigger]
                sub.blocks@.contains_key(pc) ==> exists|key: usize|
                    #[trigger] starts_in(*cfg, blocks, key, pc) && narrowed(
                        cfg.blocks@[key],
                        blocks,
                        sub.blocks@[pc],
                    ),
            forall|j: int, pc: usize|
                0 <= j < i && #[trigger] starts_in(*cfg, blocks, members@[j], pc)
                    ==> sub.blocks@.contains_key(pc),
        decreases members@.len() - i,
    {
        let ghost was = sub.blocks@;
        assert(members@.to_set().contains(members@[i as int]));
        if let Some(block) = cfg.blocks.get(&members[i]) {
            let part = BasicBlock {
                start_pc: block.start_pc,
                end_pc: block.end_pc,
                instructions: copy_code(&block.instructions),
                successors: keep(&block.successors, &function.block_pcs),
                predecessors: keep(&block.predecessors, &function.block_pcs),
            };
            assert(starts_in(*cfg, blocks, members@[i as int], block.start_pc));
            assert(narrowed(*block, blocks, part));
            sub.add_block(part);
            assert forall|pc: usize| #[trigger] sub.blocks@.contains_key(pc) implies exists|
                key: usize,
            |
                #[trigger] starts_in(*cfg, blocks, key, pc) && narrowed(
                    cfg.blocks@[key],
                    blocks,
                    sub.blocks@[pc],
                ) by {
                if pc != block.start_pc {
                    assert(was.contains_key(pc));
                }
            }
        }
        assert forall|j: int, pc: usize|
            0 <= j < i + 1 && #[trigger] starts_in(*cfg, blocks, members@[j], pc) implies
            sub.blocks@.contains_key(pc) by {
            if j < i {
                assert(was.contains_key(pc));
            }
        }
        i = i + 1;
    }
    assert forall|pc: usize, key: usize| #[trigger] starts_in(*cfg, blocks, key, pc) implies
        sub.blocks@.contains_key(pc) by {
        assert(members@.to_set().contains(key));
        let j = choose|j: int| 0 <= j < members@.len() && members@[j] == key;
        assert(starts_in(*cfg, blocks, members@[j], pc));
    }
    assert(function@.blocks == blocks);
    assert forall|pc: usize| #[trigger] sub.blocks@.contains_key(pc) implies exists|key: usize|
        #[trigger] starts_in(*cfg, blocks, key, pc) by {
        let key = choose|key: usize|
            #[trigger] starts_in(*cfg, blocks, key, pc) && narrowed(
                cfg.blocks@[key],
                blocks,
                sub.blocks@[pc],
            );
        assert(starts_in(*cfg, blocks, key, pc));
    }
    sub
}

/// Whether a register is saved by the callee.
pub open spec fn callee_saved(reg: u8) -> bool {
    9 <= reg <= 12
}

/// Whether an instruction restores a register that the callee saved.
pub open spec fn is_restore(i: Instruction) -> bool {
    match i {
        Instruction::LoadIndU64 { dst, base, .. } => base == 1 && callee_saved(dst),
        _ => false,
    }
}

/// Restores at `n` and before it, without a gap.
pub open spec fn restores(code: Seq<(usize, Instruction)>, n: int) -> Seq<usize>
    decreases n + 1,
{
    if n < 0 || !is_restore(code[n].1) {
        seq![]
    } else {
        seq![code[n].0] + restores(code, n - 1)
    }
}

pub open spec fn ends_in_halt(code: Seq<(usize, Instruction)>) -> bool {
    let n = code.len();
    n >= 2 && match (code[n - 2].1, code[n - 1].1) {
        (
            Instruction::LoadImm { reg, value },
            Instruction::JumpInd { reg: jump_reg, .. },
        ) => value == -65536 && reg == jump_reg,
        _ => false,
    }
}

pub open spec fn ends_in_return(code: Seq<(usize, Instruction)>) -> bool {
    let n = code.len();
    &&& n >= 3
    &&& match code[n - 1].1 {
        Instruction::JumpInd { reg, offset } => reg == 0 && offset == 0,
        _ => false,
    }
    &&& match code[n - 2].1 {
        Instruction::AddImm64 { dst, src, value } => dst == 1 && src == 1 && value > 0,
        _ => false,
    }
    &&& match code[n - 3].1 {
        Instruction::LoadIndU64 { dst, base, .. } => dst == 0 && base == 1,
        _ => false,
    }
}

/// The epilogue that a block ends with: a halt, or the restoring of registers and a
/// jump to the return address.
pub open spec fn epilogue_of(code: Seq<(usize, Instruction)>) -> Option<Epilogue> {
    let n = code.len();
    if ends_in_halt(code) {
        Some(Epilogue::Halt(seq![code[n - 2].0, code[n - 1].0]))
    } else if ends_in_return(code) {
        Some(
            Epilogue::Return(
                seq![code[n - 3].0, code[n - 2].0, code[n - 1].0] + restores(code, n - 4),
            ),
        )
    } else {
        None
    }
}

fn restores_register(i: &Instruction) -> (r: bool)
    ensures
        r == is_restore(*i),
{
    match i {
        Instruction::LoadIndU64 { dst, base, .. } => *base == 1 && 9 <= *dst && *dst <= 12,
        _ => false,
    }
}

fn is_halt_end(code: &Vec<(usize, Instruction)>) -> (r: bool)
    ensures
        r == ends_in_halt(code@),
{
    let n: usize = code.len();
    if n < 2 {
        return false;
    }
    match (&code[n - 2].1, &code[n - 1].1) {
        (
            Instruction::LoadImm { reg, value },
            Instruction::JumpInd { reg: jump_reg, .. },
        ) => *value == -65536 && *reg == *jump_reg,
        _ => false,
    }
}

fn is_return_end(code: &Vec<(usize, Instruction)>) -> (r: bool)
    ensures
        r == ends_in_return(code@),
{
    let n: usize = code.len();
    if n < 3 {
        return false;
    }
    let jumps = match &code[n - 1].1 {
        Instruction::JumpInd { reg, offset } => *reg == 0 && *offset == 0,
        _ => false,
    };
    let frees = match &code[n - 2].1 {
        Instruction::AddImm64 { dst, src, value } => *dst == 1 && *src == 1 && *value > 0,
        _ => false,
    };
    let loads = match &code[n - 3].1 {
        Instruction::LoadIndU64 { dst, base, .. } => *dst == 0 && *base == 1,
        _ => false,
    };
    jumps && frees && loads
}

pub open spec fn epilogue_view(e: Option<EpilogueKind>) -> Option<Epilogue> {
    match e {
        Some(x) => Some(x@),
        None => None,
    }
}

fn find_epilogue(code: &Vec<(usize, Instruction)>) -> (r: Option<EpilogueKind>)
    ensures
        epilogue_view(r) == epilogue_of(code@),
{
    let n: usize = code.len();
    let mut pcs: Vec<usize> = Vec::new();
    if is_halt_end(code) {
        pcs.push(code[n - 2].0);
        pcs.push(code[n - 1].0);
        assert(pcs@ =~= seq![code@[n - 2].0, code@[n - 1].0]);
        return Some(EpilogueKind::Halt { eliminated_pcs: pcs });
    }
    if !is_return_end(code) {
        return None;
    }
    pcs.push(code[n - 3].0);
    pcs.push(code[n - 2].0);
    pcs.push(code[n - 1].0);
    let ghost base = seq![code@[n - 3].0, code@[n - 2].0, code@[n - 1].0];
    assert(pcs@ =~= base);
    let mut i: usize = n - 3;
    while i > 0 && restores_register(&code[i - 1].1)
        invariant
            i < n == code@.len(),
            pcs@ + restores(code@, i - 1) == base + restores(code@, n - 4),
        decreases i,
    {
        let ghost was = pcs@;
        i = i - 1;
        pcs.push(code[i].0);
        assert(pcs@ + restores(code@, i - 1) =~= was + (seq![code@[i as int].0] + restores(
            code@,
            i - 1,
        )));
    }
    assert(restores(code@, i - 1) =~= seq![]);
    assert(pcs@ + restores(code@, i - 1) =~= pcs@);
    Some(EpilogueKind::Return { eliminated_pcs: pcs })
}

/// Detect epilogue patterns in a function's blocks.
/// Returns a map from block PC to the kind, for blocks that end with an epilogue.
pub fn detect_epilogues(cfg: &ControlFlowGraph) -> (epilogues: BTreeMap<usize, EpilogueKind>)
    ensures
        forall|pc: usize| #[trigger]
            epilogues@.contains_key(pc) <==> cfg.blocks@.contains_key(pc) && epilogue_of(
                cfg.blocks@[pc].instructions@,
            ) is Some,
        forall|pc: usize| #[trigger]
            epilogues@.contains_key(pc) ==> Some(epilogues@[pc]@) == epilogue_of(
                cfg.blocks@[pc].instructions@,
            ),
{
    let keys = keys_of(&cfg.blocks);
    let mut epilogues: BTreeMap<usize, EpilogueKind> = BTreeMap::new();
    let mut i: usize = 0;
    while i < keys.len()
        invariant
            i <= keys@.len(),
            keys@.to_set() == cfg.blocks@.dom(),
            forall|pc: usize| #[trigger]
                epilogues@.contains_key(pc) <==> keys@.take(i as int).contains(pc) && epilogue_of(
                    cfg.blocks@[pc].instructions@,
                ) is Some,
            forall|pc: usize| #[trigger]
                epilogues@.contains_key(pc) ==> Some(epilogues@[pc]@) == epilogue_of(
                    cfg.blocks@[pc].instructions@,
                ),
        decreases keys@.len() - i,
    {
        let k: usize = keys[i];
        assert(keys@.to_set().contains(k));
        let ghost was = epilogues@;
        if let Some(block) = cfg.blocks.get(&k) {
            match find_epilogue(&block.instructions) {
                Some(e) => {
                    epilogues.insert(k, e);
                },
                None => {},
            }
        }
        assert(keys@.take(i + 1) =~= keys@.take(i as int).push(k));
        assert forall|pc: usize| #[trigger] epilogues@.contains_key(pc) <==> keys@.take(
            i + 1,
        ).contains(pc) && epilogue_of(cfg.blocks@[pc].instructions@) is Some by {
            ordered::lemma_push_key(keys@.take(i as int), k, pc);
            assert(was.contains_key(pc) <==> keys@.take(i as int).contains(pc) && epilogue_of(
                cfg.blocks@[pc].instructions@,
            ) is Some);
        }
        assert forall|pc: usize| #[trigger] epilogues@.contains_key(pc) implies Some(
            epilogues@[pc]@,
        ) == epilogue_of(cfg.blocks@[pc].instructions@) by {
            if pc != k {
                assert(was.contains_key(pc));
            }
        }
        i = i + 1;
    }
    assert(keys@.take(i as int) =~= keys@);
    assert forall|pc: usize| #[trigger] epilogues@.contains_key(pc) <==> cfg.blocks@.contains_key(pc)
        && epilogue_of(cfg.blocks@[pc].instructions@) is Some by {
        assert(keys@.to_set().contains(pc) == cfg.blocks@.dom().contains(pc));
    }
    epilogues
}

/// The stack guard that a block starts with, fallthroughs aside: a limit, the lowered
/// stack pointer and the comparison.
pub open spec fn guard_pcs(code: Seq<(usize, Instruction)>) -> Seq<usize> {
    let i = next_real(code, 0);
    if i + 2 < code.len() && match (code[i].1, code[i + 1].1, code[i + 2].1) {
        (
            Instruction::LoadImm64 { reg, .. },
            Instruction::AddImm64 { dst, src, value },
            Instruction::BranchGeU { reg1, reg2, .. },
        ) => reg == 2 && dst == 3 && src == 1 && value < 0 && reg1 == 2 && reg2 == 3,
        _ => false,
    } {
        seq![code[i].0, code[i + 1].0, code[i + 2].0]
    } else {
        seq![]
    }
}

/// Whether an instruction sets up a frame: it lowers the stack pointer, or saves the
/// return address or a register that the callee saves.
pub open spec fn sets_up_frame(i: Instruction) -> bool {
    match i {
        Instruction::AddImm64 { dst, src, value } => dst == 1 && src == 1 && value < 0,
        Instruction::StoreIndU64 { base, src, offset } => base == 1 && ((src == 0 && offset == 0)
            || callee_saved(src)),
        _ => false,
    }
}

pub open spec fn frame_pcs(code: Seq<(usize, Instruction)>, n: nat) -> Seq<usize>
    decreases n,
{
    if n == 0 {
        seq![]
    } else if sets_up_frame(code[n - 1].1) {
        frame_pcs(code, (n - 1) as nat).push(code[n - 1].0)
    } else {
        frame_pcs(code, (n - 1) as nat)
    }
}

/// What sets up a frame in the first `n` of a list of blocks.
pub open spec fn frames_in(cfg: ControlFlowGraph, blocks: Seq<usize>, n: nat) -> Seq<usize>
    decreases n,
{
    if n == 0 {
        seq![]
    } else {
        let rest = frames_in(cfg, blocks, (n - 1) as nat);
        if cfg.blocks@.contains_key(blocks[n - 1]) {
            let code = cfg.blocks@[blocks[n - 1]].instructions@;
            rest + frame_pcs(code, code.len())
        } else {
            rest
        }
    }
}

/// The prologue of a function: the stack guard of its entry block, and what sets up the
/// frame there and in the blocks that follow it.
pub open spec fn prologue_of(cfg: ControlFlowGraph, entry: usize) -> Seq<usize> {
    if cfg.blocks@.contains_key(entry) {
        let b = cfg.blocks@[entry];
        let near = seq![entry] + b.successors@;
        guard_pcs(b.instructions@) + frames_in(cfg, near, near.len())
    } else {
        seq![]
    }
}

fn find_guard(code: &Vec<(usize, Instruction)>) -> (pcs: Vec<usize>)
    ensures
        pcs@ == guard_pcs(code@),
{
    let mut pcs: Vec<usize> = Vec::new();
    let i: usize = find_next_real(code, 0);
    if code.len() - i > 2 {
        let guards = match (&code[i].1, &code[i + 1].1, &code[i + 2].1) {
            (
                Instruction::LoadImm64 { reg, .. },
                Instruction::AddImm64 { dst, src, value },
                Instruction::BranchGeU { reg1, reg2, .. },
            ) => *reg == 2 && *dst == 3 && *src == 1 && *value < 0 && *reg1 == 2 && *reg2 == 3,
            _ => false,
        };
        if guards {
            pcs.push(code[i].0);
            pcs.push(code[i + 1].0);
            pcs.push(code[i + 2].0);
            assert(pcs@ =~= seq![code@[i as int].0, code@[i + 1].0, code@[i + 2].0]);
        }
    }
    pcs
}

fn push_frame_pcs(pcs: &mut Vec<usize>, code: &Vec<(usize, Instruction)>)
    ensures
        final(pcs)@ == old(pcs)@ + frame_pcs(code@, code@.len()),
{
    let ghost start = pcs@;
    assert(start + seq![] =~= start);
    let mut i: usize = 0;
    while i < code.len()
        invariant
            i <= code@.len(),
            pcs@ == start + frame_pcs(code@, i as nat),
        decreases code@.len() - i,
    {
        let ghost was = frame_pcs(code@, i as nat);
        let frames = match &code[i].1 {
            Instruction::AddImm64 { dst, src, value } => *dst == 1 && *src == 1 && *value < 0,
            Instruction::StoreIndU64 { base, src, offset } => *base == 1 && ((*src == 0
                && *offset == 0) || (9 <= *src && *src <= 12)),
            _ => false,
        };
        if frames {
            pcs.push(code[i].0);
            assert(pcs@ =~= start + was.push(code@[i as int].0));
        }
        i = i + 1;
    }
}

/// Detect prologue patterns in a function's entry block.
/// Returns a list of PCs to eliminate (stack guard, frame allocation, register saves).
///
/// The pattern that compiled code shows:
///   LoadImm64 { reg: 2, value: <stack_guard> }    // stack guard constant
///   AddImm64 { dst: 3, src: 1, value: -N }        // compute stack limit
///   BranchGeU { reg1: 2, reg2: 3, ... }           // guard check
///   Trap                                          // (in a separate block)
///   AddImm64 { dst: 1, src: 1, value: -N }        // frame allocation
///   StoreIndU64 { base: 1, src: 0, offset: 0 }    // save r0
///   StoreIndU64 { base: 1, src: 9, offset: ... }  // save r9, and so on to r12
pub fn detect_prologue(cfg: &ControlFlowGraph, entry_pc: usize) -> (pcs: Vec<usize>)
    ensures
        pcs@ == prologue_of(*cfg, entry_pc),
{
    let block = match cfg.blocks.get(&entry_pc) {
        Some(b) => b,
        None => {
            return Vec::new();
        },
    };
    let mut pcs = find_guard(&block.instructions);
    let mut near: Vec<usize> = Vec::new();
    near.push(entry_pc);
    let mut more = copy_pcs(&block.successors);
    near.append(&mut more);
    let ghost guard = pcs@;
    assert(near@ =~= seq![entry_pc] + block.successors@);
    assert(guard + seq![] =~= guard);
    let mut i: usize = 0;
    while i < near.len()
        invariant
            i <= near@.len(),
            pcs@ == guard + frames_in(*cfg, near@, i as nat),
        decreases near@.len() - i,
    {
        if let Some(b) = cfg.blocks.get(&near[i]) {
            push_frame_pcs(&mut pcs, &b.instructions);
            assert(pcs@ =~= guard + (frames_in(*cfg, near@, i as nat) + frame_pcs(
                b.instructions@,
                b.instructions@.len(),
            )));
        }
        i = i + 1;
    }
    pcs
}

} // verus!
