//! Control flow graphs.
//!
//! A block starts at a leader (program start, jump target or the instruction behind
//! a terminator) and reaches to the next leader. Edges follow from the last
//! instruction of each block.

use crate::decoder::DecodedProgram;
use crate::instruction;
use crate::instruction::InstructionShape;
use crate::machine;
use crate::ordered;
use crate::ordered::members_of;
use crate::pvm;
use crate::pvm::Instruction;
use std::collections::{BTreeMap, BTreeSet};
use vstd::prelude::*;

verus! {

broadcast use vstd::laws_cmp::group_laws_cmp;

#[derive(Debug)]
pub struct BasicBlock {
    pub start_pc: usize,
    /// Exclusive.
    pub end_pc: usize,
    /// Program counter and instruction.
    pub instructions: Vec<(usize, Instruction)>,
    /// Starts of the successor blocks.
    pub successors: Vec<usize>,
    /// Starts of the predecessor blocks.
    pub predecessors: Vec<usize>,
}

/// Whether two blocks are the same, their lists taken by their contents.
pub open spec fn same_block(a: BasicBlock, b: BasicBlock) -> bool {
    &&& a.start_pc == b.start_pc
    &&& a.end_pc == b.end_pc
    &&& pvm::same_code(a.instructions@, b.instructions@)
    &&& a.successors@ == b.successors@
    &&& a.predecessors@ == b.predecessors@
}

/// A copy of a list of program counters.
pub fn copy_pcs(v: &Vec<usize>) -> (r: Vec<usize>)
    ensures
        r@ == v@,
{
    let r: Vec<usize> = v.clone();
    assert(r@ =~= v@);
    r
}

/// A copy of a list of instructions.
pub fn copy_code(v: &Vec<(usize, Instruction)>) -> (r: Vec<(usize, Instruction)>)
    ensures
        pvm::same_code(v@, r@),
{
    let mut r: Vec<(usize, Instruction)> = Vec::new();
    let mut i: usize = 0;
    while i < v.len()
        invariant
            i <= v@.len(),
            pvm::same_code(v@.take(i as int), r@),
        decreases v@.len() - i,
    {
        let copied = v[i].1.clone();
        let ghost before = r@;
        assert(pvm::same_instruction(v@[i as int].1, copied));
        r.push((v[i].0, copied));
        i = i + 1;
        proof {
            let a = v@.take(i as int);
            assert forall|k: int| 0 <= k < a.len() implies #[trigger] a[k].0 == r@[k].0
                && pvm::same_instruction(a[k].1, r@[k].1) by {
                assert(a[k] == v@[k]);
                if k < i - 1 {
                    let b = v@.take(i - 1);
                    assert(b[k] == v@[k]);
                    assert(b[k].0 == before[k].0 && pvm::same_instruction(b[k].1, before[k].1));
                    assert(r@[k] == before[k]);
                } else {
                    assert(r@[k] == (v@[k].0, copied));
                }
            }
        }
    }
    assert(v@.take(i as int) =~= v@);
    r
}

impl Clone for BasicBlock {
    fn clone(&self) -> (res: Self)
        ensures
            same_block(*self, res),
    {
        BasicBlock {
            start_pc: self.start_pc,
            end_pc: self.end_pc,
            instructions: copy_code(&self.instructions),
            successors: copy_pcs(&self.successors),
            predecessors: copy_pcs(&self.predecessors),
        }
    }
}

#[derive(Debug)]
pub struct ControlFlowGraph {
    pub blocks: BTreeMap<usize, BasicBlock>,
    pub entry_pc: usize,
}

/// Target of a jump by `offset` from `pc`, kept within the range of program counters.
pub open spec fn jump_target(pc: usize, offset: i32) -> usize {
    let t = pc + offset;
    if t < 0 {
        0
    } else if t > usize::MAX {
        usize::MAX
    } else {
        t as usize
    }
}

/// Static target of the instruction at `entry.0`.
pub open spec fn target_of(entry: (usize, Instruction)) -> Option<usize> {
    match instruction::classified(entry.1).offset() {
        Some(offset) => Some(jump_target(entry.0, offset)),
        None => None,
    }
}

/// Whether a block starts at `pc`: the program start, a jump target, or behind a terminator.
pub open spec fn is_leader(code: Seq<(usize, Instruction)>, pc: usize) -> bool {
    ||| pc == 0
    ||| exists|i: int| 0 <= i < code.len() && target_of(#[trigger] code[i]) == Some(pc)
    ||| exists|i: int|
        0 <= i < code.len() - 1 && #[trigger] follows_terminator(code, i) && code[i + 1].0 == pc
}

pub open spec fn follows_terminator(code: Seq<(usize, Instruction)>, i: int) -> bool {
    instruction::classified(code[i].1).terminates()
}

pub open spec fn leaders(code: Seq<(usize, Instruction)>) -> Set<usize> {
    Set::new(|pc: usize| is_leader(code, pc))
}

/// The instructions in `lo..hi`, in program order.
pub open spec fn code_between(code: Seq<(usize, Instruction)>, lo: usize, hi: usize) -> Seq<
    (usize, Instruction),
> {
    code.filter(|e: (usize, Instruction)| lo <= e.0 < hi)
}

/// End of the block that starts at the `i`th leader.
pub open spec fn block_limit(ls: Seq<usize>, i: int, code_len: usize) -> usize {
    if i + 1 < ls.len() {
        ls[i + 1]
    } else {
        code_len
    }
}

/// Start and end of the blocks at the first `n` leaders; a block without
/// instructions does not count.
pub open spec fn bounds(
    code: Seq<(usize, Instruction)>,
    ls: Seq<usize>,
    n: nat,
    code_len: usize,
) -> Seq<(usize, usize)>
    decreases n,
{
    if n == 0 {
        seq![]
    } else {
        let i = n - 1;
        let rest = bounds(code, ls, i as nat, code_len);
        let hi = block_limit(ls, i, code_len);
        if code_between(code, ls[i], hi).len() == 0 {
            rest
        } else {
            rest.push((ls[i], hi))
        }
    }
}

/// Start and end of the blocks of a program, in order.
pub open spec fn block_bounds(code: Seq<(usize, Instruction)>, code_len: usize) -> Seq<
    (usize, usize),
> {
    let ls = ordered::ascending(leaders(code));
    bounds(code, ls, ls.len(), code_len)
}

pub open spec fn starts_block(bs: Seq<(usize, usize)>, pc: usize) -> bool {
    exists|j: int| 0 <= j < bs.len() && (#[trigger] bs[j]).0 == pc
}

/// The block behind the `i`th, if there is one.
pub open spec fn fallthrough(bs: Seq<(usize, usize)>, i: int) -> Seq<usize> {
    if i + 1 < bs.len() {
        seq![bs[i + 1].0]
    } else {
        seq![]
    }
}

/// Successors of the `i`th block, whose last instruction is `last`: the jump target
/// where a block starts there, and the block behind unless the jump is unconditional.
/// A trap and a `JumpInd` have none; what else ends without a target goes on behind.
pub open spec fn successors_of(
    last: (usize, Instruction),
    bs: Seq<(usize, usize)>,
    i: int,
) -> Seq<usize> {
    let shape = instruction::classified(last.1);
    match target_of(last) {
        Some(t) => {
            let taken: Seq<usize> = if starts_block(bs, t) {
                seq![t]
            } else {
                seq![]
            };
            if shape.conditional() {
                taken + fallthrough(bs, i)
            } else {
                taken
            }
        },
        None => if shape is JumpInd || (shape is NoOp && shape.terminates()) {
            seq![]
        } else {
            fallthrough(bs, i)
        },
    }
}

/// `from`, once for each of the first `n` successors that is `pc`.
pub open spec fn edges_from(from: usize, successors: Seq<usize>, pc: usize, n: nat) -> Seq<usize>
    decreases n,
{
    if n == 0 {
        seq![]
    } else {
        let rest = edges_from(from, successors, pc, (n - 1) as nat);
        if successors[n - 1] == pc {
            rest.push(from)
        } else {
            rest
        }
    }
}

/// Sources of the edges into `pc` from the first `n` blocks, in block order.
pub open spec fn edges_into(blocks: Seq<BasicBlock>, pc: usize, n: nat) -> Seq<usize>
    decreases n,
{
    if n == 0 {
        seq![]
    } else {
        let b = blocks[n - 1];
        edges_into(blocks, pc, (n - 1) as nat) + edges_from(
            b.start_pc,
            b.successors@,
            pc,
            b.successors@.len(),
        )
    }
}

/// Whether `b` holds the instructions of the program in `bound`.
pub open spec fn covers(
    b: BasicBlock,
    code: Seq<(usize, Instruction)>,
    bound: (usize, usize),
) -> bool {
    &&& b.start_pc == bound.0
    &&& b.end_pc == bound.1
    &&& pvm::same_code(code_between(code, bound.0, bound.1), b.instructions@)
}

/// Whether `blocks` are the blocks at `bs`, connected.
pub open spec fn connected_blocks(
    blocks: Seq<BasicBlock>,
    code: Seq<(usize, Instruction)>,
    bs: Seq<(usize, usize)>,
) -> bool {
    &&& blocks.len() == bs.len()
    &&& forall|i: int|
        0 <= i < bs.len() ==> {
            &&& covers(#[trigger] blocks[i], code, bs[i])
            &&& blocks[i].successors@ == successors_of(
                code_between(code, bs[i].0, bs[i].1).last(),
                bs,
                i,
            )
            &&& blocks[i].predecessors@ == edges_into(blocks, bs[i].0, blocks.len())
        }
}

/// Whether `cfg` is the graph of the program `code`.
pub open spec fn is_graph_of(
    cfg: ControlFlowGraph,
    code: Seq<(usize, Instruction)>,
    code_len: usize,
) -> bool {
    let bs = block_bounds(code, code_len);
    &&& cfg.entry_pc == 0
    &&& exists|blocks: Seq<BasicBlock>|
        {
            &&& #[trigger] connected_blocks(blocks, code, bs)
            &&& holds_blocks(cfg.blocks@, blocks)
        }
}

/// Whether no block behind the `i`th has its start.
pub open spec fn is_last(blocks: Seq<BasicBlock>, i: int) -> bool {
    forall|j: int| i < j < blocks.len() ==> (#[trigger] blocks[j]).start_pc != blocks[i].start_pc
}

/// Whether no block before the `i`th has its start.
pub open spec fn is_first(blocks: Seq<BasicBlock>, i: int) -> bool {
    forall|j: int| 0 <= j < i ==> (#[trigger] blocks[j]).start_pc != blocks[i].start_pc
}

/// Whether the map holds, for each start of a block, the last block with that start.
pub open spec fn keeps_last(m: Map<usize, BasicBlock>, blocks: Seq<BasicBlock>) -> bool {
    &&& forall|i: int|
        0 <= i < blocks.len() && #[trigger] is_last(blocks, i) ==> m.contains_key(
            blocks[i].start_pc,
        ) && m[blocks[i].start_pc] == blocks[i]
    &&& forall|pc: usize| #[trigger]
        m.contains_key(pc) ==> exists|i: int|
            0 <= i < blocks.len() && (#[trigger] blocks[i]).start_pc == pc
}

/// Whether the map holds exactly the given blocks, each under its start.
pub open spec fn holds_blocks(m: Map<usize, BasicBlock>, blocks: Seq<BasicBlock>) -> bool {
    &&& forall|i: int|
        0 <= i < blocks.len() ==> m.contains_key((#[trigger] blocks[i]).start_pc)
            && m[blocks[i].start_pc] == blocks[i]
    &&& forall|pc: usize| #[trigger]
        m.contains_key(pc) ==> exists|i: int|
            0 <= i < blocks.len() && (#[trigger] blocks[i]).start_pc == pc
}

pub proof fn lemma_same_instruction_shape(a: Instruction, b: Instruction)
    requires
        pvm::same_instruction(a, b),
    ensures
        instruction::classified(a) == instruction::classified(b),
{
}

proof fn lemma_bounds_increasing(
    code: Seq<(usize, Instruction)>,
    ls: Seq<usize>,
    n: nat,
    code_len: usize,
)
    requires
        ordered::increasing(ls),
        n <= ls.len(),
    ensures
        forall|i: int, j: int|
            0 <= i < j < bounds(code, ls, n, code_len).len() ==> (#[trigger] bounds(
                code,
                ls,
                n,
                code_len,
            )[i]).0 < (#[trigger] bounds(code, ls, n, code_len)[j]).0,
        forall|i: int|
            0 <= i < bounds(code, ls, n, code_len).len() ==> n > 0 && (#[trigger] bounds(
                code,
                ls,
                n,
                code_len,
            )[i]).0 <= ls[n - 1] && code_between(
                code,
                bounds(code, ls, n, code_len)[i].0,
                bounds(code, ls, n, code_len)[i].1,
            ).len() > 0,
    decreases n,
{
    if n > 0 {
        lemma_bounds_increasing(code, ls, (n - 1) as nat, code_len);
        let rest = bounds(code, ls, (n - 1) as nat, code_len);
        let all = bounds(code, ls, n, code_len);
        assert forall|i: int| 0 <= i < all.len() implies (#[trigger] all[i]).0 <= ls[n - 1]
            && code_between(code, all[i].0, all[i].1).len() > 0 && (i < rest.len() ==> all[i]
            == rest[i] && all[i].0 < ls[n - 1]) by {
            if i < rest.len() {
                assert(rest[i].0 <= ls[n - 2]);
                assert(all[i] == rest[i]);
            }
        }
        assert forall|i: int, j: int| 0 <= i < j < all.len() implies (#[trigger] all[i]).0
            < (#[trigger] all[j]).0 by {
            if j < rest.len() {
                assert(rest[i].0 < rest[j].0);
            }
        }
    }
}

impl ControlFlowGraph {
    pub fn new(entry_pc: usize) -> (cfg: Self)
        ensures
            cfg.blocks@ == Map::<usize, BasicBlock>::empty(),
            cfg.entry_pc == entry_pc,
    {
        ControlFlowGraph { blocks: BTreeMap::new(), entry_pc }
    }

    pub fn add_block(&mut self, block: BasicBlock)
        ensures
            final(self).blocks@ == old(self).blocks@.insert(block.start_pc, block),
            final(self).entry_pc == old(self).entry_pc,
    {
        self.blocks.insert(block.start_pc, block);
    }

    /// Build a CFG from a decoded program.
    pub fn build(program: &DecodedProgram) -> (cfg: Self)
        ensures
            is_graph_of(cfg, program.instructions@, program.code_len),
    {
        let leader_set = Self::identify_leaders(program);
        let blocks = Self::create_blocks(program, &leader_set);
        let blocks = Self::connect_blocks(program, blocks);
        proof {
            let code = program.instructions@;
            let bs = block_bounds(code, program.code_len);
            ordered::lemma_ascending_exists(leader_set@);
            lemma_bounds_increasing(
                code,
                ordered::ascending(leaders(code)),
                ordered::ascending(leaders(code)).len(),
                program.code_len,
            );
            assert forall|i: int, j: int| 0 <= i < j < blocks@.len() implies (
            #[trigger] blocks@[i]).start_pc != (#[trigger] blocks@[j]).start_pc by {
                assert(blocks@[i].start_pc == bs[i].0);
                assert(blocks@[j].start_pc == bs[j].0);
            }
        }
        let ghost all = blocks@;
        let cfg = Self::from_blocks(0, blocks);
        assert(holds_blocks(cfg.blocks@, all)) by {
            assert forall|i: int| 0 <= i < all.len() implies cfg.blocks@.contains_key(
                (#[trigger] all[i]).start_pc,
            ) && cfg.blocks@[all[i].start_pc] == all[i] by {
                assert(is_last(all, i));
            }
        }
        cfg
    }

    /// The graph of the given blocks. Of several at one start the last stays.
    fn from_blocks(entry_pc: usize, blocks: Vec<BasicBlock>) -> (cfg: Self)
        ensures
            cfg.entry_pc == entry_pc,
            keeps_last(cfg.blocks@, blocks@),
    {
        let ghost all = blocks@;
        let mut cfg = ControlFlowGraph::new(entry_pc);
        let mut rest = blocks;
        while rest.len() > 0
            invariant
                rest@ == all.take(rest@.len() as int),
                rest@.len() <= all.len(),
                cfg.entry_pc == entry_pc,
                forall|i: int|
                    rest@.len() <= i < all.len() && #[trigger] is_last(all, i)
                        ==> cfg.blocks@.contains_key(all[i].start_pc)
                        && cfg.blocks@[all[i].start_pc] == all[i],
                forall|i: int|
                    rest@.len() <= i < all.len() ==> cfg.blocks@.contains_key(
                        (#[trigger] all[i]).start_pc,
                    ),
                forall|pc: usize| #[trigger]
                    cfg.blocks@.contains_key(pc) ==> exists|i: int|
                        rest@.len() <= i < all.len() && (#[trigger] all[i]).start_pc == pc,
            decreases rest@.len(),
        {
            let ghost before = cfg.blocks@;
            let ghost k = rest@.len() - 1;
            if let Some(block) = rest.pop() {
                proof {
                    assert(block == all[k]);
                    assert(rest@ =~= all.take(k));
                }
                if !cfg.blocks.contains_key(&block.start_pc) {
                    cfg.add_block(block);
                }
                proof {
                    if before.contains_key(all[k].start_pc) {
                        assert(!is_last(all, k));
                    }
                    assert forall|pc: usize| #[trigger] cfg.blocks@.contains_key(
                        pc,
                    ) implies exists|i: int|
                        k <= i < all.len() && (#[trigger] all[i]).start_pc == pc by {
                        if before.contains_key(pc) {
                            let i = choose|i: int|
                                k < i < all.len() && (#[trigger] all[i]).start_pc == pc;
                            assert(all[i].start_pc == pc);
                        } else {
                            assert(all[k].start_pc == pc);
                        }
                    }
                    assert forall|i: int|
                        k <= i < all.len() && #[trigger] is_last(
                            all,
                            i,
                        ) implies cfg.blocks@.contains_key(all[i].start_pc)
                        && cfg.blocks@[all[i].start_pc] == all[i] by {
                        if i > k {
                            assert(before.contains_key(all[i].start_pc));
                        }
                    }
                }
            }
        }
        cfg
    }

    /// Step 1: Identify all leader PCs (block start points).
    fn identify_leaders(program: &DecodedProgram) -> (found: BTreeSet<usize>)
        ensures
            found@ == leaders(program.instructions@),
            found@.finite(),
    {
        let ghost code = program.instructions@;
        let mut found: BTreeSet<usize> = BTreeSet::new();
        found.insert(0);
        let mut i: usize = 0;
        while i < program.instructions.len()
            invariant
                i <= code.len(),
                code == program.instructions@,
                found@.finite(),
                forall|pc: usize| #[trigger]
                    found@.contains(pc) <==> (pc == 0 || exists|k: int|
                        0 <= k < i && target_of(#[trigger] code[k]) == Some(pc)),
            decreases code.len() - i,
        {
            let shape = InstructionShape::classify(&program.instructions[i].1);
            if let Some(offset) = shape.branch_offset() {
                let target: usize = Self::compute_jump_target(program.instructions[i].0, offset);
                let ghost before = found@;
                found.insert(target);
                assert forall|pc: usize| #[trigger] found@.contains(pc) implies (pc == 0
                    || exists|k: int| 0 <= k < i + 1 && target_of(#[trigger] code[k]) == Some(pc)) by {
                    if pc == target {
                        assert(target_of(code[i as int]) == Some(pc));
                    } else {
                        assert(before.contains(pc));
                    }
                }
                assert forall|pc: usize|
                    (pc == 0 || exists|k: int|
                        0 <= k < i + 1 && target_of(#[trigger] code[k]) == Some(
                            pc,
                        )) implies #[trigger] found@.contains(pc) by {
                    if pc != 0 && pc != target {
                        assert(before.contains(pc));
                    } else if pc == 0 {
                        assert(before.contains(pc));
                    }
                }
            }
            i = i + 1;
        }
        let mut i: usize = 0;
        while i < program.instructions.len()
            invariant
                i <= code.len(),
                code == program.instructions@,
                found@.finite(),
                forall|pc: usize| #[trigger]
                    found@.contains(pc) <==> (pc == 0 || (exists|k: int|
                        0 <= k < code.len() && target_of(#[trigger] code[k]) == Some(pc)) || (
                    exists|k: int|
                        0 <= k < i && k < code.len() - 1 && #[trigger] follows_terminator(code, k)
                            && code[k + 1].0 == pc)),
            decreases code.len() - i,
        {
            let shape = InstructionShape::classify(&program.instructions[i].1);
            if shape.is_terminator() && i + 1 < program.instructions.len() {
                let next_pc: usize = program.instructions[i + 1].0;
                let ghost before = found@;
                found.insert(next_pc);
                assert(follows_terminator(code, i as int));
                assert forall|pc: usize| #[trigger] found@.contains(pc) implies (pc == 0 || (exists|
                    k: int,
                | 0 <= k < code.len() && target_of(#[trigger] code[k]) == Some(pc)) || (exists|
                    k: int,
                |
                    0 <= k < i + 1 && k < code.len() - 1 && #[trigger] follows_terminator(code, k)
                        && code[k + 1].0 == pc)) by {
                    if pc != next_pc {
                        assert(before.contains(pc));
                    }
                }
                assert forall|pc: usize|
                    (pc == 0 || (exists|k: int|
                        0 <= k < code.len() && target_of(#[trigger] code[k]) == Some(pc)) || (
                    exists|k: int|
                        0 <= k < i + 1 && k < code.len() - 1 && #[trigger] follows_terminator(
                            code,
                            k,
                        ) && code[k + 1].0 == pc)) implies #[trigger] found@.contains(pc) by {
                    if pc != next_pc {
                        assert(before.contains(pc));
                    }
                }
            }
            i = i + 1;
        }
        assert(found@ =~= leaders(code));
        found
    }

    /// The instructions of the program in `lo..hi`.
    fn collect_between(program: &DecodedProgram, lo: usize, hi: usize) -> (r: Vec<
        (usize, Instruction),
    >)
        ensures
            pvm::same_code(code_between(program.instructions@, lo, hi), r@),
    {
        let ghost code = program.instructions@;
        let ghost pred = |e: (usize, Instruction)| lo <= e.0 < hi;
        let mut r: Vec<(usize, Instruction)> = Vec::new();
        let mut i: usize = 0;
        while i < program.instructions.len()
            invariant
                i <= code.len(),
                code == program.instructions@,
                pred == (|e: (usize, Instruction)| lo <= e.0 < hi),
                pvm::same_code(code.take(i as int).filter(pred), r@),
            decreases code.len() - i,
        {
            let ghost taken = code.take(i as int).filter(pred);
            proof {
                assert(code.take(i + 1) =~= code.take(i as int).push(code[i as int]));
                code.take(i as int).lemma_filter_push(code[i as int], pred);
            }
            let pc: usize = program.instructions[i].0;
            if pc >= lo && pc < hi {
                let copied = program.instructions[i].1.clone();
                r.push((pc, copied));
                assert(pvm::same_code(taken.push(code[i as int]), r@));
            }
            i = i + 1;
        }
        assert(code.take(i as int) =~= code);
        r
    }

    /// Step 2: Create basic blocks from leaders.
    fn create_blocks(program: &DecodedProgram, leader_set: &BTreeSet<usize>) -> (blocks: Vec<
        BasicBlock,
    >)
        requires
            leader_set@ == leaders(program.instructions@),
        ensures
            ({
                let bs = block_bounds(program.instructions@, program.code_len);
                &&& blocks@.len() == bs.len()
                &&& forall|i: int|
                    0 <= i < bs.len() ==> covers(
                        #[trigger] blocks@[i],
                        program.instructions@,
                        bs[i],
                    ) && blocks@[i].predecessors@.len() == 0
            }),
    {
        let ghost code = program.instructions@;
        let sorted_leaders: Vec<usize> = members_of(leader_set);
        let mut blocks: Vec<BasicBlock> = Vec::new();
        let mut i: usize = 0;
        while i < sorted_leaders.len()
            invariant
                i <= sorted_leaders@.len(),
                code == program.instructions@,
                ({
                    let bs = bounds(code, sorted_leaders@, i as nat, program.code_len);
                    &&& blocks@.len() == bs.len()
                    &&& forall|k: int|
                        0 <= k < bs.len() ==> covers(#[trigger] blocks@[k], code, bs[k])
                            && blocks@[k].predecessors@.len() == 0
                }),
            decreases sorted_leaders@.len() - i,
        {
            let start_pc: usize = sorted_leaders[i];
            let end_pc: usize = if i + 1 < sorted_leaders.len() {
                sorted_leaders[i + 1]
            } else {
                program.code_len
            };
            let instructions = Self::collect_between(program, start_pc, end_pc);
            if instructions.len() > 0 {
                blocks.push(
                    BasicBlock {
                        start_pc,
                        end_pc,
                        instructions,
                        successors: Vec::new(),
                        predecessors: Vec::new(),
                    },
                );
            }
            i = i + 1;
        }
        blocks
    }

    /// Step 3: Connect blocks by analyzing terminators.
    fn connect_blocks(program: &DecodedProgram, blocks: Vec<BasicBlock>) -> (connected: Vec<
        BasicBlock,
    >)
        requires
            ({
                let bs = block_bounds(program.instructions@, program.code_len);
                &&& blocks@.len() == bs.len()
                &&& forall|i: int|
                    0 <= i < bs.len() ==> covers(
                        #[trigger] blocks@[i],
                        program.instructions@,
                        bs[i],
                    )
            }),
            leaders(program.instructions@).finite(),
        ensures
            connected_blocks(
                connected@,
                program.instructions@,
                block_bounds(program.instructions@, program.code_len),
            ),
    {
        let ghost code = program.instructions@;
        let ghost bs = block_bounds(code, program.code_len);
        proof {
            ordered::lemma_ascending_exists(leaders(code));
            lemma_bounds_increasing(
                code,
                ordered::ascending(leaders(code)),
                ordered::ascending(leaders(code)).len(),
                program.code_len,
            );
        }
        let mut starts: BTreeSet<usize> = BTreeSet::new();
        let mut i: usize = 0;
        while i < blocks.len()
            invariant
                i <= blocks@.len(),
                blocks@.len() == bs.len(),
                forall|k: int| 0 <= k < bs.len() ==> covers(#[trigger] blocks@[k], code, bs[k]),
                forall|pc: usize| #[trigger]
                    starts@.contains(pc) <==> exists|k: int|
                        0 <= k < i && (#[trigger] bs[k]).0 == pc,
            decreases blocks@.len() - i,
        {
            let ghost before = starts@;
            assert(covers(blocks@[i as int], code, bs[i as int]));
            let s: usize = blocks[i].start_pc;
            starts.insert(s);
            assert forall|pc: usize| #[trigger] starts@.contains(pc) implies exists|k: int|
                0 <= k < i + 1 && (#[trigger] bs[k]).0 == pc by {
                if pc == s {
                    assert(bs[i as int].0 == pc);
                } else {
                    assert(before.contains(pc));
                }
            }
            assert forall|pc: usize|
                (exists|k: int| 0 <= k < i + 1 && (#[trigger] bs[k]).0 == pc) implies #[trigger]
            starts@.contains(pc) by {
                if pc != s {
                    assert(before.contains(pc));
                }
            }
            i = i + 1;
        }
        let mut out: Vec<BasicBlock> = Vec::new();
        let mut i: usize = 0;
        while i < blocks.len()
            invariant
                i <= blocks@.len(),
                blocks@.len() == bs.len(),
                out@.len() == i,
                forall|k: int| 0 <= k < bs.len() ==> covers(#[trigger] blocks@[k], code, bs[k]),
                forall|k: int|
                    0 <= k < bs.len() ==> code_between(
                        code,
                        (#[trigger] bs[k]).0,
                        bs[k].1,
                    ).len() > 0,
                forall|pc: usize| #[trigger] starts@.contains(pc) <==> starts_block(bs, pc),
                forall|k: int|
                    0 <= k < i ==> covers(#[trigger] out@[k], code, bs[k])
                        && out@[k].successors@ == successors_of(
                        code_between(code, bs[k].0, bs[k].1).last(),
                        bs,
                        k,
                    ),
            decreases blocks@.len() - i,
        {
            proof {
                assert(covers(blocks@[i as int], code, bs[i as int]));
                assert(code_between(code, bs[i as int].0, bs[i as int].1).len() > 0);
                if i + 1 < bs.len() {
                    assert(covers(blocks@[i + 1], code, bs[i + 1]));
                }
            }
            let mut fall: Vec<usize> = Vec::new();
            if i + 1 < blocks.len() {
                fall.push(blocks[i + 1].start_pc);
            }
            assert(fall@ =~= fallthrough(bs, i as int));
            let last: usize = blocks[i].instructions.len() - 1;
            let ghost model = code_between(code, bs[i as int].0, bs[i as int].1);
            proof {
                assert(model[last as int].0 == blocks@[i as int].instructions@[last as int].0);
                lemma_same_instruction_shape(
                    model[last as int].1,
                    blocks@[i as int].instructions@[last as int].1,
                );
                assert(model.last() == model[last as int]);
            }
            let term_pc: usize = blocks[i].instructions[last].0;
            let shape = InstructionShape::classify(&blocks[i].instructions[last].1);
            let mut successors: Vec<usize> = Vec::new();
            if let Some(offset) = shape.branch_offset() {
                let target: usize = Self::compute_jump_target(term_pc, offset);
                if starts.contains(&target) {
                    successors.push(target);
                }
                if shape.is_conditional_branch() {
                    successors.append(&mut fall);
                }
            } else {
                let stops: bool = match shape {
                    InstructionShape::NoOp { .. } => shape.is_terminator(),
                    InstructionShape::JumpInd { .. } => true,
                    _ => false,
                };
                if !stops {
                    successors = fall;
                }
            }
            assert(successors@ =~= successors_of(model.last(), bs, i as int));
            let block = &blocks[i];
            let instructions = copy_code(&block.instructions);
            assert(pvm::same_code(model, instructions@)) by {
                lemma_same_code_trans(model, block.instructions@, instructions@);
            }
            out.push(
                BasicBlock {
                    start_pc: block.start_pc,
                    end_pc: block.end_pc,
                    instructions,
                    successors,
                    predecessors: Vec::new(),
                },
            );
            i = i + 1;
        }
        let connected = Self::with_predecessors(out);
        connected
    }

    /// The blocks with their predecessor lists filled in from the successor lists.
    fn with_predecessors(blocks: Vec<BasicBlock>) -> (r: Vec<BasicBlock>)
        ensures
            r@.len() == blocks@.len(),
            forall|i: int|
                0 <= i < r@.len() ==> {
                    &&& (#[trigger] r@[i]).start_pc == blocks@[i].start_pc
                    &&& r@[i].end_pc == blocks@[i].end_pc
                    &&& r@[i].instructions == blocks@[i].instructions
                    &&& r@[i].successors == blocks@[i].successors
                    &&& r@[i].predecessors@ == edges_into(r@, r@[i].start_pc, r@.len())
                },
    {
        let ghost n = blocks@.len();
        let mut lists: Vec<Vec<usize>> = Vec::new();
        let mut i: usize = 0;
        while i < blocks.len()
            invariant
                i <= blocks@.len(),
                n == blocks@.len(),
                lists@.len() == i,
                forall|k: int|
                    0 <= k < i ==> (#[trigger] lists@[k])@ == edges_into(
                        blocks@,
                        blocks@[k].start_pc,
                        n,
                    ),
            decreases blocks@.len() - i,
        {
            lists.push(Self::sources_of(&blocks, blocks[i].start_pc));
            i = i + 1;
        }
        let mut r: Vec<BasicBlock> = blocks;
        let ghost given = r@;
        let mut i: usize = r.len();
        while i > 0
            invariant
                i <= n,
                r@.len() == n,
                given.len() == n,
                lists@.len() == i,
                forall|k: int|
                    0 <= k < i ==> (#[trigger] lists@[k])@ == edges_into(
                        given,
                        given[k].start_pc,
                        n,
                    ),
                forall|k: int|
                    0 <= k < n ==> {
                        &&& (#[trigger] r@[k]).start_pc == given[k].start_pc
                        &&& r@[k].end_pc == given[k].end_pc
                        &&& r@[k].instructions == given[k].instructions
                        &&& r@[k].successors == given[k].successors
                        &&& i <= k ==> r@[k].predecessors@ == edges_into(
                            given,
                            given[k].start_pc,
                            n,
                        )
                    },
            decreases i,
        {
            i = i - 1;
            if let Some(list) = lists.pop() {
                r[i].predecessors = list;
            }
        }
        assert forall|k: int| 0 <= k < n implies (#[trigger] r@[k]).predecessors@ == edges_into(
            r@,
            r@[k].start_pc,
            n,
        ) by {
            lemma_edges_into_same(given, r@, given[k].start_pc, n);
        }
        r
    }

    /// Sources of the edges into `pc`.
    fn sources_of(blocks: &Vec<BasicBlock>, pc: usize) -> (r: Vec<usize>)
        ensures
            r@ == edges_into(blocks@, pc, blocks@.len()),
    {
        let mut r: Vec<usize> = Vec::new();
        let mut i: usize = 0;
        while i < blocks.len()
            invariant
                i <= blocks@.len(),
                r@ == edges_into(blocks@, pc, i as nat),
            decreases blocks@.len() - i,
        {
            let ghost before = r@;
            let block = &blocks[i];
            let mut j: usize = 0;
            while j < block.successors.len()
                invariant
                    i < blocks@.len(),
                    block == blocks@[i as int],
                    j <= block.successors@.len(),
                    r@ == before + edges_from(block.start_pc, block.successors@, pc, j as nat),
                decreases block.successors@.len() - j,
            {
                let ghost prev = edges_from(block.start_pc, block.successors@, pc, j as nat);
                if block.successors[j] == pc {
                    r.push(block.start_pc);
                    assert(before + prev.push(block.start_pc) =~= (before + prev).push(
                        block.start_pc,
                    ));
                }
                j = j + 1;
            }
            i = i + 1;
        }
        r
    }

    /// Compute the target PC of a jump/branch instruction.
    /// Offset is relative to the start of the instruction.
    pub fn compute_jump_target(current_pc: usize, offset: i32) -> (t: usize)
        ensures
            t == jump_target(current_pc, offset),
    {
        if offset >= 0 {
            current_pc.saturating_add(offset as usize)
        } else {
            let back: u32 = (-(offset as i64)) as u32;
            current_pc.saturating_sub(back as usize)
        }
    }
}

proof fn lemma_same_code_trans(
    a: Seq<(usize, Instruction)>,
    b: Seq<(usize, Instruction)>,
    c: Seq<(usize, Instruction)>,
)
    requires
        pvm::same_code(a, b),
        pvm::same_code(b, c),
    ensures
        pvm::same_code(a, c),
{
    assert forall|i: int| 0 <= i < a.len() implies #[trigger] a[i].0 == c[i].0 && pvm::same_instruction(
        a[i].1,
        c[i].1,
    ) by {
        assert(b[i].0 == c[i].0);
        assert(a[i].0 == b[i].0);
        assert(pvm::same_instruction(a[i].1, b[i].1));
        assert(pvm::same_instruction(b[i].1, c[i].1));
    }
}

proof fn lemma_edges_into_same(a: Seq<BasicBlock>, b: Seq<BasicBlock>, pc: usize, n: nat)
    requires
        n <= a.len(),
        a.len() == b.len(),
        forall|k: int|
            0 <= k < a.len() ==> (#[trigger] b[k]).start_pc == a[k].start_pc && b[k].successors
                == a[k].successors,
    ensures
        edges_into(a, pc, n) == edges_into(b, pc, n),
    decreases n,
{
    if n > 0 {
        lemma_edges_into_same(a, b, pc, (n - 1) as nat);
        assert(b[n - 1].start_pc == a[n - 1].start_pc);
    }
}

/// Whether `b` is the block that `(start, instructions, successors)` describes.
pub open spec fn described_by(
    b: BasicBlock,
    d: (usize, Vec<(usize, Instruction)>, Vec<usize>),
) -> bool {
    &&& b.start_pc == d.0
    &&& b.end_pc == if d.1@.len() > 0 {
        d.1@.last().0 + 1
    } else {
        d.0 as int
    }
    &&& b.instructions == d.1
    &&& b.successors == d.2
}

/// Build a CFG from a list of (start_pc, instructions, successors).
/// Predecessors are computed from the successor lists. Of several blocks at one start the first
/// has the predecessors, and the last is in the graph.
pub fn build_test_cfg(
    entry: usize,
    blocks: Vec<(usize, Vec<(usize, Instruction)>, Vec<usize>)>,
) -> (cfg: ControlFlowGraph)
    requires
        forall|i: int|
            0 <= i < blocks@.len() && (#[trigger] blocks@[i]).1@.len() > 0 ==> blocks@[i].1@.last().0
                < usize::MAX,
    ensures
        cfg.entry_pc == entry,
        exists|bs: Seq<BasicBlock>|
            {
                &&& #[trigger] keeps_last(cfg.blocks@, bs)
                &&& bs.len() == blocks@.len()
                &&& forall|i: int|
                    0 <= i < bs.len() ==> described_by(#[trigger] bs[i], blocks@[i])
                        && bs[i].predecessors@ == if is_first(bs, i) {
                        edges_into(bs, bs[i].start_pc, bs.len())
                    } else {
                        seq![]
                    }
            },
{
    let ghost given = blocks@;
    let mut rest = blocks;
    let mut reversed: Vec<BasicBlock> = Vec::new();
    while rest.len() > 0
        invariant
            rest@.len() + reversed@.len() == given.len(),
            rest@ == given.take(rest@.len() as int),
            forall|i: int|
                0 <= i < given.len() && (#[trigger] given[i]).1@.len() > 0 ==> given[i].1@.last().0
                    < usize::MAX,
            forall|i: int|
                0 <= i < reversed@.len() ==> described_by(
                    #[trigger] reversed@[i],
                    given[given.len() - 1 - i],
                ),
        decreases rest@.len(),
    {
        let ghost k = rest@.len() - 1;
        if let Some((start_pc, instructions, successors)) = rest.pop() {
            proof {
                assert(given[k] == (start_pc, instructions, successors));
                assert(rest@ =~= given.take(k));
            }
            let end_pc: usize = if instructions.len() > 0 {
                instructions[instructions.len() - 1].0 + 1
            } else {
                start_pc
            };
            reversed.push(
                BasicBlock { start_pc, end_pc, instructions, successors, predecessors: Vec::new() },
            );
        }
    }
    let ghost back = reversed@;
    let mut all: Vec<BasicBlock> = Vec::new();
    while reversed.len() > 0
        invariant
            reversed@.len() + all@.len() == given.len(),
            back.len() == given.len(),
            reversed@ == back.take(reversed@.len() as int),
            forall|i: int|
                0 <= i < back.len() ==> described_by(#[trigger] back[i], given[given.len() - 1 - i]),
            forall|i: int| 0 <= i < all@.len() ==> described_by(#[trigger] all@[i], given[i]),
        decreases reversed@.len(),
    {
        let ghost k = reversed@.len() - 1;
        if let Some(block) = reversed.pop() {
            proof {
                assert(block == back[k]);
                assert(reversed@ =~= back.take(k));
            }
            all.push(block);
        }
    }
    let connected = ControlFlowGraph::with_predecessors(all);
    proof {
        assert forall|i: int| 0 <= i < connected@.len() implies described_by(
            #[trigger] connected@[i],
            given[i],
        ) by {
            assert(described_by(all@[i], given[i]));
        }
    }
    let ghost linked = connected@;
    let mut left = connected;
    let mut k: usize = 0;
    while k < left.len()
        invariant
            k <= left@.len() == linked.len(),
            linked.len() == given.len(),
            forall|i: int| 0 <= i < linked.len() ==> described_by(#[trigger] linked[i], given[i]),
            forall|i: int|
                0 <= i < linked.len() ==> (#[trigger] linked[i]).predecessors@ == edges_into(
                    linked,
                    linked[i].start_pc,
                    linked.len(),
                ),
            forall|i: int|
                0 <= i < linked.len() ==> (#[trigger] left@[i]).start_pc == linked[i].start_pc
                    && left@[i].end_pc == linked[i].end_pc && left@[i].instructions
                    == linked[i].instructions && left@[i].successors == linked[i].successors,
            forall|i: int|
                0 <= i < linked.len() ==> (#[trigger] left@[i]).predecessors@ == if i < k
                    && !is_first(linked, i) {
                    seq![]
                } else {
                    linked[i].predecessors@
                },
        decreases left@.len() - k,
    {
        let mut repeated: bool = false;
        let mut j: usize = 0;
        while j < k
            invariant
                j <= k < left@.len() == linked.len(),
                forall|i: int|
                    0 <= i < linked.len() ==> (#[trigger] left@[i]).start_pc == linked[i].start_pc,
                repeated ==> !is_first(linked, k as int),
                !repeated ==> forall|i: int|
                    0 <= i < j ==> (#[trigger] linked[i]).start_pc != linked[k as int].start_pc,
            decreases k - j,
        {
            assert(left@[j as int].start_pc == linked[j as int].start_pc);
            assert(left@[k as int].start_pc == linked[k as int].start_pc);
            if left[j].start_pc == left[k].start_pc {
                repeated = true;
            }
            j = j + 1;
        }
        if repeated {
            let ghost before = left@;
            left[k].predecessors = Vec::new();
            assert forall|i: int| 0 <= i < linked.len() && i != k implies left@[i] == before[i] by {}
        }
        k = k + 1;
    }
    proof {
        assert forall|i: int| 0 <= i < left@.len() implies described_by(
            #[trigger] left@[i],
            given[i],
        ) && left@[i].predecessors@ == if is_first(left@, i) {
            edges_into(left@, left@[i].start_pc, left@.len())
        } else {
            seq![]
        } by {
            lemma_edges_into_same(linked, left@, left@[i].start_pc, left@.len());
            assert(described_by(linked[i], given[i]));
            assert(is_first(left@, i) == is_first(linked, i)) by {
                if is_first(left@, i) {
                    assert forall|j: int| 0 <= j < i implies (#[trigger] linked[j]).start_pc
                        != linked[i].start_pc by {
                        assert(left@[j].start_pc == linked[j].start_pc);
                    }
                }
            }
        }
    }
    ControlFlowGraph::from_blocks(entry, left)
}

proof fn lemma_edges_from_contains(from: usize, successors: Seq<usize>, pc: usize, n: nat, x: usize)
    requires
        n <= successors.len(),
    ensures
        edges_from(from, successors, pc, n).contains(x) <==> (x == from && exists|i: int|
            0 <= i < n && #[trigger] successors[i] == pc),
    decreases n,
{
    if n > 0 {
        let rest = edges_from(from, successors, pc, (n - 1) as nat);
        lemma_edges_from_contains(from, successors, pc, (n - 1) as nat, x);
        if successors[n - 1] == pc {
            let all = rest.push(from);
            if rest.contains(x) {
                let i = choose|i: int| 0 <= i < rest.len() && rest[i] == x;
                assert(all[i] == x);
            }
            assert(all[rest.len() as int] == from);
            if all.contains(x) && x != from {
                let i = choose|i: int| 0 <= i < all.len() && all[i] == x;
                assert(rest[i] == x);
            }
        }
    }
}

/// `x` is listed as a predecessor of `pc` exactly if a block at `x` has `pc` as a successor.
pub proof fn law_predecessors_mirror_successors(blocks: Seq<BasicBlock>, pc: usize, n: nat, x: usize)
    requires
        n <= blocks.len(),
    ensures
        edges_into(blocks, pc, n).contains(x) <==> exists|i: int|
            0 <= i < n && (#[trigger] blocks[i]).start_pc == x && blocks[i].successors@.contains(pc),
    decreases n,
{
    if n > 0 {
        law_predecessors_mirror_successors(blocks, pc, (n - 1) as nat, x);
        let b = blocks[n - 1];
        let before = edges_into(blocks, pc, (n - 1) as nat);
        let new = edges_from(b.start_pc, b.successors@, pc, b.successors@.len());
        lemma_edges_from_contains(b.start_pc, b.successors@, pc, b.successors@.len(), x);
        let all = before + new;
        if before.contains(x) {
            let i = choose|i: int| 0 <= i < before.len() && before[i] == x;
            assert(all[i] == x);
        }
        if new.contains(x) {
            let i = choose|i: int| 0 <= i < new.len() && new[i] == x;
            assert(all[before.len() + i] == x);
        }
        if all.contains(x) {
            let i = choose|i: int| 0 <= i < all.len() && all[i] == x;
            if i < before.len() {
                assert(before[i] == x);
            } else {
                assert(new[i - before.len()] == x);
            }
        }
    }
}

/// Whether every edge between blocks is known at both ends.
pub open spec fn mirrored(cfg: ControlFlowGraph) -> bool {
    forall|a: usize, b: usize|
        cfg.blocks@.contains_key(a) && cfg.blocks@.contains_key(b) ==> (
        #[trigger] cfg.blocks@[a].successors@.contains(b) <==> #[trigger] cfg.blocks@[b].predecessors@.contains(
        a))
}

/// In the graph of a program every edge between blocks is known at both ends.
pub proof fn law_graph_is_mirrored(
    cfg: ControlFlowGraph,
    code: Seq<(usize, Instruction)>,
    code_len: usize,
)
    requires
        is_graph_of(cfg, code, code_len),
    ensures
        mirrored(cfg),
{
    let bs = block_bounds(code, code_len);
    let blocks = choose|blocks: Seq<BasicBlock>|
        {
            &&& #[trigger] connected_blocks(blocks, code, bs)
            &&& holds_blocks(cfg.blocks@, blocks)
        };
    assert forall|a: usize, b: usize|
        cfg.blocks@.contains_key(a) && cfg.blocks@.contains_key(b) implies (
    #[trigger] cfg.blocks@[a].successors@.contains(b) <==> #[trigger] cfg.blocks@[b].predecessors@.contains(
        a)) by {
        let i = choose|i: int| 0 <= i < blocks.len() && (#[trigger] blocks[i]).start_pc == a;
        let j = choose|j: int| 0 <= j < blocks.len() && (#[trigger] blocks[j]).start_pc == b;
        assert(cfg.blocks@[a] == blocks[i]);
        assert(cfg.blocks@[b] == blocks[j]);
        law_predecessors_mirror_successors(blocks, b, blocks.len(), a);
        if blocks[i].successors@.contains(b) {
            assert(blocks[i].start_pc == a);
        }
    }
}

/// Every successor in the graph of a program is itself the start of a block.
pub proof fn law_successors_start_blocks(
    cfg: ControlFlowGraph,
    code: Seq<(usize, Instruction)>,
    code_len: usize,
    pc: usize,
    i: int,
)
    requires
        is_graph_of(cfg, code, code_len),
        cfg.blocks@.contains_key(pc),
        0 <= i < cfg.blocks@[pc].successors@.len(),
    ensures
        cfg.blocks@.contains_key(cfg.blocks@[pc].successors@[i]),
{
    let bs = block_bounds(code, code_len);
    let blocks = choose|blocks: Seq<BasicBlock>|
        {
            &&& #[trigger] connected_blocks(blocks, code, bs)
            &&& holds_blocks(cfg.blocks@, blocks)
        };
    let k = choose|k: int| 0 <= k < blocks.len() && (#[trigger] blocks[k]).start_pc == pc;
    let s = cfg.blocks@[pc].successors@[i];
    assert(cfg.blocks@[pc] == blocks[k]);
    assert(starts_block(bs, s)) by {
        if k + 1 < bs.len() {
            assert(bs[k + 1].0 == bs[k + 1].0);
        }
    }
    let j = choose|j: int| 0 <= j < bs.len() && (#[trigger] bs[j]).0 == s;
    assert(covers(blocks[j], code, bs[j]));
}

/// Every instruction of a program lies in the bounds of exactly one block.
pub proof fn law_blocks_partition_code(
    code: Seq<(usize, Instruction)>,
    code_len: usize,
    at: int,
) -> (k: int)
    requires
        0 <= at < code.len(),
        code[at].0 < code_len,
    ensures
        0 <= k < block_bounds(code, code_len).len(),
        block_bounds(code, code_len)[k].0 <= code[at].0 < block_bounds(code, code_len)[k].1,
        forall|j: int|
            0 <= j < block_bounds(code, code_len).len() && (#[trigger] block_bounds(
                code,
                code_len,
            )[j]).0 <= code[at].0 < block_bounds(code, code_len)[j].1 ==> j == k,
{
    let ls = ordered::ascending(leaders(code));
    lemma_leaders_finite(code);
    ordered::lemma_ascending_exists(leaders(code));
    assert(leaders(code).contains(0usize));
    assert(ls.to_set().contains(0usize));
    let pc = code[at].0;
    let z = choose|z: int| 0 <= z < ls.len() && ls[z] == 0;
    let n = lemma_last_at_most(ls, pc, ls.len());
    let hi = block_limit(ls, n, code_len);
    let pred = |e: (usize, Instruction)| ls[n] <= e.0 < hi;
    code.lemma_filter_contains(pred, at);
    assert(code_between(code, ls[n], hi).contains(code[at]));
    let k = lemma_bound_listed(code, ls, ls.len(), code_len, n);
    lemma_bounds_disjoint(code, ls, ls.len(), code_len);
    k
}

proof fn lemma_leaders_finite(code: Seq<(usize, Instruction)>)
    ensures
        leaders(code).finite(),
{
    let targets = code.map_values(
        |e: (usize, Instruction)|
            match target_of(e) {
                Some(t) => t,
                None => 0,
            },
    );
    let pcs = code.map_values(|e: (usize, Instruction)| e.0);
    let all = (targets + pcs).push(0);
    assert forall|pc: usize| leaders(code).contains(pc) implies all.to_set().contains(pc) by {
        if pc == 0 {
            assert(all[(targets + pcs).len() as int] == pc);
        } else if exists|i: int| 0 <= i < code.len() && target_of(#[trigger] code[i]) == Some(pc) {
            let i = choose|i: int| 0 <= i < code.len() && target_of(#[trigger] code[i]) == Some(pc);
            assert(all[i] == pc);
        } else {
            let i = choose|i: int|
                0 <= i < code.len() - 1 && #[trigger] follows_terminator(code, i) && code[i + 1].0
                    == pc;
            assert(all[targets.len() + i + 1] == pc);
        }
    }
    vstd::set_lib::lemma_len_subset(leaders(code), all.to_set());
}

/// Index of the last leader that is at most `pc`.
proof fn lemma_last_at_most(ls: Seq<usize>, pc: usize, m: nat) -> (n: int)
    requires
        ordered::increasing(ls),
        0 < m <= ls.len(),
        exists|z: int| 0 <= z < m && ls[z] <= pc,
    ensures
        0 <= n < m,
        ls[n] <= pc,
        forall|j: int| n < j < m ==> pc < ls[j],
    decreases m,
{
    if ls[m - 1] <= pc {
        m - 1
    } else {
        lemma_last_at_most(ls, pc, (m - 1) as nat)
    }
}

proof fn lemma_bound_listed(
    code: Seq<(usize, Instruction)>,
    ls: Seq<usize>,
    m: nat,
    code_len: usize,
    n: int,
) -> (k: int)
    requires
        0 <= n < m <= ls.len(),
        code_between(code, ls[n], block_limit(ls, n, code_len)).len() > 0,
    ensures
        0 <= k < bounds(code, ls, m, code_len).len(),
        bounds(code, ls, m, code_len)[k] == (ls[n], block_limit(ls, n, code_len)),
    decreases m,
{
    let rest = bounds(code, ls, (m - 1) as nat, code_len);
    if n == m - 1 {
        rest.len() as int
    } else {
        lemma_bound_listed(code, ls, (m - 1) as nat, code_len, n)
    }
}

proof fn lemma_bounds_disjoint(
    code: Seq<(usize, Instruction)>,
    ls: Seq<usize>,
    m: nat,
    code_len: usize,
)
    requires
        ordered::increasing(ls),
        m <= ls.len(),
    ensures
        forall|i: int, j: int|
            0 <= i < j < bounds(code, ls, m, code_len).len() ==> (#[trigger] bounds(
                code,
                ls,
                m,
                code_len,
            )[i]).1 <= (#[trigger] bounds(code, ls, m, code_len)[j]).0,
        m > 0 ==> forall|i: int|
            0 <= i < bounds(code, ls, (m - 1) as nat, code_len).len() ==> (#[trigger] bounds(
                code,
                ls,
                (m - 1) as nat,
                code_len,
            )[i]).1 <= ls[m - 1],
    decreases m,
{
    if m > 0 {
        lemma_bounds_disjoint(code, ls, (m - 1) as nat, code_len);
        let rest = bounds(code, ls, (m - 1) as nat, code_len);
        let all = bounds(code, ls, m, code_len);
        assert forall|i: int| 0 <= i < rest.len() implies (#[trigger] rest[i]).1 <= ls[m - 1] by {
            let prev = bounds(code, ls, (m - 2) as nat, code_len);
            if i < prev.len() {
                assert(prev[i] == rest[i]);
                assert(prev[i].1 <= ls[m - 2]);
            }
        }
        assert forall|i: int, j: int| 0 <= i < j < all.len() implies (#[trigger] all[i]).1 <= (
        #[trigger] all[j]).0 by {
            assert(all[i] == rest[i]);
            if j < rest.len() {
                assert(all[j] == rest[j]);
            }
        }
    }
}

/// Whether a block holds the instruction `e`, at its program counter.
pub open spec fn holds_instruction(b: BasicBlock, e: (usize, Instruction)) -> bool {
    exists|j: int|
        0 <= j < b.instructions@.len() && (#[trigger] b.instructions@[j]).0 == e.0
            && pvm::same_instruction(e.1, b.instructions@[j].1)
}

/// Whether a block of `cfg` holds the instruction `e`.
pub open spec fn held(cfg: ControlFlowGraph, e: (usize, Instruction)) -> bool {
    exists|k: usize|
        cfg.blocks@.contains_key(k) && #[trigger] holds_instruction(cfg.blocks@[k], e)
}

/// Whether `e` is an instruction of `code`.
pub open spec fn is_from(code: Seq<(usize, Instruction)>, e: (usize, Instruction)) -> bool {
    exists|at: int|
        0 <= at < code.len() && (#[trigger] code[at]).0 == e.0 && pvm::same_instruction(
            code[at].1,
            e.1,
        )
}

/// Whether a block stands at `k`, is not empty, and holds instructions between its start and
/// end, in order of their program counters.
pub open spec fn in_order(b: BasicBlock, k: usize) -> bool {
    &&& b.start_pc == k
    &&& b.instructions@.len() > 0
    &&& forall|j: int|
        0 <= j < b.instructions@.len() ==> b.start_pc <= (#[trigger] b.instructions@[j]).0
            < b.end_pc
    &&& forall|i: int, j: int|
        0 <= i < j < b.instructions@.len() ==> (#[trigger] b.instructions@[i]).0 < (
        #[trigger] b.instructions@[j]).0
}

/// Whether the blocks of `cfg` hold every instruction of `code` once, in order of the program
/// counters and between the block's start and end, and nothing else.
pub open spec fn partitions(cfg: ControlFlowGraph, code: Seq<(usize, Instruction)>) -> bool {
    &&& forall|at: int| 0 <= at < code.len() ==> held(cfg, #[trigger] code[at])
    &&& forall|at: int, k: usize, m: usize|
        0 <= at < code.len() && cfg.blocks@.contains_key(k) && cfg.blocks@.contains_key(m)
            && #[trigger] holds_instruction(cfg.blocks@[k], code[at])
            && #[trigger] holds_instruction(cfg.blocks@[m], code[at]) ==> k == m
    &&& forall|k: usize, j: int|
        cfg.blocks@.contains_key(k) && 0 <= j < cfg.blocks@[k].instructions@.len() ==> is_from(
            code,
            #[trigger] cfg.blocks@[k].instructions@[j],
        )
    &&& forall|k: usize| #[trigger]
        cfg.blocks@.contains_key(k) ==> in_order(cfg.blocks@[k], k)
}

/// Whether every edge leads from a block to a block and is known at both ends.
pub open spec fn edges_agree(cfg: ControlFlowGraph) -> bool {
    &&& forall|k: usize, s: usize|
        cfg.blocks@.contains_key(k) && #[trigger] cfg.blocks@[k].successors@.contains(s)
            ==> cfg.blocks@.contains_key(s)
    &&& forall|k: usize, p: usize|
        cfg.blocks@.contains_key(k) && #[trigger] cfg.blocks@[k].predecessors@.contains(p)
            ==> cfg.blocks@.contains_key(p)
    &&& mirrored(cfg)
}

proof fn lemma_filter_keeps(code: Seq<(usize, Instruction)>, lo: usize, hi: usize)
    ensures
        forall|j: int|
            0 <= j < code_between(code, lo, hi).len() ==> {
                &&& lo <= (#[trigger] code_between(code, lo, hi)[j]).0 < hi
                &&& code.contains(code_between(code, lo, hi)[j])
            },
        (forall|i: int, j: int|
            0 <= i < j < code.len() ==> (#[trigger] code[i]).0 < (#[trigger] code[j]).0) ==> (
        forall|i: int, j: int|
            0 <= i < j < code_between(code, lo, hi).len() ==> (#[trigger] code_between(
                code,
                lo,
                hi,
            )[i]).0 < (#[trigger] code_between(code, lo, hi)[j]).0),
    decreases code.len(),
{
    reveal(Seq::filter);
    let kept = code_between(code, lo, hi);
    if code.len() > 0 {
        let head = code.drop_last();
        let before = code_between(head, lo, hi);
        lemma_filter_keeps(head, lo, hi);
        assert forall|j: int| 0 <= j < before.len() implies code.contains(
            #[trigger] before[j],
        ) by {
            assert(head.contains(before[j]));
            let x = choose|x: int| 0 <= x < head.len() && head[x] == before[j];
            assert(code[x] == before[j]);
        }
        assert(code.contains(code.last()));
        if forall|i: int, j: int|
            0 <= i < j < code.len() ==> (#[trigger] code[i]).0 < (#[trigger] code[j]).0 {
            assert forall|i: int, j: int| 0 <= i < j < kept.len() implies (#[trigger] kept[i]).0 < (
            #[trigger] kept[j]).0 by {
                assert(forall|x: int, y: int|
                    0 <= x < y < head.len() ==> (#[trigger] head[x]).0 < (#[trigger] head[y]).0);
                assert(before[i] == kept[i]);
                if j < before.len() {
                    assert(before[j] == kept[j]);
                } else {
                    assert(head.contains(before[i]));
                    let x = choose|x: int| 0 <= x < head.len() && head[x] == before[i];
                    assert(code[x].0 < code.last().0);
                }
            }
        }
    }
}

/// In the graph of a program each instruction lies in exactly one block, in order of the
/// program counters and between the block's start and end; blocks hold nothing else and are
/// not empty, each stands under its start, and every edge leads from a block to a block and is
/// known at both ends.
pub proof fn law_graph_holds_program(
    cfg: ControlFlowGraph,
    code: Seq<(usize, Instruction)>,
    code_len: usize,
)
    requires
        is_graph_of(cfg, code, code_len),
        code.len() > 0,
        forall|i: int, j: int|
            0 <= i < j < code.len() ==> (#[trigger] code[i]).0 < (#[trigger] code[j]).0,
        forall|i: int| 0 <= i < code.len() ==> (#[trigger] code[i]).0 < code_len,
    ensures
        partitions(cfg, code),
        edges_agree(cfg),
{
    let bs = block_bounds(code, code_len);
    let blocks = choose|blocks: Seq<BasicBlock>|
        {
            &&& #[trigger] connected_blocks(blocks, code, bs)
            &&& holds_blocks(cfg.blocks@, blocks)
        };
    let ls = ordered::ascending(leaders(code));
    assert forall|k: usize| #[trigger] cfg.blocks@.contains_key(k) implies in_order(
        cfg.blocks@[k],
        k,
    ) by {
        let n = choose|n: int| 0 <= n < blocks.len() && (#[trigger] blocks[n]).start_pc == k;
        assert(covers(blocks[n], code, bs[n]));
        lemma_filter_keeps(code, bs[n].0, bs[n].1);
        lemma_bounds_filled(code, ls, ls.len(), code_len);
        let kept = code_between(code, bs[n].0, bs[n].1);
        let b = cfg.blocks@[k];
        assert forall|i: int, j: int| 0 <= i < j < b.instructions@.len() implies (
        #[trigger] b.instructions@[i]).0 < (#[trigger] b.instructions@[j]).0 by {
            assert(kept[i].0 < kept[j].0);
        }
        assert forall|j: int| 0 <= j < b.instructions@.len() implies b.start_pc <= (
        #[trigger] b.instructions@[j]).0 < b.end_pc by {
            assert(lo_hi(kept[j], bs[n]));
        }
    }
    assert forall|at: int| 0 <= at < code.len() implies held(cfg, #[trigger] code[at]) by {
        let n = law_blocks_partition_code(code, code_len, at);
        assert(covers(blocks[n], code, bs[n]));
        let pred = |e: (usize, Instruction)| bs[n].0 <= e.0 < bs[n].1;
        code.lemma_filter_contains(pred, at);
        let kept = code_between(code, bs[n].0, bs[n].1);
        assert(kept.contains(code[at]));
        let j = choose|j: int| 0 <= j < kept.len() && kept[j] == code[at];
        let b = blocks[n];
        assert(b.instructions@[j].0 == code[at].0);
        assert(holds_instruction(cfg.blocks@[b.start_pc], code[at]));
    }
    assert forall|at: int, k: usize, m: usize|
        0 <= at < code.len() && cfg.blocks@.contains_key(k) && cfg.blocks@.contains_key(m)
            && #[trigger] holds_instruction(cfg.blocks@[k], code[at])
            && #[trigger] holds_instruction(cfg.blocks@[m], code[at]) implies k == m by {
        let x = choose|x: int| 0 <= x < blocks.len() && (#[trigger] blocks[x]).start_pc == k;
        let y = choose|y: int| 0 <= y < blocks.len() && (#[trigger] blocks[y]).start_pc == m;
        assert(covers(blocks[x], code, bs[x]));
        assert(covers(blocks[y], code, bs[y]));
        let n = law_blocks_partition_code(code, code_len, at);
        assert(x == n && y == n);
    }
    assert forall|k: usize, j: int|
        cfg.blocks@.contains_key(k) && 0 <= j < cfg.blocks@[k].instructions@.len() implies is_from(
        code,
        #[trigger] cfg.blocks@[k].instructions@[j],
    ) by {
        let n = choose|n: int| 0 <= n < blocks.len() && (#[trigger] blocks[n]).start_pc == k;
        assert(covers(blocks[n], code, bs[n]));
        lemma_filter_keeps(code, bs[n].0, bs[n].1);
        let kept = code_between(code, bs[n].0, bs[n].1);
        assert(code.contains(kept[j]));
        let at = choose|at: int| 0 <= at < code.len() && code[at] == kept[j];
        assert(code[at].0 == cfg.blocks@[k].instructions@[j].0);
    }
    law_graph_is_mirrored(cfg, code, code_len);
    assert forall|k: usize, s: usize|
        cfg.blocks@.contains_key(k) && #[trigger] cfg.blocks@[k].successors@.contains(
            s,
        ) implies cfg.blocks@.contains_key(s) by {
        let i = choose|i: int|
            0 <= i < cfg.blocks@[k].successors@.len() && cfg.blocks@[k].successors@[i] == s;
        law_successors_start_blocks(cfg, code, code_len, k, i);
    }
    assert forall|k: usize, p: usize|
        cfg.blocks@.contains_key(k) && #[trigger] cfg.blocks@[k].predecessors@.contains(
            p,
        ) implies cfg.blocks@.contains_key(p) by {
        let n = choose|n: int| 0 <= n < blocks.len() && (#[trigger] blocks[n]).start_pc == k;
        assert(cfg.blocks@[k] == blocks[n]);
        law_predecessors_mirror_successors(blocks, k, blocks.len(), p);
        let i = choose|i: int|
            0 <= i < blocks.len() && (#[trigger] blocks[i]).start_pc == p
                && blocks[i].successors@.contains(k);
        assert(cfg.blocks@.contains_key(blocks[i].start_pc));
    }
}

spec fn lo_hi(e: (usize, Instruction), bound: (usize, usize)) -> bool {
    bound.0 <= e.0 < bound.1
}

proof fn lemma_bounds_filled(
    code: Seq<(usize, Instruction)>,
    ls: Seq<usize>,
    n: nat,
    code_len: usize,
)
    ensures
        forall|k: int|
            0 <= k < bounds(code, ls, n, code_len).len() ==> code_between(
                code,
                (#[trigger] bounds(code, ls, n, code_len)[k]).0,
                bounds(code, ls, n, code_len)[k].1,
            ).len() > 0,
    decreases n,
{
    if n > 0 {
        lemma_bounds_filled(code, ls, (n - 1) as nat, code_len);
        let rest = bounds(code, ls, (n - 1) as nat, code_len);
        let all = bounds(code, ls, n, code_len);
        assert forall|k: int| 0 <= k < all.len() implies code_between(
            code,
            (#[trigger] all[k]).0,
            all[k].1,
        ).len() > 0 by {
            if k < rest.len() {
                assert(all[k] == rest[k]);
            }
        }
    }
}

/// Whether the block at `s` is the next one behind the block at `pc`.
pub open spec fn is_next_block(blocks: Map<usize, BasicBlock>, pc: usize, s: usize) -> bool {
    &&& pc < s
    &&& blocks.contains_key(s)
    &&& forall|k: usize| #[trigger] blocks.contains_key(k) ==> k <= pc || s <= k
}

proof fn lemma_jumps(pc: usize, instr: Instruction)
    ensures
        target_of((pc, instr)) is Some == machine::jumps_by(instr) is Some,
        forall|s: usize|
            target_of((pc, instr)) == Some(s) <==> #[trigger] machine::jumps_to(pc, instr, s),
        instruction::classified(instr).terminates() == machine::turns(instr),
{
    reveal_strlit("trap");
    reveal_strlit("fallthrough");
    if instr is Fallthrough {
        assert("trap"@.len() != "fallthrough"@.len());
    }
}

/// The edges of a graph are the steps that control can take: a block leads exactly to the
/// blocks that its last instruction jumps to, and to the next block where control goes on
/// behind that instruction.
pub proof fn law_edges_are_steps(
    cfg: ControlFlowGraph,
    code: Seq<(usize, Instruction)>,
    code_len: usize,
    pc: usize,
    s: usize,
)
    requires
        is_graph_of(cfg, code, code_len),
        cfg.blocks@.contains_key(pc),
    ensures
        cfg.blocks@[pc].instructions@.len() > 0,
        cfg.blocks@[pc].successors@.contains(s) <==> {
            let last = cfg.blocks@[pc].instructions@.last();
            cfg.blocks@.contains_key(s) && (machine::jumps_to(last.0, last.1, s) || (
            machine::goes_on(last.1) && is_next_block(cfg.blocks@, pc, s)))
        },
{
    let bs = block_bounds(code, code_len);
    let blocks = choose|blocks: Seq<BasicBlock>|
        {
            &&& #[trigger] connected_blocks(blocks, code, bs)
            &&& holds_blocks(cfg.blocks@, blocks)
        };
    let ls = ordered::ascending(leaders(code));
    lemma_leaders_finite(code);
    ordered::lemma_ascending_exists(leaders(code));
    lemma_bounds_increasing(code, ls, ls.len(), code_len);
    let i = choose|i: int| 0 <= i < blocks.len() && (#[trigger] blocks[i]).start_pc == pc;
    assert(covers(blocks[i], code, bs[i]));
    assert(cfg.blocks@[pc] == blocks[i]);
    let kept = code_between(code, bs[i].0, bs[i].1);
    assert(kept.len() > 0);
    let last = blocks[i].instructions@.last();
    let n = kept.len() - 1;
    assert(kept[n].0 == last.0 && pvm::same_instruction(kept[n].1, last.1));
    lemma_same_instruction_shape(kept[n].1, last.1);
    lemma_jumps(last.0, last.1);
    assert(target_of(kept[n]) == target_of(last));
    assert forall|k: usize| cfg.blocks@.contains_key(k) <==> #[trigger] starts_block(bs, k) by {
        if cfg.blocks@.contains_key(k) {
            let j = choose|j: int| 0 <= j < blocks.len() && (#[trigger] blocks[j]).start_pc == k;
            assert(covers(blocks[j], code, bs[j]));
            assert(bs[j].0 == k);
        }
        if starts_block(bs, k) {
            let j = choose|j: int| 0 <= j < bs.len() && (#[trigger] bs[j]).0 == k;
            assert(covers(blocks[j], code, bs[j]));
        }
    }
    let fall = fallthrough(bs, i);
    assert(fall.contains(s) <==> is_next_block(cfg.blocks@, pc, s)) by {
        if i + 1 < bs.len() {
            let t = bs[i + 1].0;
            assert(fall =~= seq![t]);
            assert(fall[0] == t);
            assert(starts_block(bs, t));
            assert(bs[i].0 < bs[i + 1].0);
            assert forall|k: usize| #[trigger] cfg.blocks@.contains_key(k) implies k <= pc || t
                <= k by {
                assert(starts_block(bs, k));
                let j = choose|j: int| 0 <= j < bs.len() && (#[trigger] bs[j]).0 == k;
                if j < i {
                    assert(bs[j].0 < bs[i].0);
                } else if j > i + 1 {
                    assert(bs[i + 1].0 < bs[j].0);
                }
            }
            assert(is_next_block(cfg.blocks@, pc, t));
            if is_next_block(cfg.blocks@, pc, s) {
                assert(cfg.blocks@.contains_key(t));
                assert(s == t);
            }
        } else if is_next_block(cfg.blocks@, pc, s) {
            assert(starts_block(bs, s));
            let j = choose|j: int| 0 <= j < bs.len() && (#[trigger] bs[j]).0 == s;
            if j < i {
                assert(bs[j].0 < bs[i].0);
            }
        }
    }
    assert(starts_block(bs, s) == cfg.blocks@.contains_key(s));
    let ss = successors_of(kept.last(), bs, i);
    assert(blocks[i].successors@ == ss);
    match target_of(last) {
        Some(t) => {
            let first: Seq<usize> = if starts_block(bs, t) {
                seq![t]
            } else {
                seq![]
            };
            assert(first.contains(s) <==> starts_block(bs, t) && s == t) by {
                if starts_block(bs, t) {
                    assert(first[0] == t);
                }
            }
            let both = first + fall;
            assert(both.contains(s) <==> first.contains(s) || fall.contains(s)) by {
                if first.contains(s) {
                    let j = choose|j: int| 0 <= j < first.len() && first[j] == s;
                    assert(both[j] == s);
                }
                if fall.contains(s) {
                    let j = choose|j: int| 0 <= j < fall.len() && fall[j] == s;
                    assert(both[first.len() + j] == s);
                }
            }
            assert(machine::jumps_to(last.0, last.1, t));
        },
        None => {},
    }
}

/// Every block lies between a leader and the next.
proof fn lemma_bounds_are_limits(
    code: Seq<(usize, Instruction)>,
    ls: Seq<usize>,
    n: nat,
    code_len: usize,
    k: int,
) -> (i: int)
    requires
        n <= ls.len(),
        0 <= k < bounds(code, ls, n, code_len).len(),
    ensures
        0 <= i < n,
        bounds(code, ls, n, code_len)[k] == (ls[i], block_limit(ls, i, code_len)),
    decreases n,
{
    let rest = bounds(code, ls, (n - 1) as nat, code_len);
    if k < rest.len() {
        lemma_bounds_are_limits(code, ls, (n - 1) as nat, code_len, k)
    } else {
        n - 1
    }
}

/// Why a block starts at `pc`: the program starts there, an instruction jumps there, or the
/// instruction before it turns aside.
pub open spec fn entered(code: Seq<(usize, Instruction)>, pc: usize) -> bool {
    ||| pc == 0
    ||| exists|i: int| 0 <= i < code.len() && machine::jumps_to((#[trigger] code[i]).0, code[i].1, pc)
    ||| exists|i: int|
        0 <= i < code.len() - 1 && machine::turns((#[trigger] code[i]).1) && code[i + 1].0 == pc
}

/// Control runs straight through a block: only its last instruction turns aside, no
/// instruction of the program jumps to one behind its first place, and it starts where
/// control can come in.
pub proof fn law_blocks_are_straight(
    cfg: ControlFlowGraph,
    code: Seq<(usize, Instruction)>,
    code_len: usize,
    pc: usize,
    j: int,
    other: int,
)
    requires
        is_graph_of(cfg, code, code_len),
        forall|i: int, j: int|
            0 <= i < j < code.len() ==> (#[trigger] code[i]).0 < (#[trigger] code[j]).0,
        cfg.blocks@.contains_key(pc),
        0 <= j < cfg.blocks@[pc].instructions@.len(),
        0 <= other < code.len(),
    ensures
        entered(code, pc),
        j < cfg.blocks@[pc].instructions@.len() - 1 ==> !machine::turns(
            cfg.blocks@[pc].instructions@[j].1,
        ),
        machine::jumps_to(code[other].0, code[other].1, cfg.blocks@[pc].instructions@[j].0)
            ==> cfg.blocks@[pc].instructions@[j].0 == pc,
{
    let bs = block_bounds(code, code_len);
    let blocks = choose|blocks: Seq<BasicBlock>|
        {
            &&& #[trigger] connected_blocks(blocks, code, bs)
            &&& holds_blocks(cfg.blocks@, blocks)
        };
    let ls = ordered::ascending(leaders(code));
    lemma_leaders_finite(code);
    ordered::lemma_ascending_exists(leaders(code));
    let n = choose|n: int| 0 <= n < blocks.len() && (#[trigger] blocks[n]).start_pc == pc;
    assert(covers(blocks[n], code, bs[n]));
    let b = cfg.blocks@[pc];
    assert(b == blocks[n]);
    let at = lemma_bounds_are_limits(code, ls, ls.len(), code_len, n);
    assert(bs[n].0 == ls[at]);
    assert forall|l: usize| #[trigger] is_leader(code, l) implies l <= ls[at] || bs[n].1 <= l by {
        assert(leaders(code).contains(l));
        assert(ls.to_set().contains(l));
        let z = choose|z: int| 0 <= z < ls.len() && ls[z] == l;
        if z > at {
            if z > at + 1 {
                assert(ls[at + 1] < ls[z]);
            }
        } else if z < at {
            assert(ls[z] < ls[at]);
        }
    }
    lemma_filter_keeps(code, bs[n].0, bs[n].1);
    let kept = code_between(code, bs[n].0, bs[n].1);
    assert(kept[j].0 == b.instructions@[j].0);
    assert(pvm::same_instruction(kept[j].1, b.instructions@[j].1));
    lemma_same_instruction_shape(kept[j].1, b.instructions@[j].1);
    assert(code.contains(kept[j]));
    let x = choose|x: int| 0 <= x < code.len() && code[x] == kept[j];
    lemma_jumps(b.instructions@[j].0, b.instructions@[j].1);
    lemma_jumps(code[other].0, code[other].1);
    lemma_jumps(kept[j].0, kept[j].1);
    if j < b.instructions@.len() - 1 && machine::turns(b.instructions@[j].1) {
        assert(code.contains(kept[j + 1]));
        let y = choose|y: int| 0 <= y < code.len() && code[y] == kept[j + 1];
        assert(kept[j].0 < kept[j + 1].0);
        assert(x < y) by {
            if y < x {
                assert(code[y].0 < code[x].0);
            }
        }
        if x + 1 < y {
            assert(code[x + 1].0 < code[y].0);
        }
        assert(code[x].0 < code[x + 1].0);
        assert(follows_terminator(code, x));
        assert(is_leader(code, code[x + 1].0));
    }
    if machine::jumps_to(code[other].0, code[other].1, b.instructions@[j].0) {
        assert(target_of(code[other]) == Some(b.instructions@[j].0));
        assert(is_leader(code, b.instructions@[j].0));
    }
    assert(entered(code, pc)) by {
        assert(ls.contains(pc));
        assert(ls.to_set().contains(pc));
        assert(leaders(code).contains(pc));
        assert(is_leader(code, pc));
        if exists|i: int| 0 <= i < code.len() && target_of(#[trigger] code[i]) == Some(pc) {
            let i = choose|i: int| 0 <= i < code.len() && target_of(#[trigger] code[i]) == Some(pc);
            lemma_jumps(code[i].0, code[i].1);
            assert(machine::jumps_to(code[i].0, code[i].1, pc));
        } else if pc != 0 {
            let i = choose|i: int|
                0 <= i < code.len() - 1 && #[trigger] follows_terminator(code, i) && code[i + 1].0
                    == pc;
            lemma_jumps(code[i].0, code[i].1);
            assert(machine::turns(code[i].1));
        }
    }
}

/// A block leads to at most two others. Where it leads to two, its last instruction jumps to
/// the first, and the second is the next block.
pub proof fn law_taken_edge_comes_first(
    cfg: ControlFlowGraph,
    code: Seq<(usize, Instruction)>,
    code_len: usize,
    pc: usize,
)
    requires
        is_graph_of(cfg, code, code_len),
        cfg.blocks@.contains_key(pc),
    ensures
        cfg.blocks@[pc].instructions@.len() > 0,
        cfg.blocks@[pc].successors@.len() <= 2,
        cfg.blocks@[pc].successors@.len() == 2 ==> {
            let last = cfg.blocks@[pc].instructions@.last();
            &&& machine::jumps_to(last.0, last.1, cfg.blocks@[pc].successors@[0])
            &&& machine::goes_on(last.1)
            &&& is_next_block(cfg.blocks@, pc, cfg.blocks@[pc].successors@[1])
        },
{
    let bs = block_bounds(code, code_len);
    let blocks = choose|blocks: Seq<BasicBlock>|
        {
            &&& #[trigger] connected_blocks(blocks, code, bs)
            &&& holds_blocks(cfg.blocks@, blocks)
        };
    law_edges_are_steps(cfg, code, code_len, pc, 0);
    let ls = ordered::ascending(leaders(code));
    lemma_leaders_finite(code);
    ordered::lemma_ascending_exists(leaders(code));
    lemma_bounds_increasing(code, ls, ls.len(), code_len);
    let i = choose|i: int| 0 <= i < blocks.len() && (#[trigger] blocks[i]).start_pc == pc;
    assert(covers(blocks[i], code, bs[i]));
    assert(cfg.blocks@[pc] == blocks[i]);
    let kept = code_between(code, bs[i].0, bs[i].1);
    let last = blocks[i].instructions@.last();
    let n = kept.len() - 1;
    assert(kept[n].0 == last.0 && pvm::same_instruction(kept[n].1, last.1));
    lemma_same_instruction_shape(kept[n].1, last.1);
    lemma_jumps(last.0, last.1);
    assert(target_of(kept[n]) == target_of(last));
    let ss = successors_of(kept.last(), bs, i);
    assert(blocks[i].successors@ == ss);
    if ss.len() == 2 {
        let t = bs[i + 1].0;
        assert(ss[1] == t);
        assert(bs[i].0 < bs[i + 1].0);
        assert(covers(blocks[i + 1], code, bs[i + 1]));
        assert forall|k: usize| #[trigger] cfg.blocks@.contains_key(k) implies k <= pc || t
            <= k by {
            let j = choose|j: int| 0 <= j < blocks.len() && (#[trigger] blocks[j]).start_pc == k;
            assert(covers(blocks[j], code, bs[j]));
            if j < i {
                assert(bs[j].0 < bs[i].0);
            } else if j > i + 1 {
                assert(bs[i + 1].0 < bs[j].0);
            }
        }
        assert(machine::jumps_to(last.0, last.1, ss[0]));
    }
}

} // verus!
