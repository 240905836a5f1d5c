//! Functions and instructions that need not be shown.

use crate::cfg::ControlFlowGraph;
use crate::dataflow::{holds_pc, DataFlowAnalysis};
use crate::decoder::DecodedProgram;
use crate::functions;
use crate::functions::{DirectCall, DirectCallPattern, Epilogue, EpilogueKind, Function, Unit};
use crate::instruction;
use crate::instruction::InstructionShape;
use crate::lifting::program;
use crate::machine;
use crate::names::NameMap;
use crate::ordered::{keys_of, members_of};
use crate::ordered;
use crate::pvm::Instruction;
use crate::text::same_text;
use std::collections::{BTreeMap, BTreeSet};
use vstd::prelude::*;

verus! {

broadcast use vstd::laws_cmp::group_laws_cmp;

/// Whether a jump table leads to `pc`.
pub open spec fn in_table(table: Seq<u32>, pc: usize) -> bool {
    exists|i: int| 0 <= i < table.len() && #[trigger] table[i] as usize == pc
}

pub fn table_holds(table: &Vec<u32>, pc: usize) -> (r: bool)
    ensures
        r == in_table(table@, pc),
{
    let mut i: usize = 0;
    while i < table.len()
        invariant
            i <= table@.len(),
            forall|k: int| 0 <= k < i ==> #[trigger] table@[k] as usize != pc,
        decreases table@.len() - i,
    {
        if table[i] as usize == pc {
            return true;
        }
        i = i + 1;
    }
    false
}

/// Whether an instruction does nothing but trap or go on.
pub open spec fn idle(i: Instruction) -> bool {
    i is Trap || i is Fallthrough
}

/// Whether all blocks of a function are idle.
pub open spec fn idle_blocks(cfg: ControlFlowGraph, blocks: Set<usize>) -> bool {
    forall|pc: usize, k: int|
        blocks.contains(pc) && cfg.blocks@.contains_key(pc) && 0 <= k
            < cfg.blocks@[pc].instructions@.len() ==> idle(
            (#[trigger] cfg.blocks@[pc].instructions@[k]).1,
        )
}

/// Whether a function is shown: it is where the program starts, the jump table or an
/// edge leads to it, or it does something.
pub open spec fn shown(cfg: ControlFlowGraph, table: Seq<u32>, f: Unit) -> bool {
    ||| f.entry_pc == cfg.entry_pc
    ||| in_table(table, f.entry_pc)
    ||| cfg.blocks@.contains_key(f.entry_pc) && cfg.blocks@[f.entry_pc].predecessors@.len() > 0
    ||| !idle_blocks(cfg, f.blocks)
}

/// The shown functions among the first `n`.
pub open spec fn pruned(cfg: ControlFlowGraph, table: Seq<u32>, fs: Seq<Unit>, n: nat) -> Seq<Unit>
    decreases n,
{
    if n == 0 {
        seq![]
    } else if shown(cfg, table, fs[n - 1]) {
        pruned(cfg, table, fs, (n - 1) as nat).push(fs[n - 1])
    } else {
        pruned(cfg, table, fs, (n - 1) as nat)
    }
}

fn is_trivial_unreachable_stub(cfg: &ControlFlowGraph, f: &Function) -> (r: bool)
    ensures
        r == idle_blocks(*cfg, f.block_pcs@),
{
    let members = members_of(&f.block_pcs);
    let mut i: usize = 0;
    while i < members.len()
        invariant
            i <= members@.len(),
            members@.to_set() == f.block_pcs@,
            forall|m: int, k: int|
                0 <= m < i && cfg.blocks@.contains_key(members@[m]) && 0 <= k
                    < cfg.blocks@[members@[m]].instructions@.len() ==> idle(
                    (#[trigger] cfg.blocks@[members@[m]].instructions@[k]).1,
                ),
        decreases members@.len() - i,
    {
        assert(members@.to_set().contains(members@[i as int]));
        if let Some(b) = cfg.blocks.get(&members[i]) {
            let code = &b.instructions;
            let mut j: usize = 0;
            while j < code.len()
                invariant
                    j <= code@.len(),
                    i < members@.len(),
                    f.block_pcs@.contains(members@[i as int]),
                    cfg.blocks@.contains_key(members@[i as int]),
                    *b == cfg.blocks@[members@[i as int]],
                    *code == b.instructions,
                    forall|k: int| 0 <= k < j ==> idle((#[trigger] code@[k]).1),
                decreases code@.len() - j,
            {
                match code[j].1 {
                    Instruction::Trap | Instruction::Fallthrough => {},
                    _ => {
                        assert(!idle(cfg.blocks@[members@[i as int]].instructions@[j as int].1));
                        return false;
                    },
                }
                j = j + 1;
            }
        }
        i = i + 1;
    }
    assert forall|pc: usize, k: int|
        f.block_pcs@.contains(pc) && cfg.blocks@.contains_key(pc) && 0 <= k
            < cfg.blocks@[pc].instructions@.len() implies idle(
        (#[trigger] cfg.blocks@[pc].instructions@[k]).1,
    ) by {
        assert(members@.to_set().contains(pc));
        let m = choose|m: int| 0 <= m < members@.len() && members@[m] == pc;
        assert(idle(cfg.blocks@[members@[m]].instructions@[k].1));
    }
    true
}

fn is_shown(cfg: &ControlFlowGraph, table: &Vec<u32>, f: &Function) -> (r: bool)
    ensures
        r == shown(*cfg, table@, f@),
{
    if f.entry_pc == cfg.entry_pc || table_holds(table, f.entry_pc) {
        return true;
    }
    if let Some(b) = cfg.blocks.get(&f.entry_pc) {
        if b.predecessors.len() > 0 {
            return true;
        }
    }
    !is_trivial_unreachable_stub(cfg, f)
}

/// Leave out functions that nothing leads to and that do nothing.
pub fn prune_unreachable_trivial_functions(
    cfg: &ControlFlowGraph,
    program: &DecodedProgram,
    detected_functions: Vec<Function>,
) -> (kept: Vec<Function>)
    ensures
        functions::units(kept@) == pruned(
            *cfg,
            program.jump_table@,
            functions::units(detected_functions@),
            detected_functions@.len(),
        ),
{
    let ghost total = detected_functions@;
    let mut rest = detected_functions;
    let mut kept: Vec<Function> = Vec::new();
    let ghost mut n: nat = 0;
    assert(functions::units(kept@) =~= seq![]);
    assert(total.skip(0) =~= total);
    while rest.len() > 0
        invariant
            n <= total.len(),
            rest@ == total.skip(n as int),
            functions::units(kept@) == pruned(
                *cfg,
                program.jump_table@,
                functions::units(total),
                n,
            ),
        decreases rest@.len(),
    {
        let f = rest.remove(0);
        assert(functions::units(total)[n as int] == f@);
        let ghost was = functions::units(kept@);
        let ghost unit = f@;
        if is_shown(cfg, &program.jump_table, &f) {
            kept.push(f);
            assert(functions::units(kept@) =~= was.push(unit));
        }
        proof {
            assert(rest@ =~= total.skip(n as int + 1));
            n = n + 1;
        }
    }
    kept
}

/// Where an instruction stands in a block; the first of several.
pub open spec fn position(code: Seq<(usize, Instruction)>, pc: usize, i: int) -> Option<int>
    decreases code.len() - i,
{
    if i < 0 || i >= code.len() {
        None
    } else if code[i].0 == pc {
        Some(i)
    } else {
        position(code, pc, i + 1)
    }
}

/// Whether a register is read from the `i`th instruction up to the `last`, before it is
/// written again.
pub open spec fn read_before_written(
    code: Seq<(usize, Instruction)>,
    reg: u8,
    i: int,
    last: int,
) -> bool
    decreases last + 1 - i,
{
    if i < 0 || i > last {
        false
    } else {
        let shape = instruction::classified(code[i].1);
        shape.uses().contains(reg) || (!shape.defs().contains(reg) && read_before_written(
            code,
            reg,
            i + 1,
            last,
        ))
    }
}

/// The register that an instruction loads a constant into.
pub open spec fn constant_reg(i: Instruction) -> Option<u8> {
    match i {
        Instruction::LoadImm { reg, .. } => Some(reg),
        Instruction::LoadImm64 { reg, .. } => Some(reg),
        _ => None,
    }
}

/// Whether a register goes into the callee or is needed behind the call.
pub open spec fn passed_or_live(
    call: DirectCall,
    live_in: Map<usize, Set<u8>>,
    params: Map<Seq<char>, Seq<u8>>,
    reg: u8,
) -> bool {
    (params.contains_key(call.name) && params[call.name].contains(reg)) || (live_in.contains_key(
        call.back,
    ) && live_in[call.back].contains(reg))
}

/// Whether the `i`th instruction of the block of a call sets a register for nothing: a
/// constant that neither the callee nor anything behind the call reads.
pub open spec fn idle_setup(
    cfg: ControlFlowGraph,
    live_in: Map<usize, Set<u8>>,
    call: DirectCall,
    params: Map<Seq<char>, Seq<u8>>,
    i: int,
) -> bool {
    cfg.blocks@.contains_key(call.block) && {
        let code = cfg.blocks@[call.block].instructions@;
        match position(code, call.jump_pc, 0) {
            Some(jump) => 0 <= i < jump && code[i].0 != call.load_pc && match constant_reg(
                code[i].1,
            ) {
                Some(reg) => reg != 0 && !passed_or_live(call, live_in, params, reg)
                    && !read_before_written(code, reg, i + 1, jump),
                None => false,
            },
            None => false,
        }
    }
}

/// Whether the instruction at `pc` sets a register for nothing before one of the first
/// `n` calls.
pub open spec fn idle_before(
    cfg: ControlFlowGraph,
    live_in: Map<usize, Set<u8>>,
    calls: Seq<DirectCall>,
    params: Map<Seq<char>, Seq<u8>>,
    n: nat,
    pc: usize,
) -> bool
    decreases n,
{
    n > 0 && (idle_before(cfg, live_in, calls, params, (n - 1) as nat, pc) || exists|i: int|
        #[trigger] idle_setup(cfg, live_in, calls[n - 1], params, i)
            && cfg.blocks@[calls[n - 1].block].instructions@[i].0 == pc)
}

fn find_position(code: &Vec<(usize, Instruction)>, pc: usize) -> (r: Option<usize>)
    ensures
        match r {
            Some(i) => position(code@, pc, 0) == Some(i as int) && i < code@.len(),
            None => position(code@, pc, 0) is None,
        },
{
    let mut i: usize = 0;
    while i < code.len()
        invariant
            i <= code@.len(),
            position(code@, pc, 0) == position(code@, pc, i as int),
        decreases code@.len() - i,
    {
        if code[i].0 == pc {
            return Some(i);
        }
        i = i + 1;
    }
    None
}

pub(crate) fn holds_reg(v: &Vec<u8>, reg: u8) -> (r: bool)
    ensures
        r == v@.contains(reg),
{
    let mut i: usize = 0;
    while i < v.len()
        invariant
            i <= v@.len(),
            forall|k: int| 0 <= k < i ==> v@[k] != reg,
        decreases v@.len() - i,
    {
        if v[i] == reg {
            assert(v@[i as int] == reg);
            return true;
        }
        i = i + 1;
    }
    false
}

fn is_read_before_written(
    code: &Vec<(usize, Instruction)>,
    reg: u8,
    from: usize,
    last: usize,
) -> (r: bool)
    requires
        last < code@.len(),
    ensures
        r == read_before_written(code@, reg, from as int, last as int),
{
    let mut i: usize = from;
    while i <= last
        invariant
            last < code@.len(),
            read_before_written(code@, reg, from as int, last as int) == read_before_written(
                code@,
                reg,
                i as int,
                last as int,
            ),
        decreases last + 1 - i,
    {
        let size: usize = code.len();
        let (defs, uses) = InstructionShape::classify(&code[i].1).def_use();
        if holds_reg(&uses, reg) {
            return true;
        }
        if holds_reg(&defs, reg) {
            return false;
        }
        assert(i < size);
        i = i + 1;
    }
    false
}

/// The live registers of an analysis.
pub open spec fn live_sets(m: Map<usize, BTreeSet<u8>>) -> Map<usize, Set<u8>> {
    m.map_values(|s: BTreeSet<u8>| s@)
}

fn is_passed_or_live(
    pat: &DirectCallPattern,
    live_in: &BTreeMap<usize, BTreeSet<u8>>,
    params: &NameMap<Vec<u8>>,
    reg: u8,
) -> (r: bool)
    ensures
        r == passed_or_live(pat@, live_sets(live_in@), program::reg_lists(params@), reg),
{
    let ghost lists = program::reg_lists(params@);
    assert(lists.contains_key(pat.callee_name@) == params@.contains_key(pat.callee_name@));
    if let Some(list) = params.get(pat.callee_name.as_str()) {
        if holds_reg(list, reg) {
            return true;
        }
    }
    assert(live_sets(live_in@).contains_key(pat.return_pc) == live_in@.contains_key(pat.return_pc));
    if let Some(live) = live_in.get(&pat.return_pc) {
        if live.contains(&reg) {
            return true;
        }
    }
    false
}

fn is_idle_setup(
    cfg: &ControlFlowGraph,
    live_in: &BTreeMap<usize, BTreeSet<u8>>,
    pat: &DirectCallPattern,
    params: &NameMap<Vec<u8>>,
    code: &Vec<(usize, Instruction)>,
    jump: usize,
    i: usize,
) -> (r: bool)
    requires
        cfg.blocks@.contains_key(pat.caller_block_pc),
        *code == cfg.blocks@[pat.caller_block_pc].instructions,
        position(code@, pat.jump_pc, 0) == Some(jump as int),
        i < jump < code@.len(),
    ensures
        r == idle_setup(*cfg, live_sets(live_in@), pat@, program::reg_lists(params@), i as int),
{
    if code[i].0 == pat.load_imm_pc {
        return false;
    }
    let reg: u8 = match code[i].1 {
        Instruction::LoadImm { reg, .. } => reg,
        Instruction::LoadImm64 { reg, .. } => reg,
        _ => {
            return false;
        },
    };
    if reg == 0 || is_passed_or_live(pat, live_in, params, reg) {
        return false;
    }
    !is_read_before_written(code, reg, i + 1, jump)
}

/// Find constants that are set before a direct call for nothing.
pub fn redundant_call_setup_pcs_for_function(
    func_cfg: &ControlFlowGraph,
    dataflow: &DataFlowAnalysis,
    direct_call_patterns: &[DirectCallPattern],
    function_params_by_name: &NameMap<Vec<u8>>,
) -> (eliminated: BTreeSet<usize>)
    ensures
        forall|pc: usize| #[trigger]
            eliminated@.contains(pc) <==> idle_before(
                *func_cfg,
                live_sets(dataflow.live_in@),
                functions::direct_calls_of(direct_call_patterns@),
                program::reg_lists(function_params_by_name@),
                direct_call_patterns@.len(),
                pc,
            ),
{
    let ghost live = live_sets(dataflow.live_in@);
    let ghost calls = functions::direct_calls_of(direct_call_patterns@);
    let ghost params = program::reg_lists(function_params_by_name@);
    let mut eliminated: BTreeSet<usize> = BTreeSet::new();
    let mut p: usize = 0;
    while p < direct_call_patterns.len()
        invariant
            p <= direct_call_patterns@.len(),
            live == live_sets(dataflow.live_in@),
            calls == functions::direct_calls_of(direct_call_patterns@),
            params == program::reg_lists(function_params_by_name@),
            forall|pc: usize| #[trigger]
                eliminated@.contains(pc) <==> idle_before(
                    *func_cfg,
                    live,
                    calls,
                    params,
                    p as nat,
                    pc,
                ),
        decreases direct_call_patterns@.len() - p,
    {
        let pat = &direct_call_patterns[p];
        assert(calls[p as int] == pat@);
        let ghost was = eliminated@;
        if let Some(block) = func_cfg.blocks.get(&pat.caller_block_pc) {
            let code = &block.instructions;
            if let Some(jump) = find_position(code, pat.jump_pc) {
                let mut i: usize = 0;
                while i < jump
                    invariant
                        i <= jump < code@.len(),
                        func_cfg.blocks@.contains_key(pat.caller_block_pc),
                        *block == func_cfg.blocks@[pat.caller_block_pc],
                        *code == block.instructions,
                        position(code@, pat.jump_pc, 0) == Some(jump as int),
                        live == live_sets(dataflow.live_in@),
                        params == program::reg_lists(function_params_by_name@),
                        forall|pc: usize| #[trigger]
                            eliminated@.contains(pc) <==> was.contains(pc) || exists|k: int|
                                0 <= k < i && #[trigger] idle_setup(
                                    *func_cfg,
                                    live,
                                    pat@,
                                    params,
                                    k,
                                ) && code@[k].0 == pc,
                    decreases jump - i,
                {
                    let ghost now = eliminated@;
                    if is_idle_setup(
                        func_cfg,
                        &dataflow.live_in,
                        pat,
                        function_params_by_name,
                        code,
                        jump,
                        i,
                    ) {
                        eliminated.insert(code[i].0);
                    }
                    assert forall|pc: usize| #[trigger] eliminated@.contains(pc) <==> was.contains(
                        pc,
                    ) || exists|k: int|
                        0 <= k < i + 1 && #[trigger] idle_setup(*func_cfg, live, pat@, params, k)
                            && code@[k].0 == pc by {
                        assert(now.contains(pc) <==> was.contains(pc) || exists|k: int|
                            0 <= k < i && #[trigger] idle_setup(*func_cfg, live, pat@, params, k)
                                && code@[k].0 == pc);
                        if idle_setup(*func_cfg, live, pat@, params, i as int) && code@[i as int].0
                            == pc {
                            assert(eliminated@.contains(pc));
                        }
                    }
                    i = i + 1;
                }
            }
        }
        assert forall|pc: usize| #[trigger] eliminated@.contains(pc) <==> idle_before(
            *func_cfg,
            live,
            calls,
            params,
            (p + 1) as nat,
            pc,
        ) by {
            assert(was.contains(pc) <==> idle_before(
                *func_cfg,
                live,
                calls,
                params,
                p as nat,
                pc,
            ));
        }
        p = p + 1;
    }
    eliminated
}

/// Whether an instruction before a halt has an effect beyond registers.
pub open spec fn acts(shape: InstructionShape) -> bool {
    match shape {
        InstructionShape::Store { .. }
        | InstructionShape::StoreAbsolute { .. }
        | InstructionShape::StoreImm { .. }
        | InstructionShape::StoreImmInd { .. }
        | InstructionShape::Jump { .. }
        | InstructionShape::JumpInd { .. }
        | InstructionShape::LoadImmJump { .. }
        | InstructionShape::LoadImmJumpInd { .. }
        | InstructionShape::BranchImm { .. }
        | InstructionShape::BranchReg { .. }
        | InstructionShape::Ecalli { .. }
        | InstructionShape::Unknown { .. } => true,
        InstructionShape::NoOp { name } => name@ == "trap"@,
        _ => false,
    }
}

/// Whether an instruction before a halt may be left out where nothing reads its result.
pub open spec fn only_sets(shape: InstructionShape) -> bool {
    match shape {
        InstructionShape::LoadImm { .. }
        | InstructionShape::BinReg { .. }
        | InstructionShape::BinImm { .. }
        | InstructionShape::BinImmRev { .. }
        | InstructionShape::Unary { .. }
        | InstructionShape::Load { .. }
        | InstructionShape::LoadAbsolute { .. }
        | InstructionShape::CmovReg { .. }
        | InstructionShape::CmovImm { .. } => true,
        InstructionShape::NoOp { name } => name@ == "fallthrough"@,
        _ => false,
    }
}

/// A walk back through a block: the registers that something behind reads, and the
/// instructions that set others.
#[verifier::ext_equal]
pub struct HaltWalk {
    pub needed: Set<u8>,
    pub gone: Set<usize>,
}

/// The walk, one instruction further back.
pub open spec fn walk_step(w: HaltWalk, halt_pcs: Seq<usize>, pc: usize, instr: Instruction) -> HaltWalk {
    let shape = instruction::classified(instr);
    if halt_pcs.contains(pc) {
        w
    } else if !acts(shape) && only_sets(shape) && !(exists|r: u8|
        shape.defs().contains(r) && #[trigger] w.needed.contains(r)) {
        HaltWalk { needed: w.needed, gone: w.gone.insert(pc) }
    } else {
        HaltWalk {
            needed: w.needed.difference(shape.defs().to_set()).union(shape.uses().to_set()),
            gone: w.gone,
        }
    }
}

/// The walk over the last `n` instructions.
pub open spec fn halt_walk(code: Seq<(usize, Instruction)>, halt_pcs: Seq<usize>, n: nat) -> HaltWalk
    decreases n,
{
    if n == 0 {
        HaltWalk { needed: Set::empty(), gone: Set::empty() }
    } else {
        let at = code[code.len() - n];
        walk_step(halt_walk(code, halt_pcs, (n - 1) as nat), halt_pcs, at.0, at.1)
    }
}

/// Whether the instruction at `pc` sets a register for nothing in the halting block at
/// `block`.
pub open spec fn idle_in_halt(
    cfg: ControlFlowGraph,
    epilogues: Map<usize, Epilogue>,
    block: usize,
    pc: usize,
) -> bool {
    epilogues.contains_key(block) && cfg.blocks@.contains_key(block) && match epilogues[block] {
        Epilogue::Halt(pcs) => {
            let code = cfg.blocks@[block].instructions@;
            halt_walk(code, pcs, code.len()).gone.contains(pc)
        },
        _ => false,
    }
}

fn is_halt_setup_side_effecting(shape: &InstructionShape) -> (r: bool)
    ensures
        r == acts(*shape),
{
    match shape {
        InstructionShape::Store { .. }
        | InstructionShape::StoreAbsolute { .. }
        | InstructionShape::StoreImm { .. }
        | InstructionShape::StoreImmInd { .. }
        | InstructionShape::Jump { .. }
        | InstructionShape::JumpInd { .. }
        | InstructionShape::LoadImmJump { .. }
        | InstructionShape::LoadImmJumpInd { .. }
        | InstructionShape::BranchImm { .. }
        | InstructionShape::BranchReg { .. }
        | InstructionShape::Ecalli { .. }
        | InstructionShape::Unknown { .. } => true,
        InstructionShape::NoOp { name } => same_text(name, "trap"),
        _ => false,
    }
}

fn is_eliminable_halt_setup_shape(shape: &InstructionShape) -> (r: bool)
    ensures
        r == only_sets(*shape),
{
    match shape {
        InstructionShape::LoadImm { .. }
        | InstructionShape::BinReg { .. }
        | InstructionShape::BinImm { .. }
        | InstructionShape::BinImmRev { .. }
        | InstructionShape::Unary { .. }
        | InstructionShape::Load { .. }
        | InstructionShape::LoadAbsolute { .. }
        | InstructionShape::CmovReg { .. }
        | InstructionShape::CmovImm { .. } => true,
        InstructionShape::NoOp { name } => same_text(name, "fallthrough"),
        _ => false,
    }
}

fn any_needed(defs: &Vec<u8>, needed: &BTreeSet<u8>) -> (r: bool)
    ensures
        r == exists|reg: u8| defs@.contains(reg) && #[trigger] needed@.contains(reg),
{
    let mut i: usize = 0;
    while i < defs.len()
        invariant
            i <= defs@.len(),
            forall|k: int| 0 <= k < i ==> !needed@.contains(#[trigger] defs@[k]),
        decreases defs@.len() - i,
    {
        if needed.contains(&defs[i]) {
            assert(defs@.contains(defs@[i as int]));
            return true;
        }
        i = i + 1;
    }
    false
}

fn drop_regs(needed: &mut BTreeSet<u8>, regs: &Vec<u8>)
    ensures
        final(needed)@ == old(needed)@.difference(regs@.to_set()),
{
    let ghost start = needed@;
    let mut i: usize = 0;
    assert(regs@.take(0).to_set() =~= Set::empty());
    assert(needed@ =~= start.difference(regs@.take(0).to_set()));
    while i < regs.len()
        invariant
            i <= regs@.len(),
            needed@ == start.difference(regs@.take(i as int).to_set()),
        decreases regs@.len() - i,
    {
        needed.remove(&regs[i]);
        proof {
            let reg = regs@[i as int];
            assert(regs@.take(i + 1) =~= regs@.take(i as int).push(reg));
            ordered::lemma_push_to_set(regs@.take(i as int), reg);
            assert(needed@ =~= start.difference(regs@.take(i + 1).to_set()));
        }
        i = i + 1;
    }
    assert(regs@.take(i as int) =~= regs@);
}

fn add_regs(needed: &mut BTreeSet<u8>, regs: &Vec<u8>)
    ensures
        final(needed)@ == old(needed)@.union(regs@.to_set()),
{
    let ghost start = needed@;
    let mut i: usize = 0;
    assert(regs@.take(0).to_set() =~= Set::empty());
    assert(needed@ =~= start.union(regs@.take(0).to_set()));
    while i < regs.len()
        invariant
            i <= regs@.len(),
            needed@ == start.union(regs@.take(i as int).to_set()),
        decreases regs@.len() - i,
    {
        needed.insert(regs[i]);
        proof {
            let reg = regs@[i as int];
            assert(regs@.take(i + 1) =~= regs@.take(i as int).push(reg));
            ordered::lemma_push_to_set(regs@.take(i as int), reg);
            assert(needed@ =~= start.union(regs@.take(i + 1).to_set()));
        }
        i = i + 1;
    }
    assert(regs@.take(i as int) =~= regs@);
}

fn walk_back(code: &Vec<(usize, Instruction)>, halt_pcs: &Vec<usize>) -> (gone: BTreeSet<usize>)
    ensures
        gone@ == halt_walk(code@, halt_pcs@, code@.len()).gone,
{
    let mut needed: BTreeSet<u8> = BTreeSet::new();
    let mut gone: BTreeSet<usize> = BTreeSet::new();
    let mut n: usize = 0;
    while n < code.len()
        invariant
            n <= code@.len(),
            (HaltWalk { needed: needed@, gone: gone@ }) == halt_walk(code@, halt_pcs@, n as nat),
        decreases code@.len() - n,
    {
        n = n + 1;
        let at: usize = code.len() - n;
        let pc: usize = code[at].0;
        let ghost before = HaltWalk { needed: needed@, gone: gone@ };
        let ghost want = walk_step(before, halt_pcs@, code@[at as int].0, code@[at as int].1);
        if !holds_pc(halt_pcs, pc) {
            let shape = InstructionShape::classify(&code[at].1);
            let (defs, uses) = shape.def_use();
            if !is_halt_setup_side_effecting(&shape) && is_eliminable_halt_setup_shape(&shape)
                && !any_needed(&defs, &needed) {
                gone.insert(pc);
            } else {
                drop_regs(&mut needed, &defs);
                add_regs(&mut needed, &uses);
            }
        }
        assert((HaltWalk { needed: needed@, gone: gone@ }) =~= want);
    }
    gone
}

/// Find instructions before a halt that set registers for nothing.
pub fn redundant_halt_setup_pcs_for_function(
    func_cfg: &ControlFlowGraph,
    epilogues: &BTreeMap<usize, EpilogueKind>,
) -> (eliminated: BTreeSet<usize>)
    ensures
        forall|pc: usize| #[trigger]
            eliminated@.contains(pc) <==> exists|block: usize| #[trigger]
                idle_in_halt(*func_cfg, program::epilogue_map(epilogues@), block, pc),
{
    let ghost map = program::epilogue_map(epilogues@);
    let keys = keys_of(epilogues);
    let mut eliminated: BTreeSet<usize> = BTreeSet::new();
    let mut i: usize = 0;
    while i < keys.len()
        invariant
            i <= keys@.len(),
            keys@.to_set() == epilogues@.dom(),
            map == program::epilogue_map(epilogues@),
            forall|pc: usize| #[trigger]
                eliminated@.contains(pc) <==> exists|k: int|
                    0 <= k < i && #[trigger] idle_in_halt(*func_cfg, map, keys@[k], pc),
        decreases keys@.len() - i,
    {
        let key: usize = keys[i];
        assert(keys@.to_set().contains(key));
        let ghost was = eliminated@;
        let ghost mut found = Set::<usize>::empty();
        assert(map.contains_key(key) == epilogues@.contains_key(key));
        if let Some(kind) = epilogues.get(&key) {
            assert(map[key] == kind@);
            match kind {
                EpilogueKind::Halt { eliminated_pcs } => {
                    if let Some(block) = func_cfg.blocks.get(&key) {
                        let gone = walk_back(&block.instructions, eliminated_pcs);
                        proof {
                            found = gone@;
                        }
                        let list = members_of(&gone);
                        add_pcs(&mut eliminated, &list);
                        assert(list@.to_set() == gone@);
                    }
                },
                EpilogueKind::Return { .. } => {},
            }
        }
        assert forall|pc: usize| found.contains(pc) == idle_in_halt(*func_cfg, map, key, pc) by {}
        assert forall|pc: usize| #[trigger] eliminated@.contains(pc) <==> exists|k: int|
            0 <= k < i + 1 && #[trigger] idle_in_halt(*func_cfg, map, keys@[k], pc) by {
            assert(was.contains(pc) <==> exists|k: int|
                0 <= k < i && #[trigger] idle_in_halt(*func_cfg, map, keys@[k], pc));
            assert(eliminated@.contains(pc) <==> was.contains(pc) || found.contains(pc));
            if found.contains(pc) {
                assert(idle_in_halt(*func_cfg, map, keys@[i as int], pc));
            }
        }
        i = i + 1;
    }
    assert forall|pc: usize| #[trigger] eliminated@.contains(pc) <==> exists|block: usize| #[trigger]
        idle_in_halt(*func_cfg, map, block, pc) by {
        if exists|block: usize| #[trigger] idle_in_halt(*func_cfg, map, block, pc) {
            let block = choose|block: usize| #[trigger] idle_in_halt(*func_cfg, map, block, pc);
            assert(keys@.to_set().contains(block));
            let k = choose|k: int| 0 <= k < keys@.len() && keys@[k] == block;
            assert(idle_in_halt(*func_cfg, map, keys@[k], pc));
        }
        if exists|k: int| 0 <= k < i && #[trigger] idle_in_halt(*func_cfg, map, keys@[k], pc) {
            let k = choose|k: int|
                0 <= k < i && #[trigger] idle_in_halt(*func_cfg, map, keys@[k], pc);
            assert(idle_in_halt(*func_cfg, map, keys@[k], pc));
        }
    }
    eliminated
}

/// Add program counters to a set.
pub(crate) fn add_pcs(set: &mut BTreeSet<usize>, pcs: &Vec<usize>)
    ensures
        final(set)@ == old(set)@.union(pcs@.to_set()),
{
    let ghost start = set@;
    let mut i: usize = 0;
    assert(pcs@.take(0).to_set() =~= Set::empty());
    assert(set@ =~= start.union(pcs@.take(0).to_set()));
    while i < pcs.len()
        invariant
            i <= pcs@.len(),
            set@ == start.union(pcs@.take(i as int).to_set()),
        decreases pcs@.len() - i,
    {
        set.insert(pcs[i]);
        proof {
            let pc = pcs@[i as int];
            assert(pcs@.take(i + 1) =~= pcs@.take(i as int).push(pc));
            ordered::lemma_push_to_set(pcs@.take(i as int), pc);
            assert(set@ =~= start.union(pcs@.take(i + 1).to_set()));
        }
        i = i + 1;
    }
    assert(pcs@.take(i as int) =~= pcs@);
}

/// Whether an instruction of a halting block stays: it is no part of the halt, and it is
/// not left out.
pub open spec fn stays(code: Seq<(usize, Instruction)>, halt_pcs: Seq<usize>, j: int) -> bool {
    !halt_pcs.contains(code[j].0) && !halt_walk(code, halt_pcs, code.len()).gone.contains(code[j].0)
}

/// Whether an instruction that stays writes `reg`, from the `a`th on and before the `b`th.
pub open spec fn rewritten(
    code: Seq<(usize, Instruction)>,
    halt_pcs: Seq<usize>,
    reg: u8,
    a: int,
    b: int,
) -> bool {
    exists|k: int|
        a <= k < b && #[trigger] stays(code, halt_pcs, k) && machine::writes(code[k].1).contains(
            reg,
        )
}

proof fn lemma_gone_before(
    code: Seq<(usize, Instruction)>,
    halt_pcs: Seq<usize>,
    n: nat,
    m: nat,
    j: int,
)
    requires
        n <= m <= code.len(),
        0 <= j < code.len(),
        j >= code.len() - n || j < code.len() - m,
        forall|a: int, b: int|
            0 <= a < b < code.len() ==> (#[trigger] code[a]).0 != (#[trigger] code[b]).0,
    ensures
        halt_walk(code, halt_pcs, m).gone.contains(code[j].0) == halt_walk(
            code,
            halt_pcs,
            n,
        ).gone.contains(code[j].0),
    decreases m,
{
    if n < m {
        lemma_gone_before(code, halt_pcs, n, (m - 1) as nat, j);
        let i = code.len() - m;
        assert(i != j);
        assert(code[i].0 != code[j].0);
    }
}

proof fn lemma_unneeded(
    code: Seq<(usize, Instruction)>,
    halt_pcs: Seq<usize>,
    n: nat,
    reg: u8,
    j: int,
)
    requires
        n <= code.len(),
        forall|a: int, b: int|
            0 <= a < b < code.len() ==> (#[trigger] code[a]).0 != (#[trigger] code[b]).0,
        !halt_walk(code, halt_pcs, n).needed.contains(reg),
        code.len() - n <= j < code.len(),
        stays(code, halt_pcs, j),
        machine::reads(code[j].1).contains(reg),
    ensures
        rewritten(code, halt_pcs, reg, code.len() - n, j),
    decreases n,
{
    let i = code.len() - n;
    let before = halt_walk(code, halt_pcs, (n - 1) as nat);
    let after = halt_walk(code, halt_pcs, n);
    let shape = instruction::classified(code[i].1);
    machine::law_shape_names_registers(code[i].1);
    lemma_gone_before(code, halt_pcs, n, code.len(), i);
    lemma_gone_before(code, halt_pcs, 0, (n - 1) as nat, i);
    assert(!before.gone.contains(code[i].0));
    if halt_pcs.contains(code[i].0) || after.gone.contains(code[i].0) {
        assert(j != i);
        assert(after.needed == before.needed);
        lemma_unneeded(code, halt_pcs, (n - 1) as nat, reg, j);
        let k = choose|k: int|
            i + 1 <= k < j && #[trigger] stays(code, halt_pcs, k) && machine::writes(
                code[k].1,
            ).contains(reg);
        assert(stays(code, halt_pcs, k));
    } else {
        assert(stays(code, halt_pcs, i));
        assert(after.needed =~= before.needed.difference(shape.defs().to_set()).union(
            shape.uses().to_set(),
        ));
        assert(!shape.uses().to_set().contains(reg));
        if j == i {
            assert(shape.uses().contains(reg));
            assert(shape.uses().to_set().contains(reg));
        }
        if shape.defs().contains(reg) {
            assert(machine::writes(code[i].1).contains(reg));
        } else {
            assert(!shape.defs().to_set().contains(reg));
            lemma_unneeded(code, halt_pcs, (n - 1) as nat, reg, j);
            let k = choose|k: int|
                i + 1 <= k < j && #[trigger] stays(code, halt_pcs, k) && machine::writes(
                    code[k].1,
                ).contains(reg);
            assert(stays(code, halt_pcs, k));
        }
    }
}

/// An instruction that is left out of a halting block is missed by none that stays: whatever
/// register it writes, an instruction behind it that stays and reads that register finds it
/// written again. It writes no memory, and control goes on behind it.
pub proof fn law_left_out_setup_is_not_missed(
    code: Seq<(usize, Instruction)>,
    halt_pcs: Seq<usize>,
    i: int,
    j: int,
    reg: u8,
)
    requires
        forall|a: int, b: int|
            0 <= a < b < code.len() ==> (#[trigger] code[a]).0 != (#[trigger] code[b]).0,
        0 <= i < j < code.len(),
        halt_walk(code, halt_pcs, code.len()).gone.contains(code[i].0),
    ensures
        !halt_pcs.contains(code[i].0),
        !machine::turns(code[i].1),
        machine::stores(code[i].1) is None,
        machine::stores_constant(code[i].1) is None,
        !(code[i].1 is Ecalli) && !(code[i].1 is Unknown),
        machine::writes(code[i].1).contains(reg) && stays(code, halt_pcs, j) && machine::reads(
            code[j].1,
        ).contains(reg) ==> rewritten(code, halt_pcs, reg, i + 1, j),
{
    let n = (code.len() - i) as nat;
    let before = halt_walk(code, halt_pcs, (n - 1) as nat);
    let shape = instruction::classified(code[i].1);
    lemma_gone_before(code, halt_pcs, n, code.len(), i);
    lemma_gone_before(code, halt_pcs, 0, (n - 1) as nat, i);
    assert(!before.gone.contains(code[i].0));
    assert(halt_walk(code, halt_pcs, n) == walk_step(before, halt_pcs, code[i].0, code[i].1));
    assert(!acts(shape) && only_sets(shape));
    machine::law_shape_names_registers(code[i].1);
    machine::law_shape_accesses(code[i].1);
    lemma_only_sets(code[i].1);
    if machine::writes(code[i].1).contains(reg) && stays(code, halt_pcs, j) && machine::reads(
        code[j].1,
    ).contains(reg) {
        assert(shape.defs().contains(reg));
        assert(!before.needed.contains(reg));
        lemma_unneeded(code, halt_pcs, (n - 1) as nat, reg, j);
    }
}

proof fn lemma_only_sets(instr: Instruction)
    requires
        !acts(instruction::classified(instr)),
        only_sets(instruction::classified(instr)),
    ensures
        !machine::turns(instr),
        !(instr is Ecalli) && !(instr is Unknown),
{
}

/// Whether an instruction from the `a`th on and before the `b`th writes `reg`.
pub open spec fn written_between(
    code: Seq<(usize, Instruction)>,
    reg: u8,
    a: int,
    b: int,
) -> bool {
    exists|k: int| a <= k < b && machine::writes((#[trigger] code[k]).1).contains(reg)
}

proof fn lemma_not_read(code: Seq<(usize, Instruction)>, reg: u8, i: int, last: int, j: int)
    requires
        0 <= i <= j <= last < code.len(),
        !read_before_written(code, reg, i, last),
        machine::reads(code[j].1).contains(reg),
    ensures
        written_between(code, reg, i, j),
    decreases last - i,
{
    machine::law_shape_names_registers(code[i].1);
    if machine::writes(code[i].1).contains(reg) && i < j {
        assert(machine::writes(code[i].1).contains(reg));
    } else if i < j {
        lemma_not_read(code, reg, i + 1, last, j);
        let k = choose|k: int|
            i + 1 <= k < j && machine::writes((#[trigger] code[k]).1).contains(reg);
        assert(machine::writes(code[k].1).contains(reg));
    }
}

proof fn lemma_position(code: Seq<(usize, Instruction)>, pc: usize, i: int)
    requires
        0 <= i,
    ensures
        position(code, pc, i) matches Some(p) ==> i <= p < code.len() && code[p].0 == pc && forall|
            k: int,
        |
            i <= k < p ==> (#[trigger] code[k]).0 != pc,
    decreases code.len() - i,
{
    if i < code.len() && code[i].0 != pc {
        lemma_position(code, pc, i + 1);
    }
}

/// An instruction that is left out before a call only loads a constant, into a register that
/// the callee does not take and nothing behind the call needs; an instruction between them,
/// the call included, that reads the register finds it written again.
pub proof fn law_left_out_call_setup_is_not_missed(
    cfg: ControlFlowGraph,
    live_in: Map<usize, Set<u8>>,
    call: DirectCall,
    params: Map<Seq<char>, Seq<u8>>,
    i: int,
    jump: int,
    j: int,
)
    requires
        idle_setup(cfg, live_in, call, params, i),
        0 <= jump < cfg.blocks@[call.block].instructions@.len(),
        cfg.blocks@[call.block].instructions@[jump].0 == call.jump_pc,
        forall|k: int|
            0 <= k < jump ==> (#[trigger] cfg.blocks@[call.block].instructions@[k]).0
                != call.jump_pc,
        i < j <= jump,
    ensures
        ({
            let code = cfg.blocks@[call.block].instructions@;
            &&& code[i].1 is LoadImm || code[i].1 is LoadImm64
            &&& code[i].0 != call.load_pc
            &&& forall|reg: u8| #[trigger]
                machine::writes(code[i].1).contains(reg) ==> {
                    &&& !(params.contains_key(call.name) && params[call.name].contains(reg))
                    &&& !(live_in.contains_key(call.back) && live_in[call.back].contains(reg))
                    &&& machine::reads(code[j].1).contains(reg) ==> written_between(
                        code,
                        reg,
                        i + 1,
                        j,
                    )
                }
        }),
{
    let code = cfg.blocks@[call.block].instructions@;
    lemma_position(code, call.jump_pc, 0);
    let p = position(code, call.jump_pc, 0)->0;
    if p < jump {
        assert(code[p].0 != call.jump_pc);
    } else if jump < p {
        assert(code[jump].0 != call.jump_pc);
    }
    assert forall|reg: u8| #[trigger] machine::writes(code[i].1).contains(reg) implies {
        &&& !(params.contains_key(call.name) && params[call.name].contains(reg))
        &&& !(live_in.contains_key(call.back) && live_in[call.back].contains(reg))
        &&& machine::reads(code[j].1).contains(reg) ==> written_between(code, reg, i + 1, j)
    } by {
        assert(constant_reg(code[i].1) == Some(reg));
        if machine::reads(code[j].1).contains(reg) {
            lemma_not_read(code, reg, i + 1, jump, j);
        }
    }
}

} // verus!
