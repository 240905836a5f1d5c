//! Pseudo-code of blocks, branches and loops.
//!
//! `Page` is what has been written so far; each function here says what it adds.

use crate::cfg;
use crate::cfg::ControlFlowGraph;
use crate::functions::{Epilogue, EpilogueKind};
use crate::instruction;
use crate::instruction::{BinOp, InstructionShape, UnaryOp};
use crate::lifting::expr;
use crate::lifting::expr::{Expr, Expression};
use crate::lifting::program;
use crate::lifting::program::{Lifted, LiftedProgram};
use crate::lifting::render;
use crate::lifting::render::format_expression;
use crate::names;
use crate::pvm::Instruction;
use crate::structuring::analysis;
use crate::structuring::analysis::{
    format_condition, format_operand, CondOp, Condition, Operand, Region, Structure,
};
use crate::text;
use crate::text::{empty_string, is_empty_text, push_hex_prefixed};
use std::collections::{BTreeMap, BTreeSet};
use vstd::prelude::*;

verus! {

broadcast use vstd::laws_cmp::group_laws_cmp;

/// What has been written: the text, the blocks in it, and the lifted program with the
/// variables declared so far.
#[verifier::ext_equal]
pub struct Page {
    pub out: Seq<char>,
    pub emitted: Set<usize>,
    pub lifted: Option<Lifted>,
}

/// A loop written as `for`.
#[verifier::ext_equal]
pub struct ForLoop {
    pub init: Seq<char>,
    pub step: Seq<char>,
    pub init_pc: usize,
    pub step_pc: usize,
    pub reg: u8,
}

/// What is to be written.
#[verifier::ext_equal]
pub struct Plan {
    pub cfg: ControlFlowGraph,
    pub labels: Map<usize, Seq<char>>,
    pub ifs: Map<usize, Region>,
    pub fors: Map<usize, ForLoop>,
}

/// Information about a detected for-loop pattern.
#[derive(Debug)]
pub struct ForLoopInfo {
    /// The initialization expression (e.g. "let var_0 = 0")
    pub init_str: String,
    /// The step expression (e.g. "var_0 = var_0 + 1")
    pub step_str: String,
    /// PC of the init instruction (to suppress from normal block emission)
    pub init_pc: usize,
    /// PC of the step instruction (to suppress from latch block emission)
    pub step_pc: usize,
    /// The condition register (induction variable register)
    pub cond_reg: u8,
}

impl View for ForLoopInfo {
    type V = ForLoop;

    open spec fn view(&self) -> ForLoop {
        ForLoop {
            init: self.init_str@,
            step: self.step_str@,
            init_pc: self.init_pc,
            step_pc: self.step_pc,
            reg: self.cond_reg,
        }
    }
}

/// Mutable emission state.
pub struct Pen {
    pub output: String,
    pub emitted: BTreeSet<usize>,
    pub lifted: Option<LiftedProgram>,
}

pub open spec fn lifted_view(l: Option<LiftedProgram>) -> Option<Lifted> {
    match l {
        Some(p) => Some(p@),
        None => None,
    }
}

impl View for Pen {
    type V = Page;

    open spec fn view(&self) -> Page {
        Page { out: self.output@, emitted: self.emitted@, lifted: lifted_view(self.lifted) }
    }
}

/// What the emission works from.
pub struct Setting<'a> {
    pub cfg: &'a ControlFlowGraph,
    pub structures: &'a Vec<Structure>,
    pub labels: BTreeMap<usize, String>,
    /// Index of the if-then-else at each header.
    pub ifs: BTreeMap<usize, usize>,
    pub fors: BTreeMap<usize, ForLoopInfo>,
}

impl<'a> Setting<'a> {
    /// Whether the indices point to if-then-elses.
    pub open spec fn wf(self) -> bool {
        forall|h: usize| #[trigger]
            self.ifs@.contains_key(h) ==> self.ifs@[h] < self.structures@.len()
                && self.structures@[self.ifs@[h] as int] is IfThenElse
    }

    pub open spec fn plan(self) -> Plan {
        Plan {
            cfg: *self.cfg,
            labels: names::text_values(self.labels@),
            ifs: self.ifs@.map_values(|i: usize| self.structures@[i as int]@),
            fors: self.fors@.map_values(|f: ForLoopInfo| f@),
        }
    }
}

/// Indentation.
pub open spec fn pad(n: nat) -> Seq<char>
    decreases n,
{
    if n == 0 {
        seq![]
    } else {
        pad((n - 1) as nat) + "    "@
    }
}

pub fn padding(n: usize) -> (s: String)
    ensures
        s@ == pad(n as nat),
{
    let mut s = String::new();
    let mut i: usize = 0;
    assert(s@ =~= pad(0));
    while i < n
        invariant
            i <= n,
            s@ == pad(i as nat),
        decreases n - i,
    {
        s.append("    ");
        i = i + 1;
    }
    s
}

/// Whether a block is left out of the output.
pub open spec fn suppressed(l: Option<Lifted>, pc: usize) -> bool {
    l is Some && l->0.suppressed.contains(pc)
}

/// Whether the label of a block is left out of the output.
pub open spec fn unlabeled(l: Option<Lifted>, pc: usize) -> bool {
    l is Some && (l->0.suppressed.contains(pc) || l->0.hidden.contains(pc))
}

/// The function that a jump calls: the one known for this jump, else the one at its target.
pub open spec fn callee(l: Lifted, pc: usize, target: usize) -> Option<Seq<char>> {
    if l.direct_call_sites.contains_key(pc) {
        Some(l.direct_call_sites[pc])
    } else if l.call_targets.contains_key(target) {
        Some(l.call_targets[target])
    } else {
        None
    }
}

/// The first `n` arguments of a call at `pc`, which are passed in registers.
pub open spec fn arguments(l: Lifted, pc: usize, regs: Seq<u8>, n: nat) -> Seq<char>
    decreases n,
{
    if n == 0 {
        seq![]
    } else if n == 1 {
        l.use_name(pc, regs[0])
    } else {
        arguments(l, pc, regs, (n - 1) as nat) + ", "@ + l.use_name(pc, regs[n - 1])
    }
}

/// A call with the arguments that the function takes.
pub open spec fn call_text(l: Lifted, pc: usize, name: Seq<char>) -> Seq<char> {
    let regs = if l.call_params.contains_key(name) {
        l.call_params[name]
    } else {
        seq![]
    };
    name + "("@ + arguments(l, pc, regs, regs.len()) + ")"@
}

/// What stands for the epilogue of a block.
pub open spec fn ending(l: Option<Lifted>, pc: usize) -> Option<Seq<char>> {
    if l is Some && l->0.epilogues.contains_key(pc) {
        match l->0.epilogues[pc] {
            Epilogue::Return(_) => Some("return"@),
            Epilogue::Halt(_) => Some("halt()"@),
        }
    } else {
        None
    }
}

/// Lines with what stands for the epilogue of a block behind them.
pub open spec fn with_ending(l: Option<Lifted>, pc: usize, lines: Seq<char>, prefix: Seq<char>) -> Seq<
    char,
> {
    match ending(l, pc) {
        Some(word) => lines + (prefix + word + "\n"@),
        None => lines,
    }
}

/// The line for one instruction, and the lifted program after it. Without a lifted
/// program the instruction is written as it stands. With one, eliminated instructions,
/// jumps and fallthroughs are left out, and a jump to a function is a call.
pub open spec fn code_line(
    l: Option<Lifted>,
    entry: (usize, Instruction),
    prefix: Seq<char>,
) -> (Seq<char>, Option<Lifted>) {
    let (pc, instr) = entry;
    match l {
        None => (
            prefix + text::hex_prefixed(pc as nat, 4) + ": "@ + instruction::classified(
                instr,
            ).raw_text() + "\n"@,
            None,
        ),
        Some(p) => if p.eliminated.contains(pc) {
            (seq![], l)
        } else {
            match instr {
                Instruction::Jump { offset } => {
                    match callee(p, pc, cfg::jump_target(pc, offset)) {
                        Some(name) => (prefix + call_text(p, pc, name) + "\n"@, l),
                        None => (seq![], l),
                    }
                },
                Instruction::Fallthrough => (seq![], l),
                _ => {
                    let (line, declared) = program::declared_line(p, pc, instr);
                    match line {
                        Some(s) => (
                            prefix + s + "\n"@,
                            Some(Lifted { declared, ..p }),
                        ),
                        None => (seq![], l),
                    }
                },
            }
        },
    }
}

/// The lines for the first `n` instructions.
pub open spec fn code_lines(
    l: Option<Lifted>,
    code: Seq<(usize, Instruction)>,
    n: nat,
    prefix: Seq<char>,
) -> (Seq<char>, Option<Lifted>)
    decreases n,
{
    if n == 0 {
        (seq![], l)
    } else {
        let (head, m) = code_lines(l, code, (n - 1) as nat, prefix);
        let (line, k) = code_line(m, code[n - 1], prefix);
        (head + line, k)
    }
}

/// The instructions of a block, without the last if asked, then what stands for its
/// epilogue, and a blank line behind them if there are any.
pub open spec fn block_body(
    cfg: ControlFlowGraph,
    page: Page,
    pc: usize,
    indent: nat,
    skip_last: bool,
) -> Page {
    if cfg.blocks@.contains_key(pc) && !suppressed(page.lifted, pc) {
        let code = cfg.blocks@[pc].instructions@;
        let n = if skip_last && code.len() > 0 {
            (code.len() - 1) as nat
        } else {
            code.len()
        };
        let (head, l) = code_lines(page.lifted, code, n, pad(indent));
        let lines = if skip_last {
            head
        } else {
            with_ending(l, pc, head, pad(indent))
        };
        Page {
            out: if lines.len() > 0 {
                page.out + lines + "\n"@
            } else {
                page.out
            },
            lifted: l,
            ..page
        }
    } else {
        page
    }
}

fn find_callee(l: &LiftedProgram, pc: usize, target: usize) -> (r: Option<&str>)
    ensures
        match r {
            Some(name) => callee(l@, pc, target) == Some(name@),
            None => callee(l@, pc, target) is None,
        },
{
    assert(l@.direct_call_sites.contains_key(pc) == l.direct_call_sites@.contains_key(pc));
    assert(l@.call_targets.contains_key(target) == l.call_targets@.contains_key(target));
    if let Some(name) = l.direct_call_sites.get(&pc) {
        return Some(name.as_str());
    }
    match l.call_targets.get(&target) {
        Some(name) => Some(name.as_str()),
        None => None,
    }
}

fn format_arguments(l: &LiftedProgram, pc: usize, regs: &Vec<u8>) -> (s: String)
    ensures
        s@ == arguments(l@, pc, regs@, regs@.len()),
{
    let mut s = empty_string();
    let mut i: usize = 0;
    while i < regs.len()
        invariant
            i <= regs@.len(),
            s@ == arguments(l@, pc, regs@, i as nat),
        decreases regs@.len() - i,
    {
        if i > 0 {
            s.append(", ");
        }
        s.append(l.reg_name(pc, regs[i]).as_str());
        assert(s@ =~= arguments(l@, pc, regs@, (i + 1) as nat));
        i = i + 1;
    }
    s
}

fn format_call(l: &LiftedProgram, pc: usize, name: &str) -> (s: String)
    ensures
        s@ == call_text(l@, pc, name@),
{
    assert(l@.call_params.contains_key(name@) == l.call_param_regs@.contains_key(name@));
    let list = match l.call_param_regs.get(name) {
        Some(regs) => format_arguments(l, pc, regs),
        None => empty_string(),
    };
    let mut s = name.to_owned();
    s.append("(");
    s.append(list.as_str());
    s.append(")");
    s
}

fn is_suppressed(l: &Option<LiftedProgram>, pc: usize) -> (r: bool)
    ensures
        r == suppressed(lifted_view(*l), pc),
{
    match l {
        Some(l) => l.suppressed_blocks.contains(&pc),
        None => false,
    }
}

fn find_ending(l: &Option<LiftedProgram>, pc: usize) -> (r: Option<&'static str>)
    ensures
        match r {
            Some(word) => ending(lifted_view(*l), pc) == Some(word@),
            None => ending(lifted_view(*l), pc) is None,
        },
{
    if let Some(l) = l {
        assert(l@.epilogues.contains_key(pc) == l.epilogue_blocks@.contains_key(pc));
        return match l.epilogue_blocks.get(&pc) {
            Some(EpilogueKind::Return { .. }) => Some("return"),
            Some(EpilogueKind::Halt { .. }) => Some("halt()"),
            None => None,
        };
    }
    None
}

/// Add what stands for an epilogue; tells whether there is one.
fn add_ending(l: &Option<LiftedProgram>, pc: usize, lines: &mut String, prefix: &str) -> (added:
    bool)
    ensures
        final(lines)@ == with_ending(lifted_view(*l), pc, old(lines)@, prefix@),
        added ==> final(lines)@.len() > 0,
        !added ==> final(lines)@ == old(lines)@,
{
    let ghost head = lines@;
    match find_ending(l, pc) {
        Some(word) => {
            lines.append(prefix);
            lines.append(word);
            lines.append("\n");
            assert(lines@ =~= head + (prefix@ + word@ + "\n"@));
            proof {
                reveal_strlit("\n");
            }
            true
        },
        None => false,
    }
}

impl Pen {
    pub fn suppresses(&self, pc: usize) -> (r: bool)
        ensures
            r == suppressed(self@.lifted, pc),
    {
        is_suppressed(&self.lifted, pc)
    }

    /// Whether a block ends in an epilogue.
    pub fn ends(&self, pc: usize) -> (r: bool)
        ensures
            r == (ending(self@.lifted, pc) is Some),
    {
        find_ending(&self.lifted, pc).is_some()
    }

    /// Whether the label of a block is written.
    pub fn labels(&self, pc: usize) -> (r: bool)
        ensures
            r == !unlabeled(self@.lifted, pc),
    {
        match &self.lifted {
            Some(l) => !l.suppressed_blocks.contains(&pc) && !l.hidden_labels.contains(&pc),
            None => true,
        }
    }

    fn code_string(&mut self, pc: usize, instr: &Instruction, prefix: &str) -> (s: String)
        ensures
            (final(self).lifted is Some) == (old(self).lifted is Some),
            (s@, lifted_view(final(self).lifted)) == code_line(
                lifted_view(old(self).lifted),
                (pc, *instr),
                prefix@,
            ),
            final(self).output == old(self).output,
            final(self).emitted == old(self).emitted,
    {
        match &mut self.lifted {
            None => {
                let mut s = prefix.to_owned();
                push_hex_prefixed(&mut s, pc as u64, 4);
                s.append(": ");
                s.append(InstructionShape::classify(instr).format_raw().as_str());
                s.append("\n");
                s
            },
            Some(l) => {
                if l.eliminated_pcs.contains(&pc) {
                    return empty_string();
                }
                match instr {
                    Instruction::Jump { offset } => {
                        let target: usize = ControlFlowGraph::compute_jump_target(pc, *offset);
                        match find_callee(l, pc, target) {
                            Some(name) => {
                                let mut s = prefix.to_owned();
                                s.append(format_call(l, pc, name).as_str());
                                s.append("\n");
                                s
                            },
                            None => empty_string(),
                        }
                    },
                    Instruction::Fallthrough => empty_string(),
                    _ => {
                        let ghost was = l@;
                        match l.format_pc(pc, instr) {
                            Some(line) => {
                                let mut s = prefix.to_owned();
                                s.append(line.as_str());
                                s.append("\n");
                                s
                            },
                            None => {
                                assert(l@ =~= was);
                                empty_string()
                            },
                        }
                    },
                }
            },
        }
    }

    /// Emit the instructions in a block as pseudo-code lines.
    /// If `skip_terminator` is true, the last instruction (branch/jump) is not emitted.
    /// With a lifted program, uses variable names and skips eliminated PCs.
    pub fn emit_block_body(
        &mut self,
        cfg: &ControlFlowGraph,
        block_pc: usize,
        indent: usize,
        skip_terminator: bool,
    )
        ensures
            (final(self).lifted is Some) == (old(self).lifted is Some),
            final(self)@ == block_body(*cfg, old(self)@, block_pc, indent as nat, skip_terminator),
    {
        let ghost page = self@;
        if self.suppresses(block_pc) {
            return;
        }
        if let Some(block) = cfg.blocks.get(&block_pc) {
            let len: usize = block.instructions.len();
            let end: usize = if skip_terminator && len > 0 {
                len - 1
            } else {
                len
            };
            let prefix = padding(indent);
            let ghost code = block.instructions@;
            let mut lines = String::new();
            let mut wrote: bool = false;
            let mut i: usize = 0;
            assert(lines@ =~= seq![]);
            while i < end
                invariant
                    (self.lifted is Some) == (old(self).lifted is Some),
                    i <= end <= code.len(),
                    code == block.instructions@,
                    self.output@ == page.out,
                    self.emitted@ == page.emitted,
                    (lines@, lifted_view(self.lifted)) == code_lines(
                        page.lifted,
                        code,
                        i as nat,
                        prefix@,
                    ),
                    wrote == (lines@.len() > 0),
                decreases end - i,
            {
                let pc: usize = block.instructions[i].0;
                let ghost entry = code[i as int];
                assert(entry == (pc, block.instructions@[i as int].1));
                let s = self.code_string(pc, &block.instructions[i].1, prefix.as_str());
                lines.append(s.as_str());
                if !is_empty_text(s.as_str()) {
                    wrote = true;
                }
                i = i + 1;
            }
            if !skip_terminator {
                let added: bool = add_ending(&self.lifted, block_pc, &mut lines, prefix.as_str());
                wrote = wrote || added;
            }
            if wrote {
                self.output.append(lines.as_str());
                self.output.append("\n");
            }
        }
        assert(self@ =~= block_body(*cfg, page, block_pc, indent as nat, skip_terminator));
    }
}

/// Program counter of the last instruction of a block.
pub open spec fn last_pc(cfg: ControlFlowGraph, pc: usize) -> Option<usize> {
    if cfg.blocks@.contains_key(pc) && cfg.blocks@[pc].instructions@.len() > 0 {
        Some(cfg.blocks@[pc].instructions@.last().0)
    } else {
        None
    }
}

/// Get the PC of the last instruction in a block (the branch/terminator).
pub fn last_instruction_pc(cfg: &ControlFlowGraph, block_pc: usize) -> (r: Option<usize>)
    ensures
        r == last_pc(*cfg, block_pc),
{
    match cfg.blocks.get(&block_pc) {
        Some(b) => {
            let n: usize = b.instructions.len();
            if n > 0 {
                Some(b.instructions[n - 1].0)
            } else {
                None
            }
        },
        None => None,
    }
}

/// An operand of a branch at `pc` by its variable.
pub open spec fn lifted_operand(l: Lifted, o: Operand, pc: usize) -> Seq<char> {
    match o {
        Operand::Reg(r) => l.use_name(pc, r),
        Operand::Imm(v) => text::dec_signed(v as int),
    }
}

/// The definition of the variable that a branch compares with zero.
pub open spec fn tested_definition(l: Lifted, c: Condition, pc: usize) -> Option<Expr> {
    if c.rhs == Operand::Imm(0) && (c.op == CondOp::Ne || c.op == CondOp::Eq) {
        match c.lhs {
            Operand::Reg(r) => if l.var_at_use.contains_key((pc, r)) {
                l.definition(l.var_at_use[(pc, r)])
            } else {
                None
            },
            Operand::Imm(_) => None,
        }
    } else {
        None
    }
}

/// A comparison with zero written as what is compared, where that is a comparison or a
/// negation itself.
pub open spec fn inlined_condition(l: Lifted, c: Condition, pc: usize) -> Option<Seq<char>> {
    match tested_definition(l, c, pc) {
        Some(e) => match e {
            Expr::BinOp { op, lhs, rhs } => if op == BinOp::LtU || op == BinOp::LtS {
                if c.op == CondOp::Eq {
                    Some("!("@ + render::text_of(e, l.context()) + ")"@)
                } else {
                    Some(render::text_of(e, l.context()))
                }
            } else {
                None
            },
            Expr::UnaryOp { op, operand } => if op == UnaryOp::Not {
                if c.op == CondOp::Eq {
                    Some(render::text_of(*operand, l.context()))
                } else {
                    Some(render::text_of(e, l.context()))
                }
            } else {
                None
            },
            _ => None,
        },
        None => None,
    }
}

/// A condition over variables.
pub open spec fn lifted_condition(l: Lifted, c: Condition, pc: usize) -> Seq<char> {
    match inlined_condition(l, c, pc) {
        Some(s) => s,
        None => lifted_operand(l, c.lhs, pc) + " "@ + c.op.symbol() + " "@ + lifted_operand(
            l,
            c.rhs,
            pc,
        ),
    }
}

/// The condition at the end of the block `header`, `...` where there is none.
pub open spec fn condition_at(
    l: Option<Lifted>,
    cfg: ControlFlowGraph,
    header: usize,
    c: Option<Condition>,
) -> Seq<char> {
    match c {
        None => "..."@,
        Some(c) => if l is Some && last_pc(cfg, header) is Some {
            lifted_condition(l->0, c, last_pc(cfg, header)->0)
        } else {
            analysis::condition_text(c)
        },
    }
}

fn format_operand_lifted(o: &Operand, pc: usize, l: &LiftedProgram) -> (s: String)
    ensures
        s@ == lifted_operand(l@, *o, pc),
{
    match o {
        Operand::Reg(r) => l.reg_name(pc, *r),
        Operand::Imm(_) => format_operand(o),
    }
}

fn find_tested_definition<'a>(c: &Condition, pc: usize, l: &'a LiftedProgram) -> (r: Option<
    &'a Expression,
>)
    ensures
        match r {
            Some(e) => tested_definition(l@, *c, pc) == Some(e@),
            None => tested_definition(l@, *c, pc) is None,
        },
{
    if c.op != CondOp::Ne && c.op != CondOp::Eq {
        return None;
    }
    match c.rhs {
        Operand::Imm(v) => {
            if v != 0 {
                return None;
            }
        },
        Operand::Reg(_) => {
            return None;
        },
    }
    match c.lhs {
        Operand::Reg(r) => {
            assert(l@.var_at_use.contains_key((pc, r)) == l.var_at_use@.contains_key((pc, r)));
            match l.var_at_use.get(&(pc, r)) {
                Some(name) => l.expression_for_var(name.as_str()),
                None => None,
            }
        },
        Operand::Imm(_) => None,
    }
}

/// Format a condition using lifted variable names when available.
/// When the condition is `cond_var != 0` and cond_var was defined by a comparison
/// expression (e.g. `x <u y`), inline the comparison directly.
fn format_condition_lifted(c: &Condition, pc: usize, l: &LiftedProgram) -> (s: String)
    ensures
        s@ == lifted_condition(l@, *c, pc),
{
    proof {
        reveal_with_fuel(expr::expr_of, 2);
    }
    let ctx = l.format_context();
    if let Some(e) = find_tested_definition(c, pc, l) {
        match e {
            Expression::BinOp { op, .. } => {
                if *op == BinOp::LtU || *op == BinOp::LtS {
                    let inner = format_expression(e, &ctx);
                    if c.op == CondOp::Eq {
                        let mut s = "!(".to_owned();
                        s.append(inner.as_str());
                        s.append(")");
                        return s;
                    }
                    return inner;
                }
            },
            Expression::UnaryOp { op, operand } => {
                if *op == UnaryOp::Not {
                    if c.op == CondOp::Eq {
                        return format_expression(operand, &ctx);
                    }
                    return format_expression(e, &ctx);
                }
            },
            _ => {},
        }
    }
    let mut s = format_operand_lifted(&c.lhs, pc, l);
    s.append(" ");
    s.append(c.op.as_str());
    s.append(" ");
    s.append(format_operand_lifted(&c.rhs, pc, l).as_str());
    s
}

/// The blocks and the header of the loop that a block is written in.
pub open spec fn leaves_loop(b: cfg::BasicBlock, around: (Set<usize>, usize)) -> bool {
    exists|i: int|
        0 <= i < b.successors@.len() && !around.0.contains(#[trigger] b.successors@[i])
            && b.successors@[i] != around.1
}

pub open spec fn repeats_loop(b: cfg::BasicBlock, around: (Set<usize>, usize)) -> bool {
    b.successors@.len() == 1 && b.successors@[0] == around.1
}

pub open spec fn ends_in_trap(b: cfg::BasicBlock) -> bool {
    b.instructions@.len() > 0 && b.instructions@.last().1 is Trap
}

/// The keyword by which a block leaves or repeats the loop around it.
pub open spec fn loop_keyword(
    cfg: ControlFlowGraph,
    pc: usize,
    around: Option<(Set<usize>, usize)>,
) -> Option<Seq<char>> {
    if around is Some && cfg.blocks@.contains_key(pc) && !ends_in_trap(cfg.blocks@[pc]) {
        if leaves_loop(cfg.blocks@[pc], around->0) {
            Some("break"@)
        } else if repeats_loop(cfg.blocks@[pc], around->0) {
            Some("continue"@)
        } else {
            None
        }
    } else {
        None
    }
}

/// A block inside a branch or loop, with `break` or `continue` in place of the jump
/// out of or back into the loop.
pub open spec fn inner_block(
    cfg: ControlFlowGraph,
    page: Page,
    pc: usize,
    indent: nat,
    around: Option<(Set<usize>, usize)>,
) -> Page {
    match loop_keyword(cfg, pc, around) {
        Some(word) if !suppressed(page.lifted, pc) => {
            let p = block_body(cfg, page, pc, indent, true);
            Page { out: p.out + pad(indent) + word + "\n"@, ..p }
        },
        _ => block_body(cfg, page, pc, indent, false),
    }
}

/// The first `n` of a list of blocks.
pub open spec fn inner_blocks(
    cfg: ControlFlowGraph,
    page: Page,
    list: Seq<usize>,
    n: nat,
    indent: nat,
    around: Option<(Set<usize>, usize)>,
) -> Page
    decreases n,
{
    if n == 0 {
        page
    } else {
        let p = inner_block(
            cfg,
            inner_blocks(cfg, page, list, (n - 1) as nat, indent, around),
            list[n - 1],
            indent,
            around,
        );
        Page { emitted: p.emitted.insert(list[n - 1]), ..p }
    }
}

/// An if-then-else; nothing where its header is left out.
pub open spec fn if_text(
    cfg: ControlFlowGraph,
    page: Page,
    header: usize,
    then_blocks: Seq<usize>,
    else_blocks: Seq<usize>,
    c: Option<Condition>,
    indent: nat,
    around: Option<(Set<usize>, usize)>,
) -> Page {
    if suppressed(page.lifted, header) {
        Page { emitted: page.emitted.insert(header), ..page }
    } else {
        shown_if(cfg, page, header, then_blocks, else_blocks, c, indent, around)
    }
}

/// An if-then-else whose header is shown.
pub open spec fn shown_if(
    cfg: ControlFlowGraph,
    page: Page,
    header: usize,
    then_blocks: Seq<usize>,
    else_blocks: Seq<usize>,
    c: Option<Condition>,
    indent: nat,
    around: Option<(Set<usize>, usize)>,
) -> Page {
    let p = block_body(cfg, page, header, indent, true);
    let p = Page {
        out: p.out + pad(indent) + "if ("@ + condition_at(p.lifted, cfg, header, c) + ") {\n"@,
        ..p
    };
    let p = inner_blocks(cfg, p, then_blocks, then_blocks.len(), indent + 1, around);
    let p = if else_blocks.len() > 0 {
        inner_blocks(
            cfg,
            Page { out: p.out + pad(indent) + "} else {\n"@, ..p },
            else_blocks,
            else_blocks.len(),
            indent + 1,
            around,
        )
    } else {
        p
    };
    Page { out: p.out + pad(indent) + "}\n"@, emitted: p.emitted.insert(header), ..p }
}

pub open spec fn around_view(around: Option<(&BTreeSet<usize>, usize)>) -> Option<
    (Set<usize>, usize),
> {
    match around {
        Some(p) => Some((p.0@, p.1)),
        None => None,
    }
}

fn find_loop_keyword(
    cfg: &ControlFlowGraph,
    pc: usize,
    around: Option<(&BTreeSet<usize>, usize)>,
) -> (r: Option<&'static str>)
    ensures
        match r {
            Some(s) => loop_keyword(*cfg, pc, around_view(around)) == Some(s@),
            None => loop_keyword(*cfg, pc, around_view(around)) is None,
        },
{
    let (body, header): (&BTreeSet<usize>, usize) = match around {
        Some(p) => p,
        None => {
            return None;
        },
    };
    let block = match cfg.blocks.get(&pc) {
        Some(b) => b,
        None => {
            return None;
        },
    };
    let n: usize = block.instructions.len();
    if n > 0 {
        if let Instruction::Trap = block.instructions[n - 1].1 {
            return None;
        }
    }
    let mut i: usize = 0;
    while i < block.successors.len()
        invariant
            i <= block.successors@.len(),
            cfg.blocks@.contains_key(pc),
            *block == cfg.blocks@[pc],
            !ends_in_trap(*block),
            around_view(around) == Some((body@, header)),
            forall|k: int|
                0 <= k < i ==> body@.contains(#[trigger] block.successors@[k])
                    || block.successors@[k] == header,
        decreases block.successors@.len() - i,
    {
        let t: usize = block.successors[i];
        if !body.contains(&t) && t != header {
            assert(block.successors@[i as int] == t);
            return Some("break");
        }
        i = i + 1;
    }
    if block.successors.len() == 1 && block.successors[0] == header {
        Some("continue")
    } else {
        None
    }
}

impl Pen {
    pub fn condition_string(&self, cfg: &ControlFlowGraph, header: usize, c: &Option<Condition>) -> (s:
        String)
        ensures
            s@ == condition_at(self@.lifted, *cfg, header, *c),
    {
        match c {
            None => "...".to_owned(),
            Some(c) => {
                if let Some(l) = &self.lifted {
                    if let Some(pc) = last_instruction_pc(cfg, header) {
                        return format_condition_lifted(c, pc, l);
                    }
                }
                format_condition(c)
            },
        }
    }

    /// Emit a block body, detecting break/continue when inside a loop.
    pub fn emit_block_with_loop_control(
        &mut self,
        cfg: &ControlFlowGraph,
        pc: usize,
        indent: usize,
        around: Option<(&BTreeSet<usize>, usize)>,
    )
        ensures
            (final(self).lifted is Some) == (old(self).lifted is Some),
            final(self)@ == inner_block(
                *cfg,
                old(self)@,
                pc,
                indent as nat,
                around_view(around),
            ),
    {
        if self.suppresses(pc) {
            return;
        }
        match find_loop_keyword(cfg, pc, around) {
            Some(word) => {
                self.emit_block_body(cfg, pc, indent, true);
                let ghost p = self@;
                self.output.append(padding(indent).as_str());
                self.output.append(word);
                self.output.append("\n");
                assert(self@ =~= (Page { out: p.out + pad(indent as nat) + word@ + "\n"@, ..p }));
            },
            None => {
                self.emit_block_body(cfg, pc, indent, false);
            },
        }
    }

    fn emit_inner_blocks(
        &mut self,
        cfg: &ControlFlowGraph,
        list: &Vec<usize>,
        indent: usize,
        around: Option<(&BTreeSet<usize>, usize)>,
    )
        ensures
            (final(self).lifted is Some) == (old(self).lifted is Some),
            final(self)@ == inner_blocks(
                *cfg,
                old(self)@,
                list@,
                list@.len(),
                indent as nat,
                around_view(around),
            ),
    {
        let ghost page = self@;
        let mut i: usize = 0;
        while i < list.len()
            invariant
                (self.lifted is Some) == (old(self).lifted is Some),
                i <= list@.len(),
                self@ == inner_blocks(
                    *cfg,
                    page,
                    list@,
                    i as nat,
                    indent as nat,
                    around_view(around),
                ),
            decreases list@.len() - i,
        {
            self.emit_block_with_loop_control(cfg, list[i], indent, around);
            self.emitted.insert(list[i]);
            i = i + 1;
            assert(self@ =~= inner_blocks(
                *cfg,
                page,
                list@,
                i as nat,
                indent as nat,
                around_view(around),
            ));
        }
    }

    /// Emit an if-then-else.
    pub fn emit_if(
        &mut self,
        cfg: &ControlFlowGraph,
        header: usize,
        then_blocks: &Vec<usize>,
        else_blocks: &Vec<usize>,
        c: &Option<Condition>,
        indent: usize,
        around: Option<(&BTreeSet<usize>, usize)>,
    )
        requires
            indent < usize::MAX,
        ensures
            (final(self).lifted is Some) == (old(self).lifted is Some),
            final(self)@ == if_text(
                *cfg,
                old(self)@,
                header,
                then_blocks@,
                else_blocks@,
                *c,
                indent as nat,
                around_view(around),
            ),
    {
        if self.suppresses(header) {
            let ghost page = self@;
            self.emitted.insert(header);
            assert(self@ =~= (Page { emitted: page.emitted.insert(header), ..page }));
            return;
        }
        let prefix = padding(indent);
        self.emit_block_body(cfg, header, indent, true);
        let ghost p0 = self@;
        let cond = self.condition_string(cfg, header, c);
        self.output.append(prefix.as_str());
        self.output.append("if (");
        self.output.append(cond.as_str());
        self.output.append(") {\n");
        assert(self@ =~= (Page {
            out: p0.out + pad(indent as nat) + "if ("@ + condition_at(p0.lifted, *cfg, header, *c)
                + ") {\n"@,
            ..p0
        }));
        self.emit_inner_blocks(cfg, then_blocks, indent + 1, around);
        if else_blocks.len() > 0 {
            let ghost p1 = self@;
            self.output.append(prefix.as_str());
            self.output.append("} else {\n");
            assert(self@ =~= (Page { out: p1.out + pad(indent as nat) + "} else {\n"@, ..p1 }));
            self.emit_inner_blocks(cfg, else_blocks, indent + 1, around);
        }
        let ghost p2 = self@;
        self.output.append(prefix.as_str());
        self.output.append("}\n");
        self.emitted.insert(header);
        assert(self@ =~= (Page {
            out: p2.out + pad(indent as nat) + "}\n"@,
            emitted: p2.emitted.insert(header),
            ..p2
        }));
    }
}

} // verus!
