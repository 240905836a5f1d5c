//! The lifted program: variables, expressions, and what is known of each use.
//!
//! `Lifted` is the mathematical counterpart of `LiftedProgram`; the contracts speak
//! of it.

use crate::functions::{Epilogue, EpilogueKind, HeapAllocPattern};
use crate::instruction;
use crate::instruction::{register_string, BinOp, InstructionShape, UnaryOp};
use crate::lifting::expr;
use crate::lifting::expr::{rename_vars, Expr, Expression};
use crate::lifting::render;
use crate::lifting::render::{format_const, format_expression, FormatContext};
use crate::lifting::simplify;
use crate::lifting::simplify::is_boolean_expr;
use crate::names;
use crate::names::{NameMap, NameSet, Slot, SlotMap};
use crate::ordered;
use crate::ordered::{keys_of, pair_keys_of};
use crate::pvm::Instruction;
use crate::text;
use crate::text::{push_dec, push_dec_signed, push_dec_wide, push_hex_prefixed, same_text};
use std::collections::{BTreeMap, BTreeSet};
use vstd::prelude::*;

verus! {

broadcast use vstd::laws_cmp::group_laws_cmp;

/// Inferred variable type based on usage context.
#[derive(Debug, Clone, Copy, PartialEq, Eq, Structural)]
pub enum VarType {
    /// Unsigned 64-bit integer (default).
    U64,
    /// Signed 64-bit integer (used in signed operations).
    I64,
    /// Unsigned 32-bit integer (produced by 32-bit operations).
    U32,
    /// Signed 32-bit integer (produced by signed 32-bit operations).
    I32,
    /// Pointer (used in memory address computations).
    Pointer,
    /// Boolean (produced by comparisons).
    Boolean,
}

impl VarType {
    pub open spec fn symbol(self) -> Seq<char> {
        match self {
            VarType::U64 => "u64"@,
            VarType::I64 => "i64"@,
            VarType::U32 => "u32"@,
            VarType::I32 => "i32"@,
            VarType::Pointer => "ptr"@,
            VarType::Boolean => "bool"@,
        }
    }

    pub fn as_str(self) -> (text: &'static str)
        ensures
            text@ == self.symbol(),
    {
        match self {
            VarType::U64 => "u64",
            VarType::I64 => "i64",
            VarType::U32 => "u32",
            VarType::I32 => "i32",
            VarType::Pointer => "ptr",
            VarType::Boolean => "bool",
        }
    }
}

/// A recovered high-level variable corresponding to a single register definition.
#[derive(Debug, Clone)]
pub struct Variable {
    pub name: String,
    pub var_type: VarType,
}

/// A variable: its name and type.
#[verifier::ext_equal]
pub struct Var {
    pub name: Seq<char>,
    pub var_type: VarType,
}

impl View for Variable {
    type V = Var;

    open spec fn view(&self) -> Var {
        Var { name: self.name@, var_type: self.var_type }
    }
}

/// Result of the lifting pass: variables, expressions, and eliminated PCs.
#[derive(Debug)]
pub struct LiftedProgram {
    /// Variable assigned to each (def_pc, reg) pair.
    pub variables: BTreeMap<(usize, u8), Variable>,
    /// Lifted expression for each PC.
    pub expressions: BTreeMap<usize, Expression>,
    /// PCs that have been folded into other expressions and should be skipped.
    pub eliminated_pcs: BTreeSet<usize>,
    /// Variable name to use for each (pc, reg) use-site, accounting for reaching definitions.
    pub var_at_use: BTreeMap<(usize, u8), String>,
    /// Tracks which variable names have already been declared with `let`.
    pub declared_vars: NameSet,
    /// Named stack variables: maps (base_ptr_name, offset) to a stack variable name.
    pub stack_vars: SlotMap<String>,
    /// Call targets: maps callee_entry_pc to the callee's name (for direct Jump calls).
    pub call_targets: BTreeMap<usize, String>,
    /// Direct call sites: maps the PC of a Jump instruction to the callee's name.
    /// Used for exact callsite labeling when shared jump targets are ambiguous.
    pub direct_call_sites: BTreeMap<usize, String>,
    /// Function parameter registers by callee function name.
    /// Used to render explicit call arguments at call sites.
    pub call_param_regs: NameMap<Vec<u8>>,
    /// Reverse index: variable name to definition PC.
    pub var_name_to_def_pc: NameMap<usize>,
    /// Epilogue blocks: maps block_pc to the epilogue kind (Return or Halt).
    /// Used by emission to render `return` / `halt()` instead of raw instructions.
    pub epilogue_blocks: BTreeMap<usize, EpilogueKind>,
    /// Blocks to completely suppress from output (e.g., callee blocks misassigned to caller).
    pub suppressed_blocks: BTreeSet<usize>,
    /// Linear memory base address (e.g. 0x50000 = 327680 for PVM).
    /// When set, expressions involving this constant are simplified.
    pub memory_base: Option<u64>,
    /// Detected heap allocation boilerplate pattern (AssemblyScript).
    pub heap_alloc: Option<HeapAllocPattern>,
    /// Block labels to hide from output (e.g., convergence block after heap alloc suppression).
    pub hidden_labels: BTreeSet<usize>,
    /// Linear memory offset for heap accesses (e.g. 0x50000 for AS programs).
    pub linear_memory_offset: Option<u64>,
    /// Variable name for the data pointer in heap allocation (e.g. "ptr_0_88").
    /// It is recorded for callers: pseudo-code has no line `data_ptr = heap_alloc(size)`.
    pub heap_alloc_data_ptr: Option<String>,
}

/// What a lifted program holds.
#[verifier::ext_equal]
pub struct Lifted {
    pub variables: Map<(usize, u8), Var>,
    pub expressions: Map<usize, Expr>,
    pub eliminated: Set<usize>,
    pub var_at_use: Map<(usize, u8), Seq<char>>,
    pub declared: Set<Seq<char>>,
    pub stack_vars: Map<Slot, Seq<char>>,
    pub call_targets: Map<usize, Seq<char>>,
    pub direct_call_sites: Map<usize, Seq<char>>,
    pub call_params: Map<Seq<char>, Seq<u8>>,
    pub def_pcs: Map<Seq<char>, usize>,
    pub epilogues: Map<usize, Epilogue>,
    pub suppressed: Set<usize>,
    pub memory_base: Option<u64>,
    pub heap_alloc: Option<HeapAllocPattern>,
    pub hidden: Set<usize>,
    pub linear_memory_offset: Option<u64>,
    pub data_ptr: Option<Seq<char>>,
}

pub open spec fn var_map(m: Map<(usize, u8), Variable>) -> Map<(usize, u8), Var> {
    m.map_values(|v: Variable| v@)
}

pub open spec fn expr_map(m: Map<usize, Expression>) -> Map<usize, Expr> {
    m.map_values(|e: Expression| e@)
}

pub open spec fn epilogue_map(m: Map<usize, EpilogueKind>) -> Map<usize, Epilogue> {
    m.map_values(|e: EpilogueKind| e@)
}

pub open spec fn reg_lists(m: Map<Seq<char>, Vec<u8>>) -> Map<Seq<char>, Seq<u8>> {
    m.map_values(|v: Vec<u8>| v@)
}

pub open spec fn opt_text(s: Option<String>) -> Option<Seq<char>> {
    match s {
        Some(t) => Some(t@),
        None => None,
    }
}

impl View for LiftedProgram {
    type V = Lifted;

    open spec fn view(&self) -> Lifted {
        Lifted {
            variables: var_map(self.variables@),
            expressions: expr_map(self.expressions@),
            eliminated: self.eliminated_pcs@,
            var_at_use: names::text_values(self.var_at_use@),
            declared: self.declared_vars@,
            stack_vars: names::text_values(self.stack_vars@),
            call_targets: names::text_values(self.call_targets@),
            direct_call_sites: names::text_values(self.direct_call_sites@),
            call_params: reg_lists(self.call_param_regs@),
            def_pcs: self.var_name_to_def_pc@,
            epilogues: epilogue_map(self.epilogue_blocks@),
            suppressed: self.suppressed_blocks@,
            memory_base: self.memory_base,
            heap_alloc: self.heap_alloc,
            hidden: self.hidden_labels@,
            linear_memory_offset: self.linear_memory_offset,
            data_ptr: opt_text(self.heap_alloc_data_ptr),
        }
    }
}

impl Lifted {
    pub open spec fn empty() -> Lifted {
        Lifted {
            variables: Map::empty(),
            expressions: Map::empty(),
            eliminated: Set::empty(),
            var_at_use: Map::empty(),
            declared: Set::empty(),
            stack_vars: Map::empty(),
            call_targets: Map::empty(),
            direct_call_sites: Map::empty(),
            call_params: Map::empty(),
            def_pcs: Map::empty(),
            epilogues: Map::empty(),
            suppressed: Set::empty(),
            memory_base: None,
            heap_alloc: None,
            hidden: Set::empty(),
            linear_memory_offset: None,
            data_ptr: None,
        }
    }

    pub open spec fn context(self) -> FormatContext {
        FormatContext {
            memory_base: self.memory_base,
            linear_memory_offset: self.linear_memory_offset,
            deref_context: false,
        }
    }

    /// Name of a register where it is used, `rN` where no variable is known.
    pub open spec fn use_name(self, pc: usize, reg: u8) -> Seq<char> {
        if self.var_at_use.contains_key((pc, reg)) {
            self.var_at_use[(pc, reg)]
        } else {
            instruction::register_name(reg)
        }
    }

    /// Name of a register where it is defined, `rN` where no variable is known.
    pub open spec fn def_name(self, pc: usize, reg: u8) -> Seq<char> {
        if self.variables.contains_key((pc, reg)) {
            self.variables[(pc, reg)].name
        } else {
            instruction::register_name(reg)
        }
    }

    /// The expression that defines the variable `name`.
    pub open spec fn definition(self, name: Seq<char>) -> Option<Expr> {
        if self.def_pcs.contains_key(name) && self.expressions.contains_key(self.def_pcs[name]) {
            Some(self.expressions[self.def_pcs[name]])
        } else {
            None
        }
    }

    /// The constant that a register is known to hold where it is used.
    pub open spec fn known_constant(self, pc: usize, reg: u8) -> Option<i64> {
        if self.var_at_use.contains_key((pc, reg)) {
            match self.definition(self.var_at_use[(pc, reg)]) {
                Some(e) => expr::const_value(e),
                None => None,
            }
        } else {
            None
        }
    }

    /// Whether an indirect jump through a register goes to the halt address.
    pub open spec fn halts(self, pc: usize, reg: u8) -> bool {
        self.known_constant(pc, reg) == Some(-0x10000i64)
    }
}

impl LiftedProgram {
    pub fn new() -> (l: Self)
        ensures
            l@ == Lifted::empty(),
    {
        let l = LiftedProgram {
            variables: BTreeMap::new(),
            expressions: BTreeMap::new(),
            eliminated_pcs: BTreeSet::new(),
            var_at_use: BTreeMap::new(),
            declared_vars: NameSet::new(),
            stack_vars: SlotMap::new(),
            call_targets: BTreeMap::new(),
            direct_call_sites: BTreeMap::new(),
            call_param_regs: NameMap::new(),
            var_name_to_def_pc: NameMap::new(),
            epilogue_blocks: BTreeMap::new(),
            suppressed_blocks: BTreeSet::new(),
            memory_base: None,
            heap_alloc: None,
            hidden_labels: BTreeSet::new(),
            linear_memory_offset: None,
            heap_alloc_data_ptr: None,
        };
        assert(l@ =~= Lifted::empty());
        l
    }

    /// Build a `FormatContext` from this program's settings.
    pub fn format_context(&self) -> (ctx: FormatContext)
        ensures
            ctx == self@.context(),
    {
        FormatContext {
            memory_base: self.memory_base,
            linear_memory_offset: self.linear_memory_offset,
            deref_context: false,
        }
    }

    /// Get the variable name for a register used at a given PC, falling back to rN.
    pub fn reg_name(&self, use_pc: usize, reg: u8) -> (s: String)
        ensures
            s@ == self@.use_name(use_pc, reg),
    {
        match self.var_at_use.get(&(use_pc, reg)) {
            Some(name) => name.as_str().to_owned(),
            None => register_string(reg),
        }
    }

    pub fn var_name_for_def(&self, pc: usize, reg: u8) -> (s: String)
        ensures
            s@ == self@.def_name(pc, reg),
    {
        match self.variables.get(&(pc, reg)) {
            Some(v) => v.name.as_str().to_owned(),
            None => register_string(reg),
        }
    }

    /// Look up the definition expression for a variable by name. It counts where the definition
    /// was folded into its use, too: the constant that a call goes through still names the callee.
    pub fn expression_for_var(&self, var_name: &str) -> (r: Option<&Expression>)
        ensures
            match r {
                Some(e) => self@.definition(var_name@) == Some(e@),
                None => self@.definition(var_name@) is None,
            },
    {
        match self.var_name_to_def_pc.get(var_name) {
            Some(def_pc) => {
                let r = self.expressions.get(def_pc);
                assert(expr_map(self.expressions@).contains_key(*def_pc)
                    == self.expressions@.contains_key(*def_pc));
                r
            },
            None => None,
        }
    }

    fn known_constant(&self, use_pc: usize, reg: u8) -> (r: Option<i64>)
        ensures
            r == self@.known_constant(use_pc, reg),
    {
        match self.var_at_use.get(&(use_pc, reg)) {
            Some(name) => match self.expression_for_var(name.as_str()) {
                Some(e) => expr::constant(e),
                None => None,
            },
            None => None,
        }
    }

    /// Check if a JumpInd target register holds a known halt address constant.
    pub fn is_halt_target(&self, use_pc: usize, reg: u8) -> (r: bool)
        ensures
            r == self@.halts(use_pc, reg),
    {
        match self.known_constant(use_pc, reg) {
            Some(v) => v == -0x10000,
            None => false,
        }
    }

    /// Check if a JumpInd target register holds a known function entry address.
    /// Returns the function name if the register is a constant matching a call target.
    pub fn resolve_indirect_call(&self, use_pc: usize, reg: u8) -> (r: Option<String>)
        ensures
            match r {
                Some(name) => indirect_callee(self@, use_pc, reg) == Some(name@),
                None => indirect_callee(self@, use_pc, reg) is None,
            },
    {
        match self.known_constant(use_pc, reg) {
            Some(v) => {
                let addr: usize = v as usize;
                assert(names::text_values(self.call_targets@).contains_key(addr)
                    == self.call_targets@.contains_key(addr));
                match self.call_targets.get(&addr) {
                    Some(name) => Some(name.as_str().to_owned()),
                    None => None,
                }
            },
            None => None,
        }
    }
}

/// The function that an indirect jump through a register calls, where the register
/// holds the address of a call target.
pub open spec fn indirect_callee(l: Lifted, pc: usize, reg: u8) -> Option<Seq<char>> {
    match l.known_constant(pc, reg) {
        Some(v) => if l.call_targets.contains_key(v as usize) {
            Some(l.call_targets[v as usize])
        } else {
            None
        },
        None => None,
    }
}

/// Name of the host function that `ecalli` calls, by the JAM Graypaper (Appendix B).
pub open spec fn host_function(index: u32) -> Seq<char> {
    match index {
        0 => "gas_remaining"@,
        1 => "fetch"@,
        2 => "lookup"@,
        3 => "read"@,
        4 => "write"@,
        5 => "info"@,
        6 => "historical_lookup"@,
        7 => "export"@,
        8 => "machine"@,
        9 => "peek"@,
        10 => "poke"@,
        11 => "pages"@,
        12 => "invoke"@,
        13 => "expunge"@,
        14 => "bless"@,
        15 => "assign"@,
        16 => "designate"@,
        17 => "checkpoint"@,
        18 => "new_service"@,
        19 => "upgrade"@,
        20 => "transfer"@,
        21 => "eject"@,
        22 => "query"@,
        23 => "solicit"@,
        24 => "forget"@,
        25 => "yield_"@,
        26 => "provide"@,
        100 => "log"@,
        _ => "ecalli("@ + text::dec(index as nat) + ")"@,
    }
}

/// Map an ecalli index to a human-readable host function name.
pub fn ecalli_name(index: u32) -> (s: String)
    ensures
        s@ == host_function(index),
{
    match index {
        0 => "gas_remaining".to_owned(),
        1 => "fetch".to_owned(),
        2 => "lookup".to_owned(),
        3 => "read".to_owned(),
        4 => "write".to_owned(),
        5 => "info".to_owned(),
        6 => "historical_lookup".to_owned(),
        7 => "export".to_owned(),
        8 => "machine".to_owned(),
        9 => "peek".to_owned(),
        10 => "poke".to_owned(),
        11 => "pages".to_owned(),
        12 => "invoke".to_owned(),
        13 => "expunge".to_owned(),
        14 => "bless".to_owned(),
        15 => "assign".to_owned(),
        16 => "designate".to_owned(),
        17 => "checkpoint".to_owned(),
        18 => "new_service".to_owned(),
        19 => "upgrade".to_owned(),
        20 => "transfer".to_owned(),
        21 => "eject".to_owned(),
        22 => "query".to_owned(),
        23 => "solicit".to_owned(),
        24 => "forget".to_owned(),
        25 => "yield_".to_owned(),
        26 => "provide".to_owned(),
        100 => "log".to_owned(),
        _ => {
            let mut s = "ecalli(".to_owned();
            push_dec(&mut s, index as u64);
            s.append(")");
            s
        },
    }
}

pub open spec fn var(name: Seq<char>) -> Expr {
    Expr::Var(name)
}

impl Lifted {
    /// The expression for the instruction of this shape at `pc`.
    pub open spec fn expression_of(self, pc: usize, shape: InstructionShape) -> Expr {
        match shape {
            InstructionShape::LoadImm { dst, value } => Expr::Const(value),
            InstructionShape::BinReg { op, width, dst, src1, src2 } => simplify::bin(
                op,
                var(self.use_name(pc, src1)),
                var(self.use_name(pc, src2)),
            ),
            InstructionShape::BinImm { op, width, dst, src, value } => simplify::bin(
                op,
                var(self.use_name(pc, src)),
                Expr::Const(value as i64),
            ),
            InstructionShape::BinImmRev { op, width, dst, src, value } => simplify::bin(
                op,
                Expr::Const(value as i64),
                var(self.use_name(pc, src)),
            ),
            InstructionShape::Unary { op, dst, src } => Expr::UnaryOp {
                op,
                operand: Box::new(var(self.use_name(pc, src))),
            },
            InstructionShape::Load { width, dst, base, offset } => Expr::Load {
                width,
                base: Box::new(var(self.use_name(pc, base))),
                offset,
            },
            InstructionShape::Store { width, base, src, offset } => Expr::Store {
                width,
                base: Box::new(var(self.use_name(pc, base))),
                offset,
                value: Box::new(var(self.use_name(pc, src))),
            },
            InstructionShape::LoadAbsolute { width, dst, address } => Expr::Load {
                width,
                base: Box::new(Expr::Const(0)),
                offset: address,
            },
            InstructionShape::StoreAbsolute { width, src, address } => Expr::Store {
                width,
                base: Box::new(Expr::Const(0)),
                offset: address,
                value: Box::new(var(self.use_name(pc, src))),
            },
            InstructionShape::Ecalli { index } => Expr::Call {
                name: host_function(index),
                args: Seq::empty(),
            },
            _ => Expr::Raw(self.raw_line(pc, shape)),
        }
    }

    /// The text for an instruction that is kept as text.
    pub open spec fn raw_line(self, pc: usize, shape: InstructionShape) -> Seq<char> {
        match shape {
            InstructionShape::NoOp { name } => if name@ == "trap"@ {
                "return"@
            } else {
                name@
            },
            InstructionShape::Jump { offset } => "jump "@ + text::dec_signed(offset as int),
            InstructionShape::JumpInd { reg } => if self.halts(pc, reg) {
                "halt()"@
            } else {
                "call_indirect("@ + self.use_name(pc, reg) + ")"@
            },
            InstructionShape::BranchImm { cond, reg, value, offset } => "if ("@ + self.use_name(
                pc,
                reg,
            ) + " "@ + cond@ + " "@ + text::dec_signed(value as int) + ") jump "@
                + text::dec_signed(offset as int),
            InstructionShape::BranchReg { cond, reg1, reg2, offset } => "if ("@ + self.use_name(
                pc,
                reg1,
            ) + " "@ + cond@ + " "@ + self.use_name(pc, reg2) + ") jump "@ + text::dec_signed(
                offset as int,
            ),
            InstructionShape::CmovReg { is_zero, dst, src, cond } => "if ("@ + self.use_name(
                pc,
                cond,
            ) + instruction::comparison_text(is_zero) + ") "@ + self.def_name(pc, dst) + " = "@
                + self.use_name(pc, src),
            InstructionShape::CmovImm { is_zero, dst, cond, value } => "if ("@ + self.use_name(
                pc,
                cond,
            ) + instruction::comparison_text(is_zero) + ") "@ + self.def_name(pc, dst) + " = "@
                + text::dec_signed(value as int),
            InstructionShape::LoadImmJump { dst, value, offset } => self.def_name(pc, dst) + " = "@
                + text::dec_signed(value as int),
            InstructionShape::LoadImmJumpInd { base, dst, value } => self.def_name(pc, dst)
                + " = "@ + text::dec_signed(value as int) + "; jump_ind "@ + self.use_name(
                pc,
                base,
            ),
            InstructionShape::StoreImm { width, address, value } => width.symbol() + "["@
                + instruction::absolute_text(address) + "] = "@ + text::dec_signed(value as int),
            InstructionShape::StoreImmInd { width, base, offset, value } => width.symbol() + "["@
                + self.use_name(pc, base) + " + "@ + render::const_text(offset as int) + "] = "@
                + text::dec_signed(value as int),
            InstructionShape::Unknown { opcode } => "/* unknown opcode "@ + text::hex_prefixed(
                opcode as nat,
                2,
            ) + " */"@,
            _ => seq![],
        }
    }
}

impl LiftedProgram {
    fn used(&self, pc: usize, reg: u8) -> (e: Box<Expression>)
        ensures
            e@ == var(self@.use_name(pc, reg)),
    {
        Box::new(Expression::Var(self.reg_name(pc, reg)))
    }

    /// Convert a single instruction into an Expression, using variable names.
    pub fn instruction_to_expression(&self, pc: usize, instr: &Instruction) -> (e: Expression)
        ensures
            e@ == self@.expression_of(pc, instruction::classified(*instr)),
    {
        proof {
            reveal_with_fuel(expr::expr_of, 3);
        }
        match InstructionShape::classify(instr) {
            InstructionShape::LoadImm { value, .. } => Expression::Const(value),
            InstructionShape::BinReg { op, src1, src2, .. } => Expression::BinOp {
                op,
                lhs: self.used(pc, src1),
                rhs: self.used(pc, src2),
            },
            InstructionShape::BinImm { op, src, value, .. } => Expression::BinOp {
                op,
                lhs: self.used(pc, src),
                rhs: Box::new(Expression::Const(value as i64)),
            },
            InstructionShape::BinImmRev { op, src, value, .. } => Expression::BinOp {
                op,
                lhs: Box::new(Expression::Const(value as i64)),
                rhs: self.used(pc, src),
            },
            InstructionShape::Unary { op, src, .. } => Expression::UnaryOp {
                op,
                operand: self.used(pc, src),
            },
            InstructionShape::Load { width, base, offset, .. } => Expression::Load {
                width,
                base: self.used(pc, base),
                offset,
            },
            InstructionShape::Store { width, base, src, offset } => Expression::Store {
                width,
                base: self.used(pc, base),
                offset,
                value: self.used(pc, src),
            },
            InstructionShape::LoadAbsolute { width, address, .. } => Expression::Load {
                width,
                base: Box::new(Expression::Const(0)),
                offset: address,
            },
            InstructionShape::StoreAbsolute { width, src, address } => Expression::Store {
                width,
                base: Box::new(Expression::Const(0)),
                offset: address,
                value: self.used(pc, src),
            },
            InstructionShape::Ecalli { index } => {
                let r = Expression::Call { name: ecalli_name(index), args: Vec::new() };
                assert(r@->Call_args =~= Seq::<Expr>::empty());
                r
            },
            shape => Expression::Raw(self.raw_line(pc, shape)),
        }
    }

    fn raw_line(&self, pc: usize, shape: InstructionShape) -> (s: String)
        ensures
            s@ == self@.raw_line(pc, shape),
    {
        match shape {
            InstructionShape::NoOp { name } => if same_text(name, "trap") {
                "return".to_owned()
            } else {
                name.to_owned()
            },
            InstructionShape::Jump { offset } => {
                let mut s = "jump ".to_owned();
                push_dec_signed(&mut s, offset as i64);
                s
            },
            InstructionShape::JumpInd { reg } => if self.is_halt_target(pc, reg) {
                "halt()".to_owned()
            } else {
                let mut s = "call_indirect(".to_owned();
                s.append(self.reg_name(pc, reg).as_str());
                s.append(")");
                s
            },
            InstructionShape::BranchImm { cond, reg, value, offset } => {
                let mut s = "if (".to_owned();
                s.append(self.reg_name(pc, reg).as_str());
                s.append(" ");
                s.append(cond);
                s.append(" ");
                push_dec_signed(&mut s, value as i64);
                s.append(") jump ");
                push_dec_signed(&mut s, offset as i64);
                s
            },
            InstructionShape::BranchReg { cond, reg1, reg2, offset } => {
                let mut s = "if (".to_owned();
                s.append(self.reg_name(pc, reg1).as_str());
                s.append(" ");
                s.append(cond);
                s.append(" ");
                s.append(self.reg_name(pc, reg2).as_str());
                s.append(") jump ");
                push_dec_signed(&mut s, offset as i64);
                s
            },
            InstructionShape::CmovReg { is_zero, dst, src, cond } => {
                let mut s = "if (".to_owned();
                s.append(self.reg_name(pc, cond).as_str());
                s.append(instruction::comparison_str(is_zero));
                s.append(") ");
                s.append(self.var_name_for_def(pc, dst).as_str());
                s.append(" = ");
                s.append(self.reg_name(pc, src).as_str());
                s
            },
            InstructionShape::CmovImm { is_zero, dst, cond, value } => {
                let mut s = "if (".to_owned();
                s.append(self.reg_name(pc, cond).as_str());
                s.append(instruction::comparison_str(is_zero));
                s.append(") ");
                s.append(self.var_name_for_def(pc, dst).as_str());
                s.append(" = ");
                push_dec_signed(&mut s, value as i64);
                s
            },
            InstructionShape::LoadImmJump { dst, value, .. } => {
                let mut s = self.var_name_for_def(pc, dst);
                s.append(" = ");
                push_dec_signed(&mut s, value as i64);
                s
            },
            InstructionShape::LoadImmJumpInd { base, dst, value } => {
                let mut s = self.var_name_for_def(pc, dst);
                s.append(" = ");
                push_dec_signed(&mut s, value as i64);
                s.append("; jump_ind ");
                s.append(self.reg_name(pc, base).as_str());
                s
            },
            InstructionShape::StoreImm { width, address, value } => {
                let mut s = width.as_str().to_owned();
                s.append("[");
                instruction::push_absolute(&mut s, address);
                s.append("] = ");
                push_dec_signed(&mut s, value as i64);
                s
            },
            InstructionShape::StoreImmInd { width, base, offset, value } => {
                let mut s = width.as_str().to_owned();
                s.append("[");
                s.append(self.reg_name(pc, base).as_str());
                s.append(" + ");
                s.append(format_const(offset as i64).as_str());
                s.append("] = ");
                push_dec_signed(&mut s, value as i64);
                s
            },
            InstructionShape::Unknown { opcode } => {
                let mut s = "/* unknown opcode ".to_owned();
                push_hex_prefixed(&mut s, opcode as u64, 2);
                s.append(" */");
                s
            },
            _ => {
                let s = String::new();
                assert(s@ =~= seq![]);
                s
            },
        }
    }
}

impl Lifted {
    /// The variable that the instruction at `pc` defines.
    pub open spec fn defined_var(self, pc: usize, instr: Instruction) -> Option<Seq<char>> {
        match instruction::classified(instr).defined() {
            Some(reg) => if self.variables.contains_key((pc, reg)) {
                Some(self.variables[(pc, reg)].name)
            } else {
                None
            },
            None => None,
        }
    }

    /// The line for the instruction at `pc`, and the variable that it assigns.
    pub open spec fn line(self, pc: usize, instr: Instruction) -> Option<
        (Seq<char>, Option<Seq<char>>),
    > {
        if !self.expressions.contains_key(pc) {
            None
        } else {
            let e = self.expressions[pc];
            let whole = render::text_of(e, self.context());
            match e {
                Expr::Raw(s) => Some((s, None)),
                Expr::Store { width, base, offset, value } => match *base {
                    Expr::Var(n) => if self.stack_vars.contains_key((n, offset)) {
                        let slot = self.stack_vars[(n, offset)];
                        Some(
                            (slot + " = "@ + render::text_of(*value, self.context()), Some(slot)),
                        )
                    } else {
                        Some((whole, None))
                    },
                    _ => Some((whole, None)),
                },
                _ => match self.defined_var(pc, instr) {
                    Some(dst) => Some((dst + " = "@ + whole, Some(dst))),
                    None => Some((whole, None)),
                },
            }
        }
    }
}

/// The texts of a line and of the variable that it assigns.
pub open spec fn line_texts(r: Option<(String, Option<String>)>) -> Option<
    (Seq<char>, Option<Seq<char>>),
> {
    match r {
        Some(p) => Some((p.0@, opt_text(p.1))),
        None => None,
    }
}

impl LiftedProgram {
    fn def_var_name(&self, pc: usize, instr: &Instruction) -> (r: Option<String>)
        ensures
            opt_text(r) == self@.defined_var(pc, *instr),
    {
        match InstructionShape::classify(instr).def_reg() {
            Some(reg) => match self.variables.get(&(pc, reg)) {
                Some(v) => Some(v.name.as_str().to_owned()),
                None => None,
            },
            None => None,
        }
    }

    /// Format an instruction without declaration tracking.
    /// Returns the formatted line and optionally the variable name to declare.
    pub fn format_pc_raw(&self, pc: usize, instr: &Instruction) -> (r: Option<
        (String, Option<String>),
    >)
        ensures
            line_texts(r) == self@.line(pc, *instr),
    {
        proof {
            reveal_with_fuel(expr::expr_of, 3);
        }
        let ctx = self.format_context();
        assert(expr_map(self.expressions@).contains_key(pc) == self.expressions@.contains_key(pc));
        let e: &Expression = match self.expressions.get(&pc) {
            Some(e) => e,
            None => {
                return None;
            },
        };
        match e {
            Expression::Raw(s) => Some((s.as_str().to_owned(), None)),
            Expression::Store { base, offset, value, .. } => {
                if let Expression::Var(name) = &**base {
                    assert(names::text_values(self.stack_vars@).contains_key((name@, *offset))
                        == self.stack_vars@.contains_key((name@, *offset)));
                    if let Some(slot) = self.stack_vars.get(name.as_str(), *offset) {
                        let mut s = slot.as_str().to_owned();
                        s.append(" = ");
                        s.append(format_expression(value, &ctx).as_str());
                        return Some((s, Some(slot.as_str().to_owned())));
                    }
                }
                Some((format_expression(e, &ctx), None))
            },
            _ => match self.def_var_name(pc, instr) {
                Some(dst) => {
                    let mut s = dst.as_str().to_owned();
                    s.append(" = ");
                    s.append(format_expression(e, &ctx).as_str());
                    Some((s, Some(dst)))
                },
                None => Some((format_expression(e, &ctx), None)),
            },
        }
    }

    /// Format an instruction at a given PC as a lifted pseudo-code line.
    /// Returns None if the PC has been eliminated.
    /// Emits `let var = expr` on first definition, plain `var = expr` on reassignment.
    pub fn format_pc(&mut self, pc: usize, instr: &Instruction) -> (r: Option<String>)
        ensures
            opt_text(r) == declared_line(old(self)@, pc, *instr).0,
            final(self)@ == (Lifted {
                declared: declared_line(old(self)@, pc, *instr).1,
                ..old(self)@
            }),
    {
        let ghost before = self@;
        if self.eliminated_pcs.contains(&pc) {
            return None;
        }
        match self.format_pc_raw(pc, instr) {
            Some((line, declare)) => {
                if let Some(name) = declare {
                    let added: bool = self.declared_vars.insert(name);
                    if added {
                        let mut s = "let ".to_owned();
                        s.append(line.as_str());
                        return Some(s);
                    }
                    assert(self@.declared =~= before.declared);
                }
                Some(line)
            },
            None => None,
        }
    }
}

/// The line for the instruction at `pc`, with `let` where it is the first to assign
/// its variable, and the variables declared then.
pub open spec fn declared_line(l: Lifted, pc: usize, instr: Instruction) -> (
    Option<Seq<char>>,
    Set<Seq<char>>,
) {
    if l.eliminated.contains(pc) {
        (None, l.declared)
    } else {
        match l.line(pc, instr) {
            None => (None, l.declared),
            Some((s, None)) => (Some(s), l.declared),
            Some((s, Some(name))) => if l.declared.contains(name) {
                (Some(s), l.declared)
            } else {
                (Some("let "@ + s), l.declared.insert(name))
            },
        }
    }
}

impl Lifted {
    /// Whether `name` is a variable of type bool defined at `pc` by a boolean expression.
    pub open spec fn boolean_temp(self, name: Seq<char>, pc: usize) -> bool {
        &&& exists|reg: u8| #[trigger]
            self.variables.contains_key((pc, reg)) && self.variables[(pc, reg)] == (Var {
                name,
                var_type: VarType::Boolean,
            })
        &&& self.definition(name) matches Some(e) && simplify::boolean(e)
    }

    /// The expression with the definitions in place of eliminated variables, to a
    /// depth of ten definitions.
    pub open spec fn resolved(self, e: Expr, depth: nat) -> Expr
        decreases 11 - depth, e,
    {
        if depth > 10 {
            e
        } else {
            match e {
                Expr::Var(n) => if self.def_pcs.contains_key(n) && self.eliminated.contains(
                    self.def_pcs[n],
                ) && self.expressions.contains_key(self.def_pcs[n]) {
                    self.resolved(self.expressions[self.def_pcs[n]], depth + 1)
                } else {
                    e
                },
                Expr::BinOp { op, lhs, rhs } => Expr::BinOp {
                    op,
                    lhs: Box::new(self.resolved(*lhs, depth)),
                    rhs: Box::new(self.resolved(*rhs, depth)),
                },
                Expr::UnaryOp { op, operand } => Expr::UnaryOp {
                    op,
                    operand: Box::new(self.resolved(*operand, depth)),
                },
                Expr::Load { width, base, offset } => Expr::Load {
                    width,
                    base: Box::new(self.resolved(*base, depth)),
                    offset,
                },
                Expr::Store { width, base, offset, value } => Expr::Store {
                    width,
                    base: Box::new(self.resolved(*base, depth)),
                    offset,
                    value: Box::new(self.resolved(*value, depth)),
                },
                Expr::Call { name, args } => Expr::Call {
                    name,
                    args: Seq::new(
                        args.len(),
                        |i: int|
                            if 0 <= i < args.len() {
                                self.resolved(args[i], depth)
                            } else {
                                Expr::Const(0)
                            },
                    ),
                },
                Expr::Const(_) => e,
                Expr::Raw(_) => e,
            }
        }
    }
}

impl LiftedProgram {
    /// Returns true when `var_name` is a synthetic boolean temporary at `def_pc`.
    /// These are safe candidates for branch-condition inlining/elimination.
    pub fn is_synthetic_boolean_temp(&self, var_name: &str, def_pc: usize) -> (r: bool)
        ensures
            r == self@.boolean_temp(var_name@, def_pc),
    {
        let wanted = Ghost(Var { name: var_name@, var_type: VarType::Boolean });
        let mut typed: bool = false;
        let mut reg: u16 = 0;
        while reg < 256 && !typed
            invariant
                reg <= 256,
                wanted@ == (Var { name: var_name@, var_type: VarType::Boolean }),
                forall|k: u8|
                    k < reg && !typed ==> !(#[trigger] self@.variables.contains_key((def_pc, k))
                        && self@.variables[(def_pc, k)] == wanted@),
                typed ==> exists|k: u8| #[trigger]
                    self@.variables.contains_key((def_pc, k)) && self@.variables[(def_pc, k)]
                        == wanted@,
            decreases 256 - reg,
        {
            let ghost key = (def_pc, reg as u8);
            assert(self@.variables.contains_key(key) == self.variables@.contains_key(key));
            if let Some(v) = self.variables.get(&(def_pc, reg as u8)) {
                if v.var_type == VarType::Boolean && same_text(v.name.as_str(), var_name) {
                    assert(self@.variables[key] =~= wanted@);
                    typed = true;
                }
            }
            reg = reg + 1;
        }
        if !typed {
            return false;
        }
        match self.expression_for_var(var_name) {
            Some(e) => is_boolean_expr(e),
            None => false,
        }
    }

    /// Recursively resolve eliminated variable references in an expression.
    /// When a `Var(name)` refers to a variable whose definition was eliminated
    /// (inlined elsewhere), substitute the variable's definition expression.
    pub fn resolve_eliminated_vars(&self, expr: &Expression) -> (r: Expression)
        ensures
            r@ == self@.resolved(expr@, 0),
    {
        self.resolve_eliminated_vars_depth(expr, 0)
    }

    fn resolve_eliminated_vars_depth(&self, expr: &Expression, depth: usize) -> (r: Expression)
        ensures
            r@ == self@.resolved(expr@, depth as nat),
        decreases 11 - depth, expr,
    {
        if depth > 10 {
            return expr.clone();
        }
        match expr {
            Expression::Var(name) => {
                if let Some(def_pc) = self.var_name_to_def_pc.get(name.as_str()) {
                    if self.eliminated_pcs.contains(def_pc) {
                        assert(expr_map(self.expressions@).contains_key(*def_pc)
                            == self.expressions@.contains_key(*def_pc));
                        if let Some(def) = self.expressions.get(def_pc) {
                            return self.resolve_eliminated_vars_depth(def, depth + 1);
                        }
                    }
                }
                expr.clone()
            },
            Expression::BinOp { op, lhs, rhs } => Expression::BinOp {
                op: *op,
                lhs: Box::new(self.resolve_eliminated_vars_depth(lhs, depth)),
                rhs: Box::new(self.resolve_eliminated_vars_depth(rhs, depth)),
            },
            Expression::UnaryOp { op, operand } => Expression::UnaryOp {
                op: *op,
                operand: Box::new(self.resolve_eliminated_vars_depth(operand, depth)),
            },
            Expression::Load { width, base, offset } => Expression::Load {
                width: *width,
                base: Box::new(self.resolve_eliminated_vars_depth(base, depth)),
                offset: *offset,
            },
            Expression::Store { width, base, offset, value } => Expression::Store {
                width: *width,
                base: Box::new(self.resolve_eliminated_vars_depth(base, depth)),
                offset: *offset,
                value: Box::new(self.resolve_eliminated_vars_depth(value, depth)),
            },
            Expression::Call { name: callee, args } => {
                let mut out: Vec<Expression> = Vec::new();
                let mut i: usize = 0;
                while i < args.len()
                    invariant
                        i <= args@.len(),
                        out@.len() == i,
                        depth <= 10,
                        *expr matches Expression::Call { args: a, .. } && a == args,
                        forall|k: int|
                            0 <= k < i ==> (#[trigger] out@[k])@ == self@.resolved(
                                args@[k]@,
                                depth as nat,
                            ),
                    decreases args@.len() - i,
                {
                    out.push(self.resolve_eliminated_vars_depth(&args[i], depth));
                    i = i + 1;
                }
                let r = Expression::Call { name: callee.as_str().to_owned(), args: out };
                assert(r@->Call_args =~= self@.resolved(expr@, depth as nat)->Call_args);
                r
            },
            _ => expr.clone(),
        }
    }
}

/// The line of a summary for a variable.
pub open spec fn variable_line(key: (usize, u8), v: Var) -> Seq<char> {
    "  "@ + v.name + " : "@ + v.var_type.symbol() + " (r"@ + text::dec(key.1 as nat) + " @ "@
        + text::hex_prefixed(key.0 as nat, 4) + ")\n"@
}

fn variable_string(key: (usize, u8), v: &Variable) -> (s: String)
    ensures
        s@ == variable_line(key, v@),
{
    let mut s = "  ".to_owned();
    s.append(v.name.as_str());
    s.append(" : ");
    s.append(v.var_type.as_str());
    s.append(" (r");
    push_dec(&mut s, key.1 as u64);
    s.append(" @ ");
    push_hex_prefixed(&mut s, key.0 as u64, 4);
    s.append(")\n");
    s
}

/// The lines for the first `n` of `keys`.
pub open spec fn variable_lines(
    m: Map<(usize, u8), Var>,
    keys: Seq<(usize, u8)>,
    n: nat,
) -> Seq<char>
    decreases n,
{
    if n == 0 {
        seq![]
    } else {
        variable_lines(m, keys, (n - 1) as nat) + variable_line(keys[n - 1], m[keys[n - 1]])
    }
}

impl Lifted {
    /// The summary of a lifted program: its variables in order.
    pub open spec fn summary(self) -> Seq<char> {
        "=== Register Lifting ===\n\n"@ + "Variables: "@ + text::dec(self.variables.dom().len())
            + ", Eliminated instructions: "@ + text::dec(self.eliminated.len()) + "\n"@
            + variable_lines(
            self.variables,
            ordered::ascending_pairs(self.variables.dom()),
            self.variables.dom().len(),
        )
    }

    /// The program with `old_name` renamed to `new_name` throughout. A definition of
    /// `new_name` that is known already is kept.
    pub open spec fn coalesced(self, old_name: Seq<char>, new_name: Seq<char>) -> Lifted {
        if old_name == new_name {
            self
        } else {
            Lifted {
                variables: self.variables.map_values(
                    |v: Var|
                        Var {
                            name: if v.name == old_name {
                                new_name
                            } else {
                                v.name
                            },
                            var_type: v.var_type,
                        },
                ),
                var_at_use: self.var_at_use.map_values(
                    |n: Seq<char>|
                        if n == old_name {
                            new_name
                        } else {
                            n
                        },
                ),
                expressions: self.expressions.map_values(
                    |e: Expr|
                        expr::renamed(e, Map::<Seq<char>, Seq<char>>::empty().insert(old_name, new_name)),
                ),
                declared: if self.declared.contains(old_name) {
                    self.declared.remove(old_name).insert(new_name)
                } else {
                    self.declared
                },
                def_pcs: if !self.def_pcs.contains_key(old_name) {
                    self.def_pcs
                } else if self.def_pcs.contains_key(new_name) {
                    self.def_pcs.remove(old_name)
                } else {
                    self.def_pcs.remove(old_name).insert(new_name, self.def_pcs[old_name])
                },
                ..self
            }
        }
    }
}

/// A change applied to every expression.
pub enum Rewrite<'a> {
    Simplify,
    Substitute(&'a str, &'a Expression),
    Rename(&'a NameMap<String>),
    Slots(&'a SlotMap<String>),
}

impl<'a> Rewrite<'a> {
    pub open spec fn applied(self, e: Expr) -> Expr {
        match self {
            Rewrite::Simplify => simplify::simplified(e),
            Rewrite::Substitute(name, by) => expr::substituted(e, name@, by@),
            Rewrite::Rename(map) => expr::renamed(e, names::text_values(map@)),
            Rewrite::Slots(map) => expr::with_slots(e, names::text_values(map@)),
        }
    }

    fn apply(&self, e: &Expression) -> (r: Expression)
        ensures
            r@ == self.applied(e@),
    {
        match self {
            Rewrite::Simplify => simplify::simplify_expression(e.clone()),
            Rewrite::Substitute(name, by) => expr::substitute_var(e, name, by),
            Rewrite::Rename(map) => rename_vars(e, map),
            Rewrite::Slots(map) => expr::replace_stack_loads(e, map),
        }
    }
}

/// Apply a change to every expression.
pub fn rewrite_all(m: &BTreeMap<usize, Expression>, how: &Rewrite<'_>) -> (r: BTreeMap<
    usize,
    Expression,
>)
    ensures
        expr_map(r@) == expr_map(m@).map_values(|e: Expr| how.applied(e)),
{
    let keys = keys_of(m);
    let mut r: BTreeMap<usize, Expression> = BTreeMap::new();
    let mut i: usize = 0;
    while i < keys.len()
        invariant
            i <= keys@.len(),
            keys@.to_set() == m@.dom(),
            forall|k: usize| #[trigger] r@.contains_key(k) <==> keys@.take(i as int).contains(k),
            forall|k: usize| #[trigger]
                r@.contains_key(k) ==> m@.contains_key(k) && r@[k]@ == how.applied(m@[k]@),
        decreases keys@.len() - i,
    {
        let k: usize = keys[i];
        assert(keys@.to_set().contains(k));
        assert(keys@.take(i + 1) =~= keys@.take(i as int).push(k));
        let ghost before = r@;
        if let Some(e) = m.get(&k) {
            r.insert(k, how.apply(e));
        }
        assert forall|j: usize| #[trigger] r@.contains_key(j) <==> keys@.take(i + 1).contains(j) by {
            ordered::lemma_push_key(keys@.take(i as int), k, j);
            assert(before.contains_key(j) <==> keys@.take(i as int).contains(j));
        }
        i = i + 1;
    }
    proof {
        assert(keys@.take(i as int) =~= keys@);
        let want = expr_map(m@).map_values(|e: Expr| how.applied(e));
        assert forall|k: usize| expr_map(r@).contains_key(k) == want.contains_key(k) by {
            assert(r@.contains_key(k) <==> keys@.contains(k));
            assert(keys@.to_set().contains(k) == m@.contains_key(k));
        }
        assert forall|k: usize| expr_map(r@).contains_key(k) implies expr_map(r@)[k] == want[k] by {
            assert(r@.contains_key(k));
        }
        assert(expr_map(r@) =~= want);
    }
    r
}

/// The names of a map with renames applied.
pub open spec fn renamed_values(
    m: Map<(usize, u8), Seq<char>>,
    by: Map<Seq<char>, Seq<char>>,
) -> Map<(usize, u8), Seq<char>> {
    m.map_values(
        |n: Seq<char>|
            if by.contains_key(n) {
                by[n]
            } else {
                n
            },
    )
}

/// Rename the values of a map.
pub fn rename_values(m: &BTreeMap<(usize, u8), String>, by: &NameMap<String>) -> (r: BTreeMap<
    (usize, u8),
    String,
>)
    ensures
        names::text_values(r@) == renamed_values(
            names::text_values(m@),
            names::text_values(by@),
        ),
{
    let ghost map = names::text_values(by@);
    let keys = pair_keys_of(m);
    let mut r: BTreeMap<(usize, u8), String> = BTreeMap::new();
    let mut i: usize = 0;
    while i < keys.len()
        invariant
            i <= keys@.len(),
            keys@.to_set() == m@.dom(),
            map == names::text_values(by@),
            forall|k: (usize, u8)| #[trigger]
                r@.contains_key(k) <==> keys@.take(i as int).contains(k),
            forall|k: (usize, u8)| #[trigger]
                r@.contains_key(k) ==> m@.contains_key(k) && r@[k]@ == if map.contains_key(m@[k]@) {
                    map[m@[k]@]
                } else {
                    m@[k]@
                },
        decreases keys@.len() - i,
    {
        let k: (usize, u8) = keys[i];
        assert(keys@.to_set().contains(k));
        assert(keys@.take(i + 1) =~= keys@.take(i as int).push(k));
        let ghost before = r@;
        if let Some(n) = m.get(&k) {
            assert(map.contains_key(n@) == by@.contains_key(n@));
            match by.get(n.as_str()) {
                Some(t) => {
                    r.insert(k, t.as_str().to_owned());
                },
                None => {
                    r.insert(k, n.as_str().to_owned());
                },
            }
        }
        assert forall|j: (usize, u8)| #[trigger] r@.contains_key(j) <==> keys@.take(i + 1).contains(
            j,
        ) by {
            ordered::lemma_push_key(keys@.take(i as int), k, j);
            assert(before.contains_key(j) <==> keys@.take(i as int).contains(j));
        }
        i = i + 1;
    }
    proof {
        assert(keys@.take(i as int) =~= keys@);
        let got = names::text_values(r@);
        let want = renamed_values(names::text_values(m@), map);
        assert forall|k: (usize, u8)| got.contains_key(k) == want.contains_key(k) by {
            assert(r@.contains_key(k) <==> keys@.contains(k));
            assert(keys@.to_set().contains(k) == m@.contains_key(k));
        }
        assert forall|k: (usize, u8)| got.contains_key(k) implies got[k] == want[k] by {
            assert(r@.contains_key(k));
        }
        assert(got =~= want);
    }
    r
}

fn rename_variables(m: &BTreeMap<(usize, u8), Variable>, old_name: &str, new_name: &str) -> (r:
    BTreeMap<(usize, u8), Variable>)
    ensures
        var_map(r@) == var_map(m@).map_values(
            |v: Var|
                Var {
                    name: if v.name == old_name@ {
                        new_name@
                    } else {
                        v.name
                    },
                    var_type: v.var_type,
                },
        ),
{
    let keys = pair_keys_of(m);
    let mut r: BTreeMap<(usize, u8), Variable> = BTreeMap::new();
    let mut i: usize = 0;
    while i < keys.len()
        invariant
            i <= keys@.len(),
            keys@.to_set() == m@.dom(),
            forall|k: (usize, u8)| #[trigger]
                r@.contains_key(k) <==> keys@.take(i as int).contains(k),
            forall|k: (usize, u8)| #[trigger]
                r@.contains_key(k) ==> m@.contains_key(k) && r@[k].var_type == m@[k].var_type
                    && r@[k].name@ == if m@[k].name@ == old_name@ {
                    new_name@
                } else {
                    m@[k].name@
                },
        decreases keys@.len() - i,
    {
        let k: (usize, u8) = keys[i];
        assert(keys@.to_set().contains(k));
        assert(keys@.take(i + 1) =~= keys@.take(i as int).push(k));
        let ghost before = r@;
        if let Some(v) = m.get(&k) {
            let name = if same_text(v.name.as_str(), old_name) {
                new_name.to_owned()
            } else {
                v.name.as_str().to_owned()
            };
            r.insert(k, Variable { name, var_type: v.var_type });
        }
        assert forall|j: (usize, u8)| #[trigger] r@.contains_key(j) <==> keys@.take(i + 1).contains(
            j,
        ) by {
            ordered::lemma_push_key(keys@.take(i as int), k, j);
            assert(before.contains_key(j) <==> keys@.take(i as int).contains(j));
        }
        i = i + 1;
    }
    proof {
        assert(keys@.take(i as int) =~= keys@);
        let f = |v: Var|
            Var {
                name: if v.name == old_name@ {
                    new_name@
                } else {
                    v.name
                },
                var_type: v.var_type,
            };
        let want = var_map(m@).map_values(f);
        assert forall|k: (usize, u8)| var_map(r@).contains_key(k) == want.contains_key(k) by {
            assert(r@.contains_key(k) <==> keys@.contains(k));
            assert(keys@.to_set().contains(k) == m@.contains_key(k));
        }
        assert forall|k: (usize, u8)| var_map(r@).contains_key(k) implies var_map(r@)[k]
            == want[k] by {
            assert(r@.contains_key(k));
        }
        assert(var_map(r@) =~= want);
    }
    r
}

impl LiftedProgram {
    /// Coalesce two variable names: rename all occurrences of `old_name` to `new_name`.
    /// Used to unify loop induction variable names across init/step definitions.
    pub fn coalesce_variable(&mut self, old_name: &str, new_name: &str)
        ensures
            final(self)@ == old(self)@.coalesced(old_name@, new_name@),
    {
        let ghost before = self@;
        if same_text(old_name, new_name) {
            return;
        }
        let mut renames: NameMap<String> = NameMap::new();
        renames.insert(old_name.to_owned(), new_name.to_owned());
        let ghost by = Map::<Seq<char>, Seq<char>>::empty().insert(old_name@, new_name@);
        assert(names::text_values(renames@) =~= by);
        self.variables = rename_variables(&self.variables, old_name, new_name);
        self.var_at_use = rename_values(&self.var_at_use, &renames);
        let how = Rewrite::Rename(&renames);
        self.expressions = rewrite_all(&self.expressions, &how);
        if self.declared_vars.remove(old_name) {
            self.declared_vars.insert(new_name.to_owned());
        } else {
            assert(before.declared.remove(old_name@) =~= before.declared);
        }
        match self.var_name_to_def_pc.remove(old_name) {
            Some(pc) => {
                if !self.var_name_to_def_pc.contains(new_name) {
                    self.var_name_to_def_pc.insert(new_name.to_owned(), pc);
                }
            },
            None => {
                assert(before.def_pcs.remove(old_name@) =~= before.def_pcs);
            },
        }
        proof {
            let want = before.coalesced(old_name@, new_name@);
            assert(self@.var_at_use =~= want.var_at_use);
            assert(self@.expressions =~= want.expressions);
            assert(self@.variables =~= want.variables);
            assert(self@ =~= want);
        }
    }

    /// Produce a summary of the lifting results.
    pub fn summarize(&self) -> (s: String)
        ensures
            s@ == self@.summary(),
    {
        let keys = pair_keys_of(&self.variables);
        assert(var_map(self.variables@).dom() =~= self.variables@.dom());
        let mut s = "=== Register Lifting ===\n\n".to_owned();
        s.append("Variables: ");
        push_dec_wide(&mut s, keys.len() as u128);
        s.append(", Eliminated instructions: ");
        push_dec_wide(&mut s, self.eliminated_pcs.len() as u128);
        s.append("\n");
        let ghost head = s@;
        let ghost vars = var_map(self.variables@);
        let mut i: usize = 0;
        while i < keys.len()
            invariant
                i <= keys@.len(),
                keys@.to_set() == self.variables@.dom(),
                vars == var_map(self.variables@),
                s@ =~= head + variable_lines(vars, keys@, i as nat),
            decreases keys@.len() - i,
        {
            let k: (usize, u8) = keys[i];
            assert(keys@.to_set().contains(k));
            if let Some(v) = self.variables.get(&k) {
                assert(vars[k] == v@);
                s.append(variable_string(k, v).as_str());
                assert(s@ =~= head + (variable_lines(vars, keys@, i as nat) + variable_line(
                    k,
                    vars[k],
                )));
            }
            i = i + 1;
        }
        assert(s@ =~= self@.summary());
        s
    }
}

/// After coalescing nothing refers to the old name any more.
pub proof fn law_coalesced_name_is_gone(l: Lifted, old_name: Seq<char>, new_name: Seq<char>)
    requires
        old_name != new_name,
    ensures
        ({
            let r = l.coalesced(old_name, new_name);
            &&& forall|k: (usize, u8)| #[trigger]
                r.variables.contains_key(k) ==> r.variables[k].name != old_name
            &&& forall|k: (usize, u8)| #[trigger]
                r.var_at_use.contains_key(k) ==> r.var_at_use[k] != old_name
            &&& forall|pc: usize| #[trigger]
                r.expressions.contains_key(pc) ==> !expr::mentions(r.expressions[pc], old_name)
            &&& !r.declared.contains(old_name)
            &&& !r.def_pcs.contains_key(old_name)
        }),
{
    let by = Map::<Seq<char>, Seq<char>>::empty().insert(old_name, new_name);
    let r = l.coalesced(old_name, new_name);
    assert forall|pc: usize| #[trigger] r.expressions.contains_key(pc) implies !expr::mentions(
        r.expressions[pc],
        old_name,
    ) by {
        expr::lemma_renamed_away(l.expressions[pc], by, old_name);
    }
}

/// A variable is declared once: where a line begins with `let` for it, no later line does. What
/// was declared stays so.
pub proof fn law_variable_is_declared_once(
    l: Lifted,
    pc: usize,
    instr: Instruction,
    next_pc: usize,
    next: Instruction,
    name: Seq<char>,
    s: Seq<char>,
    t: Seq<char>,
)
    requires
        !l.eliminated.contains(pc),
        !l.eliminated.contains(next_pc),
        l.line(pc, instr) == Some((s, Some(name))),
        l.line(next_pc, next) == Some((t, Some(name))),
    ensures
        ({
            let (first, declared) = declared_line(l, pc, instr);
            let (second, after) = declared_line(Lifted { declared, ..l }, next_pc, next);
            &&& l.declared.subset_of(declared)
            &&& after == declared
            &&& second == Some(t)
            &&& first == Some(
                if l.declared.contains(name) {
                    s
                } else {
                    "let "@ + s
                },
            )
        }),
{
    let (first, declared) = declared_line(l, pc, instr);
    let m = Lifted { declared, ..l };
    assert(m.line(next_pc, next) == l.line(next_pc, next));
}

} // verus!
