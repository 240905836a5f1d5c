//! That the line written for an instruction says what the machine does on it.

use crate::instruction;
use crate::instruction::{BinOp, BitWidth, InstructionShape, MemWidth, UnaryOp};
use crate::lifting::execution;
use crate::lifting::expr::Expr;
use crate::lifting::meaning;
use crate::lifting::meaning::Meaning;
use crate::lifting::program::Lifted;
use crate::lifting::reading;
use crate::machine;
use crate::pvm::Instruction;
use crate::structuring::claims;
use crate::structuring::claims::Term;
use crate::text;
use vstd::prelude::*;

verus! {

/// The name of a width of memory.
pub open spec fn width_name(width: MemWidth) -> Seq<char> {
    match width {
        MemWidth::U8 => "u8"@,
        MemWidth::I8 => "i8"@,
        MemWidth::U16 => "u16"@,
        MemWidth::I16 => "i16"@,
        MemWidth::U32 => "u32"@,
        MemWidth::I32 => "i32"@,
        MemWidth::U64 => "u64"@,
    }
}

/// A written line, taken apart.
pub ghost enum Statement {
    /// `dst = v`
    Constant { dst: Seq<char>, v: int },
    /// `dst = l op r`, the operator with `64` behind it where it is `wide`
    Operation { dst: Seq<char>, l: Term, op: BinOp, wide: bool, r: Term },
    /// `dst = op(arg)`
    Function { dst: Seq<char>, op: UnaryOp, arg: Seq<char> },
    /// `dst = width[base + offset]`
    Load { dst: Seq<char>, width: MemWidth, base: Seq<char>, offset: int },
    /// `dst = width[0x..]`
    LoadAt { dst: Seq<char>, width: MemWidth, at: nat },
    /// `width[base + offset] = v`
    Store { width: MemWidth, base: Seq<char>, offset: int, v: Term },
    /// `width[0x..] = v`
    StoreAt { width: MemWidth, at: nat, v: Term },
    /// `if (cond == 0) dst = v`, or `!=`
    Move { cond: Seq<char>, zero: bool, dst: Seq<char>, v: Term },
    /// `if (l symbol r) jump offset`
    Branch { l: Term, symbol: Seq<char>, r: Term, offset: int },
    /// `jump offset`
    Goto { offset: int },
    /// `jump_ind name`
    GotoBy { name: Seq<char> },
    /// `dst = v; jump offset`
    SaveGoto { dst: Seq<char>, v: int, offset: int },
    /// `dst = v; jump_ind name`
    SaveGotoBy { dst: Seq<char>, v: int, name: Seq<char> },
    /// A line of another kind.
    Other(Seq<char>),
}

impl Statement {
    pub open spec fn text(self) -> Seq<char> {
        match self {
            Statement::Constant { dst, v } => dst + " = "@ + text::dec_signed(v),
            Statement::Operation { dst, l, op, wide, r } => dst + " = "@ + l.text() + " "@
                + reading::sign(op) + (if wide {
                "64"@
            } else {
                ""@
            }) + " "@ + r.text(),
            Statement::Function { dst, op, arg } => dst + " = "@ + reading::unary_sign(op) + "("@
                + arg + ")"@,
            Statement::Load { dst, width, base, offset } => dst + " = "@ + width_name(width)
                + "["@ + base + " + "@ + text::dec_signed(offset) + "]"@,
            Statement::LoadAt { dst, width, at } => dst + " = "@ + width_name(width) + "["@
                + text::hex_prefixed(at, 0) + "]"@,
            Statement::Store { width, base, offset, v } => width_name(width) + "["@ + base
                + " + "@ + text::dec_signed(offset) + "] = "@ + v.text(),
            Statement::StoreAt { width, at, v } => width_name(width) + "["@ + text::hex_prefixed(
                at,
                0,
            ) + "] = "@ + v.text(),
            Statement::Move { cond, zero, dst, v } => "if ("@ + cond + (if zero {
                " == 0"@
            } else {
                " != 0"@
            }) + ") "@ + dst + " = "@ + v.text(),
            Statement::Branch { l, symbol, r, offset } => "if ("@ + l.text() + " "@ + symbol
                + " "@ + r.text() + ") jump "@ + text::dec_signed(offset),
            Statement::Goto { offset } => "jump "@ + text::dec_signed(offset),
            Statement::GotoBy { name } => "jump_ind "@ + name,
            Statement::SaveGoto { dst, v, offset } => dst + " = "@ + text::dec_signed(v)
                + "; jump "@ + text::dec_signed(offset),
            Statement::SaveGotoBy { dst, v, name } => dst + " = "@ + text::dec_signed(v)
                + "; jump_ind "@ + name,
            Statement::Other(t) => t,
        }
    }
}

/// Whether a statement says what the machine does on an instruction, where `m` gives the
/// values of names and `r` the registers. The destination goes by the name `def` gives it.
pub open spec fn tells(
    x: Statement,
    instr: Instruction,
    m: Meaning,
    r: spec_fn(u8) -> u64,
    def: spec_fn(u8) -> Seq<char>,
) -> bool {
    &&& machine::computed(instr, r) matches Some(o) ==> match x {
        Statement::Constant { dst, v } => dst == def(o.dst) && machine::cut(64, v) == o.value,
        Statement::Operation { dst, l, op, wide, r } => {
            &&& dst == def(o.dst)
            &&& wide == (o.bits == 64 && !machine::wider_than_shape(instr))
            &&& machine::apply(
                op,
                o.bits,
                machine::cut(o.bits, l.value(m)),
                machine::cut(o.bits, r.value(m)),
            ) == o.value
        },
        Statement::Function { dst, op, arg } => dst == def(o.dst) && machine::apply_unary(
            op,
            (m.vars)(arg) as int,
        ) == Some(o.value),
        _ => false,
    }
    &&& machine::loads(instr) matches Some((to, place)) ==> match x {
        Statement::Load { dst, width, base, offset } => {
            &&& dst == def(to) && width == place.width
            &&& machine::cut(64, (m.vars)(base) as int + offset) == place.address(r)
        },
        Statement::LoadAt { dst, width, at } => {
            &&& dst == def(to) && width == place.width
            &&& at == machine::cut(32, place.address(r))
        },
        _ => false,
    }
    &&& machine::stores(instr) matches Some((from, place)) ==> match x {
        Statement::Store { width, base, offset, v } => {
            &&& v.value(m) == r(from) && width == place.width
            &&& machine::cut(64, (m.vars)(base) as int + offset) == place.address(r)
        },
        Statement::StoreAt { width, at, v } => {
            &&& v.value(m) == r(from) && width == place.width
            &&& at == machine::cut(32, place.address(r))
        },
        _ => false,
    }
    &&& machine::stores_constant(instr) matches Some((c, place)) ==> match x {
        Statement::Store { width, base, offset, v } => {
            &&& v.value(m) == machine::cut(64, c as int) && width == place.width
            &&& machine::cut(64, (m.vars)(base) as int + offset) == place.address(r)
        },
        Statement::StoreAt { width, at, v } => {
            &&& v.value(m) == machine::cut(64, c as int) && width == place.width
            &&& at == machine::cut(32, place.address(r))
        },
        _ => false,
    }
    &&& machine::moved(instr, r) matches Some(o) ==> match x {
        Statement::Move { cond, zero, dst, v } => dst == def(o.dst) && o.value == if ((m.vars)(
            cond,
        ) == 0) == zero {
            v.value(m)
        } else {
            r(o.dst) as int
        },
        _ => false,
    }
    &&& machine::taken(instr, r) matches Some(b) ==> match x {
        Statement::Branch { l, symbol, r, offset } => machine::compares(
            symbol,
            l.value(m),
            r.value(m),
        ) == b && (machine::jumps_by(instr) matches Some(d) && d == offset),
        _ => false,
    }
    &&& instr matches Instruction::Jump { offset: d } ==> x == (Statement::Goto { offset: d as int })
    &&& instr matches Instruction::LoadImmJump { reg, value, offset: d } ==> x == (
    Statement::SaveGoto { dst: def(reg), v: value as int, offset: d as int })
}

/// Whether the statement is written as `t` and says what the machine does, whatever the
/// registers hold.
pub open spec fn is_told(x: Statement, t: Seq<char>, instr: Instruction) -> bool {
    &&& x.text() == t
    &&& forall|m: Meaning, r: spec_fn(u8) -> u64| #[trigger]
        claims::named(m, r) ==> tells(
            x,
            instr,
            m,
            r,
            |reg: u8| instruction::register_name(reg),
        )
}

spec fn reg_term(reg: u8) -> Term {
    Term::Name(instruction::register_name(reg))
}

spec fn number(v: i32) -> Term {
    Term::Number(v as int)
}

spec fn raw_statement(shape: InstructionShape) -> Statement {
    match shape {
        InstructionShape::LoadImm { dst, value } => Statement::Constant {
            dst: instruction::register_name(dst),
            v: value as int,
        },
        InstructionShape::BinReg { op, width, dst, src1, src2 } => Statement::Operation {
            dst: instruction::register_name(dst),
            l: reg_term(src1),
            op,
            wide: width == BitWidth::W64,
            r: reg_term(src2),
        },
        InstructionShape::BinImm { op, width, dst, src, value } => Statement::Operation {
            dst: instruction::register_name(dst),
            l: reg_term(src),
            op,
            wide: width == BitWidth::W64,
            r: number(value),
        },
        InstructionShape::BinImmRev { op, width, dst, src, value } => Statement::Operation {
            dst: instruction::register_name(dst),
            l: number(value),
            op,
            wide: width == BitWidth::W64,
            r: reg_term(src),
        },
        InstructionShape::Unary { op, dst, src } => Statement::Function {
            dst: instruction::register_name(dst),
            op,
            arg: instruction::register_name(src),
        },
        InstructionShape::Load { width, dst, base, offset } => Statement::Load {
            dst: instruction::register_name(dst),
            width,
            base: instruction::register_name(base),
            offset: offset as int,
        },
        InstructionShape::LoadAbsolute { width, dst, address } => Statement::LoadAt {
            dst: instruction::register_name(dst),
            width,
            at: (address as u32) as nat,
        },
        InstructionShape::Store { width, base, src, offset } => Statement::Store {
            width,
            base: instruction::register_name(base),
            offset: offset as int,
            v: reg_term(src),
        },
        InstructionShape::StoreAbsolute { width, src, address } => Statement::StoreAt {
            width,
            at: (address as u32) as nat,
            v: reg_term(src),
        },
        InstructionShape::StoreImm { width, address, value } => Statement::StoreAt {
            width,
            at: (address as u32) as nat,
            v: number(value),
        },
        InstructionShape::StoreImmInd { width, base, offset, value } => Statement::Store {
            width,
            base: instruction::register_name(base),
            offset: offset as int,
            v: number(value),
        },
        InstructionShape::CmovReg { is_zero, dst, src, cond } => Statement::Move {
            cond: instruction::register_name(cond),
            zero: is_zero,
            dst: instruction::register_name(dst),
            v: reg_term(src),
        },
        InstructionShape::CmovImm { is_zero, dst, cond, value } => Statement::Move {
            cond: instruction::register_name(cond),
            zero: is_zero,
            dst: instruction::register_name(dst),
            v: number(value),
        },
        InstructionShape::BranchImm { cond, reg, value, offset } => Statement::Branch {
            l: reg_term(reg),
            symbol: cond@,
            r: number(value),
            offset: offset as int,
        },
        InstructionShape::BranchReg { cond, reg1, reg2, offset } => Statement::Branch {
            l: reg_term(reg1),
            symbol: cond@,
            r: reg_term(reg2),
            offset: offset as int,
        },
        InstructionShape::Jump { offset } => Statement::Goto { offset: offset as int },
        InstructionShape::JumpInd { reg } => Statement::GotoBy {
            name: instruction::register_name(reg),
        },
        InstructionShape::LoadImmJump { dst, value, offset } => Statement::SaveGoto {
            dst: instruction::register_name(dst),
            v: value as int,
            offset: offset as int,
        },
        InstructionShape::LoadImmJumpInd { base, dst, value } => Statement::SaveGotoBy {
            dst: instruction::register_name(dst),
            v: value as int,
            name: instruction::register_name(base),
        },
        _ => Statement::Other(shape.raw_text()),
    }
}

proof fn lemma_raw_text(shape: InstructionShape)
    ensures
        raw_statement(shape).text() == shape.raw_text(),
{
    match shape {
        InstructionShape::BinReg { op, .. } => lemma_sign(op),
        InstructionShape::BinImm { op, .. } => lemma_sign(op),
        InstructionShape::BinImmRev { op, .. } => lemma_sign(op),
        InstructionShape::Unary { op, .. } => lemma_unary_sign(op),
        InstructionShape::Load { width, .. } => lemma_width_name(width),
        InstructionShape::LoadAbsolute { width, .. } => lemma_width_name(width),
        InstructionShape::Store { width, .. } => lemma_width_name(width),
        InstructionShape::StoreAbsolute { width, .. } => lemma_width_name(width),
        InstructionShape::StoreImm { width, .. } => lemma_width_name(width),
        InstructionShape::StoreImmInd { width, .. } => lemma_width_name(width),
        _ => {},
    }
}

proof fn lemma_sign(op: BinOp)
    ensures
        reading::sign(op) == op.symbol(),
{
}

proof fn lemma_unary_sign(op: UnaryOp)
    ensures
        reading::unary_sign(op) == op.symbol(),
{
}

proof fn lemma_width_name(width: MemWidth)
    ensures
        width_name(width) == width.symbol(),
{
}

proof fn lemma_low_address(address: i32)
    ensures
        (address as u32) as int == machine::cut(32, machine::cut(64, address as int)),
{
    machine::lemma_cut(address as int);
    reveal(machine::cut);
    assert(address as u32 as int == if address < 0 {
        address + 0x1_0000_0000
    } else {
        address as int
    }) by (bit_vector);
}

proof fn lemma_tells(instr: Instruction, m: Meaning, r: spec_fn(u8) -> u64)
    requires
        claims::named(m, r),
    ensures
        tells(
            raw_statement(instruction::classified(instr)),
            instr,
            m,
            r,
            |reg: u8| instruction::register_name(reg),
        ),
{
    machine::law_shape_computes(instr, r);
    machine::law_shape_accesses(instr);
    machine::law_shape_moves(instr, r);
    machine::law_shape_saves(instr);
    machine::law_shape_branches(instr, r);
    lemma_jump_shape(instr);
    lemma_tells_shape(instr, instruction::classified(instr), m, r);
}

proof fn lemma_jump_shape(instr: Instruction)
    ensures
        instr matches Instruction::Jump { offset } ==> instruction::classified(instr) == (
        InstructionShape::Jump { offset }),
        instr matches Instruction::LoadImmJump { reg, value, offset } ==> instruction::classified(
            instr,
        ) == (InstructionShape::LoadImmJump { dst: reg, value, offset }),
{
}

#[verifier::spinoff_prover]
#[verifier::rlimit(60)]
proof fn lemma_tells_shape(
    instr: Instruction,
    shape: InstructionShape,
    m: Meaning,
    r: spec_fn(u8) -> u64,
)
    requires
        claims::named(m, r),
        shape == instruction::classified(instr),
        machine::computed(instr, r) matches Some(o) ==> {
            &&& shape.defined() == Some(o.dst)
            &&& machine::shape_value(shape, o.bits, r) == Some(o.value)
            &&& machine::shape_width(shape) matches Some(n) ==> n
                == if machine::wider_than_shape(instr) {
                32
            } else {
                o.bits
            }
            &&& o.bits == 32 || o.bits == 64
            &&& shape is LoadImm ==> o.bits == 64
            &&& machine::wider_than_shape(instr) ==> o.bits == 64
        },
        machine::computed(instr, r) is Some <==> match shape {
            InstructionShape::LoadImm { .. } => true,
            InstructionShape::BinReg { .. } => true,
            InstructionShape::BinImm { .. } => true,
            InstructionShape::BinImmRev { .. } => true,
            InstructionShape::Unary { op, .. } => op != UnaryOp::Sbrk,
            _ => false,
        },
        machine::loads(instr) == match shape {
            InstructionShape::Load { width, dst, base, offset } => Some(
                (dst, machine::indirect(width, base, offset)),
            ),
            InstructionShape::LoadAbsolute { width, dst, address } => Some(
                (dst, machine::absolute(width, address)),
            ),
            _ => None,
        },
        machine::stores(instr) == match shape {
            InstructionShape::Store { width, base, src, offset } => Some(
                (src, machine::indirect(width, base, offset)),
            ),
            InstructionShape::StoreAbsolute { width, src, address } => Some(
                (src, machine::absolute(width, address)),
            ),
            _ => None,
        },
        machine::stores_constant(instr) == match shape {
            InstructionShape::StoreImm { width, address, value } => Some(
                (value, machine::absolute(width, address)),
            ),
            InstructionShape::StoreImmInd { width, base, offset, value } => Some(
                (value, machine::indirect(width, base, offset)),
            ),
            _ => None,
        },
        machine::taken(instr, r) == match shape {
            InstructionShape::BranchImm { cond, reg, value, .. } => Some(
                machine::compares(cond@, r(reg) as int, machine::widened(value as int)),
            ),
            InstructionShape::BranchReg { cond, reg1, reg2, .. } => Some(
                machine::compares(cond@, r(reg1) as int, r(reg2) as int),
            ),
            _ => None,
        },
        shape.offset() == machine::jumps_by(instr),
        machine::moved(instr, r) == match shape {
            InstructionShape::CmovReg { is_zero, dst, src, cond } => machine::word64(
                dst,
                if (r(cond) == 0) == is_zero {
                    r(src) as int
                } else {
                    r(dst) as int
                },
            ),
            InstructionShape::CmovImm { is_zero, dst, cond, value } => machine::word64(
                dst,
                if (r(cond) == 0) == is_zero {
                    machine::widened(value as int)
                } else {
                    r(dst) as int
                },
            ),
            _ => None,
        },
        instr matches Instruction::Jump { offset } ==> shape == (InstructionShape::Jump { offset }),
        instr matches Instruction::LoadImmJump { reg, value, offset } ==> shape == (
        InstructionShape::LoadImmJump { dst: reg, value, offset }),
    ensures
        tells(raw_statement(shape), instr, m, r, |reg: u8| instruction::register_name(reg)),
{
    match shape {
        InstructionShape::LoadAbsolute { address, .. } => lemma_low_address(address),
        InstructionShape::StoreAbsolute { address, .. } => lemma_low_address(address),
        InstructionShape::StoreImm { address, .. } => lemma_low_address(address),
        InstructionShape::BinImm { value, .. } => machine::lemma_cut(value as int),
        InstructionShape::BinImmRev { value, .. } => machine::lemma_cut(value as int),
        _ => {},
    }
}

/// The raw line of an instruction, over register names, says what the machine does on it:
/// what it computes and where that goes, what it reads from or writes to memory, when it
/// moves, and when it jumps and how far.
pub proof fn law_raw_line_tells_instruction(instr: Instruction)
    ensures
        exists|x: Statement| #[trigger]
            is_told(x, instruction::classified(instr).raw_text(), instr),
{
    let shape = instruction::classified(instr);
    let x = raw_statement(shape);
    lemma_raw_text(shape);
    assert forall|m: Meaning, r: spec_fn(u8) -> u64| #[trigger]
        claims::named(m, r) implies tells(
        x,
        instr,
        m,
        r,
        |reg: u8| instruction::register_name(reg),
    ) by {
        lemma_tells(instr, m, r);
    }
    assert(is_told(x, shape.raw_text(), instr));
}

/// Whether the statement is written as `t` and says what the machine does, whatever the
/// variables hold that the instruction at `pc` uses.
pub open spec fn is_told_lifted(
    x: Statement,
    t: Seq<char>,
    l: Lifted,
    pc: usize,
    instr: Instruction,
) -> bool {
    &&& x.text() == t
    &&& forall|m: Meaning, r: spec_fn(u8) -> u64| #[trigger]
        execution::holds_registers(l, pc, instr, m, r) ==> tells(
            x,
            instr,
            m,
            r,
            |reg: u8| l.def_name(pc, reg),
        )
}

/// Whether the instruction is lifted as a line of text that branches, moves or writes a
/// constant to a fixed address.
pub open spec fn is_line(shape: InstructionShape) -> bool {
    match shape {
        InstructionShape::BranchImm { .. } => true,
        InstructionShape::BranchReg { .. } => true,
        InstructionShape::CmovReg { .. } => true,
        InstructionShape::CmovImm { .. } => true,
        InstructionShape::StoreImm { .. } => true,
        _ => false,
    }
}

spec fn lifted_statement(l: Lifted, pc: usize, shape: InstructionShape) -> Statement {
    let used = |reg: u8| Term::Name(l.use_name(pc, reg));
    match shape {
        InstructionShape::CmovReg { is_zero, dst, src, cond } => Statement::Move {
            cond: l.use_name(pc, cond),
            zero: is_zero,
            dst: l.def_name(pc, dst),
            v: used(src),
        },
        InstructionShape::CmovImm { is_zero, dst, cond, value } => Statement::Move {
            cond: l.use_name(pc, cond),
            zero: is_zero,
            dst: l.def_name(pc, dst),
            v: number(value),
        },
        InstructionShape::BranchImm { cond, reg, value, offset } => Statement::Branch {
            l: used(reg),
            symbol: cond@,
            r: number(value),
            offset: offset as int,
        },
        InstructionShape::BranchReg { cond, reg1, reg2, offset } => Statement::Branch {
            l: used(reg1),
            symbol: cond@,
            r: used(reg2),
            offset: offset as int,
        },
        InstructionShape::StoreImm { width, address, value } => Statement::StoreAt {
            width,
            at: (address as u32) as nat,
            v: number(value),
        },
        _ => Statement::Other(seq![]),
    }
}

proof fn lemma_lifted_tells(
    l: Lifted,
    pc: usize,
    instr: Instruction,
    m: Meaning,
    r: spec_fn(u8) -> u64,
)
    requires
        is_line(instruction::classified(instr)),
        execution::holds_registers(l, pc, instr, m, r),
    ensures
        tells(
            lifted_statement(l, pc, instruction::classified(instr)),
            instr,
            m,
            r,
            |reg: u8| l.def_name(pc, reg),
        ),
{
    let shape = instruction::classified(instr);
    machine::law_shape_computes(instr, r);
    machine::law_shape_accesses(instr);
    machine::law_shape_moves(instr, r);
    machine::law_shape_branches(instr, r);
    lemma_jump_shape(instr);
    let us = shape.uses();
    if us.len() > 0 {
        assert(us.contains(us[0]));
        assert((m.vars)(l.use_name(pc, us[0])) == r(us[0]));
    }
    if us.len() > 1 {
        assert(us.contains(us[1]));
        assert((m.vars)(l.use_name(pc, us[1])) == r(us[1]));
    }
    if let InstructionShape::StoreImm { address, .. } = shape {
        lemma_low_address(address);
    }
}

/// The line of a lifted branch, conditional move or store of a constant says what the
/// machine does, over the variables that hold the registers.
pub proof fn law_lifted_line_tells_instruction(l: Lifted, pc: usize, instr: Instruction)
    requires
        is_line(instruction::classified(instr)),
    ensures
        l.expression_of(pc, instruction::classified(instr)) == Expr::Raw(
            l.raw_line(pc, instruction::classified(instr)),
        ),
        exists|x: Statement| #[trigger]
            is_told_lifted(
                x,
                l.raw_line(pc, instruction::classified(instr)),
                l,
                pc,
                instr,
            ),
{
    let shape = instruction::classified(instr);
    let x = lifted_statement(l, pc, shape);
    if let InstructionShape::StoreImm { width, .. } = shape {
        lemma_width_name(width);
    }
    assert(x.text() == l.raw_line(pc, shape));
    assert forall|m: Meaning, r: spec_fn(u8) -> u64| #[trigger]
        execution::holds_registers(l, pc, instr, m, r) implies tells(
        x,
        instr,
        m,
        r,
        |reg: u8| l.def_name(pc, reg),
    ) by {
        lemma_lifted_tells(l, pc, instr, m, r);
    }
    assert(is_told_lifted(x, l.raw_line(pc, shape), l, pc, instr));
}

/// An indirect jump is written as a halt exactly where its register is defined as the
/// constant address -65536, which the register then holds, and else as a call through the
/// register.
pub proof fn law_halt_is_jump_to_halt_address(
    l: Lifted,
    pc: usize,
    reg: u8,
    m: Meaning,
    r: spec_fn(u8) -> u64,
)
    requires
        (m.vars)(l.use_name(pc, reg)) == r(reg),
        l.definition(l.use_name(pc, reg)) matches Some(e) ==> meaning::value(m, e) == r(reg),
    ensures
        ({
            let line = l.raw_line(pc, InstructionShape::JumpInd { reg });
            &&& line == "halt()"@ || line == "call_indirect("@ + l.use_name(pc, reg) + ")"@
            &&& line == "halt()"@ ==> r(reg) as int == machine::cut(64, -65536)
            &&& l.var_at_use.contains_key((pc, reg)) && l.definition(l.use_name(pc, reg)) == Some(
                Expr::Const(-65536i64),
            ) ==> line == "halt()"@
        }),
{
    let line = l.raw_line(pc, InstructionShape::JumpInd { reg });
    reveal_strlit("halt()");
    reveal_strlit("call_indirect(");
    reveal(machine::cut);
    if line == "halt()"@ && !l.halts(pc, reg) {
        assert(line[0] == "call_indirect("@[0]);
        assert("halt()"@[0] == 'h' && "call_indirect("@[0] == 'c');
    }
}

} // verus!
