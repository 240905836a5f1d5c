//! That the expressions of instructions have the values that the machine computes.

use crate::instruction;
use crate::instruction::{BinOp, InstructionShape, UnaryOp};
use crate::lifting::expr::Expr;
use crate::lifting::meaning;
use crate::lifting::meaning::Meaning;
use crate::lifting::program::Lifted;
use crate::lifting::render;
use crate::machine;
use crate::pvm::Instruction;
use vstd::prelude::*;

verus! {

/// Whether `m` gives every operator what the machine's words of 64 bits give.
pub open spec fn faithful(m: Meaning) -> bool {
    &&& forall|op: BinOp, a: u64, b: u64| #[trigger]
        (m.binary)(op, a, b) as int == machine::apply(op, 64, a as int, b as int)
    &&& forall|op: UnaryOp, a: u64|
        machine::apply_unary(op, a as int) is Some ==> #[trigger] (m.unary)(op, a) as int
            == machine::apply_unary(op, a as int)->0
}

/// Whether the variables that the instruction at `pc` uses hold its registers.
pub open spec fn holds_registers(
    l: Lifted,
    pc: usize,
    instr: Instruction,
    m: Meaning,
    r: spec_fn(u8) -> u64,
) -> bool {
    forall|reg: u8|
        instruction::classified(instr).uses().contains(reg) ==> (m.vars)(
            #[trigger] l.use_name(pc, reg),
        ) == r(reg)
}

/// The value of an expression in words of `n` bits. An expression names no width: that of a
/// 32-bit instruction is read in words of 32 bits.
pub open spec fn read(m: Meaning, n: nat, e: Expr) -> int {
    if n == 64 {
        meaning::value(m, e) as int
    } else {
        match e {
            Expr::BinOp { op, lhs, rhs } => machine::apply(
                op,
                n,
                machine::cut(n, meaning::value(m, *lhs) as int),
                machine::cut(n, meaning::value(m, *rhs) as int),
            ),
            _ => machine::cut(n, meaning::value(m, e) as int),
        }
    }
}

proof fn lemma_quotient(x: int, y: int)
    requires
        i64::MIN <= x <= i64::MAX,
        y != 0,
        !(x == i64::MIN && y == -1),
    ensures
        machine::quotient(x, y) == meaning::quotient(x, y),
        i64::MIN <= machine::quotient(x, y) <= i64::MAX,
{
    let a = if x < 0 {
        -x
    } else {
        x
    };
    let b = if y < 0 {
        -y
    } else {
        y
    };
    assert(0 <= a / b <= a) by (nonlinear_arith)
        requires
            a >= 0,
            b >= 1,
    ;
    if x == i64::MIN && y < 0 {
        assert(a / b < a) by (nonlinear_arith)
            requires
                a >= 1,
                b >= 2,
        ;
    }
}

/// An operator gives what the machine's words of 64 bits give.
pub proof fn law_operators_are_the_machines(m: Meaning, op: BinOp, a: u64, b: u64)
    requires
        faithful(m),
    ensures
        meaning::operate(m, op, a, b) as int == machine::apply(op, 64, a as int, b as int),
{
    reveal(machine::cut);
    reveal(machine::signed);
    reveal(machine::div_u);
    reveal(machine::div_s);
    reveal(machine::and);
    reveal(machine::or);
    reveal(machine::xor);
    reveal(machine::left);
    reveal(machine::right);
    reveal(machine::right_signed);
    let x = render::as_signed(a);
    let y = render::as_signed(b);
    assert(x == machine::signed(64, a as int));
    assert(y == machine::signed(64, b as int));
    assert((m.binary)(op, a, b) as int == machine::apply(op, 64, a as int, b as int));
    match op {
        BinOp::DivS => {
            if b != 0 && !(x == i64::MIN && y == -1) {
                lemma_quotient(x, y);
            }
        },
        _ => {},
    }
}

/// The expression of an instruction that computes from registers has the value that the
/// machine leaves in the instruction's destination, whatever the registers hold.
pub proof fn law_expression_has_machine_value(
    l: Lifted,
    pc: usize,
    instr: Instruction,
    m: Meaning,
    r: spec_fn(u8) -> u64,
)
    requires
        faithful(m),
        holds_registers(l, pc, instr, m, r),
        machine::computed(instr, r) is Some,
    ensures
        instruction::classified(instr).defined() == Some(machine::computed(instr, r)->0.dst),
        read(
            m,
            machine::computed(instr, r)->0.bits,
            l.expression_of(pc, instruction::classified(instr)),
        ) == machine::computed(instr, r)->0.value,
{
    machine::law_shape_computes(instr, r);
    lemma_value(l, pc, instr, instruction::classified(instr), machine::computed(instr, r)->0, m, r);
}

proof fn lemma_value(
    l: Lifted,
    pc: usize,
    instr: Instruction,
    shape: InstructionShape,
    o: machine::Outcome,
    m: Meaning,
    r: spec_fn(u8) -> u64,
)
    requires
        faithful(m),
        shape == instruction::classified(instr),
        holds_registers(l, pc, instr, m, r),
        machine::shape_value(shape, o.bits, r) == Some(o.value),
        o.bits == 32 || o.bits == 64,
        shape is Unary ==> o.bits == 64 && shape->Unary_op != UnaryOp::Not,
    ensures
        read(m, o.bits, l.expression_of(pc, shape)) == o.value,
{
    let e = l.expression_of(pc, shape);
    let us = shape.uses();
    if us.len() > 0 {
        assert(us.contains(us[0]));
        assert((m.vars)(l.use_name(pc, us[0])) == r(us[0]));
    }
    if us.len() > 1 {
        assert(us.contains(us[1]));
        assert((m.vars)(l.use_name(pc, us[1])) == r(us[1]));
    }
    match shape {
        InstructionShape::LoadImm { value, .. } => {
            lemma_constant(value);
            machine::lemma_cut(value as int);
        },
        InstructionShape::BinReg { op, src1, src2, .. } => {
            law_operators_are_the_machines(m, op, r(src1), r(src2));
            machine::lemma_cut(r(src1) as int);
            machine::lemma_cut(r(src2) as int);
        },
        InstructionShape::BinImm { op, src, value, .. } => {
            let c = meaning::bits(value as i64);
            law_operators_are_the_machines(m, op, r(src), c);
            lemma_constant(value as i64);
            machine::lemma_cut(value as int);
            machine::lemma_cut(r(src) as int);
        },
        InstructionShape::BinImmRev { op, src, value, .. } => {
            let c = meaning::bits(value as i64);
            law_operators_are_the_machines(m, op, c, r(src));
            lemma_constant(value as i64);
            machine::lemma_cut(value as int);
            machine::lemma_cut(r(src) as int);
        },
        InstructionShape::Unary { op, src, .. } => {
            assert((m.unary)(op, r(src)) as int == machine::apply_unary(op, r(src) as int)->0);
        },
        _ => {},
    }
    reveal_with_fuel(meaning::value, 3);
}

proof fn lemma_constant(v: i64)
    ensures
        meaning::bits(v) == machine::cut(64, v as int),
{
    reveal(machine::cut);
}

/// The expression of a load reads what the machine reads, and that of a store writes what
/// the machine writes, at the same place.
pub proof fn law_expression_has_machine_access(
    l: Lifted,
    pc: usize,
    instr: Instruction,
    m: Meaning,
    r: spec_fn(u8) -> u64,
)
    requires
        holds_registers(l, pc, instr, m, r),
    ensures
        machine::loads(instr) matches Some((dst, place)) ==> {
            &&& instruction::classified(instr).defined() == Some(dst)
            &&& meaning::value(m, l.expression_of(pc, instruction::classified(instr))) == (m.load)(
                place.width,
                place.address(r),
            )
        },
        machine::stores(instr) matches Some((src, place)) ==> {
            &&& instruction::classified(instr).defined() is None
            &&& meaning::value(m, l.expression_of(pc, instruction::classified(instr))) == (m.store)(
                place.width,
                place.address(r),
                r(src),
            )
        },
{
    machine::law_shape_accesses(instr);
    lemma_access(l, pc, instr, instruction::classified(instr), m, r);
}

proof fn lemma_access(
    l: Lifted,
    pc: usize,
    instr: Instruction,
    shape: InstructionShape,
    m: Meaning,
    r: spec_fn(u8) -> u64,
)
    requires
        shape == instruction::classified(instr),
        holds_registers(l, pc, instr, m, r),
    ensures
        match shape {
            InstructionShape::Load { width, dst, base, offset } => meaning::value(
                m,
                l.expression_of(pc, shape),
            ) == (m.load)(width, machine::indirect(width, base, offset).address(r)),
            InstructionShape::LoadAbsolute { width, dst, address } => meaning::value(
                m,
                l.expression_of(pc, shape),
            ) == (m.load)(width, machine::absolute(width, address).address(r)),
            InstructionShape::Store { width, base, src, offset } => meaning::value(
                m,
                l.expression_of(pc, shape),
            ) == (m.store)(width, machine::indirect(width, base, offset).address(r), r(src)),
            InstructionShape::StoreAbsolute { width, src, address } => meaning::value(
                m,
                l.expression_of(pc, shape),
            ) == (m.store)(width, machine::absolute(width, address).address(r), r(src)),
            _ => true,
        },
{
    let us = shape.uses();
    if us.len() > 0 {
        assert(us.contains(us[0]));
        assert((m.vars)(l.use_name(pc, us[0])) == r(us[0]));
    }
    if us.len() > 1 {
        assert(us.contains(us[1]));
        assert((m.vars)(l.use_name(pc, us[1])) == r(us[1]));
    }
    reveal_with_fuel(meaning::value, 3);
    reveal(machine::cut);
}

} // verus!
