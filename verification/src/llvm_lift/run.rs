//! That the lines of LLVM IR written for an instruction do what the instruction does.
//!
//! A step is one line and what LLVM does on it. The lines for an instruction are those of
//! some steps, and running the steps from any state leaves in the registers and in memory
//! what the instruction leaves there.

use crate::cfg;
use crate::cfg::BasicBlock;
use crate::instruction;
use crate::instruction::{BinOp, BitWidth, InstructionShape, MemWidth, UnaryOp};
use crate::llvm_lift::body;
use crate::llvm_lift::lines;
use crate::llvm_lift::module;
use crate::llvm_lift::ops;
use crate::llvm_lift::ops::Ir;
use crate::machine;
use crate::pvm::Instruction;
use crate::text;
use vstd::prelude::*;

verus! {

/// An integer type.
pub ghost enum Ty {
    I1,
    I8,
    I16,
    I32,
    I64,
    I128,
}

impl Ty {
    pub open spec fn text(self) -> Seq<char> {
        match self {
            Ty::I1 => "i1"@,
            Ty::I8 => "i8"@,
            Ty::I16 => "i16"@,
            Ty::I32 => "i32"@,
            Ty::I64 => "i64"@,
            Ty::I128 => "i128"@,
        }
    }

    pub open spec fn bits(self) -> nat {
        match self {
            Ty::I1 => 1,
            Ty::I8 => 8,
            Ty::I16 => 16,
            Ty::I32 => 32,
            Ty::I64 => 64,
            Ty::I128 => 128,
        }
    }
}

/// An operation on two words.
pub ghost enum Opcode {
    Add,
    Sub,
    Mul,
    UDiv,
    SDiv,
    URem,
    SRem,
    Shl,
    LShr,
    AShr,
    And,
    Or,
    Xor,
}

impl Opcode {
    pub open spec fn text(self) -> Seq<char> {
        match self {
            Opcode::Add => "add"@,
            Opcode::Sub => "sub"@,
            Opcode::Mul => "mul"@,
            Opcode::UDiv => "udiv"@,
            Opcode::SDiv => "sdiv"@,
            Opcode::URem => "urem"@,
            Opcode::SRem => "srem"@,
            Opcode::Shl => "shl"@,
            Opcode::LShr => "lshr"@,
            Opcode::AShr => "ashr"@,
            Opcode::And => "and"@,
            Opcode::Or => "or"@,
            Opcode::Xor => "xor"@,
        }
    }

    /// The result on words of `n` bits, where LLVM defines one.
    pub open spec fn result(self, n: nat, a: int, b: int) -> int {
        let x = machine::signed(n, a);
        let y = machine::signed(n, b);
        match self {
            Opcode::Add => machine::cut(n, a + b),
            Opcode::Sub => machine::cut(n, a - b),
            Opcode::Mul => machine::cut(n, a * b),
            Opcode::UDiv => a / b,
            Opcode::SDiv => machine::cut(n, machine::quotient(x, y)),
            Opcode::URem => a % b,
            Opcode::SRem => machine::cut(n, x - y * machine::quotient(x, y)),
            Opcode::Shl => machine::left(n, a, b),
            Opcode::LShr => a / (vstd::arithmetic::power2::pow2(b as nat) as int),
            Opcode::AShr => machine::right_signed(n, a, b),
            Opcode::And => machine::and(a, b),
            Opcode::Or => machine::or(a, b),
            Opcode::Xor => machine::xor(a, b),
        }
    }
}

/// A predicate of a comparison.
pub ghost enum Predicate {
    Eq,
    Ne,
    Ult,
    Ule,
    Ugt,
    Uge,
    Slt,
    Sle,
    Sgt,
    Sge,
}

impl Predicate {
    pub open spec fn text(self) -> Seq<char> {
        match self {
            Predicate::Eq => "eq"@,
            Predicate::Ne => "ne"@,
            Predicate::Ult => "ult"@,
            Predicate::Ule => "ule"@,
            Predicate::Ugt => "ugt"@,
            Predicate::Uge => "uge"@,
            Predicate::Slt => "slt"@,
            Predicate::Sle => "sle"@,
            Predicate::Sgt => "sgt"@,
            Predicate::Sge => "sge"@,
        }
    }

    pub open spec fn holds(self, n: nat, a: int, b: int) -> bool {
        let x = machine::signed(n, a);
        let y = machine::signed(n, b);
        match self {
            Predicate::Eq => a == b,
            Predicate::Ne => a != b,
            Predicate::Ult => a < b,
            Predicate::Ule => a <= b,
            Predicate::Ugt => a > b,
            Predicate::Uge => a >= b,
            Predicate::Slt => x < y,
            Predicate::Sle => x <= y,
            Predicate::Sgt => x > y,
            Predicate::Sge => x >= y,
        }
    }
}

/// A change of width.
pub ghost enum Cast {
    Trunc,
    ZExt,
    SExt,
}

impl Cast {
    pub open spec fn text(self) -> Seq<char> {
        match self {
            Cast::Trunc => "trunc"@,
            Cast::ZExt => "zext"@,
            Cast::SExt => "sext"@,
        }
    }

    pub open spec fn result(self, from: Ty, to: Ty, v: int) -> int {
        match self {
            Cast::Trunc => machine::cut(to.bits(), v),
            Cast::ZExt => v,
            Cast::SExt => machine::cut(to.bits(), machine::signed(from.bits(), v)),
        }
    }
}

/// A function of LLVM on one word.
pub ghost enum Intrinsic {
    CtPop,
    BSwap,
    CtLz,
    CtTz,
}

impl Intrinsic {
    pub open spec fn text(self) -> Seq<char> {
        match self {
            Intrinsic::CtPop => "ctpop"@,
            Intrinsic::BSwap => "bswap"@,
            Intrinsic::CtLz => "ctlz"@,
            Intrinsic::CtTz => "cttz"@,
        }
    }

    pub open spec fn result(self, n: nat, v: int) -> int {
        match self {
            Intrinsic::CtPop => machine::ones(n, v),
            Intrinsic::BSwap => machine::bytes_reversed(n / 8, v),
            Intrinsic::CtLz => machine::leading_zeros(n, v),
            Intrinsic::CtTz => machine::trailing_zeros(n, v),
        }
    }
}

/// A value: a temporary by its number, or a constant.
pub ghost enum Term {
    Tmp(u64),
    Number(int),
}

impl Term {
    pub open spec fn text(self) -> Seq<char> {
        match self {
            Term::Tmp(n) => ops::tmp_name(n),
            Term::Number(v) => text::dec_signed(v),
        }
    }

    /// Whether it is a temporary with a number below `n`.
    pub open spec fn before(self, n: u64) -> bool {
        self matches Term::Tmp(t) && t < n
    }
}

/// A store of the low `bits` bits of a value.
pub ghost struct Write {
    pub bits: nat,
    pub address: int,
    pub value: int,
}

/// What the temporaries and the registers hold, what a read of so many bits from an address
/// gives, and what has been written.
pub ghost struct State {
    pub tmps: spec_fn(u64) -> int,
    pub regs: spec_fn(u8) -> u64,
    pub memory: spec_fn(nat, int) -> int,
    pub wrote: Seq<Write>,
}

impl State {
    pub open spec fn value(self, n: nat, v: Term) -> int {
        match v {
            Term::Tmp(t) => (self.tmps)(t),
            Term::Number(k) => machine::cut(n, k),
        }
    }

    pub open spec fn set(self, t: u64, v: int) -> State {
        State {
            tmps: |k: u64|
                if k == t {
                    v
                } else {
                    (self.tmps)(k)
                },
            ..self
        }
    }

    pub open spec fn stored(self, reg: u8, v: int) -> State {
        State {
            regs: |k: u8|
                if k == reg {
                    v as u64
                } else {
                    (self.regs)(k)
                },
            ..self
        }
    }
}

/// A line.
pub ghost enum Step {
    Load { t: u64, reg: u8 },
    Store { v: Term, reg: u8 },
    /// A constant, as a sum with zero.
    Constant { t: u64, value: int },
    /// A sum with a constant.
    Offset { t: u64, v: Term, offset: int },
    Op { t: u64, op: Opcode, ty: Ty, l: Term, r: Term },
    Compare { t: u64, pred: Predicate, ty: Ty, l: Term, r: Term },
    Convert { t: u64, cast: Cast, from: Ty, v: Term, to: Ty },
    Select { t: u64, c: Term, ty: Ty, l: Term, r: Term },
    SelectConstant { t: u64, c: Term, value: int, r: Term },
    /// `fshl` or `fshr`: the words `l` and `l` side by side, shifted by `r`.
    Funnel { t: u64, left: bool, ty: Ty, l: Term, r: Term },
    Call { t: u64, f: Intrinsic, ty: Ty, v: Term },
    /// A count of zeros, which is the width where there is no one bit.
    Count { t: u64, f: Intrinsic, ty: Ty, v: Term },
    /// A place in the program's memory.
    Element { t: u64, address: Term },
    Read { t: u64, ty: Ty, place: Term },
    Write { ty: Ty, v: Term, place: Term },
}

pub open spec fn funnel_name(left: bool) -> Seq<char> {
    if left {
        "fshl"@
    } else {
        "fshr"@
    }
}

/// The word `a` twice, shifted to the left or to the right by `k` places.
pub open spec fn funnelled(left: bool, n: nat, a: int, k: int) -> int {
    if k == 0 {
        a
    } else if left {
        machine::left(n, a, k) + machine::right(a, n - k)
    } else {
        machine::left(n, a, n - k) + machine::right(a, k)
    }
}

impl Step {
    /// The text `s` with this line behind.
    #[verifier::opaque]
    pub open spec fn after(self, s: Seq<char>) -> Seq<char> {
        match self {
            Step::Load { t, reg } => s + "  "@ + ops::tmp_name(t) + " = load i64, ptr %r"@
                + text::dec(reg as nat) + ", align 8\n"@,
            Step::Store { v, reg } => s + "  store i64 "@ + v.text() + ", ptr %r"@ + text::dec(
                reg as nat,
            ) + ", align 8\n"@,
            Step::Constant { t, value } => s + "  "@ + ops::tmp_name(t) + " = add i64 0, "@
                + text::dec_signed(value) + "\n"@,
            Step::Offset { t, v, offset } => s + "  "@ + ops::tmp_name(t) + " = add i64 "@
                + v.text() + ", "@ + text::dec_signed(offset) + "\n"@,
            Step::Op { t, op, ty, l, r } => s + "  "@ + ops::tmp_name(t) + " = "@ + op.text()
                + " "@ + ty.text() + " "@ + l.text() + ", "@ + r.text() + "\n"@,
            Step::Compare { t, pred, ty, l, r } => s + "  "@ + ops::tmp_name(t) + " = icmp "@
                + pred.text() + " "@ + ty.text() + " "@ + l.text() + ", "@ + r.text() + "\n"@,
            Step::Convert { t, cast, from, v, to } => s + "  "@ + ops::tmp_name(t) + " = "@
                + cast.text() + " "@ + from.text() + " "@ + v.text() + " to "@ + to.text()
                + "\n"@,
            Step::Select { t, c, ty, l, r } => s + "  "@ + ops::tmp_name(t) + " = select i1 "@
                + c.text() + ", "@ + ty.text() + " "@ + l.text() + ", "@ + ty.text() + " "@
                + r.text() + "\n"@,
            Step::SelectConstant { t, c, value, r } => s + "  "@ + ops::tmp_name(t)
                + " = select i1 "@ + c.text() + ", i64 "@ + text::dec_signed(value) + ", i64 "@
                + r.text() + "\n"@,
            Step::Funnel { t, left, ty, l, r } => s + "  "@ + ops::tmp_name(t) + " = call "@
                + ty.text() + " @llvm."@ + funnel_name(left) + "."@ + ty.text() + "("@ + ty.text()
                + " "@ + l.text() + ", "@ + ty.text() + " "@ + l.text() + ", "@ + ty.text() + " "@
                + r.text() + ")\n"@,
            Step::Call { t, f, ty, v } => s + "  "@ + ops::tmp_name(t) + " = call "@ + ty.text()
                + " @llvm."@ + f.text() + "."@ + ty.text() + "("@ + ty.text() + " "@ + v.text()
                + ")\n"@,
            Step::Count { t, f, ty, v } => s + "  "@ + ops::tmp_name(t) + " = call "@ + ty.text()
                + " @llvm."@ + f.text() + "."@ + ty.text() + "("@ + ty.text() + " "@ + v.text()
                + ", i1 false)\n"@,
            Step::Element { t, address } => s + "  "@ + ops::tmp_name(t)
                + " = getelementptr [268435456 x i8], ptr @pvm_memory, i64 0, i64 "@
                + address.text() + "\n"@,
            Step::Read { t, ty, place } => s + "  "@ + ops::tmp_name(t) + " = load "@ + ty.text()
                + ", ptr "@ + place.text() + "\n"@,
            Step::Write { ty, v, place } => s + "  store "@ + ty.text() + " "@ + v.text()
                + ", ptr "@ + place.text() + "\n"@,
        }
    }

    /// What LLVM does on this line.
    pub open spec fn run(self, st: State) -> State {
        match self {
            Step::Load { t, reg } => st.set(t, (st.regs)(reg) as int),
            Step::Store { v, reg } => st.stored(reg, st.value(64, v)),
            Step::Constant { t, value } => st.set(t, machine::cut(64, value)),
            Step::Offset { t, v, offset } => st.set(
                t,
                machine::cut(64, st.value(64, v) + offset),
            ),
            Step::Op { t, op, ty, l, r } => st.set(
                t,
                op.result(ty.bits(), st.value(ty.bits(), l), st.value(ty.bits(), r)),
            ),
            Step::Compare { t, pred, ty, l, r } => st.set(
                t,
                machine::flag(
                    pred.holds(ty.bits(), st.value(ty.bits(), l), st.value(ty.bits(), r)),
                ),
            ),
            Step::Convert { t, cast, from, v, to } => st.set(
                t,
                cast.result(from, to, st.value(from.bits(), v)),
            ),
            Step::Select { t, c, ty, l, r } => st.set(
                t,
                if st.value(1, c) == 1 {
                    st.value(ty.bits(), l)
                } else {
                    st.value(ty.bits(), r)
                },
            ),
            Step::SelectConstant { t, c, value, r } => st.set(
                t,
                if st.value(1, c) == 1 {
                    machine::cut(64, value)
                } else {
                    st.value(64, r)
                },
            ),
            Step::Funnel { t, left, ty, l, r } => st.set(
                t,
                funnelled(
                    left,
                    ty.bits(),
                    st.value(ty.bits(), l),
                    st.value(ty.bits(), r) % (ty.bits() as int),
                ),
            ),
            Step::Call { t, f, ty, v } => st.set(
                t,
                f.result(ty.bits(), st.value(ty.bits(), v)),
            ),
            Step::Count { t, f, ty, v } => st.set(
                t,
                f.result(ty.bits(), st.value(ty.bits(), v)),
            ),
            Step::Element { t, address } => st.set(t, st.value(64, address)),
            Step::Read { t, ty, place } => st.set(
                t,
                (st.memory)(ty.bits(), st.value(64, place)),
            ),
            Step::Write { ty, v, place } => State {
                wrote: st.wrote.push(
                    Write {
                        bits: ty.bits(),
                        address: st.value(64, place),
                        value: st.value(ty.bits(), v),
                    },
                ),
                ..st
            },
        }
    }
}

/// A list of steps.
pub ghost enum Code {
    End,
    Then(Step, Box<Code>),
}

/// The text `s` with the lines of the steps behind.
pub open spec fn written(s: Seq<char>, code: Code) -> Seq<char>
    decreases code,
{
    match code {
        Code::End => s,
        Code::Then(step, rest) => written(step.after(s), *rest),
    }
}

/// The state that the steps lead to.
pub open spec fn run(st: State, code: Code) -> State
    decreases code,
{
    match code {
        Code::End => st,
        Code::Then(step, rest) => run(step.run(st), *rest),
    }
}

spec fn chain(step: Step, rest: Code) -> Code {
    Code::Then(step, Box::new(rest))
}

proof fn lemma_constants()
    ensures
        text::dec_signed(0) == "0"@,
        text::dec_signed(64) == "64"@,
        text::dec_signed(-1) == "-1"@,
{
    reveal_strlit("0");
    reveal_strlit("64");
    reveal_strlit("-1");
    reveal_with_fuel(text::dec, 3);
    assert(text::dec_signed(0) =~= "0"@);
    assert(text::dec_signed(64) =~= "64"@);
    assert(text::dec_signed(-1) =~= "-1"@);
}

spec fn ty_of(w: BitWidth) -> Ty {
    match w {
        BitWidth::W32 => Ty::I32,
        BitWidth::W64 => Ty::I64,
    }
}

/// Whether LLVM defines what the instruction for an operator gives: no division by zero, no
/// overflow of a quotient, no shift by the width or more.
pub open spec fn settled(op: BinOp, n: nat, a: int, b: int) -> bool {
    match op {
        BinOp::DivU | BinOp::RemU => b != 0,
        BinOp::DivS | BinOp::RemS => b != 0 && !machine::overflows(n, a, b),
        BinOp::Shl | BinOp::ShrU | BinOp::ShrS => b < n,
        _ => true,
    }
}

pub open spec fn width_bits(w: BitWidth) -> nat {
    match w {
        BitWidth::W32 => 32,
        BitWidth::W64 => 64,
    }
}

spec fn opcode_of(op: BinOp) -> Opcode {
    match op {
        BinOp::Add => Opcode::Add,
        BinOp::Sub => Opcode::Sub,
        BinOp::Mul => Opcode::Mul,
        BinOp::DivU => Opcode::UDiv,
        BinOp::DivS => Opcode::SDiv,
        BinOp::RemU => Opcode::URem,
        BinOp::RemS => Opcode::SRem,
        BinOp::Shl => Opcode::Shl,
        BinOp::ShrU => Opcode::LShr,
        BinOp::ShrS => Opcode::AShr,
        BinOp::And => Opcode::And,
        BinOp::Or => Opcode::Or,
        _ => Opcode::Xor,
    }
}

spec fn predicate_of(op: BinOp) -> Predicate {
    match op {
        BinOp::LtU => Predicate::Ult,
        BinOp::LtS => Predicate::Slt,
        BinOp::GeU => Predicate::Uge,
        BinOp::GeS => Predicate::Sge,
        BinOp::GtU => Predicate::Ugt,
        BinOp::GtS => Predicate::Sgt,
        BinOp::LeU => Predicate::Ule,
        _ => Predicate::Sle,
    }
}

spec fn chosen(next: u64, pred: Predicate, ty: Ty, result: u64, l: Term, r: Term, tail: Code) -> Code {
    chain(
        Step::Compare { t: next, pred, ty, l, r },
        chain(Step::Select { t: result, c: Term::Tmp(next), ty, l, r }, tail),
    )
}

spec fn inverted(next: u64, op: Opcode, ty: Ty, result: u64, l: Term, r: Term, tail: Code) -> Code {
    chain(
        Step::Op { t: next, op: Opcode::Xor, ty, l: r, r: Term::Number(-1) },
        chain(Step::Op { t: result, op, ty, l, r: Term::Tmp(next) }, tail),
    )
}

spec fn operation(next: u64, op: BinOp, ty: Ty, result: u64, l: Term, r: Term, tail: Code) -> Code {
    match op {
        BinOp::NegAdd => chain(Step::Op { t: result, op: Opcode::Sub, ty, l: r, r: l }, tail),
        BinOp::RotL => chain(Step::Funnel { t: result, left: true, ty, l, r }, tail),
        BinOp::RotR => chain(Step::Funnel { t: result, left: false, ty, l, r }, tail),
        BinOp::AndInv => inverted(next, Opcode::And, ty, result, l, r, tail),
        BinOp::OrInv => inverted(next, Opcode::Or, ty, result, l, r, tail),
        BinOp::Xnor => chain(
            Step::Op { t: next, op: Opcode::Xor, ty, l, r },
            chain(
                Step::Op {
                    t: result,
                    op: Opcode::Xor,
                    ty,
                    l: Term::Tmp(next),
                    r: Term::Number(-1),
                },
                tail,
            ),
        ),
        BinOp::Max => chosen(next, Predicate::Sgt, ty, result, l, r, tail),
        BinOp::MaxU => chosen(next, Predicate::Ugt, ty, result, l, r, tail),
        BinOp::Min => chosen(next, Predicate::Slt, ty, result, l, r, tail),
        BinOp::MinU => chosen(next, Predicate::Ult, ty, result, l, r, tail),
        _ => chain(Step::Op { t: result, op: opcode_of(op), ty, l, r }, tail),
    }
}

/// Whether an operator is neither a comparison nor an upper half of a product.
spec fn ordinary(op: BinOp) -> bool {
    ops::predicate(op) is None && ops::extensions(op) is None
}

proof fn lemma_load(s: Seq<char>, t: u64, reg: u8)
    ensures
        (Step::Load { t, reg }).after(s) == lines::load_line(s, ops::tmp_name(t), reg),
{
    reveal(Step::after);
}

proof fn lemma_store(s: Seq<char>, v: Term, reg: u8)
    ensures
        (Step::Store { v, reg }).after(s) == lines::store_line(s, v.text(), reg),
{
    reveal(Step::after);
}

proof fn lemma_store_constant(s: Seq<char>, value: i64, reg: u8)
    ensures
        (Step::Store { v: Term::Number(value as int), reg }).after(s) == lines::store_const_line(s, value, reg),
{
    reveal(Step::after);
}

proof fn lemma_constant(s: Seq<char>, t: u64, value: i64)
    ensures
        (Step::Constant { t, value: value as int }).after(s) == lines::const_line(s, ops::tmp_name(t), value),
{
    reveal(Step::after);
}

proof fn lemma_offset(s: Seq<char>, t: u64, v: Term, offset: i64)
    ensures
        (Step::Offset { t, v, offset: offset as int }).after(s) == lines::offset_line(s, ops::tmp_name(t), v.text(), offset),
{
    reveal(Step::after);
}

proof fn lemma_op(s: Seq<char>, t: u64, op: Opcode, ty: Ty, l: Term, r: Term)
    ensures
        (Step::Op { t, op, ty, l, r }).after(s) == lines::op_line(s, ops::tmp_name(t), op.text(), ty.text(), l.text(), r.text()),
{
    reveal(Step::after);
}

proof fn lemma_compare(s: Seq<char>, t: u64, pred: Predicate, ty: Ty, l: Term, r: Term)
    ensures
        (Step::Compare { t, pred, ty, l, r }).after(s) == lines::compare_line(s, ops::tmp_name(t), pred.text(), ty.text(), l.text(), r.text()),
{
    reveal(Step::after);
}

proof fn lemma_convert(s: Seq<char>, t: u64, cast: Cast, from: Ty, v: Term, to: Ty)
    ensures
        (Step::Convert { t, cast, from, v, to }).after(s) == lines::cast_line(s, ops::tmp_name(t), cast.text(), from.text(), v.text(), to.text()),
{
    reveal(Step::after);
}

proof fn lemma_select(s: Seq<char>, t: u64, c: Term, ty: Ty, l: Term, r: Term)
    ensures
        (Step::Select { t, c, ty, l, r }).after(s) == lines::select_line(s, ops::tmp_name(t), c.text(), ty.text(), l.text(), r.text()),
{
    reveal(Step::after);
}

proof fn lemma_select_constant(s: Seq<char>, t: u64, c: Term, value: i64, r: Term)
    ensures
        (Step::SelectConstant { t, c, value: value as int, r }).after(s) == lines::select_const_line(s, ops::tmp_name(t), c.text(), value, r.text()),
{
    reveal(Step::after);
}

proof fn lemma_funnel(s: Seq<char>, t: u64, left: bool, ty: Ty, l: Term, r: Term)
    ensures
        (Step::Funnel { t, left, ty, l, r }).after(s) == lines::funnel_line(s, ops::tmp_name(t), funnel_name(left), ty.text(), l.text(), r.text()),
{
    reveal(Step::after);
}

proof fn lemma_call(s: Seq<char>, t: u64, f: Intrinsic, ty: Ty, v: Term)
    ensures
        (Step::Call { t, f, ty, v }).after(s) == lines::intrinsic_line(s, ops::tmp_name(t), f.text(), ty.text(), v.text()),
{
    reveal(Step::after);
}

proof fn lemma_count(s: Seq<char>, t: u64, f: Intrinsic, ty: Ty, v: Term)
    ensures
        (Step::Count { t, f, ty, v }).after(s) == lines::count_line(s, ops::tmp_name(t), f.text(), ty.text(), v.text()),
{
    reveal(Step::after);
}

proof fn lemma_element(s: Seq<char>, t: u64, address: Term)
    ensures
        (Step::Element { t, address }).after(s) == lines::element_line(s, ops::tmp_name(t), address.text()),
{
    reveal(Step::after);
}

proof fn lemma_read(s: Seq<char>, t: u64, ty: Ty, place: Term)
    ensures
        (Step::Read { t, ty, place }).after(s) == lines::read_line(s, ops::tmp_name(t), ty.text(), place.text()),
{
    reveal(Step::after);
}

proof fn lemma_write(s: Seq<char>, ty: Ty, v: Term, place: Term)
    ensures
        (Step::Write { ty, v, place }).after(s) == lines::write_line(s, ty.text(), v.text(), place.text()),
{
    reveal(Step::after);
}

proof fn lemma_then(s: Seq<char>, step: Step, tail: Code)
    ensures
        written(s, chain(step, tail)) == written(step.after(s), tail),
{
}

proof fn lemma_operation_text(
    s: Ir,
    op: BinOp,
    w: BitWidth,
    result: u64,
    l: Term,
    r: Term,
    tail: Code,
)
    requires
        ordinary(op),
    ensures
        written(s.text, operation(s.next, op, ty_of(w), result, l, r, tail)) == written(
            ops::operation(s, op, ops::ty_of(w), ops::tmp_name(result), l.text(), r.text()).text,
            tail,
        ),
{
    lemma_constants();
    let ty = ty_of(w);
    let n = s.next;
    match op {
        BinOp::NegAdd => lemma_op(s.text, result, Opcode::Sub, ty, r, l),
        BinOp::RotL => lemma_funnel(s.text, result, true, ty, l, r),
        BinOp::RotR => lemma_funnel(s.text, result, false, ty, l, r),
        BinOp::AndInv => lemma_inverted_text(s, Opcode::And, ty, result, l, r, tail),
        BinOp::OrInv => lemma_inverted_text(s, Opcode::Or, ty, result, l, r, tail),
        BinOp::Xnor => {
            lemma_op(s.text, n, Opcode::Xor, ty, l, r);
            let s1 = (Step::Op { t: n, op: Opcode::Xor, ty, l, r }).after(s.text);
            lemma_op(s1, result, Opcode::Xor, ty, Term::Tmp(n), Term::Number(-1));
            let rest = chain(
                Step::Op { t: result, op: Opcode::Xor, ty, l: Term::Tmp(n), r: Term::Number(-1) },
                tail,
            );
            lemma_then(s.text, Step::Op { t: n, op: Opcode::Xor, ty, l, r }, rest);
        },
        BinOp::Max => lemma_chosen_text(s, Predicate::Sgt, ty, result, l, r, tail),
        BinOp::MaxU => lemma_chosen_text(s, Predicate::Ugt, ty, result, l, r, tail),
        BinOp::Min => lemma_chosen_text(s, Predicate::Slt, ty, result, l, r, tail),
        BinOp::MinU => lemma_chosen_text(s, Predicate::Ult, ty, result, l, r, tail),
        _ => {
            lemma_op(s.text, result, opcode_of(op), ty, l, r);
            assert(ops::plain_op(op) == Some(opcode_of(op).text()));
        },
    }
}

proof fn lemma_inverted_text(
    s: Ir,
    op: Opcode,
    ty: Ty,
    result: u64,
    l: Term,
    r: Term,
    tail: Code,
)
    ensures
        written(s.text, inverted(s.next, op, ty, result, l, r, tail)) == written(
            ops::inverted(s, op.text(), ty.text(), ops::tmp_name(result), l.text(), r.text()).text,
            tail,
        ),
{
    lemma_constants();
    let n = s.next;
    let first = Step::Op { t: n, op: Opcode::Xor, ty, l: r, r: Term::Number(-1) };
    let second = Step::Op { t: result, op, ty, l, r: Term::Tmp(n) };
    lemma_op(s.text, n, Opcode::Xor, ty, r, Term::Number(-1));
    lemma_op(first.after(s.text), result, op, ty, l, Term::Tmp(n));
    lemma_then(s.text, first, chain(second, tail));
    lemma_then(first.after(s.text), second, tail);
}

proof fn lemma_chosen_text(
    s: Ir,
    pred: Predicate,
    ty: Ty,
    result: u64,
    l: Term,
    r: Term,
    tail: Code,
)
    ensures
        written(s.text, chosen(s.next, pred, ty, result, l, r, tail)) == written(
            ops::chosen(s, pred.text(), ty.text(), ops::tmp_name(result), l.text(), r.text()).text,
            tail,
        ),
{
    let n = s.next;
    let first = Step::Compare { t: n, pred, ty, l, r };
    let second = Step::Select { t: result, c: Term::Tmp(n), ty, l, r };
    lemma_compare(s.text, n, pred, ty, l, r);
    lemma_select(first.after(s.text), result, Term::Tmp(n), ty, l, r);
    lemma_then(s.text, first, chain(second, tail));
    lemma_then(first.after(s.text), second, tail);
}

/// A word of `n` bits, 32 or 64.
pub open spec fn is_word(n: nat, v: int) -> bool {
    &&& n == 32 || n == 64
    &&& 0 <= v < machine::words(n)
}

proof fn lemma_words(n: nat, v: int)
    requires
        is_word(n, v),
    ensures
        machine::cut(n, v) == v,
        machine::cut(n, machine::signed(n, v)) == v,
        machine::cut(n, -1) == machine::words(n) - 1,
{
    reveal(machine::cut);
    reveal(machine::signed);
    if n == 32 {
        assert(-1int % 0x1_0000_0000 == 0xffff_ffff);
    } else {
        assert(-1int % 0x1_0000_0000_0000_0000 == 0xffff_ffff_ffff_ffff);
    }
}

proof fn lemma_cut_is_word(n: nat, v: int)
    requires
        n == 32 || n == 64,
    ensures
        is_word(n, machine::cut(n, v)),
{
    reveal(machine::cut);
}

proof fn lemma_bitwise(n: nat, a: int, b: int)
    requires
        is_word(n, a),
        is_word(n, b),
    ensures
        is_word(n, machine::and(a, b)),
        is_word(n, machine::or(a, b)),
        is_word(n, machine::xor(a, b)),
        machine::xor(a, machine::words(n) - 1) == machine::inverse(n, a),
        is_word(n, machine::inverse(n, a)),
{
    reveal(machine::and);
    reveal(machine::or);
    reveal(machine::xor);
    reveal(machine::inverse);
    let x = a as u64;
    let y = b as u64;
    assert(x ^ 0xffff_ffff_ffff_ffff == 0xffff_ffff_ffff_ffff - x) by (bit_vector);
    if n == 32 {
        assert(x & y <= 0xffff_ffff && x | y <= 0xffff_ffff && x ^ y <= 0xffff_ffff && x
            ^ 0xffff_ffff == 0xffff_ffff - x) by (bit_vector)
            requires
                x <= 0xffff_ffff,
                y <= 0xffff_ffff,
        ;
    }
}

proof fn lemma_shifts(n: nat, a: int, k: int)
    requires
        is_word(n, a),
        0 <= k < n,
    ensures
        is_word(n, machine::left(n, a, k)),
        is_word(n, machine::right(a, k)),
        is_word(n, machine::right_signed(n, a, k)),
        machine::right(a, k) == a / (vstd::arithmetic::power2::pow2(k as nat) as int),
{
    reveal(machine::left);
    reveal(machine::right);
    reveal(machine::right_signed);
    let x = a as u64;
    let y = k as u64;
    vstd::bits::lemma_u64_shr_is_div(x, y);
    assert(x >> y <= x) by (bit_vector);
    lemma_cut_is_word(n, ((a as u64) << (k as u64)) as int);
    lemma_cut_is_word(n, ((machine::signed(n, a) as i64) >> (k as u64)) as int);
}

proof fn lemma_turned(n: nat, a: int, k: int)
    requires
        is_word(n, a),
        0 <= k < n,
    ensures
        is_word(n, machine::turned(n, a, k)),
{
    reveal(machine::turned);
    reveal(machine::left);
    reveal(machine::right);
    reveal(machine::cut);
    let x = a as u64;
    let y = k as u64;
    if k > 0 {
        if n == 64 {
            assert((x << y) + (x >> ((64 - y) as u64)) <= 0xffff_ffff_ffff_ffff) by (bit_vector)
                requires
                    0 < y < 64,
            ;
        } else {
            assert((x << y) % 0x1_0000_0000 + (x >> ((32 - y) as u64)) <= 0xffff_ffff)
                by (bit_vector)
                requires
                    0 < y < 32,
                    x <= 0xffff_ffff,
            ;
        }
    }
}

/// Every operator gives a word.
proof fn lemma_apply_is_word(op: BinOp, n: nat, a: int, b: int)
    requires
        is_word(n, a),
        is_word(n, b),
    ensures
        is_word(n, machine::apply(op, n, a, b)),
{
    lemma_cut_is_word(n, a + b);
    lemma_cut_is_word(n, a - b);
    lemma_cut_is_word(n, b - a);
    lemma_cut_is_word(n, a * b);
    match op {
        BinOp::DivU => {
            reveal(machine::div_u);
            if b > 0 {
                assert(0 <= a / b <= a) by (nonlinear_arith)
                    requires
                        a >= 0,
                        b > 0,
                ;
            }
        },
        BinOp::DivS => {
            reveal(machine::div_s);
            lemma_cut_is_word(n, machine::quotient(machine::signed(n, a), machine::signed(n, b)));
        },
        BinOp::RemU => {
            reveal(machine::rem_u);
            if b > 0 {
                assert(0 <= a % b < b) by (nonlinear_arith)
                    requires
                        b > 0,
                ;
            }
        },
        BinOp::RemS => {
            reveal(machine::rem_s);
            let x = machine::signed(n, a);
            let y = machine::signed(n, b);
            lemma_cut_is_word(n, x - y * machine::quotient(x, y));
        },
        BinOp::And | BinOp::Or | BinOp::Xor => lemma_bitwise(n, a, b),
        BinOp::Shl | BinOp::ShrU | BinOp::ShrS => lemma_shifts(n, a, b % (n as int)),
        BinOp::RotL => lemma_turned(n, a, b % (n as int)),
        BinOp::RotR => lemma_turned(n, a, (n - b % (n as int)) % (n as int)),
        BinOp::AndInv | BinOp::OrInv => {
            lemma_bitwise(n, b, b);
            lemma_bitwise(n, a, machine::inverse(n, b));
        },
        BinOp::Xnor => {
            lemma_bitwise(n, a, b);
            lemma_bitwise(n, machine::xor(a, b), b);
        },
        BinOp::Max => {
            reveal(machine::larger);
            lemma_cut_is_word(n, machine::larger(machine::signed(n, a), machine::signed(n, b)));
        },
        BinOp::Min => {
            reveal(machine::smaller);
            lemma_cut_is_word(n, machine::smaller(machine::signed(n, a), machine::signed(n, b)));
        },
        BinOp::MaxU => {
            reveal(machine::larger);
        },
        BinOp::MinU => {
            reveal(machine::smaller);
        },
        BinOp::MulUpperSS => {
            reveal(machine::upper);
            lemma_cut_is_word(
                n,
                (machine::signed(n, a) * machine::signed(n, b)) / machine::words(n),
            );
        },
        BinOp::MulUpperUU => {
            reveal(machine::upper);
            lemma_cut_is_word(n, (a * b) / machine::words(n));
        },
        BinOp::MulUpperSU => {
            reveal(machine::upper);
            lemma_cut_is_word(n, (machine::signed(n, a) * b) / machine::words(n));
        },
        _ => {},
    }
}

/// One instruction gives what its operator gives, where LLVM defines it.
proof fn lemma_plain_value(op: BinOp, n: nat, a: int, b: int)
    requires
        is_word(n, a),
        is_word(n, b),
        settled(op, n, a, b),
        ops::plain_op(op) is Some,
    ensures
        opcode_of(op).result(n, a, b) == machine::apply(op, n, a, b),
{
    match op {
        BinOp::DivU => {
            reveal(machine::div_u);
        },
        BinOp::DivS => {
            reveal(machine::div_s);
        },
        BinOp::RemU => {
            reveal(machine::rem_u);
        },
        BinOp::RemS => {
            reveal(machine::rem_s);
        },
        BinOp::Shl | BinOp::ShrU | BinOp::ShrS => {
            lemma_shifts(n, a, b);
            assert(b % (n as int) == b);
        },
        _ => {},
    }
}

/// What a state keeps while temporaries are set.
spec fn keeps(a: State, b: State) -> bool {
    &&& a.regs == b.regs
    &&& a.memory == b.memory
    &&& a.wrote == b.wrote
}

proof fn lemma_operation_value(
    st: State,
    next: u64,
    op: BinOp,
    w: BitWidth,
    result: u64,
    l: Term,
    r: Term,
    tail: Code,
) -> (end: State)
    requires
        ordinary(op),
        result < next,
        l.before(result),
        r.before(result),
        is_word(width_bits(w), st.value(width_bits(w), l)),
        is_word(width_bits(w), st.value(width_bits(w), r)),
        settled(op, width_bits(w), st.value(width_bits(w), l), st.value(width_bits(w), r)),
    ensures
        run(st, operation(next, op, ty_of(w), result, l, r, tail)) == run(end, tail),
        (end.tmps)(result) == machine::apply(
            op,
            width_bits(w),
            st.value(width_bits(w), l),
            st.value(width_bits(w), r),
        ),
        keeps(st, end),
{
    let n = width_bits(w);
    let a = st.value(n, l);
    let b = st.value(n, r);
    let ty = ty_of(w);
    reveal_with_fuel(run, 3);
    lemma_words(n, a);
    lemma_words(n, b);
    lemma_bitwise(n, a, b);
    lemma_bitwise(n, b, a);
    reveal(machine::larger);
    reveal(machine::smaller);
    match op {
        BinOp::NegAdd => (Step::Op { t: result, op: Opcode::Sub, ty, l: r, r: l }).run(st),
        BinOp::RotL => {
            reveal(machine::turned);
            (Step::Funnel { t: result, left: true, ty, l, r }).run(st)
        },
        BinOp::RotR => {
            reveal(machine::turned);
            (Step::Funnel { t: result, left: false, ty, l, r }).run(st)
        },
        BinOp::AndInv => lemma_inverted_value(st, next, Opcode::And, w, result, l, r, tail),
        BinOp::OrInv => lemma_inverted_value(st, next, Opcode::Or, w, result, l, r, tail),
        BinOp::Xnor => {
            let mid = (Step::Op { t: next, op: Opcode::Xor, ty, l, r }).run(st);
            lemma_bitwise(n, machine::xor(a, b), b);
            assert((mid.tmps)(next) == machine::xor(a, b));
            (Step::Op { t: result, op: Opcode::Xor, ty, l: Term::Tmp(next), r: Term::Number(-1) }).run(
                mid,
            )
        },
        BinOp::Max => lemma_chosen_value(st, next, Predicate::Sgt, w, result, l, r, tail),
        BinOp::MaxU => lemma_chosen_value(st, next, Predicate::Ugt, w, result, l, r, tail),
        BinOp::Min => lemma_chosen_value(st, next, Predicate::Slt, w, result, l, r, tail),
        BinOp::MinU => lemma_chosen_value(st, next, Predicate::Ult, w, result, l, r, tail),
        _ => {
            lemma_plain_value(op, n, a, b);
            (Step::Op { t: result, op: opcode_of(op), ty, l, r }).run(st)
        },
    }
}

proof fn lemma_inverted_value(
    st: State,
    next: u64,
    op: Opcode,
    w: BitWidth,
    result: u64,
    l: Term,
    r: Term,
    tail: Code,
) -> (end: State)
    requires
        result < next,
        l.before(result),
        r.before(result),
        is_word(width_bits(w), st.value(width_bits(w), r)),
    ensures
        run(st, inverted(next, op, ty_of(w), result, l, r, tail)) == run(end, tail),
        (end.tmps)(result) == op.result(
            width_bits(w),
            st.value(width_bits(w), l),
            machine::inverse(width_bits(w), st.value(width_bits(w), r)),
        ),
        keeps(st, end),
{
    let n = width_bits(w);
    let b = st.value(n, r);
    let ty = ty_of(w);
    reveal_with_fuel(run, 3);
    lemma_words(n, b);
    lemma_bitwise(n, b, b);
    let mid = (Step::Op { t: next, op: Opcode::Xor, ty, l: r, r: Term::Number(-1) }).run(st);
    assert((mid.tmps)(next) == machine::inverse(n, b));
    (Step::Op { t: result, op, ty, l, r: Term::Tmp(next) }).run(mid)
}

proof fn lemma_chosen_value(
    st: State,
    next: u64,
    pred: Predicate,
    w: BitWidth,
    result: u64,
    l: Term,
    r: Term,
    tail: Code,
) -> (end: State)
    requires
        result < next,
        l.before(result),
        r.before(result),
    ensures
        run(st, chosen(next, pred, ty_of(w), result, l, r, tail)) == run(end, tail),
        (end.tmps)(result) == if pred.holds(
            width_bits(w),
            st.value(width_bits(w), l),
            st.value(width_bits(w), r),
        ) {
            st.value(width_bits(w), l)
        } else {
            st.value(width_bits(w), r)
        },
        keeps(st, end),
{
    let ty = ty_of(w);
    reveal_with_fuel(run, 3);
    let mid = (Step::Compare { t: next, pred, ty, l, r }).run(st);
    (Step::Select { t: result, c: Term::Tmp(next), ty, l, r }).run(mid)
}

spec fn later(n: u64, k: int) -> u64 {
    (n + k) as u64
}

spec fn tmp(n: u64, k: int) -> Term {
    Term::Tmp(later(n, k))
}

spec fn comparison(next: u64, pred: Predicate, w: BitWidth, dst: u8, l: Term, r: Term) -> Code {
    let store = |k: int| chain(Step::Store { v: tmp(next, k), reg: dst }, Code::End);
    chain(
        Step::Compare { t: next, pred, ty: ty_of(w), l, r },
        chain(
            Step::Convert {
                t: later(next, 1),
                cast: Cast::ZExt,
                from: Ty::I1,
                v: tmp(next, 0),
                to: ty_of(w),
            },
            match w {
                BitWidth::W32 => chain(
                    Step::Convert {
                        t: later(next, 2),
                        cast: Cast::ZExt,
                        from: Ty::I32,
                        v: tmp(next, 1),
                        to: Ty::I64,
                    },
                    store(2),
                ),
                BitWidth::W64 => store(1),
            },
        ),
    )
}

proof fn lemma_comparison_text(
    s: Ir,
    pred: Predicate,
    w: BitWidth,
    dst: u8,
    l: Term,
    r: Term,
)
    requires
        s.next + 16 <= u64::MAX,
    ensures
        written(s.text, comparison(s.next, pred, w, dst, l, r)) == ops::comparison(
            s,
            pred.text(),
            w,
            dst,
            l.text(),
            r.text(),
        ).text,
{
    let n = s.next;
    let ty = ty_of(w);
    lemma_compare(s.text, n, pred, ty, l, r);
    let s1 = (Step::Compare { t: n, pred, ty, l, r }).after(s.text);
    lemma_convert(s1, later(n, 1), Cast::ZExt, Ty::I1, tmp(n, 0), ty);
    let s2 = (Step::Convert {
        t: later(n, 1),
        cast: Cast::ZExt,
        from: Ty::I1,
        v: tmp(n, 0),
        to: ty,
    }).after(s1);
    lemma_convert(s2, later(n, 2), Cast::ZExt, Ty::I32, tmp(n, 1), Ty::I64);
    let s3 = (Step::Convert {
        t: later(n, 2),
        cast: Cast::ZExt,
        from: Ty::I32,
        v: tmp(n, 1),
        to: Ty::I64,
    }).after(s2);
    lemma_store(s2, tmp(n, 1), dst);
    lemma_store(s3, tmp(n, 2), dst);
    reveal_with_fuel(written, 6);
}

/// Whether `end` is `st` with `v` in register `dst`.
pub open spec fn holds_result(st: State, end: State, dst: u8, v: int) -> bool {
    &&& (end.regs)(dst) as int == v
    &&& forall|reg: u8| reg != dst ==> #[trigger] (end.regs)(reg) == (st.regs)(reg)
    &&& end.memory == st.memory
    &&& end.wrote == st.wrote
}

proof fn lemma_comparison_value(
    st: State,
    next: u64,
    pred: Predicate,
    w: BitWidth,
    dst: u8,
    l: Term,
    r: Term,
)
    requires
        next + 16 <= u64::MAX,
        l.before(next),
        r.before(next),
    ensures
        holds_result(
            st,
            run(st, comparison(next, pred, w, dst, l, r)),
            dst,
            machine::flag(
                pred.holds(
                    width_bits(w),
                    st.value(width_bits(w), l),
                    st.value(width_bits(w), r),
                ),
            ),
        ),
{
    reveal_with_fuel(run, 6);
}

spec fn upper_product(next: u64, el: Cast, er: Cast, dst: u8, l: Term, r: Term) -> Code {
    chain(
        Step::Convert { t: later(next, 1), cast: el, from: Ty::I64, v: l, to: Ty::I128 },
        chain(
            Step::Convert { t: later(next, 2), cast: er, from: Ty::I64, v: r, to: Ty::I128 },
            chain(
                Step::Op {
                    t: later(next, 3),
                    op: Opcode::Mul,
                    ty: Ty::I128,
                    l: tmp(next, 1),
                    r: tmp(next, 2),
                },
                chain(
                    Step::Op {
                        t: later(next, 4),
                        op: Opcode::LShr,
                        ty: Ty::I128,
                        l: tmp(next, 3),
                        r: Term::Number(64),
                    },
                    chain(
                        Step::Convert {
                            t: next,
                            cast: Cast::Trunc,
                            from: Ty::I128,
                            v: tmp(next, 4),
                            to: Ty::I64,
                        },
                        chain(Step::Store { v: Term::Tmp(next), reg: dst }, Code::End),
                    ),
                ),
            ),
        ),
    )
}

proof fn lemma_upper_text(s: Ir, el: Cast, er: Cast, dst: u8, l: Term, r: Term)
    requires
        s.next + 16 <= u64::MAX,
    ensures
        written(s.text, upper_product(s.next, el, er, dst, l, r)) == ops::upper_product(
            s,
            (el.text(), er.text()),
            dst,
            l.text(),
            r.text(),
        ).text,
{
    let n = s.next;
    lemma_constants();
    lemma_convert(s.text, later(n, 1), el, Ty::I64, l, Ty::I128);
    let t1 = (Step::Convert { t: later(n, 1), cast: el, from: Ty::I64, v: l, to: Ty::I128 }).after(
        s.text,
    );
    lemma_convert(t1, later(n, 2), er, Ty::I64, r, Ty::I128);
    let t2 = (Step::Convert { t: later(n, 2), cast: er, from: Ty::I64, v: r, to: Ty::I128 }).after(
        t1,
    );
    lemma_op(t2, later(n, 3), Opcode::Mul, Ty::I128, tmp(n, 1), tmp(n, 2));
    let t3 = (Step::Op {
        t: later(n, 3),
        op: Opcode::Mul,
        ty: Ty::I128,
        l: tmp(n, 1),
        r: tmp(n, 2),
    }).after(t2);
    lemma_op(t3, later(n, 4), Opcode::LShr, Ty::I128, tmp(n, 3), Term::Number(64));
    let t4 = (Step::Op {
        t: later(n, 4),
        op: Opcode::LShr,
        ty: Ty::I128,
        l: tmp(n, 3),
        r: Term::Number(64),
    }).after(t3);
    lemma_convert(t4, n, Cast::Trunc, Ty::I128, tmp(n, 4), Ty::I64);
    let t5 = (Step::Convert {
        t: n,
        cast: Cast::Trunc,
        from: Ty::I128,
        v: tmp(n, 4),
        to: Ty::I64,
    }).after(t4);
    lemma_store(t5, Term::Tmp(n), dst);
    reveal_with_fuel(written, 8);
}

/// The number that an extension to 128 bits keeps.
spec fn meant(ext: Cast, v: int) -> int {
    match ext {
        Cast::SExt => machine::signed(64, v),
        _ => v,
    }
}

proof fn lemma_upper_value(st: State, next: u64, el: Cast, er: Cast, dst: u8, l: Term, r: Term)
    requires
        next + 16 <= u64::MAX,
        l.before(next),
        r.before(next),
        el is ZExt || el is SExt,
        er is ZExt || er is SExt,
        is_word(64, st.value(64, l)),
        is_word(64, st.value(64, r)),
    ensures
        holds_result(
            st,
            run(st, upper_product(next, el, er, dst, l, r)),
            dst,
            machine::upper(64, meant(el, st.value(64, l)), meant(er, st.value(64, r))),
        ),
{
    let x = meant(el, st.value(64, l));
    let y = meant(er, st.value(64, r));
    let m: int = 0x1_0000_0000_0000_0000;
    let w = machine::words(128);
    vstd::arithmetic::power2::lemma2_to64();
    vstd::arithmetic::power2::lemma_pow2_adds(64, 64);
    assert(w == m * m);
    assert(m * m > m) by (nonlinear_arith)
        requires
            m == 0x1_0000_0000_0000_0000,
    ;
    reveal(machine::cut);
    let a = el.result(Ty::I64, Ty::I128, st.value(64, l));
    let b = er.result(Ty::I64, Ty::I128, st.value(64, r));
    assert(a == x % w) by {
        if el is ZExt {
            vstd::arithmetic::div_mod::lemma_small_mod(x as nat, w as nat);
        }
    }
    assert(b == y % w) by {
        if er is ZExt {
            vstd::arithmetic::div_mod::lemma_small_mod(y as nat, w as nat);
        }
    }
    vstd::arithmetic::div_mod::lemma_mul_mod_noop(x, y, w);
    let p = (a * b) % w;
    assert(p == (x * y) % (m * m));
    let z = x * y;
    let hi = (z / m) % m;
    let lo = z % m;
    let top = (z / m) / m;
    assert(z == (m * m) * top + (m * hi + lo)) by (nonlinear_arith)
        requires
            z == m * (m * top + hi) + lo,
    ;
    assert(0 <= m * hi + lo < m * m) by (nonlinear_arith)
        requires
            0 <= hi < m,
            0 <= lo < m,
    ;
    vstd::arithmetic::mul::lemma_mul_is_commutative(m * m, top);
    vstd::arithmetic::div_mod::lemma_fundamental_div_mod_converse(z, m * m, top, m * hi + lo);
    assert(p == m * hi + lo);
    assert(p / m == hi) by (nonlinear_arith)
        requires
            p == m * hi + lo,
            0 <= lo < m,
            m == 0x1_0000_0000_0000_0000,
    ;
    assert(hi % m == hi);
    reveal(machine::upper);
    assert(machine::upper(64, x, y) == hi);
    let code = upper_product(next, el, er, dst, l, r);
    reveal_with_fuel(run, 8);
    assert(machine::cut(128, 64) == 64) by {
        vstd::arithmetic::div_mod::lemma_small_mod(64, w as nat);
    }
}

spec fn stored(next: u64, w: BitWidth, result: u64, dst: u8) -> Code {
    match w {
        BitWidth::W32 => chain(
            Step::Convert {
                t: next,
                cast: Cast::ZExt,
                from: Ty::I32,
                v: Term::Tmp(result),
                to: Ty::I64,
            },
            chain(Step::Store { v: Term::Tmp(next), reg: dst }, Code::End),
        ),
        BitWidth::W64 => chain(Step::Store { v: Term::Tmp(result), reg: dst }, Code::End),
    }
}

proof fn lemma_stored_text(s: Ir, w: BitWidth, result: u64, dst: u8)
    ensures
        written(s.text, stored(s.next, w, result, dst)) == ops::stored(
            s,
            w,
            ops::tmp_name(result),
            dst,
        ).text,
{
    lemma_convert(s.text, s.next, Cast::ZExt, Ty::I32, Term::Tmp(result), Ty::I64);
    let s1 = (Step::Convert {
        t: s.next,
        cast: Cast::ZExt,
        from: Ty::I32,
        v: Term::Tmp(result),
        to: Ty::I64,
    }).after(s.text);
    lemma_store(s1, Term::Tmp(s.next), dst);
    lemma_store(s.text, Term::Tmp(result), dst);
    reveal_with_fuel(written, 4);
}

proof fn lemma_stored_value(st: State, next: u64, w: BitWidth, result: u64, dst: u8)
    requires
        is_word(64, (st.tmps)(result)),
    ensures
        holds_result(st, run(st, stored(next, w, result, dst)), dst, (st.tmps)(result)),
{
    reveal_with_fuel(run, 4);
}

/// The next number after an operation.
spec fn operation_end(next: u64, op: BinOp) -> u64 {
    match op {
        BinOp::AndInv | BinOp::OrInv | BinOp::Xnor | BinOp::Max | BinOp::MaxU | BinOp::Min
        | BinOp::MinU => later(next, 1),
        _ => next,
    }
}

spec fn extension_casts(op: BinOp) -> (Cast, Cast) {
    match op {
        BinOp::MulUpperSS => (Cast::SExt, Cast::SExt),
        BinOp::MulUpperUU => (Cast::ZExt, Cast::ZExt),
        _ => (Cast::SExt, Cast::ZExt),
    }
}

spec fn applied(next: u64, op: BinOp, w: BitWidth, dst: u8, l: Term, r: Term) -> Code {
    if ops::predicate(op) is Some {
        comparison(next, predicate_of(op), w, dst, l, r)
    } else if ops::extensions(op) is Some {
        let (el, er) = extension_casts(op);
        upper_product(next, el, er, dst, l, r)
    } else {
        operation(
            later(next, 1),
            op,
            ty_of(w),
            next,
            l,
            r,
            stored(operation_end(later(next, 1), op), w, next, dst),
        )
    }
}

proof fn lemma_applied_text(s: Ir, op: BinOp, w: BitWidth, dst: u8, l: Term, r: Term)
    requires
        s.next + 16 <= u64::MAX,
    ensures
        written(s.text, applied(s.next, op, w, dst, l, r)) == ops::applied(
            s,
            op,
            w,
            dst,
            l.text(),
            r.text(),
        ).text,
{
    if ops::predicate(op) is Some {
        assert(ops::predicate(op) == Some(predicate_of(op).text()));
        lemma_comparison_text(s, predicate_of(op), w, dst, l, r);
    } else if ops::extensions(op) is Some {
        let (el, er) = extension_casts(op);
        assert(ops::extensions(op) == Some((el.text(), er.text())));
        lemma_upper_text(s, el, er, dst, l, r);
    } else {
        let s1 = Ir { text: s.text, next: ops::fresh(s.next) };
        let done = ops::operation(
            s1,
            op,
            ops::ty_of(w),
            ops::tmp_name(s.next),
            l.text(),
            r.text(),
        );
        let tail = stored(operation_end(later(s.next, 1), op), w, s.next, dst);
        lemma_operation_text(s1, op, w, s.next, l, r, tail);
        assert(done.next == operation_end(later(s.next, 1), op));
        lemma_stored_text(done, w, s.next, dst);
    }
}

/// Whether an operator works in words of this width: the upper half of a product is that of
/// words of 64 bits.
pub open spec fn suits(op: BinOp, w: BitWidth) -> bool {
    match op {
        BinOp::MulUpperSS | BinOp::MulUpperUU | BinOp::MulUpperSU => w == BitWidth::W64,
        _ => true,
    }
}

proof fn lemma_applied_value(
    st: State,
    next: u64,
    op: BinOp,
    w: BitWidth,
    dst: u8,
    l: Term,
    r: Term,
)
    requires
        next + 16 <= u64::MAX,
        l.before(next),
        r.before(next),
        suits(op, w),
        is_word(width_bits(w), st.value(width_bits(w), l)),
        is_word(width_bits(w), st.value(width_bits(w), r)),
        settled(op, width_bits(w), st.value(width_bits(w), l), st.value(width_bits(w), r)),
    ensures
        holds_result(
            st,
            run(st, applied(next, op, w, dst, l, r)),
            dst,
            machine::apply(
                op,
                width_bits(w),
                st.value(width_bits(w), l),
                st.value(width_bits(w), r),
            ),
        ),
{
    let n = width_bits(w);
    let a = st.value(n, l);
    let b = st.value(n, r);
    if ops::predicate(op) is Some {
        lemma_comparison_value(st, next, predicate_of(op), w, dst, l, r);
    } else if ops::extensions(op) is Some {
        let (el, er) = extension_casts(op);
        lemma_upper_value(st, next, el, er, dst, l, r);
    } else {
        let tail = stored(operation_end(later(next, 1), op), w, next, dst);
        let end = lemma_operation_value(st, later(next, 1), op, w, next, l, r, tail);
        lemma_apply_is_word(op, n, a, b);
        lemma_stored_value(end, operation_end(later(next, 1), op), w, next, dst);
    }
}

spec fn binary(next: u64, op: BinOp, w: BitWidth, dst: u8, l: Term, r: Term) -> Code {
    match w {
        BitWidth::W32 => chain(
            Step::Convert { t: next, cast: Cast::Trunc, from: Ty::I64, v: l, to: Ty::I32 },
            chain(
                Step::Convert {
                    t: later(next, 1),
                    cast: Cast::Trunc,
                    from: Ty::I64,
                    v: r,
                    to: Ty::I32,
                },
                applied(later(next, 2), op, w, dst, Term::Tmp(next), tmp(next, 1)),
            ),
        ),
        BitWidth::W64 => applied(next, op, w, dst, l, r),
    }
}

proof fn lemma_binary_text(s: Ir, op: BinOp, w: BitWidth, dst: u8, l: Term, r: Term)
    requires
        s.next + 32 <= u64::MAX,
    ensures
        written(s.text, binary(s.next, op, w, dst, l, r)) == ops::binary(
            s,
            op,
            w,
            dst,
            l.text(),
            r.text(),
        ).text,
{
    let n = s.next;
    match w {
        BitWidth::W32 => {
            let first = Step::Convert {
                t: n,
                cast: Cast::Trunc,
                from: Ty::I64,
                v: l,
                to: Ty::I32,
            };
            let second = Step::Convert {
                t: later(n, 1),
                cast: Cast::Trunc,
                from: Ty::I64,
                v: r,
                to: Ty::I32,
            };
            lemma_convert(s.text, n, Cast::Trunc, Ty::I64, l, Ty::I32);
            let s1 = first.after(s.text);
            lemma_convert(s1, later(n, 1), Cast::Trunc, Ty::I64, r, Ty::I32);
            let s2 = second.after(s1);
            let rest = applied(later(n, 2), op, w, dst, Term::Tmp(n), tmp(n, 1));
            lemma_then(s.text, first, chain(second, rest));
            lemma_then(s1, second, rest);
            lemma_applied_text(
                Ir { text: s2, next: later(n, 2) },
                op,
                w,
                dst,
                Term::Tmp(n),
                tmp(n, 1),
            );
        },
        BitWidth::W64 => lemma_applied_text(s, op, w, dst, l, r),
    }
}

proof fn lemma_binary_value(
    st: State,
    next: u64,
    op: BinOp,
    w: BitWidth,
    dst: u8,
    l: Term,
    r: Term,
)
    requires
        next + 32 <= u64::MAX,
        l.before(next),
        r.before(next),
        suits(op, w),
        is_word(64, st.value(64, l)),
        is_word(64, st.value(64, r)),
        settled(
            op,
            width_bits(w),
            machine::cut(width_bits(w), st.value(64, l)),
            machine::cut(width_bits(w), st.value(64, r)),
        ),
    ensures
        holds_result(
            st,
            run(st, binary(next, op, w, dst, l, r)),
            dst,
            machine::apply(
                op,
                width_bits(w),
                machine::cut(width_bits(w), st.value(64, l)),
                machine::cut(width_bits(w), st.value(64, r)),
            ),
        ),
{
    let a = st.value(64, l);
    let b = st.value(64, r);
    match w {
        BitWidth::W32 => {
            lemma_cut_is_word(32, a);
            lemma_cut_is_word(32, b);
            let first = Step::Convert {
                t: next,
                cast: Cast::Trunc,
                from: Ty::I64,
                v: l,
                to: Ty::I32,
            };
            let second = Step::Convert {
                t: later(next, 1),
                cast: Cast::Trunc,
                from: Ty::I64,
                v: r,
                to: Ty::I32,
            };
            let s1 = first.run(st);
            let s2 = second.run(s1);
            let rest = applied(later(next, 2), op, w, dst, Term::Tmp(next), tmp(next, 1));
            assert(run(st, chain(first, chain(second, rest))) == run(s1, chain(second, rest)));
            assert(run(s1, chain(second, rest)) == run(s2, rest));
            assert(s2.value(32, Term::Tmp(next)) == machine::cut(32, a));
            assert(s2.value(32, tmp(next, 1)) == machine::cut(32, b));
            lemma_applied_value(s2, later(next, 2), op, w, dst, Term::Tmp(next), tmp(next, 1));
        },
        BitWidth::W64 => {
            lemma_words(64, a);
            lemma_words(64, b);
            lemma_applied_value(st, next, op, w, dst, l, r);
        },
    }
}

proof fn lemma_counts(n: nat, v: int)
    ensures
        0 <= machine::ones(n, v) <= n,
        0 <= machine::leading_zeros(n, v) <= n,
        0 <= machine::trailing_zeros(n, v) <= n,
    decreases n,
{
    if n > 0 {
        lemma_counts((n - 1) as nat, v / 2);
        lemma_counts((n - 1) as nat, v);
    }
}

proof fn lemma_reversed(n: nat, v: int)
    ensures
        0 <= machine::bytes_reversed(n, v) < vstd::arithmetic::power2::pow2(8 * n),
    decreases n,
{
    vstd::arithmetic::power2::lemma2_to64();
    if n > 0 {
        lemma_reversed((n - 1) as nat, v / 256);
        let p = vstd::arithmetic::power2::pow2((8 * (n - 1)) as nat) as int;
        vstd::arithmetic::power2::lemma_pow2_adds(8, (8 * (n - 1)) as nat);
        assert(8 + 8 * (n - 1) == 8 * n);
        let b = v % 256;
        assert(0 <= b * p && b * p + p <= 256 * p) by (nonlinear_arith)
            requires
                0 <= b <= 255,
                p >= 0,
        ;
    }
}

proof fn lemma_unary_is_word(op: UnaryOp, v: int)
    requires
        is_word(64, v),
        machine::apply_unary(op, v) is Some,
    ensures
        is_word(64, machine::apply_unary(op, v)->0),
{
    vstd::arithmetic::power2::lemma2_to64();
    lemma_counts(64, v);
    lemma_counts(32, machine::cut(32, v));
    lemma_reversed(8, v);
    lemma_cut_is_word(64, machine::signed(8, machine::cut(8, v)));
    lemma_cut_is_word(64, machine::signed(16, machine::cut(16, v)));
    reveal(machine::sign_extended);
    if op == UnaryOp::Zext16 {
        reveal(machine::cut);
    }
}

spec fn narrowed(next: u64, ext: Cast, ty: Ty, src: Term, tail: Code) -> Code {
    chain(
        Step::Convert { t: later(next, 1), cast: Cast::Trunc, from: Ty::I64, v: src, to: ty },
        chain(
            Step::Convert { t: next, cast: ext, from: ty, v: tmp(next, 1), to: Ty::I64 },
            tail,
        ),
    )
}

/// A count on the lower half; one that takes a flag for the word zero is `zeros`.
spec fn counted(next: u64, f: Intrinsic, zeros: bool, src: Term, tail: Code) -> Code {
    chain(
        Step::Convert {
            t: later(next, 1),
            cast: Cast::Trunc,
            from: Ty::I64,
            v: src,
            to: Ty::I32,
        },
        chain(
            if zeros {
                Step::Count { t: later(next, 2), f, ty: Ty::I32, v: tmp(next, 1) }
            } else {
                Step::Call { t: later(next, 2), f, ty: Ty::I32, v: tmp(next, 1) }
            },
            chain(
                Step::Convert {
                    t: next,
                    cast: Cast::ZExt,
                    from: Ty::I32,
                    v: tmp(next, 2),
                    to: Ty::I64,
                },
                tail,
            ),
        ),
    )
}

spec fn unary(next: u64, op: UnaryOp, dst: u8, src: Term) -> Code {
    let tail = chain(Step::Store { v: Term::Tmp(next), reg: dst }, Code::End);
    match op {
        UnaryOp::Not => chain(
            Step::Compare {
                t: later(next, 1),
                pred: Predicate::Eq,
                ty: Ty::I64,
                l: src,
                r: Term::Number(0),
            },
            chain(
                Step::Convert {
                    t: next,
                    cast: Cast::ZExt,
                    from: Ty::I1,
                    v: tmp(next, 1),
                    to: Ty::I64,
                },
                tail,
            ),
        ),
        UnaryOp::Sext8 => narrowed(next, Cast::SExt, Ty::I8, src, tail),
        UnaryOp::Sext16 => narrowed(next, Cast::SExt, Ty::I16, src, tail),
        UnaryOp::Zext16 => narrowed(next, Cast::ZExt, Ty::I16, src, tail),
        UnaryOp::Popcnt32 => counted(next, Intrinsic::CtPop, false, src, tail),
        UnaryOp::Popcnt64 => chain(
            Step::Call { t: later(next, 1), f: Intrinsic::CtPop, ty: Ty::I64, v: src },
            chain(
                Step::Op {
                    t: next,
                    op: Opcode::Add,
                    ty: Ty::I64,
                    l: tmp(next, 1),
                    r: Term::Number(0),
                },
                tail,
            ),
        ),
        UnaryOp::Clz32 => counted(next, Intrinsic::CtLz, true, src, tail),
        UnaryOp::Clz64 => chain(
            Step::Count { t: next, f: Intrinsic::CtLz, ty: Ty::I64, v: src },
            tail,
        ),
        UnaryOp::Ctz32 => counted(next, Intrinsic::CtTz, true, src, tail),
        UnaryOp::Ctz64 => chain(
            Step::Count { t: next, f: Intrinsic::CtTz, ty: Ty::I64, v: src },
            tail,
        ),
        _ => chain(Step::Call { t: next, f: Intrinsic::BSwap, ty: Ty::I64, v: src }, tail),
    }
}

proof fn lemma_narrowed_text(s: Ir, ext: Cast, ty: Ty, src: Term, tail: Code)
    requires
        s.next + 16 <= u64::MAX,
    ensures
        written(s.text, narrowed(s.next, ext, ty, src, tail)) == written(
            ops::cut(
                Ir { text: s.text, next: ops::fresh(s.next) },
                ext.text(),
                ty.text(),
                ops::tmp_name(s.next),
                src.text(),
            ).text,
            tail,
        ),
{
    let n = s.next;
    let first = Step::Convert {
        t: later(n, 1),
        cast: Cast::Trunc,
        from: Ty::I64,
        v: src,
        to: ty,
    };
    let second = Step::Convert { t: n, cast: ext, from: ty, v: tmp(n, 1), to: Ty::I64 };
    lemma_convert(s.text, later(n, 1), Cast::Trunc, Ty::I64, src, ty);
    let s1 = first.after(s.text);
    lemma_convert(s1, n, ext, ty, tmp(n, 1), Ty::I64);
    lemma_then(s.text, first, chain(second, tail));
    lemma_then(s1, second, tail);
}

proof fn lemma_counted_text(s: Ir, f: Intrinsic, zeros: bool, src: Term, tail: Code)
    requires
        s.next + 16 <= u64::MAX,
    ensures
        ({
            let n = s.next;
            let s1 = lines::cast_line(
                s.text,
                tmp(n, 1).text(),
                "trunc"@,
                "i64"@,
                src.text(),
                "i32"@,
            );
            let s2 = if zeros {
                lines::count_line(s1, tmp(n, 2).text(), f.text(), "i32"@, tmp(n, 1).text())
            } else {
                lines::intrinsic_line(s1, tmp(n, 2).text(), f.text(), "i32"@, tmp(n, 1).text())
            };
            written(s.text, counted(n, f, zeros, src, tail)) == written(
                lines::cast_line(
                    s2,
                    ops::tmp_name(n),
                    "zext"@,
                    "i32"@,
                    tmp(n, 2).text(),
                    "i64"@,
                ),
                tail,
            )
        }),
{
    let n = s.next;
    let first = Step::Convert {
        t: later(n, 1),
        cast: Cast::Trunc,
        from: Ty::I64,
        v: src,
        to: Ty::I32,
    };
    let second = if zeros {
        Step::Count { t: later(n, 2), f, ty: Ty::I32, v: tmp(n, 1) }
    } else {
        Step::Call { t: later(n, 2), f, ty: Ty::I32, v: tmp(n, 1) }
    };
    let third = Step::Convert {
        t: n,
        cast: Cast::ZExt,
        from: Ty::I32,
        v: tmp(n, 2),
        to: Ty::I64,
    };
    lemma_convert(s.text, later(n, 1), Cast::Trunc, Ty::I64, src, Ty::I32);
    let s1 = first.after(s.text);
    lemma_count(s1, later(n, 2), f, Ty::I32, tmp(n, 1));
    lemma_call(s1, later(n, 2), f, Ty::I32, tmp(n, 1));
    let s2 = second.after(s1);
    lemma_convert(s2, n, Cast::ZExt, Ty::I32, tmp(n, 2), Ty::I64);
    lemma_then(s.text, first, chain(second, chain(third, tail)));
    lemma_then(s1, second, chain(third, tail));
    lemma_then(s2, third, tail);
}

proof fn lemma_unary_text(s: Ir, op: UnaryOp, dst: u8, src: Term)
    requires
        s.next + 16 <= u64::MAX,
        op != UnaryOp::Sbrk,
    ensures
        written(s.text, unary(s.next, op, dst, src)) == ops::unary(s, op, dst, src.text()).text,
{
    let n = s.next;
    lemma_constants();
    let store = Step::Store { v: Term::Tmp(n), reg: dst };
    let tail = chain(store, Code::End);
    let done = ops::unary_operation(
        Ir { text: s.text, next: ops::fresh(n) },
        op,
        ops::tmp_name(n),
        src.text(),
    );
    assert(written(s.text, unary(n, op, dst, src)) == written(done.text, tail)) by {
        match op {
            UnaryOp::Not => {
                let first = Step::Compare {
                    t: later(n, 1),
                    pred: Predicate::Eq,
                    ty: Ty::I64,
                    l: src,
                    r: Term::Number(0),
                };
                let second = Step::Convert {
                    t: n,
                    cast: Cast::ZExt,
                    from: Ty::I1,
                    v: tmp(n, 1),
                    to: Ty::I64,
                };
                lemma_compare(s.text, later(n, 1), Predicate::Eq, Ty::I64, src, Term::Number(0));
                let s1 = first.after(s.text);
                lemma_convert(s1, n, Cast::ZExt, Ty::I1, tmp(n, 1), Ty::I64);
                lemma_then(s.text, first, chain(second, tail));
                lemma_then(s1, second, tail);
            },
            UnaryOp::Sext8 => lemma_narrowed_text(s, Cast::SExt, Ty::I8, src, tail),
            UnaryOp::Sext16 => lemma_narrowed_text(s, Cast::SExt, Ty::I16, src, tail),
            UnaryOp::Zext16 => lemma_narrowed_text(s, Cast::ZExt, Ty::I16, src, tail),
            UnaryOp::Popcnt32 => lemma_counted_text(s, Intrinsic::CtPop, false, src, tail),
            UnaryOp::Popcnt64 => {
                let first = Step::Call {
                    t: later(n, 1),
                    f: Intrinsic::CtPop,
                    ty: Ty::I64,
                    v: src,
                };
                let second = Step::Op {
                    t: n,
                    op: Opcode::Add,
                    ty: Ty::I64,
                    l: tmp(n, 1),
                    r: Term::Number(0),
                };
                lemma_call(s.text, later(n, 1), Intrinsic::CtPop, Ty::I64, src);
                let s1 = first.after(s.text);
                lemma_op(s1, n, Opcode::Add, Ty::I64, tmp(n, 1), Term::Number(0));
                lemma_then(s.text, first, chain(second, tail));
                lemma_then(s1, second, tail);
            },
            UnaryOp::Clz32 => lemma_counted_text(s, Intrinsic::CtLz, true, src, tail),
            UnaryOp::Clz64 => {
                lemma_count(s.text, n, Intrinsic::CtLz, Ty::I64, src);
                lemma_then(
                    s.text,
                    Step::Count { t: n, f: Intrinsic::CtLz, ty: Ty::I64, v: src },
                    tail,
                );
            },
            UnaryOp::Ctz32 => lemma_counted_text(s, Intrinsic::CtTz, true, src, tail),
            UnaryOp::Ctz64 => {
                lemma_count(s.text, n, Intrinsic::CtTz, Ty::I64, src);
                lemma_then(
                    s.text,
                    Step::Count { t: n, f: Intrinsic::CtTz, ty: Ty::I64, v: src },
                    tail,
                );
            },
            _ => {
                lemma_call(s.text, n, Intrinsic::BSwap, Ty::I64, src);
                lemma_then(
                    s.text,
                    Step::Call { t: n, f: Intrinsic::BSwap, ty: Ty::I64, v: src },
                    tail,
                );
            },
        }
    }
    lemma_store(done.text, Term::Tmp(n), dst);
    lemma_then(done.text, store, Code::End);
}

proof fn lemma_unary_value(st: State, next: u64, op: UnaryOp, dst: u8, src: Term)
    requires
        next + 16 <= u64::MAX,
        src.before(next),
        is_word(64, st.value(64, src)),
        machine::apply_unary(op, st.value(64, src)) is Some,
    ensures
        holds_result(
            st,
            run(st, unary(next, op, dst, src)),
            dst,
            machine::apply_unary(op, st.value(64, src))->0,
        ),
{
    let v = st.value(64, src);
    lemma_unary_is_word(op, v);
    lemma_counts(64, v);
    reveal(machine::sign_extended);
    reveal_with_fuel(run, 5);
    assert(machine::cut(64, 0) == 0 && machine::cut(64, machine::ones(64, v)) == machine::ones(
        64,
        v,
    )) by {
        lemma_words(64, 0);
        lemma_words(64, machine::ones(64, v));
    }
}

/// The temporary that names the place of a memory access.
spec fn place_tmp(next: u64, base: Option<u8>, offset: i64) -> u64 {
    if base is Some && offset != 0 {
        later(next, 2)
    } else {
        later(next, 1)
    }
}

spec fn placed(next: u64, base: Option<u8>, offset: i64, tail: Code) -> Code {
    let place = place_tmp(next, base, offset);
    match base {
        Some(reg) => chain(
            Step::Load { t: next, reg },
            if offset != 0 {
                chain(
                    Step::Offset {
                        t: later(next, 1),
                        v: Term::Tmp(next),
                        offset: offset as int,
                    },
                    chain(Step::Element { t: place, address: tmp(next, 1) }, tail),
                )
            } else {
                chain(Step::Element { t: place, address: Term::Tmp(next) }, tail)
            },
        ),
        None => chain(
            Step::Constant { t: next, value: offset as int },
            chain(Step::Element { t: place, address: Term::Tmp(next) }, tail),
        ),
    }
}

proof fn lemma_placed_text(s: Ir, base: Option<u8>, offset: i64, tail: Code)
    requires
        s.next + 16 <= u64::MAX,
    ensures
        written(s.text, placed(s.next, base, offset, tail)) == written(
            body::placed(s, base, offset).0.text,
            tail,
        ),
        body::placed(s, base, offset).1 == ops::tmp_name(place_tmp(s.next, base, offset)),
        body::placed(s, base, offset).0.next == later(place_tmp(s.next, base, offset), 1),
{
    let n = s.next;
    let place = place_tmp(n, base, offset);
    match base {
        Some(reg) => {
            let first = Step::Load { t: n, reg };
            lemma_load(s.text, n, reg);
            let s1 = first.after(s.text);
            if offset != 0 {
                let second = Step::Offset {
                    t: later(n, 1),
                    v: Term::Tmp(n),
                    offset: offset as int,
                };
                let third = Step::Element { t: place, address: tmp(n, 1) };
                lemma_offset(s1, later(n, 1), Term::Tmp(n), offset);
                let s2 = second.after(s1);
                lemma_element(s2, place, tmp(n, 1));
                lemma_then(s.text, first, chain(second, chain(third, tail)));
                lemma_then(s1, second, chain(third, tail));
                lemma_then(s2, third, tail);
            } else {
                let second = Step::Element { t: place, address: Term::Tmp(n) };
                lemma_element(s1, place, Term::Tmp(n));
                lemma_then(s.text, first, chain(second, tail));
                lemma_then(s1, second, tail);
            }
        },
        None => {
            let first = Step::Constant { t: n, value: offset as int };
            let second = Step::Element { t: place, address: Term::Tmp(n) };
            lemma_constant(s.text, n, offset);
            let s1 = first.after(s.text);
            lemma_element(s1, place, Term::Tmp(n));
            lemma_then(s.text, first, chain(second, tail));
            lemma_then(s1, second, tail);
        },
    }
}

/// The address of a memory access.
pub open spec fn address(base: Option<u8>, offset: int, r: spec_fn(u8) -> u64) -> int {
    match base {
        Some(reg) => machine::cut(64, r(reg) as int + offset),
        None => machine::cut(64, offset),
    }
}

proof fn lemma_placed_value(
    st: State,
    next: u64,
    base: Option<u8>,
    offset: i64,
    tail: Code,
) -> (end: State)
    requires
        next + 16 <= u64::MAX,
    ensures
        run(st, placed(next, base, offset, tail)) == run(end, tail),
        (end.tmps)(place_tmp(next, base, offset)) == address(base, offset as int, st.regs),
        forall|t: u64| t < next ==> #[trigger] (end.tmps)(t) == (st.tmps)(t),
        keeps(st, end),
{
    reveal_with_fuel(run, 4);
    let place = place_tmp(next, base, offset);
    match base {
        Some(reg) => {
            let s1 = (Step::Load { t: next, reg }).run(st);
            if offset != 0 {
                let s2 = (Step::Offset {
                    t: later(next, 1),
                    v: Term::Tmp(next),
                    offset: offset as int,
                }).run(s1);
                (Step::Element { t: place, address: tmp(next, 1) }).run(s2)
            } else {
                lemma_words(64, (st.regs)(reg) as int);
                (Step::Element { t: place, address: Term::Tmp(next) }).run(s1)
            }
        },
        None => {
            let s1 = (Step::Constant { t: next, value: offset as int }).run(st);
            (Step::Element { t: place, address: Term::Tmp(next) }).run(s1)
        },
    }
}

pub open spec fn access_ty(width: MemWidth) -> Ty {
    match width {
        MemWidth::U8 | MemWidth::I8 => Ty::I8,
        MemWidth::U16 | MemWidth::I16 => Ty::I16,
        MemWidth::U32 | MemWidth::I32 => Ty::I32,
        MemWidth::U64 => Ty::I64,
    }
}

/// How what is read is widened to 64 bits.
pub open spec fn fetched(width: MemWidth, v: int) -> int {
    match width {
        MemWidth::I8 => machine::cut(64, machine::signed(8, v)),
        MemWidth::I16 => machine::cut(64, machine::signed(16, v)),
        MemWidth::I32 => machine::cut(64, machine::signed(32, v)),
        _ => v,
    }
}

spec fn widening(width: MemWidth) -> Cast {
    match width {
        MemWidth::I8 | MemWidth::I16 | MemWidth::I32 => Cast::SExt,
        _ => Cast::ZExt,
    }
}

/// Whether every read gives a word of as many bits as were asked for.
pub open spec fn sound(st: State) -> bool {
    forall|ty: Ty, at: int|
        0 <= #[trigger] (st.memory)(ty.bits(), at) < vstd::arithmetic::power2::pow2(ty.bits())
}

spec fn load_tail(place: u64, width: MemWidth, dst: u8) -> Code {
    let ty = access_ty(width);
    chain(
        Step::Read { t: later(place, 1), ty, place: Term::Tmp(place) },
        if width == MemWidth::U64 {
            chain(Step::Store { v: tmp(place, 1), reg: dst }, Code::End)
        } else {
            chain(
                Step::Convert {
                    t: later(place, 2),
                    cast: widening(width),
                    from: ty,
                    v: tmp(place, 1),
                    to: Ty::I64,
                },
                chain(Step::Store { v: tmp(place, 2), reg: dst }, Code::End),
            )
        },
    )
}

spec fn memory_load(next: u64, width: MemWidth, dst: u8, base: Option<u8>, offset: i64) -> Code {
    placed(next, base, offset, load_tail(place_tmp(next, base, offset), width, dst))
}

proof fn lemma_load_text(s: Ir, width: MemWidth, dst: u8, base: Option<u8>, offset: i64)
    requires
        s.next + 16 <= u64::MAX,
    ensures
        written(s.text, memory_load(s.next, width, dst, base, offset)) == body::memory_load(
            s,
            width,
            dst,
            base,
            offset,
        ).text,
{
    let place = place_tmp(s.next, base, offset);
    let ty = access_ty(width);
    lemma_placed_text(s, base, offset, load_tail(place, width, dst));
    let (at, name) = body::placed(s, base, offset);
    let read = Step::Read { t: later(place, 1), ty, place: Term::Tmp(place) };
    lemma_read(at.text, later(place, 1), ty, Term::Tmp(place));
    let s1 = read.after(at.text);
    if width == MemWidth::U64 {
        let store = Step::Store { v: tmp(place, 1), reg: dst };
        lemma_store(s1, tmp(place, 1), dst);
        lemma_then(at.text, read, chain(store, Code::End));
        lemma_then(s1, store, Code::End);
    } else {
        let wide = Step::Convert {
            t: later(place, 2),
            cast: widening(width),
            from: ty,
            v: tmp(place, 1),
            to: Ty::I64,
        };
        let store = Step::Store { v: tmp(place, 2), reg: dst };
        lemma_convert(s1, later(place, 2), widening(width), ty, tmp(place, 1), Ty::I64);
        let s2 = wide.after(s1);
        lemma_store(s2, tmp(place, 2), dst);
        lemma_then(at.text, read, chain(wide, chain(store, Code::End)));
        lemma_then(s1, wide, chain(store, Code::End));
        lemma_then(s2, store, Code::End);
    }
}

proof fn lemma_load_value(
    st: State,
    next: u64,
    width: MemWidth,
    dst: u8,
    base: Option<u8>,
    offset: i64,
)
    requires
        next + 16 <= u64::MAX,
        sound(st),
    ensures
        holds_result(
            st,
            run(st, memory_load(next, width, dst, base, offset)),
            dst,
            fetched(
                width,
                (st.memory)(access_ty(width).bits(), address(base, offset as int, st.regs)),
            ),
        ),
{
    let place = place_tmp(next, base, offset);
    let tail = load_tail(place, width, dst);
    let end = lemma_placed_value(st, next, base, offset, tail);
    let at = address(base, offset as int, st.regs);
    let v = (st.memory)(access_ty(width).bits(), at);
    vstd::arithmetic::power2::lemma2_to64();
    lemma_cut_is_word(64, machine::signed(8, v));
    lemma_cut_is_word(64, machine::signed(16, v));
    lemma_cut_is_word(64, machine::signed(32, v));
    reveal_with_fuel(run, 5);
}

spec fn store_tail(place: u64, width: MemWidth, v: Term) -> Code {
    let ty = access_ty(width);
    if width == MemWidth::U64 {
        chain(Step::Write { ty, v, place: Term::Tmp(place) }, Code::End)
    } else {
        chain(
            Step::Convert { t: later(place, 1), cast: Cast::Trunc, from: Ty::I64, v, to: ty },
            chain(Step::Write { ty, v: tmp(place, 1), place: Term::Tmp(place) }, Code::End),
        )
    }
}

spec fn memory_store(next: u64, width: MemWidth, base: Option<u8>, offset: i64, v: Term) -> Code {
    placed(next, base, offset, store_tail(place_tmp(next, base, offset), width, v))
}

proof fn lemma_store_text(s: Ir, width: MemWidth, base: Option<u8>, offset: i64, v: Term)
    requires
        s.next + 16 <= u64::MAX,
    ensures
        written(s.text, memory_store(s.next, width, base, offset, v)) == body::memory_store(
            s,
            width,
            base,
            offset,
            v.text(),
        ).text,
{
    let place = place_tmp(s.next, base, offset);
    let ty = access_ty(width);
    lemma_placed_text(s, base, offset, store_tail(place, width, v));
    let (at, name) = body::placed(s, base, offset);
    if width == MemWidth::U64 {
        let write = Step::Write { ty, v, place: Term::Tmp(place) };
        lemma_write(at.text, ty, v, Term::Tmp(place));
        lemma_then(at.text, write, Code::End);
    } else {
        let narrow = Step::Convert {
            t: later(place, 1),
            cast: Cast::Trunc,
            from: Ty::I64,
            v,
            to: ty,
        };
        let write = Step::Write { ty, v: tmp(place, 1), place: Term::Tmp(place) };
        lemma_convert(at.text, later(place, 1), Cast::Trunc, Ty::I64, v, ty);
        let s1 = narrow.after(at.text);
        lemma_write(s1, ty, tmp(place, 1), Term::Tmp(place));
        lemma_then(at.text, narrow, chain(write, Code::End));
        lemma_then(s1, write, Code::End);
    }
}

/// Whether `end` is `st` with the low bits of `v` written to memory.
pub open spec fn holds_write(st: State, end: State, width: MemWidth, at: int, v: int) -> bool {
    let bits = access_ty(width).bits();
    &&& end.wrote == st.wrote.push(Write { bits, address: at, value: machine::cut(bits, v) })
    &&& forall|reg: u8| #[trigger] (end.regs)(reg) == (st.regs)(reg)
    &&& end.memory == st.memory
}

proof fn lemma_store_value(
    st: State,
    next: u64,
    width: MemWidth,
    base: Option<u8>,
    offset: i64,
    v: Term,
)
    requires
        next + 16 <= u64::MAX,
        v.before(next),
        is_word(64, st.value(64, v)),
    ensures
        holds_write(
            st,
            run(st, memory_store(next, width, base, offset, v)),
            width,
            address(base, offset as int, st.regs),
            st.value(64, v),
        ),
{
    let place = place_tmp(next, base, offset);
    let tail = store_tail(place, width, v);
    let end = lemma_placed_value(st, next, base, offset, tail);
    lemma_words(64, st.value(64, v));
    reveal_with_fuel(run, 4);
    let k = v->Tmp_0;
    assert((end.tmps)(k) == (st.tmps)(k));
}

spec fn zero_test(is_zero: bool) -> Predicate {
    if is_zero {
        Predicate::Eq
    } else {
        Predicate::Ne
    }
}

spec fn register_move(next: u64, is_zero: bool, dst: u8, src: u8, cond: u8) -> Code {
    chain(
        Step::Load { t: next, reg: cond },
        chain(
            Step::Compare {
                t: later(next, 1),
                pred: zero_test(is_zero),
                ty: Ty::I64,
                l: Term::Tmp(next),
                r: Term::Number(0),
            },
            chain(
                Step::Load { t: later(next, 2), reg: src },
                chain(
                    Step::Load { t: later(next, 3), reg: dst },
                    chain(
                        Step::Select {
                            t: later(next, 4),
                            c: tmp(next, 1),
                            ty: Ty::I64,
                            l: tmp(next, 2),
                            r: tmp(next, 3),
                        },
                        chain(Step::Store { v: tmp(next, 4), reg: dst }, Code::End),
                    ),
                ),
            ),
        ),
    )
}

spec fn constant_move(next: u64, is_zero: bool, dst: u8, cond: u8, value: i64) -> Code {
    chain(
        Step::Load { t: next, reg: cond },
        chain(
            Step::Compare {
                t: later(next, 1),
                pred: zero_test(is_zero),
                ty: Ty::I64,
                l: Term::Tmp(next),
                r: Term::Number(0),
            },
            chain(
                Step::Load { t: later(next, 2), reg: dst },
                chain(
                    Step::SelectConstant {
                        t: later(next, 3),
                        c: tmp(next, 1),
                        value: value as int,
                        r: tmp(next, 2),
                    },
                    chain(Step::Store { v: tmp(next, 3), reg: dst }, Code::End),
                ),
            ),
        ),
    )
}

proof fn lemma_register_move(s: Ir, is_zero: bool, dst: u8, src: u8, cond: u8)
    requires
        s.next + 16 <= u64::MAX,
    ensures
        written(s.text, register_move(s.next, is_zero, dst, src, cond)) == body::register_move(
            s,
            is_zero,
            dst,
            src,
            cond,
        ).text,
{
    let n = s.next;
    let p = zero_test(is_zero);
    lemma_constants();
    lemma_load(s.text, n, cond);
    let t1 = (Step::Load { t: n, reg: cond }).after(s.text);
    lemma_compare(t1, later(n, 1), p, Ty::I64, Term::Tmp(n), Term::Number(0));
    let t2 = (Step::Compare {
        t: later(n, 1),
        pred: p,
        ty: Ty::I64,
        l: Term::Tmp(n),
        r: Term::Number(0),
    }).after(t1);
    lemma_load(t2, later(n, 2), src);
    let t3 = (Step::Load { t: later(n, 2), reg: src }).after(t2);
    lemma_load(t3, later(n, 3), dst);
    let t4 = (Step::Load { t: later(n, 3), reg: dst }).after(t3);
    lemma_select(t4, later(n, 4), tmp(n, 1), Ty::I64, tmp(n, 2), tmp(n, 3));
    let t5 = (Step::Select {
        t: later(n, 4),
        c: tmp(n, 1),
        ty: Ty::I64,
        l: tmp(n, 2),
        r: tmp(n, 3),
    }).after(t4);
    lemma_store(t5, tmp(n, 4), dst);
    reveal_with_fuel(written, 8);
}

proof fn lemma_constant_move(s: Ir, is_zero: bool, dst: u8, cond: u8, value: i64)
    requires
        s.next + 16 <= u64::MAX,
    ensures
        written(s.text, constant_move(s.next, is_zero, dst, cond, value)) == body::constant_move(
            s,
            is_zero,
            dst,
            cond,
            value,
        ).text,
{
    let n = s.next;
    let p = zero_test(is_zero);
    lemma_constants();
    lemma_load(s.text, n, cond);
    let t1 = (Step::Load { t: n, reg: cond }).after(s.text);
    lemma_compare(t1, later(n, 1), p, Ty::I64, Term::Tmp(n), Term::Number(0));
    let t2 = (Step::Compare {
        t: later(n, 1),
        pred: p,
        ty: Ty::I64,
        l: Term::Tmp(n),
        r: Term::Number(0),
    }).after(t1);
    lemma_load(t2, later(n, 2), dst);
    let t3 = (Step::Load { t: later(n, 2), reg: dst }).after(t2);
    lemma_select_constant(t3, later(n, 3), tmp(n, 1), value, tmp(n, 2));
    let t4 = (Step::SelectConstant {
        t: later(n, 3),
        c: tmp(n, 1),
        value: value as int,
        r: tmp(n, 2),
    }).after(t3);
    lemma_store(t4, tmp(n, 3), dst);
    reveal_with_fuel(written, 7);
}

proof fn lemma_move_values(
    st: State,
    next: u64,
    is_zero: bool,
    dst: u8,
    src: u8,
    cond: u8,
    value: i64,
)
    requires
        next + 16 <= u64::MAX,
    ensures
        holds_result(
            st,
            run(st, register_move(next, is_zero, dst, src, cond)),
            dst,
            if ((st.regs)(cond) == 0) == is_zero {
                (st.regs)(src) as int
            } else {
                (st.regs)(dst) as int
            },
        ),
        holds_result(
            st,
            run(st, constant_move(next, is_zero, dst, cond, value)),
            dst,
            if ((st.regs)(cond) == 0) == is_zero {
                machine::cut(64, value as int)
            } else {
                (st.regs)(dst) as int
            },
        ),
{
    lemma_words(64, 0);
    lemma_cut_is_word(64, value as int);
    reveal_with_fuel(run, 8);
}

/// What running the lines of an instruction of this shape leaves, from the state `st` to
/// the state `end`.
pub open spec fn does(shape: InstructionShape, st: State, end: State) -> bool {
    let r = st.regs;
    let operate = |op: BinOp, w: BitWidth, dst: u8, a: int, b: int|
        {
            let n = width_bits(w);
            suits(op, w) && settled(op, n, machine::cut(n, a), machine::cut(n, b)) ==> holds_result(
                st,
                end,
                dst,
                machine::apply(op, n, machine::cut(n, a), machine::cut(n, b)),
            )
        };
    let load = |width: MemWidth, dst: u8, base: Option<u8>, offset: int|
        holds_result(
            st,
            end,
            dst,
            fetched(width, (st.memory)(access_ty(width).bits(), address(base, offset, r))),
        );
    let store = |width: MemWidth, base: Option<u8>, offset: int, v: int|
        holds_write(st, end, width, address(base, offset, r), v);
    match shape {
        InstructionShape::LoadImm { dst, value } => holds_result(
            st,
            end,
            dst,
            machine::cut(64, value as int),
        ),
        InstructionShape::LoadImmJump { dst, value, .. } => holds_result(
            st,
            end,
            dst,
            machine::cut(64, value as int),
        ),
        InstructionShape::LoadImmJumpInd { dst, value, .. } => holds_result(
            st,
            end,
            dst,
            machine::cut(64, value as int),
        ),
        InstructionShape::BinReg { op, width, dst, src1, src2 } => operate(
            op,
            width,
            dst,
            r(src1) as int,
            r(src2) as int,
        ),
        InstructionShape::BinImm { op, width, dst, src, value } => operate(
            op,
            width,
            dst,
            r(src) as int,
            value as int,
        ),
        InstructionShape::BinImmRev { op, width, dst, src, value } => operate(
            op,
            width,
            dst,
            value as int,
            r(src) as int,
        ),
        InstructionShape::Unary { op, dst, src } => machine::apply_unary(op, r(src) as int)
            matches Some(v) ==> holds_result(st, end, dst, v),
        InstructionShape::Load { width, dst, base, offset } => load(
            width,
            dst,
            Some(base),
            offset as int,
        ),
        InstructionShape::LoadAbsolute { width, dst, address } => load(
            width,
            dst,
            None,
            address as int,
        ),
        InstructionShape::Store { width, base, src, offset } => store(
            width,
            Some(base),
            offset as int,
            r(src) as int,
        ),
        InstructionShape::StoreAbsolute { width, src, address } => store(
            width,
            None,
            address as int,
            r(src) as int,
        ),
        InstructionShape::StoreImm { width, address, value } => store(
            width,
            None,
            address as int,
            machine::cut(64, value as int),
        ),
        InstructionShape::StoreImmInd { width, base, offset, value } => store(
            width,
            Some(base),
            offset as int,
            machine::cut(64, value as int),
        ),
        InstructionShape::CmovReg { is_zero, dst, src, cond } => holds_result(
            st,
            end,
            dst,
            if (r(cond) == 0) == is_zero {
                r(src) as int
            } else {
                r(dst) as int
            },
        ),
        InstructionShape::CmovImm { is_zero, dst, cond, value } => holds_result(
            st,
            end,
            dst,
            if (r(cond) == 0) == is_zero {
                machine::cut(64, value as int)
            } else {
                r(dst) as int
            },
        ),
        InstructionShape::NoOp { .. }
        | InstructionShape::Jump { .. }
        | InstructionShape::JumpInd { .. }
        | InstructionShape::BranchImm { .. }
        | InstructionShape::BranchReg { .. } => end == st,
        _ => true,
    }
}

/// Whether what the instruction does is a matter of registers and memory alone: no call
/// of the host, no allocation, no unknown instruction.
pub open spec fn computes(shape: InstructionShape) -> bool {
    match shape {
        InstructionShape::Ecalli { .. } => false,
        InstructionShape::Unknown { .. } => false,
        InstructionShape::Unary { op, .. } => op != UnaryOp::Sbrk,
        _ => true,
    }
}

spec fn code_of(next: u64, shape: InstructionShape) -> Code {
    let n2 = later(next, 2);
    match shape {
        InstructionShape::LoadImm { dst, value } => chain(
            Step::Store { v: Term::Number(value as int), reg: dst },
            Code::End,
        ),
        InstructionShape::LoadImmJump { dst, value, .. } => chain(
            Step::Store { v: Term::Number(value as int), reg: dst },
            Code::End,
        ),
        InstructionShape::LoadImmJumpInd { dst, value, .. } => chain(
            Step::Store { v: Term::Number(value as int), reg: dst },
            Code::End,
        ),
        InstructionShape::BinReg { op, width, dst, src1, src2 } => chain(
            Step::Load { t: next, reg: src1 },
            chain(
                Step::Load { t: later(next, 1), reg: src2 },
                binary(n2, op, width, dst, Term::Tmp(next), tmp(next, 1)),
            ),
        ),
        InstructionShape::BinImm { op, width, dst, src, value } => chain(
            Step::Load { t: next, reg: src },
            chain(
                Step::Constant { t: later(next, 1), value: value as int },
                binary(n2, op, width, dst, Term::Tmp(next), tmp(next, 1)),
            ),
        ),
        InstructionShape::BinImmRev { op, width, dst, src, value } => chain(
            Step::Constant { t: next, value: value as int },
            chain(
                Step::Load { t: later(next, 1), reg: src },
                binary(n2, op, width, dst, Term::Tmp(next), tmp(next, 1)),
            ),
        ),
        InstructionShape::Unary { op, dst, src } => chain(
            Step::Load { t: next, reg: src },
            unary(later(next, 1), op, dst, Term::Tmp(next)),
        ),
        InstructionShape::Load { width, dst, base, offset } => memory_load(
            next,
            width,
            dst,
            Some(base),
            offset as i64,
        ),
        InstructionShape::LoadAbsolute { width, dst, address } => memory_load(
            next,
            width,
            dst,
            None,
            address as i64,
        ),
        InstructionShape::Store { width, base, src, offset } => chain(
            Step::Load { t: next, reg: src },
            memory_store(later(next, 1), width, Some(base), offset as i64, Term::Tmp(next)),
        ),
        InstructionShape::StoreAbsolute { width, src, address } => chain(
            Step::Load { t: next, reg: src },
            memory_store(later(next, 1), width, None, address as i64, Term::Tmp(next)),
        ),
        InstructionShape::StoreImm { width, address, value } => chain(
            Step::Constant { t: next, value: value as int },
            memory_store(later(next, 1), width, None, address as i64, Term::Tmp(next)),
        ),
        InstructionShape::StoreImmInd { width, base, offset, value } => chain(
            Step::Constant { t: next, value: value as int },
            memory_store(later(next, 1), width, Some(base), offset as i64, Term::Tmp(next)),
        ),
        InstructionShape::CmovReg { is_zero, dst, src, cond } => register_move(
            next,
            is_zero,
            dst,
            src,
            cond,
        ),
        InstructionShape::CmovImm { is_zero, dst, cond, value } => constant_move(
            next,
            is_zero,
            dst,
            cond,
            value as i64,
        ),
        _ => Code::End,
    }
}

proof fn lemma_code_text(s: Ir, shape: InstructionShape)
    requires
        s.next + 64 <= u64::MAX,
        computes(shape),
    ensures
        written(s.text, code_of(s.next, shape)) == body::instruction_ir(s, shape).text,
{
    reveal(body::instruction_ir);
    let n = s.next;
    let n2 = later(n, 2);
    match shape {
        InstructionShape::LoadImm { dst, value } => {
            lemma_store_constant(s.text, value, dst);
            reveal_with_fuel(written, 2);
        },
        InstructionShape::LoadImmJump { dst, value, .. } => {
            lemma_store_constant(s.text, value as i64, dst);
            reveal_with_fuel(written, 2);
        },
        InstructionShape::LoadImmJumpInd { dst, value, .. } => {
            lemma_store_constant(s.text, value as i64, dst);
            reveal_with_fuel(written, 2);
        },
        InstructionShape::BinReg { op, width, dst, src1, src2 } => {
            let first = Step::Load { t: n, reg: src1 };
            let second = Step::Load { t: later(n, 1), reg: src2 };
            let rest = binary(n2, op, width, dst, Term::Tmp(n), tmp(n, 1));
            lemma_load(s.text, n, src1);
            let s1 = first.after(s.text);
            lemma_load(s1, later(n, 1), src2);
            let s2 = second.after(s1);
            lemma_then(s.text, first, chain(second, rest));
            lemma_then(s1, second, rest);
            lemma_binary_text(
                Ir { text: s2, next: n2 },
                op,
                width,
                dst,
                Term::Tmp(n),
                tmp(n, 1),
            );
        },
        InstructionShape::BinImm { op, width, dst, src, value } => {
            let first = Step::Load { t: n, reg: src };
            let second = Step::Constant { t: later(n, 1), value: value as int };
            let rest = binary(n2, op, width, dst, Term::Tmp(n), tmp(n, 1));
            lemma_load(s.text, n, src);
            let s1 = first.after(s.text);
            lemma_constant(s1, later(n, 1), value as i64);
            let s2 = second.after(s1);
            lemma_then(s.text, first, chain(second, rest));
            lemma_then(s1, second, rest);
            lemma_binary_text(
                Ir { text: s2, next: n2 },
                op,
                width,
                dst,
                Term::Tmp(n),
                tmp(n, 1),
            );
        },
        InstructionShape::BinImmRev { op, width, dst, src, value } => {
            let first = Step::Constant { t: n, value: value as int };
            let second = Step::Load { t: later(n, 1), reg: src };
            let rest = binary(n2, op, width, dst, Term::Tmp(n), tmp(n, 1));
            lemma_constant(s.text, n, value as i64);
            let s1 = first.after(s.text);
            lemma_load(s1, later(n, 1), src);
            let s2 = second.after(s1);
            lemma_then(s.text, first, chain(second, rest));
            lemma_then(s1, second, rest);
            lemma_binary_text(
                Ir { text: s2, next: n2 },
                op,
                width,
                dst,
                Term::Tmp(n),
                tmp(n, 1),
            );
        },
        InstructionShape::Unary { op, dst, src } => {
            let first = Step::Load { t: n, reg: src };
            lemma_load(s.text, n, src);
            let s1 = first.after(s.text);
            lemma_then(s.text, first, unary(later(n, 1), op, dst, Term::Tmp(n)));
            lemma_unary_text(Ir { text: s1, next: later(n, 1) }, op, dst, Term::Tmp(n));
        },
        InstructionShape::Load { width, dst, base, offset } => {
            lemma_load_text(s, width, dst, Some(base), offset as i64);
        },
        InstructionShape::LoadAbsolute { width, dst, address } => {
            lemma_load_text(s, width, dst, None, address as i64);
        },
        InstructionShape::Store { width, base, src, offset } => {
            lemma_load(s.text, n, src);
            lemma_stored_code(s, Step::Load { t: n, reg: src }, width, Some(base), offset as i64);
        },
        InstructionShape::StoreAbsolute { width, src, address } => {
            lemma_load(s.text, n, src);
            lemma_stored_code(s, Step::Load { t: n, reg: src }, width, None, address as i64);
        },
        InstructionShape::StoreImm { width, address, value } => {
            lemma_constant(s.text, n, value as i64);
            lemma_stored_code(
                s,
                Step::Constant { t: n, value: value as int },
                width,
                None,
                address as i64,
            );
        },
        InstructionShape::StoreImmInd { width, base, offset, value } => {
            lemma_constant(s.text, n, value as i64);
            lemma_stored_code(
                s,
                Step::Constant { t: n, value: value as int },
                width,
                Some(base),
                offset as i64,
            );
        },
        InstructionShape::CmovReg { is_zero, dst, src, cond } => {
            lemma_register_move(s, is_zero, dst, src, cond);
        },
        InstructionShape::CmovImm { is_zero, dst, cond, value } => {
            lemma_constant_move(s, is_zero, dst, cond, value as i64);
        },
        _ => {},
    }
}

proof fn lemma_stored_code(s: Ir, first: Step, width: MemWidth, base: Option<u8>, offset: i64)
    requires
        s.next + 64 <= u64::MAX,
    ensures
        written(
            s.text,
            chain(
                first,
                memory_store(later(s.next, 1), width, base, offset, Term::Tmp(s.next)),
            ),
        ) == body::memory_store(
            Ir { text: first.after(s.text), next: ops::fresh(s.next) },
            width,
            base,
            offset,
            ops::tmp_name(s.next),
        ).text,
{
    let n = s.next;
    let s1 = first.after(s.text);
    lemma_then(s.text, first, memory_store(later(n, 1), width, base, offset, Term::Tmp(n)));
    lemma_store_text(Ir { text: s1, next: later(n, 1) }, width, base, offset, Term::Tmp(n));
}

proof fn lemma_operated(
    st: State,
    first: Step,
    second: Step,
    next: u64,
    op: BinOp,
    w: BitWidth,
    dst: u8,
    a: int,
    b: int,
)
    requires
        next + 64 <= u64::MAX,
        first.run(st) == st.set(next, a),
        second.run(st.set(next, a)) == st.set(next, a).set(later(next, 1), b),
        is_word(64, a),
        is_word(64, b),
        suits(op, w),
        settled(op, width_bits(w), machine::cut(width_bits(w), a), machine::cut(width_bits(w), b)),
    ensures
        holds_result(
            st,
            run(
                st,
                chain(
                    first,
                    chain(
                        second,
                        binary(later(next, 2), op, w, dst, Term::Tmp(next), tmp(next, 1)),
                    ),
                ),
            ),
            dst,
            machine::apply(
                op,
                width_bits(w),
                machine::cut(width_bits(w), a),
                machine::cut(width_bits(w), b),
            ),
        ),
{
    let s1 = st.set(next, a);
    let s2 = s1.set(later(next, 1), b);
    let rest = binary(later(next, 2), op, w, dst, Term::Tmp(next), tmp(next, 1));
    assert(run(st, chain(first, chain(second, rest))) == run(s1, chain(second, rest)));
    assert(run(s1, chain(second, rest)) == run(s2, rest));
    assert(s2.value(64, Term::Tmp(next)) == a);
    assert(s2.value(64, tmp(next, 1)) == b);
    lemma_binary_value(s2, later(next, 2), op, w, dst, Term::Tmp(next), tmp(next, 1));
}

proof fn lemma_cut_twice(w: BitWidth, v: int)
    ensures
        machine::cut(width_bits(w), machine::cut(64, v)) == machine::cut(width_bits(w), v),
        is_word(64, machine::cut(64, v)),
{
    machine::lemma_cut(v);
    lemma_cut_is_word(64, v);
}

proof fn lemma_wrote(
    st: State,
    first: Step,
    next: u64,
    width: MemWidth,
    base: Option<u8>,
    offset: i64,
    v: int,
)
    requires
        next + 64 <= u64::MAX,
        first.run(st) == st.set(next, v),
        is_word(64, v),
    ensures
        holds_write(
            st,
            run(
                st,
                chain(
                    first,
                    memory_store(later(next, 1), width, base, offset, Term::Tmp(next)),
                ),
            ),
            width,
            address(base, offset as int, st.regs),
            v,
        ),
{
    let s1 = st.set(next, v);
    let rest = memory_store(later(next, 1), width, base, offset, Term::Tmp(next));
    assert(run(st, chain(first, rest)) == run(s1, rest));
    assert(s1.value(64, Term::Tmp(next)) == v);
    lemma_store_value(s1, later(next, 1), width, base, offset, Term::Tmp(next));
}

proof fn lemma_code_value(st: State, next: u64, shape: InstructionShape)
    requires
        next + 64 <= u64::MAX,
        computes(shape),
        sound(st),
    ensures
        does(shape, st, run(st, code_of(next, shape))),
{
    let r = st.regs;
    match shape {
        InstructionShape::LoadImm { dst, value } => {
            lemma_cut_is_word(64, value as int);
            reveal_with_fuel(run, 2);
        },
        InstructionShape::LoadImmJump { dst, value, .. } => {
            lemma_cut_is_word(64, value as int);
            reveal_with_fuel(run, 2);
        },
        InstructionShape::LoadImmJumpInd { dst, value, .. } => {
            lemma_cut_is_word(64, value as int);
            reveal_with_fuel(run, 2);
        },
        InstructionShape::BinReg { op, width, dst, src1, src2 } => {
            let n = width_bits(width);
            let a = r(src1) as int;
            let b = r(src2) as int;
            if suits(op, width) && settled(op, n, machine::cut(n, a), machine::cut(n, b)) {
                lemma_operated(
                    st,
                    Step::Load { t: next, reg: src1 },
                    Step::Load { t: later(next, 1), reg: src2 },
                    next,
                    op,
                    width,
                    dst,
                    a,
                    b,
                );
            }
        },
        InstructionShape::BinImm { op, width, dst, src, value } => {
            let n = width_bits(width);
            let a = r(src) as int;
            let b = machine::cut(64, value as int);
            lemma_cut_twice(width, value as int);
            if suits(op, width) && settled(op, n, machine::cut(n, a), machine::cut(n, b)) {
                lemma_operated(
                    st,
                    Step::Load { t: next, reg: src },
                    Step::Constant { t: later(next, 1), value: value as int },
                    next,
                    op,
                    width,
                    dst,
                    a,
                    b,
                );
            }
        },
        InstructionShape::BinImmRev { op, width, dst, src, value } => {
            let n = width_bits(width);
            let a = machine::cut(64, value as int);
            let b = r(src) as int;
            lemma_cut_twice(width, value as int);
            if suits(op, width) && settled(op, n, machine::cut(n, a), machine::cut(n, b)) {
                lemma_operated(
                    st,
                    Step::Constant { t: next, value: value as int },
                    Step::Load { t: later(next, 1), reg: src },
                    next,
                    op,
                    width,
                    dst,
                    a,
                    b,
                );
            }
        },
        InstructionShape::Unary { op, dst, src } => {
            let first = Step::Load { t: next, reg: src };
            let s1 = first.run(st);
            let rest = unary(later(next, 1), op, dst, Term::Tmp(next));
            assert(run(st, chain(first, rest)) == run(s1, rest));
            assert(s1.value(64, Term::Tmp(next)) == r(src) as int);
            lemma_unary_value(s1, later(next, 1), op, dst, Term::Tmp(next));
        },
        InstructionShape::Load { width, dst, base, offset } => {
            lemma_load_value(st, next, width, dst, Some(base), offset as i64);
        },
        InstructionShape::LoadAbsolute { width, dst, address } => {
            lemma_load_value(st, next, width, dst, None, address as i64);
        },
        InstructionShape::Store { width, base, src, offset } => {
            lemma_wrote(
                st,
                Step::Load { t: next, reg: src },
                next,
                width,
                Some(base),
                offset as i64,
                r(src) as int,
            );
        },
        InstructionShape::StoreAbsolute { width, src, address } => {
            lemma_wrote(
                st,
                Step::Load { t: next, reg: src },
                next,
                width,
                None,
                address as i64,
                r(src) as int,
            );
        },
        InstructionShape::StoreImm { width, address, value } => {
            lemma_cut_is_word(64, value as int);
            lemma_wrote(
                st,
                Step::Constant { t: next, value: value as int },
                next,
                width,
                None,
                address as i64,
                machine::cut(64, value as int),
            );
        },
        InstructionShape::StoreImmInd { width, base, offset, value } => {
            lemma_cut_is_word(64, value as int);
            lemma_wrote(
                st,
                Step::Constant { t: next, value: value as int },
                next,
                width,
                Some(base),
                offset as i64,
                machine::cut(64, value as int),
            );
        },
        InstructionShape::CmovReg { is_zero, dst, src, cond } => {
            lemma_move_values(st, next, is_zero, dst, src, cond, 0);
        },
        InstructionShape::CmovImm { is_zero, dst, cond, value } => {
            lemma_move_values(st, next, is_zero, dst, 0, cond, value as i64);
        },
        _ => {},
    }
}

/// The lines are those of steps that do what an instruction of this shape does, from every
/// state.
pub open spec fn carries_out(before: Seq<char>, after: Seq<char>, code: Code, shape: InstructionShape) -> bool {
    &&& written(before, code) == after
    &&& forall|st: State| #[trigger] sound(st) ==> does(shape, st, run(st, code))
}

/// The lines that are written for an instruction compute what it computes: run in order,
/// from any state, they leave in its destination the operation's value on its operands at
/// its width, where LLVM defines the operation, and they leave every other register; they
/// read and write memory where it does and as much as it does.
pub proof fn law_lines_do_instruction(s: Ir, shape: InstructionShape)
    requires
        s.next + 64 <= u64::MAX,
        computes(shape),
    ensures
        exists|code: Code| #[trigger]
            carries_out(s.text, body::instruction_ir(s, shape).text, code, shape),
{
    let code = code_of(s.next, shape);
    lemma_code_text(s, shape);
    assert forall|st: State| #[trigger] sound(st) implies does(shape, st, run(st, code)) by {
        lemma_code_value(st, s.next, shape);
    }
    assert(carries_out(s.text, body::instruction_ir(s, shape).text, code, shape));
}

/// What running the lines of an instruction leaves, by what the machine does: the value that
/// it computes, where LLVM defines the operation and the shape has its width.
pub open spec fn does_as_machine(instr: Instruction, st: State, end: State) -> bool {
    let r = st.regs;
    let shape = instruction::classified(instr);
    &&& (machine::computed(instr, r) matches Some(o) ==> {
        &&& !machine::wider_than_shape(instr)
        &&& defined_by_llvm(shape, r)
    } ==> holds_result(st, end, o.dst, o.value))
    &&& machine::loads(instr) matches Some((dst, place)) ==> holds_result(
        st,
        end,
        dst,
        fetched(
            place.width,
            (st.memory)(access_ty(place.width).bits(), place.address(r)),
        ),
    )
    &&& machine::stores(instr) matches Some((src, place)) ==> holds_write(
        st,
        end,
        place.width,
        place.address(r),
        r(src) as int,
    )
    &&& machine::stores_constant(instr) matches Some((v, place)) ==> holds_write(
        st,
        end,
        place.width,
        place.address(r),
        machine::cut(64, v as int),
    )
    &&& machine::moved(instr, r) matches Some(o) ==> holds_result(st, end, o.dst, o.value)
    &&& machine::saved(instr) matches Some((dst, v)) ==> holds_result(
        st,
        end,
        dst,
        machine::cut(64, v as int),
    )
}

/// Whether LLVM defines what the operation of an instruction gives.
pub open spec fn defined_by_llvm(shape: InstructionShape, r: spec_fn(u8) -> u64) -> bool {
    let defined = |op: BinOp, w: BitWidth, a: int, b: int|
        settled(op, width_bits(w), machine::cut(width_bits(w), a), machine::cut(width_bits(w), b));
    match shape {
        InstructionShape::BinReg { op, width, src1, src2, .. } => defined(
            op,
            width,
            r(src1) as int,
            r(src2) as int,
        ),
        InstructionShape::BinImm { op, width, src, value, .. } => defined(
            op,
            width,
            r(src) as int,
            value as int,
        ),
        InstructionShape::BinImmRev { op, width, src, value, .. } => defined(
            op,
            width,
            value as int,
            r(src) as int,
        ),
        _ => true,
    }
}

proof fn lemma_shape_suits(instr: Instruction)
    ensures
        match instruction::classified(instr) {
            InstructionShape::BinReg { op, width, .. } => suits(op, width),
            InstructionShape::BinImm { op, width, .. } => suits(op, width),
            InstructionShape::BinImmRev { op, width, .. } => suits(op, width),
            _ => true,
        },
{
}

proof fn lemma_does(instr: Instruction, st: State, end: State)
    requires
        does(instruction::classified(instr), st, end),
    ensures
        does_as_machine(instr, st, end),
{
    machine::law_shape_computes(instr, st.regs);
    machine::law_shape_accesses(instr);
    machine::law_shape_moves(instr, st.regs);
    machine::law_shape_saves(instr);
    lemma_shape_suits(instr);
    lemma_does_shape(instr, instruction::classified(instr), st, end);
}

proof fn lemma_does_shape(instr: Instruction, shape: InstructionShape, st: State, end: State)
    requires
        shape == instruction::classified(instr),
        does(shape, st, end),
        machine::computed(instr, st.regs) matches Some(o) ==> {
            &&& shape.defined() == Some(o.dst)
            &&& machine::shape_value(shape, o.bits, st.regs) == Some(o.value)
            &&& machine::shape_width(shape) matches Some(n) ==> n
                == if machine::wider_than_shape(instr) {
                32
            } else {
                o.bits
            }
            &&& shape is LoadImm ==> o.bits == 64
        },
        match shape {
            InstructionShape::BinReg { op, width, .. } => suits(op, width),
            InstructionShape::BinImm { op, width, .. } => suits(op, width),
            InstructionShape::BinImmRev { op, width, .. } => suits(op, width),
            _ => true,
        },
    ensures
        machine::computed(instr, st.regs) matches Some(o) ==> {
            &&& !machine::wider_than_shape(instr)
            &&& defined_by_llvm(shape, st.regs)
        } ==> holds_result(st, end, o.dst, o.value),
{
}

/// The lines that are written for an instruction do what the machine does on it: from any
/// state, its destination holds the value that the machine computes or reads, and memory
/// gets what the machine writes.
pub proof fn law_lines_do_as_machine(s: Ir, instr: Instruction)
    requires
        s.next + 64 <= u64::MAX,
        computes(instruction::classified(instr)),
    ensures
        exists|code: Code| #[trigger]
            written(s.text, code) == body::instruction_ir(
                s,
                instruction::classified(instr),
            ).text && (forall|st: State| #[trigger]
                sound(st) ==> does_as_machine(instr, st, run(st, code))),
{
    let shape = instruction::classified(instr);
    law_lines_do_instruction(s, shape);
    let code = choose|code: Code| #[trigger]
        carries_out(s.text, body::instruction_ir(s, shape).text, code, shape);
    assert forall|st: State| #[trigger] sound(st) implies does_as_machine(
        instr,
        st,
        run(st, code),
    ) by {
        lemma_does(instr, st, run(st, code));
    }
}

/// The label of a place: a block of the function, or a way out of it.
pub open spec fn label(own: Set<usize>, pc: usize) -> Seq<char> {
    (if own.contains(pc) {
        "bb_"@
    } else {
        "bb_exit_"@
    }) + text::hex_padded(pc as nat, 4)
}

/// The text `s` with a branch behind it: to the first label where the temporary `t` is one,
/// to the second where it is zero.
pub open spec fn branching(s: Seq<char>, t: u64, one: Seq<char>, zero: Seq<char>) -> Seq<char> {
    s + "  br i1 "@ + ops::tmp_name(t) + ", label %"@ + one + ", label %"@ + zero + "\n"@
}

/// Whether running the steps sets `t` to 1 exactly where the machine takes the branch, and
/// changes no register.
pub open spec fn tests(code: Code, t: u64, instr: Instruction) -> bool {
    forall|st: State|
        {
            let end = #[trigger] run(st, code);
            &&& machine::taken(instr, st.regs) matches Some(b) && (end.tmps)(t) == machine::flag(b)
            &&& end.regs == st.regs
            &&& end.memory == st.memory
            &&& end.wrote == st.wrote
        }
}

spec fn known_test(cond: Seq<char>) -> bool {
    ||| cond == "=="@
    ||| cond == "!="@
    ||| cond == "<u"@
    ||| cond == "<=u"@
    ||| cond == ">=u"@
    ||| cond == ">u"@
    ||| cond == "<s"@
    ||| cond == "<=s"@
    ||| cond == ">=s"@
    ||| cond == ">s"@
}

proof fn lemma_test_texts()
    ensures
        body::branch_predicate("=="@) == "eq"@,
        body::branch_predicate("!="@) == "ne"@,
        body::branch_predicate("<u"@) == "ult"@,
        body::branch_predicate("<=u"@) == "ule"@,
        body::branch_predicate(">=u"@) == "uge"@,
        body::branch_predicate(">u"@) == "ugt"@,
        body::branch_predicate("<s"@) == "slt"@,
        body::branch_predicate("<=s"@) == "sle"@,
        body::branch_predicate(">=s"@) == "sge"@,
        body::branch_predicate(">s"@) == "sgt"@,
{
    reveal_strlit("==");
    reveal_strlit("!=");
    reveal_strlit("<u");
    reveal_strlit("<=u");
    reveal_strlit(">=u");
    reveal_strlit(">u");
    reveal_strlit("<s");
    reveal_strlit("<=s");
    reveal_strlit(">=s");
    reveal_strlit(">s");
    reveal_strlit("eq");
    reveal_strlit("ne");
    reveal_strlit("lt_u");
    reveal_strlit("lt_s");
    reveal_strlit("ge_u");
    reveal_strlit("ge_s");
    reveal_strlit("gt_u");
    reveal_strlit("gt_s");
    reveal_strlit("le_u");
    reveal_strlit("le_s");
    assert("=="@[0] == '=' && "!="@[0] == '!' && "eq"@[0] == 'e' && "ne"@[0] == 'n');
    assert("<u"@[0] == '<' && "<u"@[1] == 'u' && ">u"@[0] == '>' && ">u"@[1] == 'u');
    assert("<s"@[0] == '<' && "<s"@[1] == 's' && ">s"@[0] == '>' && ">s"@[1] == 's');
    assert("<=u"@[0] == '<' && "<=u"@[2] == 'u' && ">=u"@[0] == '>' && ">=u"@[2] == 'u');
    assert("<=s"@[0] == '<' && "<=s"@[2] == 's' && ">=s"@[0] == '>' && ">=s"@[2] == 's');
}

proof fn lemma_test(cond: Seq<char>) -> (p: Predicate)
    requires
        known_test(cond),
    ensures
        p.text() == body::branch_predicate(cond),
        forall|a: int, b: int| #[trigger]
            p.holds(64, a, b) == machine::compares(cond, a, b),
{
    lemma_test_texts();
    let p = if cond == "=="@ {
        Predicate::Eq
    } else if cond == "!="@ {
        Predicate::Ne
    } else if cond == "<u"@ {
        Predicate::Ult
    } else if cond == "<=u"@ {
        Predicate::Ule
    } else if cond == ">=u"@ {
        Predicate::Uge
    } else if cond == ">u"@ {
        Predicate::Ugt
    } else if cond == "<s"@ {
        Predicate::Slt
    } else if cond == "<=s"@ {
        Predicate::Sle
    } else if cond == ">=s"@ {
        Predicate::Sge
    } else {
        Predicate::Sgt
    };
    assert forall|a: int, b: int| #[trigger]
        p.holds(64, a, b) == machine::compares(cond, a, b) by {
        machine::lemma_comparison_texts(a, b);
    }
    p
}

proof fn lemma_longer(a: Seq<char>, b: Seq<char>, c: Seq<char>)
    requires
        a.is_prefix_of(b),
    ensures
        a.is_prefix_of(b + c),
{
    assert((b + c).subrange(0, a.len() as int) =~= b.subrange(0, a.len() as int));
}

proof fn lemma_exit_behind(a: Seq<char>, s: body::Scene, own: Set<usize>, pc: usize)
    requires
        a.is_prefix_of(s.ir.text),
    ensures
        a.is_prefix_of(body::with_exit(s, own, pc).ir.text),
{
    let x = s.ir.text;
    let l = body::target_label(own, pc);
    let t = ops::tmp_name(s.ir.next);
    let y = x + "\n"@ + l + ":\n"@;
    lemma_longer(a, x, "\n"@);
    lemma_longer(a, x + "\n"@, l);
    lemma_longer(a, x + "\n"@ + l, ":\n"@);
    let z = lines::load_line(y, t, 0);
    lemma_longer(a, y, "  "@);
    lemma_longer(a, y + "  "@, t);
    lemma_longer(a, y + "  "@ + t, " = load i64, ptr %r"@);
    lemma_longer(a, y + "  "@ + t + " = load i64, ptr %r"@, text::dec(0));
    lemma_longer(a, y + "  "@ + t + " = load i64, ptr %r"@ + text::dec(0), ", align 8\n"@);
    lemma_longer(a, z, "  ret i64 "@);
    lemma_longer(a, z + "  ret i64 "@, t);
    lemma_longer(a, z + "  ret i64 "@ + t, "\n"@);
}

proof fn lemma_branched(s: body::Scene, own: Set<usize>, t: u64, target: usize, fall: usize)
    ensures
        branching(s.ir.text, t, label(own, target), label(own, fall)).is_prefix_of(
            body::branched(s, own, ops::tmp_name(t), target, fall).ir.text,
        ),
{
    let split = body::Scene {
        ir: Ir {
            text: lines::br_cond_line(
                s.ir.text,
                ops::tmp_name(t),
                body::target_label(own, target),
                body::target_label(own, fall),
            ),
            next: s.ir.next,
        },
        exits: s.exits,
    };
    let a = branching(s.ir.text, t, label(own, target), label(own, fall));
    assert(body::target_label(own, target) == label(own, target));
    assert(body::target_label(own, fall) == label(own, fall));
    assert(a == split.ir.text);
    lemma_exit_behind(a, split, own, target);
    lemma_exit_behind(a, body::with_exit(split, own, target), own, fall);
}

spec fn constant_test(next: u64, p: Predicate, reg: u8, value: i64) -> Code {
    chain(
        Step::Load { t: next, reg },
        chain(
            Step::Compare {
                t: later(next, 1),
                pred: p,
                ty: Ty::I64,
                l: Term::Tmp(next),
                r: Term::Number(value as int),
            },
            Code::End,
        ),
    )
}

spec fn register_test(next: u64, p: Predicate, reg1: u8, reg2: u8) -> Code {
    chain(
        Step::Load { t: next, reg: reg1 },
        chain(
            Step::Load { t: later(next, 1), reg: reg2 },
            chain(
                Step::Compare {
                    t: later(next, 2),
                    pred: p,
                    ty: Ty::I64,
                    l: Term::Tmp(next),
                    r: tmp(next, 1),
                },
                Code::End,
            ),
        ),
    )
}

proof fn lemma_constant_test(s: Ir, cond: Seq<char>, p: Predicate, reg: u8, value: i64)
    requires
        s.next + 16 <= u64::MAX,
        p.text() == body::branch_predicate(cond),
    ensures
        written(s.text, constant_test(s.next, p, reg, value)) == lines::compare_const_line(
            lines::load_line(s.text, ops::tmp_name(s.next), reg),
            ops::tmp_name(ops::fresh(s.next)),
            body::branch_predicate(cond),
            ops::tmp_name(s.next),
            value,
        ),
{
    let n = s.next;
    lemma_load(s.text, n, reg);
    let s1 = (Step::Load { t: n, reg }).after(s.text);
    let t = ops::tmp_name(later(n, 1));
    let l = ops::tmp_name(n);
    let r = text::dec_signed(value as int);
    lemma_compare(s1, later(n, 1), p, Ty::I64, Term::Tmp(n), Term::Number(value as int));
    reveal_strlit(" ");
    reveal_strlit("i64");
    reveal_strlit(" i64 ");
    assert(" i64 "@ =~= " "@ + "i64"@ + " "@);
    let c = p.text();
    assert(lines::compare_line(s1, t, c, "i64"@, l, r) =~= lines::compare_const_line(
        s1,
        t,
        c,
        l,
        value,
    ));
    reveal_with_fuel(written, 3);
}

proof fn lemma_register_test(s: Ir, cond: Seq<char>, p: Predicate, reg1: u8, reg2: u8)
    requires
        s.next + 16 <= u64::MAX,
        p.text() == body::branch_predicate(cond),
    ensures
        written(s.text, register_test(s.next, p, reg1, reg2)) == lines::compare_line(
            lines::load_line(
                lines::load_line(s.text, ops::tmp_name(s.next), reg1),
                ops::tmp_name(ops::fresh(s.next)),
                reg2,
            ),
            ops::tmp_name(ops::fresh(ops::fresh(s.next))),
            body::branch_predicate(cond),
            "i64"@,
            ops::tmp_name(s.next),
            ops::tmp_name(ops::fresh(s.next)),
        ),
{
    let n = s.next;
    lemma_load(s.text, n, reg1);
    let s1 = (Step::Load { t: n, reg: reg1 }).after(s.text);
    lemma_load(s1, later(n, 1), reg2);
    let s2 = (Step::Load { t: later(n, 1), reg: reg2 }).after(s1);
    lemma_compare(s2, later(n, 2), p, Ty::I64, Term::Tmp(n), tmp(n, 1));
    reveal_with_fuel(written, 4);
}

proof fn lemma_known(instr: Instruction)
    ensures
        match instruction::classified(instr) {
            InstructionShape::BranchImm { cond, .. } => known_test(cond@),
            InstructionShape::BranchReg { cond, .. } => known_test(cond@),
            _ => true,
        },
{
}

/// A block that ends in a conditional branch ends in lines that test what the machine tests
/// and then go where it goes: to the target exactly where the machine takes the branch, and
/// behind the block where it does not.
pub proof fn law_branch_lines_do_as_machine(
    s: body::Scene,
    b: BasicBlock,
    table: Seq<u32>,
    own: Set<usize>,
)
    requires
        s.ir.next + 64 <= u64::MAX,
        b.instructions@.len() > 0,
        instruction::classified(b.instructions@.last().1).conditional(),
    ensures
        exists|code: Code, t: u64, target: usize|
            {
                &&& #[trigger] tests(code, t, b.instructions@.last().1)
                &&& #[trigger] machine::jumps_to(
                    b.instructions@.last().0,
                    b.instructions@.last().1,
                    target,
                )
                &&& branching(
                    written(s.ir.text, code),
                    t,
                    label(own, target),
                    label(own, b.end_pc),
                ).is_prefix_of(body::terminator(s, b, table, own).ir.text)
            },
{
    reveal(body::terminator);
    let (pc, instr) = b.instructions@.last();
    let n = s.ir.next;
    lemma_known(instr);
    match instruction::classified(instr) {
        InstructionShape::BranchImm { cond, reg, value, offset } => {
            let target = cfg::jump_target(pc, offset);
            let p = lemma_test(cond@);
            let code = constant_test(n, p, reg, value as i64);
            let t = later(n, 1);
            lemma_constant_test(s.ir, cond@, p, reg, value as i64);
            assert forall|st: State|
                {
                    let end = #[trigger] run(st, code);
                    &&& machine::taken(instr, st.regs) matches Some(b) && (end.tmps)(t)
                        == machine::flag(b)
                    &&& end.regs == st.regs
                    &&& end.memory == st.memory
                    &&& end.wrote == st.wrote
                } by {
                machine::law_shape_branches(instr, st.regs);
                reveal_with_fuel(run, 3);
            }
            assert(tests(code, t, instr));
            machine::law_shape_branches(instr, |r: u8| 0u64);
            assert(machine::jumps_to(pc, instr, target));
            let sc = body::Scene {
                ir: Ir { text: written(s.ir.text, code), next: ops::fresh(t) },
                exits: s.exits,
            };
            lemma_branched(sc, own, t, target, b.end_pc);
        },
        InstructionShape::BranchReg { cond, reg1, reg2, offset } => {
            let target = cfg::jump_target(pc, offset);
            let p = lemma_test(cond@);
            let code = register_test(n, p, reg1, reg2);
            let t = later(n, 2);
            lemma_register_test(s.ir, cond@, p, reg1, reg2);
            assert forall|st: State|
                {
                    let end = #[trigger] run(st, code);
                    &&& machine::taken(instr, st.regs) matches Some(b) && (end.tmps)(t)
                        == machine::flag(b)
                    &&& end.regs == st.regs
                    &&& end.memory == st.memory
                    &&& end.wrote == st.wrote
                } by {
                machine::law_shape_branches(instr, st.regs);
                reveal_with_fuel(run, 4);
            }
            assert(tests(code, t, instr));
            machine::law_shape_branches(instr, |r: u8| 0u64);
            assert(machine::jumps_to(pc, instr, target));
            let sc = body::Scene {
                ir: Ir { text: written(s.ir.text, code), next: ops::fresh(t) },
                exits: s.exits,
            };
            lemma_branched(sc, own, t, target, b.end_pc);
        },
        _ => {},
    }
}

/// A block that ends in a jump within its function ends in a jump to the label of the
/// machine's target; a block that control goes on behind ends in a jump to its successor.
pub proof fn law_jump_lines_do_as_machine(
    s: body::Scene,
    b: BasicBlock,
    table: Seq<u32>,
    own: Set<usize>,
    target: usize,
)
    requires
        b.instructions@.len() > 0,
        own.contains(target),
        ({
            let last = b.instructions@.last();
            ||| !machine::goes_on(last.1) && machine::jumps_to(last.0, last.1, target)
            ||| !machine::turns(last.1) && !(last.1 is Unknown) && b.successors@.len() > 0
                && b.successors@[0] == target
        }),
    ensures
        body::terminator(s, b, table, own).ir.text == s.ir.text + "  br label %bb_"@
            + text::hex_padded(target as nat, 4) + "\n"@,
{
    reveal(body::terminator);
    let (pc, instr) = b.instructions@.last();
    machine::law_shape_branches(instr, |r: u8| 0u64);
    lemma_plain_end(instr);
    if machine::jumps_by(instr) is Some {
        assert(cfg::jump_target(pc, machine::jumps_by(instr)->0) == target);
    }
}

proof fn lemma_plain_end(instr: Instruction)
    ensures
        !machine::goes_on(instr) && machine::jumps_by(instr) is Some ==> (
        instruction::classified(instr) is Jump || instruction::classified(instr) is LoadImmJump),
        !machine::turns(instr) ==> match instruction::classified(instr) {
            InstructionShape::NoOp { name } => name@ != "trap"@,
            InstructionShape::Jump { .. } => false,
            InstructionShape::LoadImmJump { .. } => false,
            InstructionShape::JumpInd { .. } => false,
            InstructionShape::LoadImmJumpInd { .. } => false,
            InstructionShape::BranchImm { .. } => false,
            InstructionShape::BranchReg { .. } => false,
            InstructionShape::Unknown { .. } => instr is Unknown,
            _ => true,
        },
{
    reveal_strlit("trap");
    reveal_strlit("fallthrough");
    if instr is Fallthrough {
        assert("trap"@.len() != "fallthrough"@.len());
    }
}

proof fn lemma_operation_next(
    s: Ir,
    op: BinOp,
    ty: Seq<char>,
    result: Seq<char>,
    l: Seq<char>,
    r: Seq<char>,
)
    requires
        s.next + 8 <= u64::MAX,
    ensures
        s.next <= ops::operation(s, op, ty, result, l, r).next <= s.next + 1,
{
}

proof fn lemma_applied_next(s: Ir, op: BinOp, w: BitWidth, dst: u8, l: Seq<char>, r: Seq<char>)
    requires
        s.next + 12 <= u64::MAX,
    ensures
        s.next <= ops::applied(s, op, w, dst, l, r).next <= s.next + 8,
{
    if ops::predicate(op) is Some {
    } else if ops::extensions(op) is Some {
    } else {
        lemma_operation_next(
            Ir { text: s.text, next: ops::fresh(s.next) },
            op,
            ops::ty_of(w),
            ops::tmp_name(s.next),
            l,
            r,
        );
    }
}

proof fn lemma_binary_next(s: Ir, op: BinOp, w: BitWidth, dst: u8, l: Seq<char>, r: Seq<char>)
    requires
        s.next + 16 <= u64::MAX,
    ensures
        s.next <= ops::binary(s, op, w, dst, l, r).next <= s.next + 12,
{
    match w {
        BitWidth::W32 => {
            let a = ops::tmp_name(s.next);
            let b = ops::tmp_name(ops::fresh(s.next));
            let first = lines::cast_line(s.text, a, "trunc"@, "i64"@, l, "i32"@);
            let cut = Ir {
                text: lines::cast_line(first, b, "trunc"@, "i64"@, r, "i32"@),
                next: ops::fresh(ops::fresh(s.next)),
            };
            lemma_applied_next(cut, op, w, dst, a, b);
        },
        BitWidth::W64 => lemma_applied_next(s, op, w, dst, l, r),
    }
}

proof fn lemma_memory_next(
    s: Ir,
    width: MemWidth,
    dst: u8,
    base: Option<u8>,
    offset: i64,
    v: Seq<char>,
)
    requires
        s.next + 16 <= u64::MAX,
    ensures
        s.next <= body::memory_load(s, width, dst, base, offset).next <= s.next + 8,
        s.next <= body::memory_store(s, width, base, offset, v).next <= s.next + 8,
{
    lemma_placed_text(s, base, offset, Code::End);
}

proof fn lemma_stores_next(
    s: Ir,
    width: MemWidth,
    base: Option<u8>,
    offset: i64,
    src: u8,
    value: i64,
)
    requires
        s.next + 20 <= u64::MAX,
    ensures
        s.next <= body::register_store(s, width, base, offset, src).next <= s.next + 12,
        s.next <= body::constant_store(s, width, base, offset, value).next <= s.next + 12,
{
    let t = ops::tmp_name(s.next);
    let n = ops::fresh(s.next);
    lemma_memory_next(
        Ir { text: lines::load_line(s.text, t, src), next: n },
        width,
        0,
        base,
        offset,
        t,
    );
    lemma_memory_next(
        Ir { text: lines::const_line(s.text, t, value), next: n },
        width,
        0,
        base,
        offset,
        t,
    );
}

proof fn lemma_moves_next(s: Ir, is_zero: bool, dst: u8, src: u8, cond: u8, value: i64)
    requires
        s.next + 16 <= u64::MAX,
    ensures
        s.next <= body::register_move(s, is_zero, dst, src, cond).next <= s.next + 8,
        s.next <= body::constant_move(s, is_zero, dst, cond, value).next <= s.next + 8,
{
}

proof fn lemma_unary_next(s: Ir, op: UnaryOp, dst: u8, src: Seq<char>)
    requires
        s.next + 16 <= u64::MAX,
    ensures
        s.next <= ops::unary(s, op, dst, src).next <= s.next + 12,
{
}

/// An instruction takes at most sixteen temporaries.
proof fn lemma_next(s: Ir, shape: InstructionShape)
    requires
        s.next + 32 <= u64::MAX,
    ensures
        s.next <= body::instruction_ir(s, shape).next <= s.next + 16,
{
    reveal(body::instruction_ir);
    let t1 = ops::tmp_name(s.next);
    let t2 = ops::tmp_name(ops::fresh(s.next));
    let n1 = ops::fresh(s.next);
    let n2 = ops::fresh(n1);
    match shape {
        InstructionShape::BinReg { op, width, dst, src1, src2 } => {
            lemma_binary_next(
                Ir {
                    text: lines::load_line(lines::load_line(s.text, t1, src1), t2, src2),
                    next: n2,
                },
                op,
                width,
                dst,
                t1,
                t2,
            );
        },
        InstructionShape::BinImm { op, width, dst, src, value } => {
            lemma_binary_next(
                Ir {
                    text: lines::const_line(lines::load_line(s.text, t1, src), t2, value as i64),
                    next: n2,
                },
                op,
                width,
                dst,
                t1,
                t2,
            );
        },
        InstructionShape::BinImmRev { op, width, dst, src, value } => {
            lemma_binary_next(
                Ir {
                    text: lines::load_line(lines::const_line(s.text, t1, value as i64), t2, src),
                    next: n2,
                },
                op,
                width,
                dst,
                t1,
                t2,
            );
        },
        InstructionShape::Unary { op, dst, src } => {
            lemma_unary_next(
                Ir { text: lines::load_line(s.text, t1, src), next: n1 },
                op,
                dst,
                t1,
            );
        },
        InstructionShape::Load { width, dst, base, offset } => {
            lemma_memory_next(s, width, dst, Some(base), offset as i64, t1);
        },
        InstructionShape::LoadAbsolute { width, dst, address } => {
            lemma_memory_next(s, width, dst, None, address as i64, t1);
        },
        InstructionShape::Store { width, base, src, offset } => {
            lemma_stores_next(s, width, Some(base), offset as i64, src, 0);
        },
        InstructionShape::StoreAbsolute { width, src, address } => {
            lemma_stores_next(s, width, None, address as i64, src, 0);
        },
        InstructionShape::StoreImm { width, address, value } => {
            lemma_stores_next(s, width, None, address as i64, 0, value as i64);
        },
        InstructionShape::StoreImmInd { width, base, offset, value } => {
            lemma_stores_next(s, width, Some(base), offset as i64, 0, value as i64);
        },
        InstructionShape::CmovReg { is_zero, dst, src, cond } => {
            lemma_moves_next(s, is_zero, dst, src, cond, 0);
        },
        InstructionShape::CmovImm { is_zero, dst, cond, value } => {
            lemma_moves_next(s, is_zero, dst, 0, cond, value as i64);
        },
        _ => {},
    }
}

/// The text `s` with the lines of all the steps behind, list after list.
pub open spec fn all_written(s: Seq<char>, codes: Seq<Code>) -> Seq<char>
    decreases codes.len(),
{
    if codes.len() == 0 {
        s
    } else {
        written(all_written(s, codes.drop_last()), codes.last())
    }
}

/// Whether the steps do what the instruction does, from every state.
pub open spec fn carries_out_instruction(code: Code, instr: Instruction) -> bool {
    forall|st: State| #[trigger]
        sound(st) ==> does(instruction::classified(instr), st, run(st, code)) && does_as_machine(
            instr,
            st,
            run(st, code),
        )
}

/// Whether the lines between two texts are those of the first `n` instructions, in order.
pub open spec fn carries_out_all(
    before: Seq<char>,
    after: Seq<char>,
    codes: Seq<Code>,
    code: Seq<(usize, Instruction)>,
    n: nat,
) -> bool {
    &&& codes.len() == n
    &&& all_written(before, codes) == after
    &&& forall|i: int|
        0 <= i < n ==> carries_out_instruction(#[trigger] codes[i], code[i].1)
}

proof fn lemma_all(s: Ir, code: Seq<(usize, Instruction)>, n: nat) -> (codes: Seq<Code>)
    requires
        n <= code.len(),
        s.next + 16 * n + 128 <= u64::MAX,
        forall|i: int| 0 <= i < n ==> computes(instruction::classified((#[trigger] code[i]).1)),
    ensures
        carries_out_all(s.text, module::instructions_ir(s, code, n).text, codes, code, n),
        s.next <= module::instructions_ir(s, code, n).next <= s.next + 16 * n,
    decreases n,
{
    if n == 0 {
        seq![]
    } else {
        let m = (n - 1) as nat;
        let before = lemma_all(s, code, m);
        let mid = module::instructions_ir(s, code, m);
        let instr = code[n - 1].1;
        let shape = instruction::classified(instr);
        law_lines_do_instruction(mid, shape);
        lemma_next(mid, shape);
        let last = choose|c: Code| #[trigger]
            carries_out(mid.text, body::instruction_ir(mid, shape).text, c, shape);
        assert forall|st: State| #[trigger] sound(st) implies does(shape, st, run(st, last))
            && does_as_machine(instr, st, run(st, last)) by {
            lemma_does(instr, st, run(st, last));
        }
        let codes = before.push(last);
        assert(codes.drop_last() =~= before);
        assert(codes.last() == last);
        assert forall|i: int| 0 <= i < n implies carries_out_instruction(
            #[trigger] codes[i],
            code[i].1,
        ) by {
            if i < m {
                assert(codes[i] == before[i]);
            }
        }
        codes
    }
}

/// The lines of a block are those of its instructions, each after the one before: run in
/// order, they do what the instructions do in order.
pub proof fn law_block_lines_run_in_order(s: Ir, code: Seq<(usize, Instruction)>)
    requires
        s.next + 16 * code.len() + 128 <= u64::MAX,
        forall|i: int|
            0 <= i < code.len() ==> computes(instruction::classified((#[trigger] code[i]).1)),
    ensures
        exists|codes: Seq<Code>| #[trigger]
            carries_out_all(
                s.text,
                module::instructions_ir(s, code, code.len()).text,
                codes,
                code,
                code.len(),
            ),
{
    let codes = lemma_all(s, code, code.len());
    assert(carries_out_all(
        s.text,
        module::instructions_ir(s, code, code.len()).text,
        codes,
        code,
        code.len(),
    ));
}

/// The state that lists of steps lead to, one after the other.
pub open spec fn run_all(st: State, codes: Seq<Code>) -> State
    decreases codes.len(),
{
    if codes.len() == 0 {
        st
    } else {
        run(run_all(st, codes.drop_last()), codes.last())
    }
}

/// Whether the steps are written between two texts and leave the first `n` registers zero.
pub open spec fn clears(before: Seq<char>, after: Seq<char>, codes: Seq<Code>, n: nat) -> bool {
    &&& all_written(before, codes) == after
    &&& forall|st: State, reg: u8|
        reg < n ==> (#[trigger] (run_all(st, codes).regs)(reg)) == 0
}

proof fn lemma_clears(s: Seq<char>, n: nat) -> (codes: Seq<Code>)
    requires
        n <= 13,
    ensures
        clears(s, module::cleared(s, n), codes, n),
    decreases n,
{
    if n == 0 {
        seq![]
    } else {
        let m = (n - 1) as nat;
        let before = lemma_clears(s, m);
        let reg = m as u8;
        let step = Step::Store { v: Term::Number(0), reg };
        let code = chain(step, Code::End);
        let mid = module::cleared(s, m);
        lemma_constants();
        lemma_store(mid, Term::Number(0), reg);
        reveal_strlit("  store i64 0, ptr %r");
        reveal_strlit("  store i64 ");
        reveal_strlit("0");
        reveal_strlit(", ptr %r");
        assert("  store i64 0, ptr %r"@ =~= "  store i64 "@ + "0"@ + ", ptr %r"@);
        assert(lines::store_line(mid, "0"@, reg) =~= lines::clear_line(mid, reg));
        lemma_then(mid, step, Code::End);
        let codes = before.push(code);
        assert(codes.drop_last() =~= before);
        lemma_words(64, 0);
        assert forall|st: State, k: u8| k < n implies (#[trigger] (run_all(st, codes).regs)(k))
            == 0 by {
            reveal_with_fuel(run, 2);
            let a = run_all(st, before);
            assert(run_all(st, codes) == run(a, code));
            if k < m {
                assert((run_all(st, before).regs)(k) == 0);
            }
        }
        codes
    }
}

/// The lines at the start of a function leave all thirteen registers zero.
pub proof fn law_registers_start_at_zero(s: Seq<char>)
    ensures
        exists|codes: Seq<Code>| #[trigger] clears(s, module::cleared(s, 13), codes, 13),
{
    let codes = lemma_clears(s, 13);
    assert(clears(s, module::cleared(s, 13), codes, 13));
}

} // verus!
