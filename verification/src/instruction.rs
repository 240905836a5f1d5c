//! Classification of instructions by shape.
//!
//! Formatting, lifting and the dataflow analyses work on the shape of an
//! instruction (binary operation, load, branch, ...) rather than on the
//! instruction set itself. `classified` is the one place that says which shape
//! each instruction has.

use crate::pvm::Instruction;
use crate::text::{push_dec, push_dec_signed, push_hex_padded, same_text};
use vstd::prelude::*;

verus! {

/// Binary operator of an expression.
#[derive(Debug, Clone, Copy, PartialEq, Eq, Structural)]
pub enum BinOp {
    Add,
    Sub,
    Mul,
    DivU,
    DivS,
    RemU,
    RemS,
    Shl,
    ShrU,
    ShrS,
    And,
    Or,
    Xor,
    LtU,
    LtS,
    /// Greater-than-or-equal unsigned - produced by simplification of `!(x <u y)`.
    GeU,
    /// Greater-than-or-equal signed - produced by simplification of `!(x <s y)`.
    GeS,
    /// Greater-than unsigned - produced by flipping `const <u expr` to `expr >u const`.
    GtU,
    /// Greater-than signed - produced by flipping `const <s expr` to `expr >s const`.
    GtS,
    /// Less-than-or-equal unsigned - produced by inversion of `!(x >u y)`.
    LeU,
    /// Less-than-or-equal signed - produced by inversion of `!(x >s y)`.
    LeS,
    /// Negate and add: dst = value - src.
    NegAdd,
    /// Rotate left.
    RotL,
    /// Rotate right.
    RotR,
    /// Upper 64 bits of signed x signed 128-bit multiply.
    MulUpperSS,
    /// Upper 64 bits of unsigned x unsigned 128-bit multiply.
    MulUpperUU,
    /// Upper 64 bits of signed x unsigned 128-bit multiply.
    MulUpperSU,
    /// AND with inverted second operand: dst = src1 & ~src2.
    AndInv,
    /// OR with inverted second operand: dst = src1 | ~src2.
    OrInv,
    /// XNOR: dst = ~(src1 ^ src2).
    Xnor,
    /// Signed maximum.
    Max,
    /// Unsigned maximum.
    MaxU,
    /// Signed minimum.
    Min,
    /// Unsigned minimum.
    MinU,
}

impl BinOp {
    /// The text of this operator in pseudo-code.
    pub open spec fn symbol(self) -> Seq<char> {
        match self {
            BinOp::Add => "+"@,
            BinOp::Sub => "-"@,
            BinOp::Mul => "*"@,
            BinOp::DivU => "/u"@,
            BinOp::DivS => "/s"@,
            BinOp::RemU => "%u"@,
            BinOp::RemS => "%s"@,
            BinOp::Shl => "<<"@,
            BinOp::ShrU => ">>u"@,
            BinOp::ShrS => ">>s"@,
            BinOp::And => "&"@,
            BinOp::Or => "|"@,
            BinOp::Xor => "^"@,
            BinOp::LtU => "<u"@,
            BinOp::LtS => "<s"@,
            BinOp::GeU => ">=u"@,
            BinOp::GeS => ">=s"@,
            BinOp::GtU => ">u"@,
            BinOp::GtS => ">s"@,
            BinOp::LeU => "<=u"@,
            BinOp::LeS => "<=s"@,
            BinOp::NegAdd => "neg+"@,
            BinOp::RotL => "rotl"@,
            BinOp::RotR => "rotr"@,
            BinOp::MulUpperSS => "mulhss"@,
            BinOp::MulUpperUU => "mulhuu"@,
            BinOp::MulUpperSU => "mulhsu"@,
            BinOp::AndInv => "&~"@,
            BinOp::OrInv => "|~"@,
            BinOp::Xnor => "xnor"@,
            BinOp::Max => "max"@,
            BinOp::MaxU => "maxu"@,
            BinOp::Min => "min"@,
            BinOp::MinU => "minu"@,
        }
    }

    pub fn as_str(self) -> (text: &'static str)
        ensures
            text@ == self.symbol(),
    {
        match self {
            BinOp::Add => "+",
            BinOp::Sub => "-",
            BinOp::Mul => "*",
            BinOp::DivU => "/u",
            BinOp::DivS => "/s",
            BinOp::RemU => "%u",
            BinOp::RemS => "%s",
            BinOp::Shl => "<<",
            BinOp::ShrU => ">>u",
            BinOp::ShrS => ">>s",
            BinOp::And => "&",
            BinOp::Or => "|",
            BinOp::Xor => "^",
            BinOp::LtU => "<u",
            BinOp::LtS => "<s",
            BinOp::GeU => ">=u",
            BinOp::GeS => ">=s",
            BinOp::GtU => ">u",
            BinOp::GtS => ">s",
            BinOp::LeU => "<=u",
            BinOp::LeS => "<=s",
            BinOp::NegAdd => "neg+",
            BinOp::RotL => "rotl",
            BinOp::RotR => "rotr",
            BinOp::MulUpperSS => "mulhss",
            BinOp::MulUpperUU => "mulhuu",
            BinOp::MulUpperSU => "mulhsu",
            BinOp::AndInv => "&~",
            BinOp::OrInv => "|~",
            BinOp::Xnor => "xnor",
            BinOp::Max => "max",
            BinOp::MaxU => "maxu",
            BinOp::Min => "min",
            BinOp::MinU => "minu",
        }
    }
}

/// Unary operator of an expression.
#[derive(Debug, Clone, Copy, PartialEq, Eq, Structural)]
pub enum UnaryOp {
    Not,
    Sext8,
    Sext16,
    Zext16,
    Popcnt32,
    Popcnt64,
    Clz32,
    Clz64,
    Ctz32,
    Ctz64,
    Sbrk,
    /// Reverse byte order (bswap).
    Bswap,
}

impl UnaryOp {
    /// The text of this operator in pseudo-code.
    pub open spec fn symbol(self) -> Seq<char> {
        match self {
            UnaryOp::Not => "!"@,
            UnaryOp::Sext8 => "sext8"@,
            UnaryOp::Sext16 => "sext16"@,
            UnaryOp::Zext16 => "zext16"@,
            UnaryOp::Popcnt32 => "popcnt32"@,
            UnaryOp::Popcnt64 => "popcnt64"@,
            UnaryOp::Clz32 => "clz32"@,
            UnaryOp::Clz64 => "clz64"@,
            UnaryOp::Ctz32 => "ctz32"@,
            UnaryOp::Ctz64 => "ctz64"@,
            UnaryOp::Sbrk => "sbrk"@,
            UnaryOp::Bswap => "bswap"@,
        }
    }

    pub fn as_str(self) -> (text: &'static str)
        ensures
            text@ == self.symbol(),
    {
        match self {
            UnaryOp::Not => "!",
            UnaryOp::Sext8 => "sext8",
            UnaryOp::Sext16 => "sext16",
            UnaryOp::Zext16 => "zext16",
            UnaryOp::Popcnt32 => "popcnt32",
            UnaryOp::Popcnt64 => "popcnt64",
            UnaryOp::Clz32 => "clz32",
            UnaryOp::Clz64 => "clz64",
            UnaryOp::Ctz32 => "ctz32",
            UnaryOp::Ctz64 => "ctz64",
            UnaryOp::Sbrk => "sbrk",
            UnaryOp::Bswap => "bswap",
        }
    }
}

/// Width of a memory access.
#[derive(Debug, Clone, Copy, PartialEq, Eq, Structural)]
pub enum MemWidth {
    U8,
    I8,
    U16,
    I16,
    U32,
    I32,
    U64,
}

impl MemWidth {
    /// The text of this width in pseudo-code.
    pub open spec fn symbol(self) -> Seq<char> {
        match self {
            MemWidth::U8 => "u8"@,
            MemWidth::I8 => "i8"@,
            MemWidth::U16 => "u16"@,
            MemWidth::I16 => "i16"@,
            MemWidth::U32 => "u32"@,
            MemWidth::I32 => "i32"@,
            MemWidth::U64 => "u64"@,
        }
    }

    pub fn as_str(self) -> (text: &'static str)
        ensures
            text@ == self.symbol(),
    {
        match self {
            MemWidth::U8 => "u8",
            MemWidth::I8 => "i8",
            MemWidth::U16 => "u16",
            MemWidth::I16 => "i16",
            MemWidth::U32 => "u32",
            MemWidth::I32 => "i32",
            MemWidth::U64 => "u64",
        }
    }

    /// Number of bytes of an access of this width.
    pub open spec fn bytes(self) -> int {
        match self {
            MemWidth::U8 | MemWidth::I8 => 1,
            MemWidth::U16 | MemWidth::I16 => 2,
            MemWidth::U32 | MemWidth::I32 => 4,
            MemWidth::U64 => 8,
        }
    }

    /// Return the byte size of this memory width.
    pub fn byte_size(self) -> (n: i64)
        ensures
            n == self.bytes(),
    {
        match self {
            MemWidth::U8 | MemWidth::I8 => 1,
            MemWidth::U16 | MemWidth::I16 => 2,
            MemWidth::U32 | MemWidth::I32 => 4,
            MemWidth::U64 => 8,
        }
    }
}

/// Bit width of an arithmetic operation.
#[derive(Debug, Clone, Copy, PartialEq, Eq, Structural)]
pub enum BitWidth {
    /// 32-bit, or native and unspecified: no suffix in raw formatting.
    W32,
    /// 64-bit: formatted with the suffix "64" in raw mode.
    W64,
}

impl BitWidth {
    /// Suffix of an operator of this width in raw formatting.
    pub open spec fn suffix(self) -> Seq<char> {
        match self {
            BitWidth::W64 => "64"@,
            BitWidth::W32 => ""@,
        }
    }

    fn suffix_str(self) -> (text: &'static str)
        ensures
            text@ == self.suffix(),
    {
        match self {
            BitWidth::W64 => "64",
            BitWidth::W32 => "",
        }
    }
}

/// The common structure of an instruction.
#[derive(Debug)]
#[allow(inconsistent_fields)]
pub enum InstructionShape {
    /// No-op: trap, fallthrough.
    NoOp { name: &'static str },
    /// Load immediate into register.
    LoadImm { dst: u8, value: i64 },
    /// Three-register binary: dst = src1 op src2.
    BinReg {
        op: BinOp,
        width: BitWidth,
        dst: u8,
        src1: u8,
        src2: u8,
    },
    /// Register + immediate binary: dst = src op value.
    BinImm {
        op: BinOp,
        width: BitWidth,
        dst: u8,
        src: u8,
        value: i32,
    },
    /// Unary operation: dst = op(src).
    Unary { op: UnaryOp, dst: u8, src: u8 },
    /// Memory load: dst = width[base + offset].
    Load {
        width: MemWidth,
        dst: u8,
        base: u8,
        offset: i32,
    },
    /// Memory store: width[base + offset] = src.
    Store {
        width: MemWidth,
        base: u8,
        src: u8,
        offset: i32,
    },
    /// Unconditional jump.
    Jump { offset: i32 },
    /// Indirect jump.
    JumpInd { reg: u8 },
    /// Branch with register vs immediate comparison.
    BranchImm {
        cond: &'static str,
        reg: u8,
        value: i32,
        offset: i32,
    },
    /// Branch with two-register comparison.
    BranchReg {
        cond: &'static str,
        reg1: u8,
        reg2: u8,
        offset: i32,
    },
    /// Register + immediate binary with reversed operands: dst = value op src.
    BinImmRev {
        op: BinOp,
        width: BitWidth,
        dst: u8,
        src: u8,
        value: i32,
    },
    /// Conditional move (three registers): if cond then dst = src.
    CmovReg {
        is_zero: bool,
        dst: u8,
        src: u8,
        cond: u8,
    },
    /// Conditional move with immediate: if cond then dst = value.
    CmovImm {
        is_zero: bool,
        dst: u8,
        cond: u8,
        value: i32,
    },
    /// Combined load-immediate + unconditional jump.
    LoadImmJump { dst: u8, value: i32, offset: i32 },
    /// Combined load-immediate + indirect jump.
    LoadImmJumpInd { base: u8, dst: u8, value: i32 },
    /// Load from absolute address (no base register).
    LoadAbsolute {
        width: MemWidth,
        dst: u8,
        address: i32,
    },
    /// Store to absolute address (no base register).
    StoreAbsolute {
        width: MemWidth,
        src: u8,
        address: i32,
    },
    /// Store immediate to absolute address.
    StoreImm {
        width: MemWidth,
        address: i32,
        value: i32,
    },
    /// Store immediate to [base + offset].
    StoreImmInd {
        width: MemWidth,
        base: u8,
        offset: i32,
        value: i32,
    },
    /// External call.
    Ecalli { index: u32 },
    /// Unknown/unrecognized instruction.
    Unknown { opcode: u8 },
}

/// The shape of each instruction.
///
/// A two-register branch on `reg1: a, reg2: b` branches when `b op a`; its shape
/// holds the operands swapped, so that it reads `reg1 op reg2`.
pub open spec fn classified(instr: Instruction) -> InstructionShape {
    match instr {
        Instruction::Trap => InstructionShape::NoOp { name: "trap" },
        Instruction::Fallthrough => InstructionShape::NoOp { name: "fallthrough" },
        Instruction::LoadImm { reg, value } => InstructionShape::LoadImm { dst: reg, value: value as i64 },
        Instruction::LoadImm64 { reg, value } => InstructionShape::LoadImm { dst: reg, value: value as i64 },
        Instruction::Add32 { dst, src1, src2 } => InstructionShape::BinReg { op: BinOp::Add, width: BitWidth::W32, dst, src1, src2 },
        Instruction::Sub32 { dst, src1, src2 } => InstructionShape::BinReg { op: BinOp::Sub, width: BitWidth::W32, dst, src1, src2 },
        Instruction::Mul32 { dst, src1, src2 } => InstructionShape::BinReg { op: BinOp::Mul, width: BitWidth::W32, dst, src1, src2 },
        Instruction::DivU32 { dst, src1, src2 } => InstructionShape::BinReg { op: BinOp::DivU, width: BitWidth::W32, dst, src1, src2 },
        Instruction::DivS32 { dst, src1, src2 } => InstructionShape::BinReg { op: BinOp::DivS, width: BitWidth::W32, dst, src1, src2 },
        Instruction::RemU32 { dst, src1, src2 } => InstructionShape::BinReg { op: BinOp::RemU, width: BitWidth::W32, dst, src1, src2 },
        Instruction::RemS32 { dst, src1, src2 } => InstructionShape::BinReg { op: BinOp::RemS, width: BitWidth::W32, dst, src1, src2 },
        Instruction::ShloL32 { dst, src1, src2 } => InstructionShape::BinReg { op: BinOp::Shl, width: BitWidth::W32, dst, src1, src2 },
        Instruction::ShloR32 { dst, src1, src2 } => InstructionShape::BinReg { op: BinOp::ShrU, width: BitWidth::W32, dst, src1, src2 },
        Instruction::SharR32 { dst, src1, src2 } => InstructionShape::BinReg { op: BinOp::ShrS, width: BitWidth::W32, dst, src1, src2 },
        Instruction::Add64 { dst, src1, src2 } => InstructionShape::BinReg { op: BinOp::Add, width: BitWidth::W64, dst, src1, src2 },
        Instruction::Sub64 { dst, src1, src2 } => InstructionShape::BinReg { op: BinOp::Sub, width: BitWidth::W64, dst, src1, src2 },
        Instruction::Mul64 { dst, src1, src2 } => InstructionShape::BinReg { op: BinOp::Mul, width: BitWidth::W64, dst, src1, src2 },
        Instruction::DivU64 { dst, src1, src2 } => InstructionShape::BinReg { op: BinOp::DivU, width: BitWidth::W64, dst, src1, src2 },
        Instruction::DivS64 { dst, src1, src2 } => InstructionShape::BinReg { op: BinOp::DivS, width: BitWidth::W64, dst, src1, src2 },
        Instruction::RemU64 { dst, src1, src2 } => InstructionShape::BinReg { op: BinOp::RemU, width: BitWidth::W64, dst, src1, src2 },
        Instruction::RemS64 { dst, src1, src2 } => InstructionShape::BinReg { op: BinOp::RemS, width: BitWidth::W64, dst, src1, src2 },
        Instruction::ShloL64 { dst, src1, src2 } => InstructionShape::BinReg { op: BinOp::Shl, width: BitWidth::W64, dst, src1, src2 },
        Instruction::ShloR64 { dst, src1, src2 } => InstructionShape::BinReg { op: BinOp::ShrU, width: BitWidth::W64, dst, src1, src2 },
        Instruction::SharR64 { dst, src1, src2 } => InstructionShape::BinReg { op: BinOp::ShrS, width: BitWidth::W64, dst, src1, src2 },
        Instruction::And { dst, src1, src2 } => InstructionShape::BinReg { op: BinOp::And, width: BitWidth::W32, dst, src1, src2 },
        Instruction::Or { dst, src1, src2 } => InstructionShape::BinReg { op: BinOp::Or, width: BitWidth::W32, dst, src1, src2 },
        Instruction::Xor { dst, src1, src2 } => InstructionShape::BinReg { op: BinOp::Xor, width: BitWidth::W32, dst, src1, src2 },
        Instruction::SetLtU { dst, src1, src2 } => InstructionShape::BinReg { op: BinOp::LtU, width: BitWidth::W32, dst, src1, src2 },
        Instruction::SetLtS { dst, src1, src2 } => InstructionShape::BinReg { op: BinOp::LtS, width: BitWidth::W32, dst, src1, src2 },
        Instruction::CmovIz { dst, src, cond } => InstructionShape::CmovReg { is_zero: true, dst, src, cond },
        Instruction::CmovNz { dst, src, cond } => InstructionShape::CmovReg { is_zero: false, dst, src, cond },
        Instruction::MulUpperSS { dst, src1, src2 } => InstructionShape::BinReg { op: BinOp::MulUpperSS, width: BitWidth::W64, dst, src1, src2 },
        Instruction::MulUpperUU { dst, src1, src2 } => InstructionShape::BinReg { op: BinOp::MulUpperUU, width: BitWidth::W64, dst, src1, src2 },
        Instruction::MulUpperSU { dst, src1, src2 } => InstructionShape::BinReg { op: BinOp::MulUpperSU, width: BitWidth::W64, dst, src1, src2 },
        Instruction::RotL64 { dst, src1, src2 } => InstructionShape::BinReg { op: BinOp::RotL, width: BitWidth::W64, dst, src1, src2 },
        Instruction::RotL32 { dst, src1, src2 } => InstructionShape::BinReg { op: BinOp::RotL, width: BitWidth::W32, dst, src1, src2 },
        Instruction::RotR64 { dst, src1, src2 } => InstructionShape::BinReg { op: BinOp::RotR, width: BitWidth::W64, dst, src1, src2 },
        Instruction::RotR32 { dst, src1, src2 } => InstructionShape::BinReg { op: BinOp::RotR, width: BitWidth::W32, dst, src1, src2 },
        Instruction::AndInv { dst, src1, src2 } => InstructionShape::BinReg { op: BinOp::AndInv, width: BitWidth::W64, dst, src1, src2 },
        Instruction::OrInv { dst, src1, src2 } => InstructionShape::BinReg { op: BinOp::OrInv, width: BitWidth::W64, dst, src1, src2 },
        Instruction::Xnor { dst, src1, src2 } => InstructionShape::BinReg { op: BinOp::Xnor, width: BitWidth::W64, dst, src1, src2 },
        Instruction::Max { dst, src1, src2 } => InstructionShape::BinReg { op: BinOp::Max, width: BitWidth::W64, dst, src1, src2 },
        Instruction::MaxU { dst, src1, src2 } => InstructionShape::BinReg { op: BinOp::MaxU, width: BitWidth::W64, dst, src1, src2 },
        Instruction::Min { dst, src1, src2 } => InstructionShape::BinReg { op: BinOp::Min, width: BitWidth::W64, dst, src1, src2 },
        Instruction::MinU { dst, src1, src2 } => InstructionShape::BinReg { op: BinOp::MinU, width: BitWidth::W64, dst, src1, src2 },
        Instruction::AddImm32 { dst, src, value } => InstructionShape::BinImm { op: BinOp::Add, width: BitWidth::W32, dst, src, value },
        Instruction::AddImm64 { dst, src, value } => InstructionShape::BinImm { op: BinOp::Add, width: BitWidth::W64, dst, src, value },
        Instruction::AndImm { dst, src, value } => InstructionShape::BinImm { op: BinOp::And, width: BitWidth::W64, dst, src, value },
        Instruction::XorImm { dst, src, value } => InstructionShape::BinImm { op: BinOp::Xor, width: BitWidth::W64, dst, src, value },
        Instruction::OrImm { dst, src, value } => InstructionShape::BinImm { op: BinOp::Or, width: BitWidth::W64, dst, src, value },
        Instruction::MulImm32 { dst, src, value } => InstructionShape::BinImm { op: BinOp::Mul, width: BitWidth::W32, dst, src, value },
        Instruction::MulImm64 { dst, src, value } => InstructionShape::BinImm { op: BinOp::Mul, width: BitWidth::W64, dst, src, value },
        Instruction::ShloLImm32 { dst, src, value } => InstructionShape::BinImm { op: BinOp::Shl, width: BitWidth::W32, dst, src, value },
        Instruction::ShloRImm32 { dst, src, value } => InstructionShape::BinImm { op: BinOp::ShrU, width: BitWidth::W32, dst, src, value },
        Instruction::SharRImm32 { dst, src, value } => InstructionShape::BinImm { op: BinOp::ShrS, width: BitWidth::W32, dst, src, value },
        Instruction::ShloLImm64 { dst, src, value } => InstructionShape::BinImm { op: BinOp::Shl, width: BitWidth::W64, dst, src, value },
        Instruction::ShloRImm64 { dst, src, value } => InstructionShape::BinImm { op: BinOp::ShrU, width: BitWidth::W64, dst, src, value },
        Instruction::SharRImm64 { dst, src, value } => InstructionShape::BinImm { op: BinOp::ShrS, width: BitWidth::W64, dst, src, value },
        Instruction::NegAddImm32 { dst, src, value } => InstructionShape::BinImm { op: BinOp::NegAdd, width: BitWidth::W32, dst, src, value },
        Instruction::NegAddImm64 { dst, src, value } => InstructionShape::BinImm { op: BinOp::NegAdd, width: BitWidth::W64, dst, src, value },
        Instruction::SetLtUImm { dst, src, value } => InstructionShape::BinImm { op: BinOp::LtU, width: BitWidth::W32, dst, src, value },
        Instruction::SetLtSImm { dst, src, value } => InstructionShape::BinImm { op: BinOp::LtS, width: BitWidth::W32, dst, src, value },
        Instruction::SetGtUImm { dst, src, value } => InstructionShape::BinImm { op: BinOp::GtU, width: BitWidth::W32, dst, src, value },
        Instruction::SetGtSImm { dst, src, value } => InstructionShape::BinImm { op: BinOp::GtS, width: BitWidth::W32, dst, src, value },
        Instruction::RotRImm32 { dst, src, value } => InstructionShape::BinImm { op: BinOp::RotR, width: BitWidth::W32, dst, src, value },
        Instruction::RotRImm64 { dst, src, value } => InstructionShape::BinImm { op: BinOp::RotR, width: BitWidth::W64, dst, src, value },
        Instruction::ShloLImmAlt32 { dst, src, value } => InstructionShape::BinImmRev { op: BinOp::Shl, width: BitWidth::W32, dst, src, value },
        Instruction::ShloRImmAlt32 { dst, src, value } => InstructionShape::BinImmRev { op: BinOp::ShrU, width: BitWidth::W32, dst, src, value },
        Instruction::SharRImmAlt32 { dst, src, value } => InstructionShape::BinImmRev { op: BinOp::ShrS, width: BitWidth::W32, dst, src, value },
        Instruction::ShloLImmAlt64 { dst, src, value } => InstructionShape::BinImmRev { op: BinOp::Shl, width: BitWidth::W64, dst, src, value },
        Instruction::ShloRImmAlt64 { dst, src, value } => InstructionShape::BinImmRev { op: BinOp::ShrU, width: BitWidth::W64, dst, src, value },
        Instruction::SharRImmAlt64 { dst, src, value } => InstructionShape::BinImmRev { op: BinOp::ShrS, width: BitWidth::W64, dst, src, value },
        Instruction::RotRImmAlt32 { dst, src, value } => InstructionShape::BinImmRev { op: BinOp::RotR, width: BitWidth::W32, dst, src, value },
        Instruction::RotRImmAlt64 { dst, src, value } => InstructionShape::BinImmRev { op: BinOp::RotR, width: BitWidth::W64, dst, src, value },
        Instruction::Sbrk { dst, src } => InstructionShape::Unary { op: UnaryOp::Sbrk, dst, src },
        Instruction::CountSetBits64 { dst, src } => InstructionShape::Unary { op: UnaryOp::Popcnt64, dst, src },
        Instruction::CountSetBits32 { dst, src } => InstructionShape::Unary { op: UnaryOp::Popcnt32, dst, src },
        Instruction::LeadingZeroBits64 { dst, src } => InstructionShape::Unary { op: UnaryOp::Clz64, dst, src },
        Instruction::LeadingZeroBits32 { dst, src } => InstructionShape::Unary { op: UnaryOp::Clz32, dst, src },
        Instruction::TrailingZeroBits64 { dst, src } => InstructionShape::Unary { op: UnaryOp::Ctz64, dst, src },
        Instruction::TrailingZeroBits32 { dst, src } => InstructionShape::Unary { op: UnaryOp::Ctz32, dst, src },
        Instruction::SignExtend8 { dst, src } => InstructionShape::Unary { op: UnaryOp::Sext8, dst, src },
        Instruction::SignExtend16 { dst, src } => InstructionShape::Unary { op: UnaryOp::Sext16, dst, src },
        Instruction::ZeroExtend16 { dst, src } => InstructionShape::Unary { op: UnaryOp::Zext16, dst, src },
        Instruction::ReverseBytes { dst, src } => InstructionShape::Unary { op: UnaryOp::Bswap, dst, src },
        Instruction::CmovIzImm { dst, cond, value } => InstructionShape::CmovImm { is_zero: true, dst, cond, value },
        Instruction::CmovNzImm { dst, cond, value } => InstructionShape::CmovImm { is_zero: false, dst, cond, value },
        Instruction::LoadIndU8 { dst, base, offset } => InstructionShape::Load { width: MemWidth::U8, dst, base, offset },
        Instruction::LoadIndI8 { dst, base, offset } => InstructionShape::Load { width: MemWidth::I8, dst, base, offset },
        Instruction::LoadIndU16 { dst, base, offset } => InstructionShape::Load { width: MemWidth::U16, dst, base, offset },
        Instruction::LoadIndI16 { dst, base, offset } => InstructionShape::Load { width: MemWidth::I16, dst, base, offset },
        Instruction::LoadIndU32 { dst, base, offset } => InstructionShape::Load { width: MemWidth::U32, dst, base, offset },
        Instruction::LoadIndU64 { dst, base, offset } => InstructionShape::Load { width: MemWidth::U64, dst, base, offset },
        Instruction::LoadIndI32 { dst, base, offset } => InstructionShape::Load { width: MemWidth::I32, dst, base, offset },
        Instruction::StoreIndU8 { base, src, offset } => InstructionShape::Store { width: MemWidth::U8, base, src, offset },
        Instruction::StoreIndU16 { base, src, offset } => InstructionShape::Store { width: MemWidth::U16, base, src, offset },
        Instruction::StoreIndU32 { base, src, offset } => InstructionShape::Store { width: MemWidth::U32, base, src, offset },
        Instruction::StoreIndU64 { base, src, offset } => InstructionShape::Store { width: MemWidth::U64, base, src, offset },
        Instruction::LoadU8 { dst, address } => InstructionShape::LoadAbsolute { width: MemWidth::U8, dst, address },
        Instruction::LoadI8 { dst, address } => InstructionShape::LoadAbsolute { width: MemWidth::I8, dst, address },
        Instruction::LoadU16 { dst, address } => InstructionShape::LoadAbsolute { width: MemWidth::U16, dst, address },
        Instruction::LoadI16 { dst, address } => InstructionShape::LoadAbsolute { width: MemWidth::I16, dst, address },
        Instruction::LoadU32 { dst, address } => InstructionShape::LoadAbsolute { width: MemWidth::U32, dst, address },
        Instruction::LoadI32 { dst, address } => InstructionShape::LoadAbsolute { width: MemWidth::I32, dst, address },
        Instruction::LoadU64 { dst, address } => InstructionShape::LoadAbsolute { width: MemWidth::U64, dst, address },
        Instruction::StoreU8 { src, address } => InstructionShape::StoreAbsolute { width: MemWidth::U8, src, address },
        Instruction::StoreU16 { src, address } => InstructionShape::StoreAbsolute { width: MemWidth::U16, src, address },
        Instruction::StoreU32 { src, address } => InstructionShape::StoreAbsolute { width: MemWidth::U32, src, address },
        Instruction::StoreU64 { src, address } => InstructionShape::StoreAbsolute { width: MemWidth::U64, src, address },
        Instruction::StoreImmU8 { address, value } => InstructionShape::StoreImm { width: MemWidth::U8, address, value },
        Instruction::StoreImmU16 { address, value } => InstructionShape::StoreImm { width: MemWidth::U16, address, value },
        Instruction::StoreImmU32 { address, value } => InstructionShape::StoreImm { width: MemWidth::U32, address, value },
        Instruction::StoreImmU64 { address, value } => InstructionShape::StoreImm { width: MemWidth::U64, address, value },
        Instruction::StoreImmIndU8 { base, offset, value } => InstructionShape::StoreImmInd { width: MemWidth::U8, base, offset, value },
        Instruction::StoreImmIndU16 { base, offset, value } => InstructionShape::StoreImmInd { width: MemWidth::U16, base, offset, value },
        Instruction::StoreImmIndU32 { base, offset, value } => InstructionShape::StoreImmInd { width: MemWidth::U32, base, offset, value },
        Instruction::StoreImmIndU64 { base, offset, value } => InstructionShape::StoreImmInd { width: MemWidth::U64, base, offset, value },
        Instruction::Jump { offset } => InstructionShape::Jump { offset },
        Instruction::JumpInd { reg, .. } => InstructionShape::JumpInd { reg },
        Instruction::LoadImmJump { reg, value, offset } => InstructionShape::LoadImmJump { dst: reg, value, offset },
        Instruction::LoadImmJumpInd { base, dst, value, .. } => InstructionShape::LoadImmJumpInd { base, dst, value },
        Instruction::BranchEqImm { reg, value, offset } => InstructionShape::BranchImm { cond: "==", reg, value, offset },
        Instruction::BranchNeImm { reg, value, offset } => InstructionShape::BranchImm { cond: "!=", reg, value, offset },
        Instruction::BranchGeSImm { reg, value, offset } => InstructionShape::BranchImm { cond: ">=s", reg, value, offset },
        Instruction::BranchLtUImm { reg, value, offset } => InstructionShape::BranchImm { cond: "<u", reg, value, offset },
        Instruction::BranchLeUImm { reg, value, offset } => InstructionShape::BranchImm { cond: "<=u", reg, value, offset },
        Instruction::BranchGeUImm { reg, value, offset } => InstructionShape::BranchImm { cond: ">=u", reg, value, offset },
        Instruction::BranchGtUImm { reg, value, offset } => InstructionShape::BranchImm { cond: ">u", reg, value, offset },
        Instruction::BranchLtSImm { reg, value, offset } => InstructionShape::BranchImm { cond: "<s", reg, value, offset },
        Instruction::BranchLeSImm { reg, value, offset } => InstructionShape::BranchImm { cond: "<=s", reg, value, offset },
        Instruction::BranchGtSImm { reg, value, offset } => InstructionShape::BranchImm { cond: ">s", reg, value, offset },
        Instruction::MoveReg { dst, src } => InstructionShape::BinImm { op: BinOp::Add, width: BitWidth::W64, dst, src, value: 0 },
        Instruction::BranchEq { reg1, reg2, offset } => InstructionShape::BranchReg { cond: "==", reg1: reg2, reg2: reg1, offset },
        Instruction::BranchNe { reg1, reg2, offset } => InstructionShape::BranchReg { cond: "!=", reg1: reg2, reg2: reg1, offset },
        Instruction::BranchGeU { reg1, reg2, offset } => InstructionShape::BranchReg { cond: ">=u", reg1: reg2, reg2: reg1, offset },
        Instruction::BranchLtU { reg1, reg2, offset } => InstructionShape::BranchReg { cond: "<u", reg1: reg2, reg2: reg1, offset },
        Instruction::BranchLtS { reg1, reg2, offset } => InstructionShape::BranchReg { cond: "<s", reg1: reg2, reg2: reg1, offset },
        Instruction::BranchGeS { reg1, reg2, offset } => InstructionShape::BranchReg { cond: ">=s", reg1: reg2, reg2: reg1, offset },
        Instruction::Ecalli { index } => InstructionShape::Ecalli { index },
        Instruction::Unknown { opcode, .. } => InstructionShape::Unknown { opcode },
    }
}

/// Registers `0..=12` in order: what an instruction of unknown effect touches.
pub open spec fn all_registers() -> Seq<u8> {
    Seq::new(13, |i: int| i as u8)
}

fn all_registers_vec() -> (v: Vec<u8>)
    ensures
        v@ == all_registers(),
{
    let v: Vec<u8> = vec![0u8, 1, 2, 3, 4, 5, 6, 7, 8, 9, 10, 11, 12];
    assert(v@ =~= all_registers());
    v
}

/// Name of register `r` in raw pseudo-code.
pub open spec fn register_name(r: u8) -> Seq<char> {
    "r"@ + crate::text::dec(r as nat)
}

pub fn push_register(out: &mut String, r: u8)
    ensures
        final(out)@ == old(out)@ + register_name(r),
{
    out.append("r");
    push_dec(out, r as u64);
    assert(out@ =~= old(out)@ + register_name(r));
}

pub fn register_string(r: u8) -> (s: String)
    ensures
        s@ == register_name(r),
{
    let mut s = "r".to_owned();
    push_dec(&mut s, r as u64);
    s
}

impl InstructionShape {
    /// Classify a PVM instruction into its structural shape.
    pub fn classify(instr: &Instruction) -> (shape: Self)
        ensures
            shape == classified(*instr),
    {
        match instr {
            Instruction::Trap => InstructionShape::NoOp { name: "trap" },
            Instruction::Fallthrough => InstructionShape::NoOp { name: "fallthrough" },
            Instruction::LoadImm { reg, value } => InstructionShape::LoadImm { dst: *reg, value: *value as i64 },
            Instruction::LoadImm64 { reg, value } => InstructionShape::LoadImm { dst: *reg, value: *value as i64 },
            Instruction::Add32 { dst, src1, src2 } => InstructionShape::BinReg { op: BinOp::Add, width: BitWidth::W32, dst: *dst, src1: *src1, src2: *src2 },
            Instruction::Sub32 { dst, src1, src2 } => InstructionShape::BinReg { op: BinOp::Sub, width: BitWidth::W32, dst: *dst, src1: *src1, src2: *src2 },
            Instruction::Mul32 { dst, src1, src2 } => InstructionShape::BinReg { op: BinOp::Mul, width: BitWidth::W32, dst: *dst, src1: *src1, src2: *src2 },
            Instruction::DivU32 { dst, src1, src2 } => InstructionShape::BinReg { op: BinOp::DivU, width: BitWidth::W32, dst: *dst, src1: *src1, src2: *src2 },
            Instruction::DivS32 { dst, src1, src2 } => InstructionShape::BinReg { op: BinOp::DivS, width: BitWidth::W32, dst: *dst, src1: *src1, src2: *src2 },
            Instruction::RemU32 { dst, src1, src2 } => InstructionShape::BinReg { op: BinOp::RemU, width: BitWidth::W32, dst: *dst, src1: *src1, src2: *src2 },
            Instruction::RemS32 { dst, src1, src2 } => InstructionShape::BinReg { op: BinOp::RemS, width: BitWidth::W32, dst: *dst, src1: *src1, src2: *src2 },
            Instruction::ShloL32 { dst, src1, src2 } => InstructionShape::BinReg { op: BinOp::Shl, width: BitWidth::W32, dst: *dst, src1: *src1, src2: *src2 },
            Instruction::ShloR32 { dst, src1, src2 } => InstructionShape::BinReg { op: BinOp::ShrU, width: BitWidth::W32, dst: *dst, src1: *src1, src2: *src2 },
            Instruction::SharR32 { dst, src1, src2 } => InstructionShape::BinReg { op: BinOp::ShrS, width: BitWidth::W32, dst: *dst, src1: *src1, src2: *src2 },
            Instruction::Add64 { dst, src1, src2 } => InstructionShape::BinReg { op: BinOp::Add, width: BitWidth::W64, dst: *dst, src1: *src1, src2: *src2 },
            Instruction::Sub64 { dst, src1, src2 } => InstructionShape::BinReg { op: BinOp::Sub, width: BitWidth::W64, dst: *dst, src1: *src1, src2: *src2 },
            Instruction::Mul64 { dst, src1, src2 } => InstructionShape::BinReg { op: BinOp::Mul, width: BitWidth::W64, dst: *dst, src1: *src1, src2: *src2 },
            Instruction::DivU64 { dst, src1, src2 } => InstructionShape::BinReg { op: BinOp::DivU, width: BitWidth::W64, dst: *dst, src1: *src1, src2: *src2 },
            Instruction::DivS64 { dst, src1, src2 } => InstructionShape::BinReg { op: BinOp::DivS, width: BitWidth::W64, dst: *dst, src1: *src1, src2: *src2 },
            Instruction::RemU64 { dst, src1, src2 } => InstructionShape::BinReg { op: BinOp::RemU, width: BitWidth::W64, dst: *dst, src1: *src1, src2: *src2 },
            Instruction::RemS64 { dst, src1, src2 } => InstructionShape::BinReg { op: BinOp::RemS, width: BitWidth::W64, dst: *dst, src1: *src1, src2: *src2 },
            Instruction::ShloL64 { dst, src1, src2 } => InstructionShape::BinReg { op: BinOp::Shl, width: BitWidth::W64, dst: *dst, src1: *src1, src2: *src2 },
            Instruction::ShloR64 { dst, src1, src2 } => InstructionShape::BinReg { op: BinOp::ShrU, width: BitWidth::W64, dst: *dst, src1: *src1, src2: *src2 },
            Instruction::SharR64 { dst, src1, src2 } => InstructionShape::BinReg { op: BinOp::ShrS, width: BitWidth::W64, dst: *dst, src1: *src1, src2: *src2 },
            Instruction::And { dst, src1, src2 } => InstructionShape::BinReg { op: BinOp::And, width: BitWidth::W32, dst: *dst, src1: *src1, src2: *src2 },
            Instruction::Or { dst, src1, src2 } => InstructionShape::BinReg { op: BinOp::Or, width: BitWidth::W32, dst: *dst, src1: *src1, src2: *src2 },
            Instruction::Xor { dst, src1, src2 } => InstructionShape::BinReg { op: BinOp::Xor, width: BitWidth::W32, dst: *dst, src1: *src1, src2: *src2 },
            Instruction::SetLtU { dst, src1, src2 } => InstructionShape::BinReg { op: BinOp::LtU, width: BitWidth::W32, dst: *dst, src1: *src1, src2: *src2 },
            Instruction::SetLtS { dst, src1, src2 } => InstructionShape::BinReg { op: BinOp::LtS, width: BitWidth::W32, dst: *dst, src1: *src1, src2: *src2 },
            Instruction::CmovIz { dst, src, cond } => InstructionShape::CmovReg { is_zero: true, dst: *dst, src: *src, cond: *cond },
            Instruction::CmovNz { dst, src, cond } => InstructionShape::CmovReg { is_zero: false, dst: *dst, src: *src, cond: *cond },
            Instruction::MulUpperSS { dst, src1, src2 } => InstructionShape::BinReg { op: BinOp::MulUpperSS, width: BitWidth::W64, dst: *dst, src1: *src1, src2: *src2 },
            Instruction::MulUpperUU { dst, src1, src2 } => InstructionShape::BinReg { op: BinOp::MulUpperUU, width: BitWidth::W64, dst: *dst, src1: *src1, src2: *src2 },
            Instruction::MulUpperSU { dst, src1, src2 } => InstructionShape::BinReg { op: BinOp::MulUpperSU, width: BitWidth::W64, dst: *dst, src1: *src1, src2: *src2 },
            Instruction::RotL64 { dst, src1, src2 } => InstructionShape::BinReg { op: BinOp::RotL, width: BitWidth::W64, dst: *dst, src1: *src1, src2: *src2 },
            Instruction::RotL32 { dst, src1, src2 } => InstructionShape::BinReg { op: BinOp::RotL, width: BitWidth::W32, dst: *dst, src1: *src1, src2: *src2 },
            Instruction::RotR64 { dst, src1, src2 } => InstructionShape::BinReg { op: BinOp::RotR, width: BitWidth::W64, dst: *dst, src1: *src1, src2: *src2 },
            Instruction::RotR32 { dst, src1, src2 } => InstructionShape::BinReg { op: BinOp::RotR, width: BitWidth::W32, dst: *dst, src1: *src1, src2: *src2 },
            Instruction::AndInv { dst, src1, src2 } => InstructionShape::BinReg { op: BinOp::AndInv, width: BitWidth::W64, dst: *dst, src1: *src1, src2: *src2 },
            Instruction::OrInv { dst, src1, src2 } => InstructionShape::BinReg { op: BinOp::OrInv, width: BitWidth::W64, dst: *dst, src1: *src1, src2: *src2 },
            Instruction::Xnor { dst, src1, src2 } => InstructionShape::BinReg { op: BinOp::Xnor, width: BitWidth::W64, dst: *dst, src1: *src1, src2: *src2 },
            Instruction::Max { dst, src1, src2 } => InstructionShape::BinReg { op: BinOp::Max, width: BitWidth::W64, dst: *dst, src1: *src1, src2: *src2 },
            Instruction::MaxU { dst, src1, src2 } => InstructionShape::BinReg { op: BinOp::MaxU, width: BitWidth::W64, dst: *dst, src1: *src1, src2: *src2 },
            Instruction::Min { dst, src1, src2 } => InstructionShape::BinReg { op: BinOp::Min, width: BitWidth::W64, dst: *dst, src1: *src1, src2: *src2 },
            Instruction::MinU { dst, src1, src2 } => InstructionShape::BinReg { op: BinOp::MinU, width: BitWidth::W64, dst: *dst, src1: *src1, src2: *src2 },
            Instruction::AddImm32 { dst, src, value } => InstructionShape::BinImm { op: BinOp::Add, width: BitWidth::W32, dst: *dst, src: *src, value: *value },
            Instruction::AddImm64 { dst, src, value } => InstructionShape::BinImm { op: BinOp::Add, width: BitWidth::W64, dst: *dst, src: *src, value: *value },
            Instruction::AndImm { dst, src, value } => InstructionShape::BinImm { op: BinOp::And, width: BitWidth::W64, dst: *dst, src: *src, value: *value },
            Instruction::XorImm { dst, src, value } => InstructionShape::BinImm { op: BinOp::Xor, width: BitWidth::W64, dst: *dst, src: *src, value: *value },
            Instruction::OrImm { dst, src, value } => InstructionShape::BinImm { op: BinOp::Or, width: BitWidth::W64, dst: *dst, src: *src, value: *value },
            Instruction::MulImm32 { dst, src, value } => InstructionShape::BinImm { op: BinOp::Mul, width: BitWidth::W32, dst: *dst, src: *src, value: *value },
            Instruction::MulImm64 { dst, src, value } => InstructionShape::BinImm { op: BinOp::Mul, width: BitWidth::W64, dst: *dst, src: *src, value: *value },
            Instruction::ShloLImm32 { dst, src, value } => InstructionShape::BinImm { op: BinOp::Shl, width: BitWidth::W32, dst: *dst, src: *src, value: *value },
            Instruction::ShloRImm32 { dst, src, value } => InstructionShape::BinImm { op: BinOp::ShrU, width: BitWidth::W32, dst: *dst, src: *src, value: *value },
            Instruction::SharRImm32 { dst, src, value } => InstructionShape::BinImm { op: BinOp::ShrS, width: BitWidth::W32, dst: *dst, src: *src, value: *value },
            Instruction::ShloLImm64 { dst, src, value } => InstructionShape::BinImm { op: BinOp::Shl, width: BitWidth::W64, dst: *dst, src: *src, value: *value },
            Instruction::ShloRImm64 { dst, src, value } => InstructionShape::BinImm { op: BinOp::ShrU, width: BitWidth::W64, dst: *dst, src: *src, value: *value },
            Instruction::SharRImm64 { dst, src, value } => InstructionShape::BinImm { op: BinOp::ShrS, width: BitWidth::W64, dst: *dst, src: *src, value: *value },
            Instruction::NegAddImm32 { dst, src, value } => InstructionShape::BinImm { op: BinOp::NegAdd, width: BitWidth::W32, dst: *dst, src: *src, value: *value },
            Instruction::NegAddImm64 { dst, src, value } => InstructionShape::BinImm { op: BinOp::NegAdd, width: BitWidth::W64, dst: *dst, src: *src, value: *value },
            Instruction::SetLtUImm { dst, src, value } => InstructionShape::BinImm { op: BinOp::LtU, width: BitWidth::W32, dst: *dst, src: *src, value: *value },
            Instruction::SetLtSImm { dst, src, value } => InstructionShape::BinImm { op: BinOp::LtS, width: BitWidth::W32, dst: *dst, src: *src, value: *value },
            Instruction::SetGtUImm { dst, src, value } => InstructionShape::BinImm { op: BinOp::GtU, width: BitWidth::W32, dst: *dst, src: *src, value: *value },
            Instruction::SetGtSImm { dst, src, value } => InstructionShape::BinImm { op: BinOp::GtS, width: BitWidth::W32, dst: *dst, src: *src, value: *value },
            Instruction::RotRImm32 { dst, src, value } => InstructionShape::BinImm { op: BinOp::RotR, width: BitWidth::W32, dst: *dst, src: *src, value: *value },
            Instruction::RotRImm64 { dst, src, value } => InstructionShape::BinImm { op: BinOp::RotR, width: BitWidth::W64, dst: *dst, src: *src, value: *value },
            Instruction::ShloLImmAlt32 { dst, src, value } => InstructionShape::BinImmRev { op: BinOp::Shl, width: BitWidth::W32, dst: *dst, src: *src, value: *value },
            Instruction::ShloRImmAlt32 { dst, src, value } => InstructionShape::BinImmRev { op: BinOp::ShrU, width: BitWidth::W32, dst: *dst, src: *src, value: *value },
            Instruction::SharRImmAlt32 { dst, src, value } => InstructionShape::BinImmRev { op: BinOp::ShrS, width: BitWidth::W32, dst: *dst, src: *src, value: *value },
            Instruction::ShloLImmAlt64 { dst, src, value } => InstructionShape::BinImmRev { op: BinOp::Shl, width: BitWidth::W64, dst: *dst, src: *src, value: *value },
            Instruction::ShloRImmAlt64 { dst, src, value } => InstructionShape::BinImmRev { op: BinOp::ShrU, width: BitWidth::W64, dst: *dst, src: *src, value: *value },
            Instruction::SharRImmAlt64 { dst, src, value } => InstructionShape::BinImmRev { op: BinOp::ShrS, width: BitWidth::W64, dst: *dst, src: *src, value: *value },
            Instruction::RotRImmAlt32 { dst, src, value } => InstructionShape::BinImmRev { op: BinOp::RotR, width: BitWidth::W32, dst: *dst, src: *src, value: *value },
            Instruction::RotRImmAlt64 { dst, src, value } => InstructionShape::BinImmRev { op: BinOp::RotR, width: BitWidth::W64, dst: *dst, src: *src, value: *value },
            Instruction::Sbrk { dst, src } => InstructionShape::Unary { op: UnaryOp::Sbrk, dst: *dst, src: *src },
            Instruction::CountSetBits64 { dst, src } => InstructionShape::Unary { op: UnaryOp::Popcnt64, dst: *dst, src: *src },
            Instruction::CountSetBits32 { dst, src } => InstructionShape::Unary { op: UnaryOp::Popcnt32, dst: *dst, src: *src },
            Instruction::LeadingZeroBits64 { dst, src } => InstructionShape::Unary { op: UnaryOp::Clz64, dst: *dst, src: *src },
            Instruction::LeadingZeroBits32 { dst, src } => InstructionShape::Unary { op: UnaryOp::Clz32, dst: *dst, src: *src },
            Instruction::TrailingZeroBits64 { dst, src } => InstructionShape::Unary { op: UnaryOp::Ctz64, dst: *dst, src: *src },
            Instruction::TrailingZeroBits32 { dst, src } => InstructionShape::Unary { op: UnaryOp::Ctz32, dst: *dst, src: *src },
            Instruction::SignExtend8 { dst, src } => InstructionShape::Unary { op: UnaryOp::Sext8, dst: *dst, src: *src },
            Instruction::SignExtend16 { dst, src } => InstructionShape::Unary { op: UnaryOp::Sext16, dst: *dst, src: *src },
            Instruction::ZeroExtend16 { dst, src } => InstructionShape::Unary { op: UnaryOp::Zext16, dst: *dst, src: *src },
            Instruction::ReverseBytes { dst, src } => InstructionShape::Unary { op: UnaryOp::Bswap, dst: *dst, src: *src },
            Instruction::CmovIzImm { dst, cond, value } => InstructionShape::CmovImm { is_zero: true, dst: *dst, cond: *cond, value: *value },
            Instruction::CmovNzImm { dst, cond, value } => InstructionShape::CmovImm { is_zero: false, dst: *dst, cond: *cond, value: *value },
            Instruction::LoadIndU8 { dst, base, offset } => InstructionShape::Load { width: MemWidth::U8, dst: *dst, base: *base, offset: *offset },
            Instruction::LoadIndI8 { dst, base, offset } => InstructionShape::Load { width: MemWidth::I8, dst: *dst, base: *base, offset: *offset },
            Instruction::LoadIndU16 { dst, base, offset } => InstructionShape::Load { width: MemWidth::U16, dst: *dst, base: *base, offset: *offset },
            Instruction::LoadIndI16 { dst, base, offset } => InstructionShape::Load { width: MemWidth::I16, dst: *dst, base: *base, offset: *offset },
            Instruction::LoadIndU32 { dst, base, offset } => InstructionShape::Load { width: MemWidth::U32, dst: *dst, base: *base, offset: *offset },
            Instruction::LoadIndU64 { dst, base, offset } => InstructionShape::Load { width: MemWidth::U64, dst: *dst, base: *base, offset: *offset },
            Instruction::LoadIndI32 { dst, base, offset } => InstructionShape::Load { width: MemWidth::I32, dst: *dst, base: *base, offset: *offset },
            Instruction::StoreIndU8 { base, src, offset } => InstructionShape::Store { width: MemWidth::U8, base: *base, src: *src, offset: *offset },
            Instruction::StoreIndU16 { base, src, offset } => InstructionShape::Store { width: MemWidth::U16, base: *base, src: *src, offset: *offset },
            Instruction::StoreIndU32 { base, src, offset } => InstructionShape::Store { width: MemWidth::U32, base: *base, src: *src, offset: *offset },
            Instruction::StoreIndU64 { base, src, offset } => InstructionShape::Store { width: MemWidth::U64, base: *base, src: *src, offset: *offset },
            Instruction::LoadU8 { dst, address } => InstructionShape::LoadAbsolute { width: MemWidth::U8, dst: *dst, address: *address },
            Instruction::LoadI8 { dst, address } => InstructionShape::LoadAbsolute { width: MemWidth::I8, dst: *dst, address: *address },
            Instruction::LoadU16 { dst, address } => InstructionShape::LoadAbsolute { width: MemWidth::U16, dst: *dst, address: *address },
            Instruction::LoadI16 { dst, address } => InstructionShape::LoadAbsolute { width: MemWidth::I16, dst: *dst, address: *address },
            Instruction::LoadU32 { dst, address } => InstructionShape::LoadAbsolute { width: MemWidth::U32, dst: *dst, address: *address },
            Instruction::LoadI32 { dst, address } => InstructionShape::LoadAbsolute { width: MemWidth::I32, dst: *dst, address: *address },
            Instruction::LoadU64 { dst, address } => InstructionShape::LoadAbsolute { width: MemWidth::U64, dst: *dst, address: *address },
            Instruction::StoreU8 { src, address } => InstructionShape::StoreAbsolute { width: MemWidth::U8, src: *src, address: *address },
            Instruction::StoreU16 { src, address } => InstructionShape::StoreAbsolute { width: MemWidth::U16, src: *src, address: *address },
            Instruction::StoreU32 { src, address } => InstructionShape::StoreAbsolute { width: MemWidth::U32, src: *src, address: *address },
            Instruction::StoreU64 { src, address } => InstructionShape::StoreAbsolute { width: MemWidth::U64, src: *src, address: *address },
            Instruction::StoreImmU8 { address, value } => InstructionShape::StoreImm { width: MemWidth::U8, address: *address, value: *value },
            Instruction::StoreImmU16 { address, value } => InstructionShape::StoreImm { width: MemWidth::U16, address: *address, value: *value },
            Instruction::StoreImmU32 { address, value } => InstructionShape::StoreImm { width: MemWidth::U32, address: *address, value: *value },
            Instruction::StoreImmU64 { address, value } => InstructionShape::StoreImm { width: MemWidth::U64, address: *address, value: *value },
            Instruction::StoreImmIndU8 { base, offset, value } => InstructionShape::StoreImmInd { width: MemWidth::U8, base: *base, offset: *offset, value: *value },
            Instruction::StoreImmIndU16 { base, offset, value } => InstructionShape::StoreImmInd { width: MemWidth::U16, base: *base, offset: *offset, value: *value },
            Instruction::StoreImmIndU32 { base, offset, value } => InstructionShape::StoreImmInd { width: MemWidth::U32, base: *base, offset: *offset, value: *value },
            Instruction::StoreImmIndU64 { base, offset, value } => InstructionShape::StoreImmInd { width: MemWidth::U64, base: *base, offset: *offset, value: *value },
            Instruction::Jump { offset } => InstructionShape::Jump { offset: *offset },
            Instruction::JumpInd { reg, .. } => InstructionShape::JumpInd { reg: *reg },
            Instruction::LoadImmJump { reg, value, offset } => InstructionShape::LoadImmJump { dst: *reg, value: *value, offset: *offset },
            Instruction::LoadImmJumpInd { base, dst, value, .. } => InstructionShape::LoadImmJumpInd { base: *base, dst: *dst, value: *value },
            Instruction::BranchEqImm { reg, value, offset } => InstructionShape::BranchImm { cond: "==", reg: *reg, value: *value, offset: *offset },
            Instruction::BranchNeImm { reg, value, offset } => InstructionShape::BranchImm { cond: "!=", reg: *reg, value: *value, offset: *offset },
            Instruction::BranchGeSImm { reg, value, offset } => InstructionShape::BranchImm { cond: ">=s", reg: *reg, value: *value, offset: *offset },
            Instruction::BranchLtUImm { reg, value, offset } => InstructionShape::BranchImm { cond: "<u", reg: *reg, value: *value, offset: *offset },
            Instruction::BranchLeUImm { reg, value, offset } => InstructionShape::BranchImm { cond: "<=u", reg: *reg, value: *value, offset: *offset },
            Instruction::BranchGeUImm { reg, value, offset } => InstructionShape::BranchImm { cond: ">=u", reg: *reg, value: *value, offset: *offset },
            Instruction::BranchGtUImm { reg, value, offset } => InstructionShape::BranchImm { cond: ">u", reg: *reg, value: *value, offset: *offset },
            Instruction::BranchLtSImm { reg, value, offset } => InstructionShape::BranchImm { cond: "<s", reg: *reg, value: *value, offset: *offset },
            Instruction::BranchLeSImm { reg, value, offset } => InstructionShape::BranchImm { cond: "<=s", reg: *reg, value: *value, offset: *offset },
            Instruction::BranchGtSImm { reg, value, offset } => InstructionShape::BranchImm { cond: ">s", reg: *reg, value: *value, offset: *offset },
            Instruction::MoveReg { dst, src } => InstructionShape::BinImm { op: BinOp::Add, width: BitWidth::W64, dst: *dst, src: *src, value: 0 },
            Instruction::BranchEq { reg1, reg2, offset } => InstructionShape::BranchReg { cond: "==", reg1: *reg2, reg2: *reg1, offset: *offset },
            Instruction::BranchNe { reg1, reg2, offset } => InstructionShape::BranchReg { cond: "!=", reg1: *reg2, reg2: *reg1, offset: *offset },
            Instruction::BranchGeU { reg1, reg2, offset } => InstructionShape::BranchReg { cond: ">=u", reg1: *reg2, reg2: *reg1, offset: *offset },
            Instruction::BranchLtU { reg1, reg2, offset } => InstructionShape::BranchReg { cond: "<u", reg1: *reg2, reg2: *reg1, offset: *offset },
            Instruction::BranchLtS { reg1, reg2, offset } => InstructionShape::BranchReg { cond: "<s", reg1: *reg2, reg2: *reg1, offset: *offset },
            Instruction::BranchGeS { reg1, reg2, offset } => InstructionShape::BranchReg { cond: ">=s", reg1: *reg2, reg2: *reg1, offset: *offset },
            Instruction::Ecalli { index } => InstructionShape::Ecalli { index: *index },
            Instruction::Unknown { opcode, .. } => InstructionShape::Unknown { opcode: *opcode },
        }
    }

    /// The register that this instruction defines by name.
    pub open spec fn defined(self) -> Option<u8> {
        match self {
            InstructionShape::LoadImm { dst, .. } => Some(dst),
            InstructionShape::BinReg { dst, .. } => Some(dst),
            InstructionShape::BinImm { dst, .. } => Some(dst),
            InstructionShape::BinImmRev { dst, .. } => Some(dst),
            InstructionShape::Unary { dst, .. } => Some(dst),
            InstructionShape::Load { dst, .. } => Some(dst),
            InstructionShape::LoadAbsolute { dst, .. } => Some(dst),
            InstructionShape::CmovReg { dst, .. } => Some(dst),
            InstructionShape::CmovImm { dst, .. } => Some(dst),
            InstructionShape::LoadImmJump { dst, .. } => Some(dst),
            InstructionShape::LoadImmJumpInd { dst, .. } => Some(dst),
            _ => None,
        }
    }

    /// Get the destination register defined by this instruction, if any.
    pub fn def_reg(&self) -> (r: Option<u8>)
        ensures
            r == self.defined(),
    {
        match self {
            InstructionShape::LoadImm { dst, .. } => Some(*dst),
            InstructionShape::BinReg { dst, .. } => Some(*dst),
            InstructionShape::BinImm { dst, .. } => Some(*dst),
            InstructionShape::BinImmRev { dst, .. } => Some(*dst),
            InstructionShape::Unary { dst, .. } => Some(*dst),
            InstructionShape::Load { dst, .. } => Some(*dst),
            InstructionShape::LoadAbsolute { dst, .. } => Some(*dst),
            InstructionShape::CmovReg { dst, .. } => Some(*dst),
            InstructionShape::CmovImm { dst, .. } => Some(*dst),
            InstructionShape::LoadImmJump { dst, .. } => Some(*dst),
            InstructionShape::LoadImmJumpInd { dst, .. } => Some(*dst),
            _ => None,
        }
    }

    /// Registers written, in order. Of a host call or an unknown instruction
    /// nothing is known, so it counts as writing every register.
    pub open spec fn defs(self) -> Seq<u8> {
        match self {
            InstructionShape::Ecalli { .. } | InstructionShape::Unknown { .. } => all_registers(),
            _ => match self.defined() {
                Some(r) => seq![r],
                None => seq![],
            },
        }
    }

    /// Registers read, in order.
    pub open spec fn uses(self) -> Seq<u8> {
        match self {
            InstructionShape::BinReg { dst, src1, src2, .. } => seq![src1, src2],
            InstructionShape::BinImm { dst, src, .. } => seq![src],
            InstructionShape::BinImmRev { dst, src, .. } => seq![src],
            InstructionShape::Unary { dst, src, .. } => seq![src],
            InstructionShape::Load { dst, base, .. } => seq![base],
            InstructionShape::Store { base, src, .. } => seq![base, src],
            InstructionShape::StoreAbsolute { src, .. } => seq![src],
            InstructionShape::StoreImmInd { base, .. } => seq![base],
            InstructionShape::CmovReg { dst, src, cond, .. } => seq![src, cond],
            InstructionShape::CmovImm { dst, cond, .. } => seq![cond],
            InstructionShape::JumpInd { reg } => seq![reg],
            InstructionShape::LoadImmJumpInd { base, dst, .. } => seq![base],
            InstructionShape::BranchImm { reg, .. } => seq![reg],
            InstructionShape::BranchReg { reg1, reg2, .. } => seq![reg1, reg2],
            InstructionShape::Ecalli { .. } | InstructionShape::Unknown { .. } => all_registers(),
            _ => seq![],
        }
    }

    /// Extract defined and used registers from the classified instruction.
    pub fn def_use(&self) -> (r: (Vec<u8>, Vec<u8>))
        ensures
            r.0@ == self.defs(),
            r.1@ == self.uses(),
    {
        match self {
            InstructionShape::NoOp { .. } => (Vec::new(), Vec::new()),
            InstructionShape::LoadImm { dst, .. } => (vec![*dst], Vec::new()),
            InstructionShape::BinReg { dst, src1, src2, .. } => (vec![*dst], vec![*src1, *src2]),
            InstructionShape::BinImm { dst, src, .. } => (vec![*dst], vec![*src]),
            InstructionShape::BinImmRev { dst, src, .. } => (vec![*dst], vec![*src]),
            InstructionShape::Unary { dst, src, .. } => (vec![*dst], vec![*src]),
            InstructionShape::Load { dst, base, .. } => (vec![*dst], vec![*base]),
            InstructionShape::Store { base, src, .. } => (Vec::new(), vec![*base, *src]),
            InstructionShape::LoadAbsolute { dst, .. } => (vec![*dst], Vec::new()),
            InstructionShape::StoreAbsolute { src, .. } => (Vec::new(), vec![*src]),
            InstructionShape::StoreImm { .. } => (Vec::new(), Vec::new()),
            InstructionShape::StoreImmInd { base, .. } => (Vec::new(), vec![*base]),
            InstructionShape::CmovReg { dst, src, cond, .. } => (vec![*dst], vec![*src, *cond]),
            InstructionShape::CmovImm { dst, cond, .. } => (vec![*dst], vec![*cond]),
            InstructionShape::Jump { .. } => (Vec::new(), Vec::new()),
            InstructionShape::JumpInd { reg } => (Vec::new(), vec![*reg]),
            InstructionShape::LoadImmJump { dst, .. } => (vec![*dst], Vec::new()),
            InstructionShape::LoadImmJumpInd { base, dst, .. } => (vec![*dst], vec![*base]),
            InstructionShape::BranchImm { reg, .. } => (Vec::new(), vec![*reg]),
            InstructionShape::BranchReg { reg1, reg2, .. } => (Vec::new(), vec![*reg1, *reg2]),
            InstructionShape::Ecalli { .. } | InstructionShape::Unknown { .. } => {
                (all_registers_vec(), all_registers_vec())
            },
        }
    }

    /// Whether a basic block ends here.
    pub open spec fn terminates(self) -> bool {
        match self {
            InstructionShape::Jump { .. }
            | InstructionShape::JumpInd { .. }
            | InstructionShape::LoadImmJump { .. }
            | InstructionShape::LoadImmJumpInd { .. }
            | InstructionShape::BranchImm { .. }
            | InstructionShape::BranchReg { .. } => true,
            InstructionShape::NoOp { name } => name@ == "trap"@,
            _ => false,
        }
    }

    /// Whether this instruction is a block terminator (ends a basic block).
    pub fn is_terminator(&self) -> (r: bool)
        ensures
            r == self.terminates(),
    {
        match self {
            InstructionShape::Jump { .. }
            | InstructionShape::JumpInd { .. }
            | InstructionShape::LoadImmJump { .. }
            | InstructionShape::LoadImmJumpInd { .. }
            | InstructionShape::BranchImm { .. }
            | InstructionShape::BranchReg { .. } => true,
            InstructionShape::NoOp { name } => same_text(name, "trap"),
            _ => false,
        }
    }

    /// Distance to the static target of a jump or branch.
    pub open spec fn offset(self) -> Option<i32> {
        match self {
            InstructionShape::Jump { offset } => Some(offset),
            InstructionShape::LoadImmJump { offset, .. } => Some(offset),
            InstructionShape::BranchImm { offset, .. } => Some(offset),
            InstructionShape::BranchReg { offset, .. } => Some(offset),
            _ => None,
        }
    }

    /// Get the jump/branch offset, if this is a control-flow instruction with a static target.
    pub fn branch_offset(&self) -> (r: Option<i32>)
        ensures
            r == self.offset(),
    {
        match self {
            InstructionShape::Jump { offset } => Some(*offset),
            InstructionShape::LoadImmJump { offset, .. } => Some(*offset),
            InstructionShape::BranchImm { offset, .. } => Some(*offset),
            InstructionShape::BranchReg { offset, .. } => Some(*offset),
            _ => None,
        }
    }

    pub open spec fn conditional(self) -> bool {
        self is BranchImm || self is BranchReg
    }

    /// Whether this instruction is a conditional branch (has both target and fallthrough).
    pub fn is_conditional_branch(&self) -> (r: bool)
        ensures
            r == self.conditional(),
    {
        match self {
            InstructionShape::BranchImm { .. } | InstructionShape::BranchReg { .. } => true,
            _ => false,
        }
    }

    /// Raw pseudo-code of the instruction, with registers written `rN`.
    pub open spec fn raw_text(self) -> Seq<char> {
        match self {
            InstructionShape::NoOp { name } => name@,
            InstructionShape::LoadImm { dst, value } => register_name(dst)
                + " = "@
                + crate::text::dec_signed(value as int),
            InstructionShape::BinReg { op, width, dst, src1, src2 } => register_name(dst)
                + " = "@
                + register_name(src1)
                + " "@
                + op.symbol()
                + width.suffix()
                + " "@
                + register_name(src2),
            InstructionShape::BinImm { op, width, dst, src, value } => register_name(dst)
                + " = "@
                + register_name(src)
                + " "@
                + op.symbol()
                + width.suffix()
                + " "@
                + crate::text::dec_signed(value as int),
            InstructionShape::Unary { op, dst, src } => register_name(dst)
                + " = "@
                + op.symbol()
                + "("@
                + register_name(src)
                + ")"@,
            InstructionShape::Load { width, dst, base, offset } => register_name(dst)
                + " = "@
                + width.symbol()
                + "["@
                + register_name(base)
                + " + "@
                + crate::text::dec_signed(offset as int)
                + "]"@,
            InstructionShape::Store { width, base, src, offset } => width.symbol()
                + "["@
                + register_name(base)
                + " + "@
                + crate::text::dec_signed(offset as int)
                + "] = "@
                + register_name(src),
            InstructionShape::Jump { offset } => "jump "@
                + crate::text::dec_signed(offset as int),
            InstructionShape::JumpInd { reg } => "jump_ind "@
                + register_name(reg),
            InstructionShape::BranchImm { cond, reg, value, offset } => "if ("@
                + register_name(reg)
                + " "@
                + cond@
                + " "@
                + crate::text::dec_signed(value as int)
                + ") jump "@
                + crate::text::dec_signed(offset as int),
            InstructionShape::BranchReg { cond, reg1, reg2, offset } => "if ("@
                + register_name(reg1)
                + " "@
                + cond@
                + " "@
                + register_name(reg2)
                + ") jump "@
                + crate::text::dec_signed(offset as int),
            InstructionShape::BinImmRev { op, width, dst, src, value } => register_name(dst)
                + " = "@
                + crate::text::dec_signed(value as int)
                + " "@
                + op.symbol()
                + width.suffix()
                + " "@
                + register_name(src),
            InstructionShape::CmovReg { is_zero, dst, src, cond } => "if ("@
                + register_name(cond)
                + comparison_text(is_zero)
                + ") "@
                + register_name(dst)
                + " = "@
                + register_name(src),
            InstructionShape::CmovImm { is_zero, dst, cond, value } => "if ("@
                + register_name(cond)
                + comparison_text(is_zero)
                + ") "@
                + register_name(dst)
                + " = "@
                + crate::text::dec_signed(value as int),
            InstructionShape::LoadImmJump { dst, value, offset } => register_name(dst)
                + " = "@
                + crate::text::dec_signed(value as int)
                + "; jump "@
                + crate::text::dec_signed(offset as int),
            InstructionShape::LoadImmJumpInd { base, dst, value } => register_name(dst)
                + " = "@
                + crate::text::dec_signed(value as int)
                + "; jump_ind "@
                + register_name(base),
            InstructionShape::LoadAbsolute { width, dst, address } => register_name(dst)
                + " = "@
                + width.symbol()
                + "["@
                + absolute_text(address)
                + "]"@,
            InstructionShape::StoreAbsolute { width, src, address } => width.symbol()
                + "["@
                + absolute_text(address)
                + "] = "@
                + register_name(src),
            InstructionShape::StoreImm { width, address, value } => width.symbol()
                + "["@
                + absolute_text(address)
                + "] = "@
                + crate::text::dec_signed(value as int),
            InstructionShape::StoreImmInd { width, base, offset, value } => width.symbol()
                + "["@
                + register_name(base)
                + " + "@
                + crate::text::dec_signed(offset as int)
                + "] = "@
                + crate::text::dec_signed(value as int),
            InstructionShape::Ecalli { index } => "ecalli "@
                + crate::text::dec(index as nat),
            InstructionShape::Unknown { opcode } => "/* unknown opcode 0x"@
                + crate::text::hex_padded(opcode as nat, 2)
                + " */"@,
        }
    }

    /// Format as raw pseudo-code using register names (rN).
    pub fn format_raw(&self) -> (text: String)
        ensures
            text@ == self.raw_text(),
    {
        match self {
            InstructionShape::NoOp { name } => {
                let s = (*name).to_owned();
                s
            },
            InstructionShape::LoadImm { dst, value } => {
                let mut s = register_string(*dst);
                s.append(" = ");
                push_dec_signed(&mut s, *value as i64);
                s
            },
            InstructionShape::BinReg { op, width, dst, src1, src2 } => {
                let mut s = register_string(*dst);
                s.append(" = ");
                push_register(&mut s, *src1);
                s.append(" ");
                s.append(op.as_str());
                s.append(width.suffix_str());
                s.append(" ");
                push_register(&mut s, *src2);
                s
            },
            InstructionShape::BinImm { op, width, dst, src, value } => {
                let mut s = register_string(*dst);
                s.append(" = ");
                push_register(&mut s, *src);
                s.append(" ");
                s.append(op.as_str());
                s.append(width.suffix_str());
                s.append(" ");
                push_dec_signed(&mut s, *value as i64);
                s
            },
            InstructionShape::Unary { op, dst, src } => {
                let mut s = register_string(*dst);
                s.append(" = ");
                s.append(op.as_str());
                s.append("(");
                push_register(&mut s, *src);
                s.append(")");
                s
            },
            InstructionShape::Load { width, dst, base, offset } => {
                let mut s = register_string(*dst);
                s.append(" = ");
                s.append(width.as_str());
                s.append("[");
                push_register(&mut s, *base);
                s.append(" + ");
                push_dec_signed(&mut s, *offset as i64);
                s.append("]");
                s
            },
            InstructionShape::Store { width, base, src, offset } => {
                let mut s = width.as_str().to_owned();
                s.append("[");
                push_register(&mut s, *base);
                s.append(" + ");
                push_dec_signed(&mut s, *offset as i64);
                s.append("] = ");
                push_register(&mut s, *src);
                s
            },
            InstructionShape::Jump { offset } => {
                let mut s = "jump ".to_owned();
                push_dec_signed(&mut s, *offset as i64);
                s
            },
            InstructionShape::JumpInd { reg } => {
                let mut s = "jump_ind ".to_owned();
                push_register(&mut s, *reg);
                s
            },
            InstructionShape::BranchImm { cond, reg, value, offset } => {
                let mut s = "if (".to_owned();
                push_register(&mut s, *reg);
                s.append(" ");
                s.append(cond);
                s.append(" ");
                push_dec_signed(&mut s, *value as i64);
                s.append(") jump ");
                push_dec_signed(&mut s, *offset as i64);
                s
            },
            InstructionShape::BranchReg { cond, reg1, reg2, offset } => {
                let mut s = "if (".to_owned();
                push_register(&mut s, *reg1);
                s.append(" ");
                s.append(cond);
                s.append(" ");
                push_register(&mut s, *reg2);
                s.append(") jump ");
                push_dec_signed(&mut s, *offset as i64);
                s
            },
            InstructionShape::BinImmRev { op, width, dst, src, value } => {
                let mut s = register_string(*dst);
                s.append(" = ");
                push_dec_signed(&mut s, *value as i64);
                s.append(" ");
                s.append(op.as_str());
                s.append(width.suffix_str());
                s.append(" ");
                push_register(&mut s, *src);
                s
            },
            InstructionShape::CmovReg { is_zero, dst, src, cond } => {
                let mut s = "if (".to_owned();
                push_register(&mut s, *cond);
                s.append(comparison_str(*is_zero));
                s.append(") ");
                push_register(&mut s, *dst);
                s.append(" = ");
                push_register(&mut s, *src);
                s
            },
            InstructionShape::CmovImm { is_zero, dst, cond, value } => {
                let mut s = "if (".to_owned();
                push_register(&mut s, *cond);
                s.append(comparison_str(*is_zero));
                s.append(") ");
                push_register(&mut s, *dst);
                s.append(" = ");
                push_dec_signed(&mut s, *value as i64);
                s
            },
            InstructionShape::LoadImmJump { dst, value, offset } => {
                let mut s = register_string(*dst);
                s.append(" = ");
                push_dec_signed(&mut s, *value as i64);
                s.append("; jump ");
                push_dec_signed(&mut s, *offset as i64);
                s
            },
            InstructionShape::LoadImmJumpInd { base, dst, value } => {
                let mut s = register_string(*dst);
                s.append(" = ");
                push_dec_signed(&mut s, *value as i64);
                s.append("; jump_ind ");
                push_register(&mut s, *base);
                s
            },
            InstructionShape::LoadAbsolute { width, dst, address } => {
                let mut s = register_string(*dst);
                s.append(" = ");
                s.append(width.as_str());
                s.append("[");
                push_absolute(&mut s, *address);
                s.append("]");
                s
            },
            InstructionShape::StoreAbsolute { width, src, address } => {
                let mut s = width.as_str().to_owned();
                s.append("[");
                push_absolute(&mut s, *address);
                s.append("] = ");
                push_register(&mut s, *src);
                s
            },
            InstructionShape::StoreImm { width, address, value } => {
                let mut s = width.as_str().to_owned();
                s.append("[");
                push_absolute(&mut s, *address);
                s.append("] = ");
                push_dec_signed(&mut s, *value as i64);
                s
            },
            InstructionShape::StoreImmInd { width, base, offset, value } => {
                let mut s = width.as_str().to_owned();
                s.append("[");
                push_register(&mut s, *base);
                s.append(" + ");
                push_dec_signed(&mut s, *offset as i64);
                s.append("] = ");
                push_dec_signed(&mut s, *value as i64);
                s
            },
            InstructionShape::Ecalli { index } => {
                let mut s = "ecalli ".to_owned();
                push_dec(&mut s, *index as u64);
                s
            },
            InstructionShape::Unknown { opcode } => {
                let mut s = "/* unknown opcode 0x".to_owned();
                push_hex_padded(&mut s, *opcode as u64, 2);
                s.append(" */");
                s
            },
        }
    }
}

/// Test of a conditional move.
pub open spec fn comparison_text(is_zero: bool) -> Seq<char> {
    if is_zero {
        " == 0"@
    } else {
        " != 0"@
    }
}

pub fn comparison_str(is_zero: bool) -> (text: &'static str)
    ensures
        text@ == comparison_text(is_zero),
{
    if is_zero {
        " == 0"
    } else {
        " != 0"
    }
}

/// An absolute address: its 32 bits as an unsigned hexadecimal numeral.
pub open spec fn absolute_text(address: i32) -> Seq<char> {
    crate::text::hex_prefixed((address as u32) as nat, 0)
}

pub fn push_absolute(out: &mut String, address: i32)
    ensures
        final(out)@ == old(out)@ + absolute_text(address),
{
    out.append("0x");
    push_hex_padded(out, (address as u32) as u64, 0);
    assert(out@ =~= old(out)@ + absolute_text(address));
}

/// The register that an instruction defines by name is among those it writes, and an
/// instruction that may go to another place than the next one ends its block.
pub proof fn law_shapes_agree(shape: InstructionShape)
    ensures
        shape.defined() is Some ==> shape.defs().contains(shape.defined()->0),
        shape.conditional() ==> shape.terminates() && shape.offset() is Some,
        shape.offset() is Some ==> shape.terminates(),
{
    if shape.defined() is Some {
        assert(shape.defs()[0] == shape.defined()->0);
    }
}

} // verus!
