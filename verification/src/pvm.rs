//! The PVM instruction set.

use vstd::prelude::*;

verus! {

/// One decoded instruction.
///
/// Two-register branches hold their operands in encoding order:
/// `BranchLtU { reg1: a, reg2: b, .. }` branches when `b <u a`.
#[derive(Debug, PartialEq, Eq)]
#[allow(inconsistent_fields)]
pub enum Instruction {
    Trap,
    Fallthrough,
    LoadImm64 { reg: u8, value: u64 },
    LoadImm { reg: u8, value: i32 },
    Add32 { dst: u8, src1: u8, src2: u8 },
    Sub32 { dst: u8, src1: u8, src2: u8 },
    Mul32 { dst: u8, src1: u8, src2: u8 },
    DivU32 { dst: u8, src1: u8, src2: u8 },
    DivS32 { dst: u8, src1: u8, src2: u8 },
    RemU32 { dst: u8, src1: u8, src2: u8 },
    RemS32 { dst: u8, src1: u8, src2: u8 },
    Add64 { dst: u8, src1: u8, src2: u8 },
    Sub64 { dst: u8, src1: u8, src2: u8 },
    Mul64 { dst: u8, src1: u8, src2: u8 },
    DivU64 { dst: u8, src1: u8, src2: u8 },
    DivS64 { dst: u8, src1: u8, src2: u8 },
    RemU64 { dst: u8, src1: u8, src2: u8 },
    RemS64 { dst: u8, src1: u8, src2: u8 },
    ShloL64 { dst: u8, src1: u8, src2: u8 },
    ShloR64 { dst: u8, src1: u8, src2: u8 },
    SharR64 { dst: u8, src1: u8, src2: u8 },
    AddImm32 { dst: u8, src: u8, value: i32 },
    AddImm64 { dst: u8, src: u8, value: i32 },
    AndImm { dst: u8, src: u8, value: i32 },
    XorImm { dst: u8, src: u8, value: i32 },
    OrImm { dst: u8, src: u8, value: i32 },
    MulImm32 { dst: u8, src: u8, value: i32 },
    MulImm64 { dst: u8, src: u8, value: i32 },
    ShloLImm32 { dst: u8, src: u8, value: i32 },
    ShloRImm32 { dst: u8, src: u8, value: i32 },
    SharRImm32 { dst: u8, src: u8, value: i32 },
    ShloLImm64 { dst: u8, src: u8, value: i32 },
    ShloRImm64 { dst: u8, src: u8, value: i32 },
    SharRImm64 { dst: u8, src: u8, value: i32 },
    NegAddImm32 { dst: u8, src: u8, value: i32 },
    NegAddImm64 { dst: u8, src: u8, value: i32 },
    SetGtUImm { dst: u8, src: u8, value: i32 },
    SetGtSImm { dst: u8, src: u8, value: i32 },
    Jump { offset: i32 },
    LoadImmJump { reg: u8, value: i32, offset: i32 },
    JumpInd { reg: u8, offset: i32 },
    LoadIndU32 { dst: u8, base: u8, offset: i32 },
    StoreIndU32 { base: u8, src: u8, offset: i32 },
    LoadIndU64 { dst: u8, base: u8, offset: i32 },
    StoreIndU64 { base: u8, src: u8, offset: i32 },
    BranchNeImm { reg: u8, value: i32, offset: i32 },
    BranchEqImm { reg: u8, value: i32, offset: i32 },
    BranchGeSImm { reg: u8, value: i32, offset: i32 },
    BranchLtUImm { reg: u8, value: i32, offset: i32 },
    BranchLeUImm { reg: u8, value: i32, offset: i32 },
    BranchGeUImm { reg: u8, value: i32, offset: i32 },
    BranchGtUImm { reg: u8, value: i32, offset: i32 },
    BranchLtSImm { reg: u8, value: i32, offset: i32 },
    BranchLeSImm { reg: u8, value: i32, offset: i32 },
    BranchGtSImm { reg: u8, value: i32, offset: i32 },
    MoveReg { dst: u8, src: u8 },
    BranchEq { reg1: u8, reg2: u8, offset: i32 },
    BranchNe { reg1: u8, reg2: u8, offset: i32 },
    BranchGeU { reg1: u8, reg2: u8, offset: i32 },
    BranchLtU { reg1: u8, reg2: u8, offset: i32 },
    BranchLtS { reg1: u8, reg2: u8, offset: i32 },
    BranchGeS { reg1: u8, reg2: u8, offset: i32 },
    SetLtU { dst: u8, src1: u8, src2: u8 },
    SetLtS { dst: u8, src1: u8, src2: u8 },
    CmovIz { dst: u8, src: u8, cond: u8 },
    CmovNz { dst: u8, src: u8, cond: u8 },
    And { dst: u8, src1: u8, src2: u8 },
    Xor { dst: u8, src1: u8, src2: u8 },
    Or { dst: u8, src1: u8, src2: u8 },
    SetLtUImm { dst: u8, src: u8, value: i32 },
    SetLtSImm { dst: u8, src: u8, value: i32 },
    ShloL32 { dst: u8, src1: u8, src2: u8 },
    ShloR32 { dst: u8, src1: u8, src2: u8 },
    SharR32 { dst: u8, src1: u8, src2: u8 },
    Sbrk { dst: u8, src: u8 },
    CountSetBits64 { dst: u8, src: u8 },
    CountSetBits32 { dst: u8, src: u8 },
    LeadingZeroBits64 { dst: u8, src: u8 },
    LeadingZeroBits32 { dst: u8, src: u8 },
    TrailingZeroBits64 { dst: u8, src: u8 },
    TrailingZeroBits32 { dst: u8, src: u8 },
    SignExtend8 { dst: u8, src: u8 },
    SignExtend16 { dst: u8, src: u8 },
    ZeroExtend16 { dst: u8, src: u8 },
    LoadIndU8 { dst: u8, base: u8, offset: i32 },
    LoadIndI8 { dst: u8, base: u8, offset: i32 },
    StoreIndU8 { base: u8, src: u8, offset: i32 },
    LoadIndU16 { dst: u8, base: u8, offset: i32 },
    LoadIndI16 { dst: u8, base: u8, offset: i32 },
    StoreIndU16 { base: u8, src: u8, offset: i32 },
    CmovIzImm { dst: u8, cond: u8, value: i32 },
    CmovNzImm { dst: u8, cond: u8, value: i32 },
    StoreImmU8 { address: i32, value: i32 },
    StoreImmU16 { address: i32, value: i32 },
    StoreImmU32 { address: i32, value: i32 },
    StoreImmU64 { address: i32, value: i32 },
    StoreImmIndU8 { base: u8, offset: i32, value: i32 },
    StoreImmIndU16 { base: u8, offset: i32, value: i32 },
    StoreImmIndU32 { base: u8, offset: i32, value: i32 },
    StoreImmIndU64 { base: u8, offset: i32, value: i32 },
    LoadU8 { dst: u8, address: i32 },
    LoadI8 { dst: u8, address: i32 },
    LoadU16 { dst: u8, address: i32 },
    LoadI16 { dst: u8, address: i32 },
    LoadU32 { dst: u8, address: i32 },
    LoadI32 { dst: u8, address: i32 },
    LoadU64 { dst: u8, address: i32 },
    StoreU8 { src: u8, address: i32 },
    StoreU16 { src: u8, address: i32 },
    StoreU32 { src: u8, address: i32 },
    StoreU64 { src: u8, address: i32 },
    LoadIndI32 { dst: u8, base: u8, offset: i32 },
    ReverseBytes { dst: u8, src: u8 },
    ShloLImmAlt32 { dst: u8, src: u8, value: i32 },
    ShloRImmAlt32 { dst: u8, src: u8, value: i32 },
    SharRImmAlt32 { dst: u8, src: u8, value: i32 },
    ShloLImmAlt64 { dst: u8, src: u8, value: i32 },
    ShloRImmAlt64 { dst: u8, src: u8, value: i32 },
    SharRImmAlt64 { dst: u8, src: u8, value: i32 },
    RotRImm64 { dst: u8, src: u8, value: i32 },
    RotRImmAlt64 { dst: u8, src: u8, value: i32 },
    RotRImm32 { dst: u8, src: u8, value: i32 },
    RotRImmAlt32 { dst: u8, src: u8, value: i32 },
    LoadImmJumpInd { base: u8, dst: u8, value: i32, offset: i32 },
    MulUpperSS { dst: u8, src1: u8, src2: u8 },
    MulUpperUU { dst: u8, src1: u8, src2: u8 },
    MulUpperSU { dst: u8, src1: u8, src2: u8 },
    RotL64 { dst: u8, src1: u8, src2: u8 },
    RotL32 { dst: u8, src1: u8, src2: u8 },
    RotR64 { dst: u8, src1: u8, src2: u8 },
    RotR32 { dst: u8, src1: u8, src2: u8 },
    AndInv { dst: u8, src1: u8, src2: u8 },
    OrInv { dst: u8, src1: u8, src2: u8 },
    Xnor { dst: u8, src1: u8, src2: u8 },
    Max { dst: u8, src1: u8, src2: u8 },
    MaxU { dst: u8, src1: u8, src2: u8 },
    Min { dst: u8, src1: u8, src2: u8 },
    MinU { dst: u8, src1: u8, src2: u8 },
    Ecalli { index: u32 },
    Unknown { opcode: u8, raw_bytes: Vec<u8> },
}

/// Whether two instructions are the same, the bytes of an unknown one taken by
/// their contents.
pub open spec fn same_instruction(a: Instruction, b: Instruction) -> bool {
    if a is Unknown && b is Unknown {
        a->Unknown_opcode == b->Unknown_opcode && a->raw_bytes@ == b->raw_bytes@
    } else {
        a == b
    }
}

impl Clone for Instruction {
    fn clone(&self) -> (res: Self)
        ensures
            same_instruction(*self, res),
    {
        match self {
            Instruction::Trap => Instruction::Trap,
            Instruction::Fallthrough => Instruction::Fallthrough,
            Instruction::LoadImm64 { reg, value } => Instruction::LoadImm64 { reg: *reg, value: *value },
            Instruction::LoadImm { reg, value } => Instruction::LoadImm { reg: *reg, value: *value },
            Instruction::Add32 { dst, src1, src2 } => Instruction::Add32 { dst: *dst, src1: *src1, src2: *src2 },
            Instruction::Sub32 { dst, src1, src2 } => Instruction::Sub32 { dst: *dst, src1: *src1, src2: *src2 },
            Instruction::Mul32 { dst, src1, src2 } => Instruction::Mul32 { dst: *dst, src1: *src1, src2: *src2 },
            Instruction::DivU32 { dst, src1, src2 } => Instruction::DivU32 { dst: *dst, src1: *src1, src2: *src2 },
            Instruction::DivS32 { dst, src1, src2 } => Instruction::DivS32 { dst: *dst, src1: *src1, src2: *src2 },
            Instruction::RemU32 { dst, src1, src2 } => Instruction::RemU32 { dst: *dst, src1: *src1, src2: *src2 },
            Instruction::RemS32 { dst, src1, src2 } => Instruction::RemS32 { dst: *dst, src1: *src1, src2: *src2 },
            Instruction::Add64 { dst, src1, src2 } => Instruction::Add64 { dst: *dst, src1: *src1, src2: *src2 },
            Instruction::Sub64 { dst, src1, src2 } => Instruction::Sub64 { dst: *dst, src1: *src1, src2: *src2 },
            Instruction::Mul64 { dst, src1, src2 } => Instruction::Mul64 { dst: *dst, src1: *src1, src2: *src2 },
            Instruction::DivU64 { dst, src1, src2 } => Instruction::DivU64 { dst: *dst, src1: *src1, src2: *src2 },
            Instruction::DivS64 { dst, src1, src2 } => Instruction::DivS64 { dst: *dst, src1: *src1, src2: *src2 },
            Instruction::RemU64 { dst, src1, src2 } => Instruction::RemU64 { dst: *dst, src1: *src1, src2: *src2 },
            Instruction::RemS64 { dst, src1, src2 } => Instruction::RemS64 { dst: *dst, src1: *src1, src2: *src2 },
            Instruction::ShloL64 { dst, src1, src2 } => Instruction::ShloL64 { dst: *dst, src1: *src1, src2: *src2 },
            Instruction::ShloR64 { dst, src1, src2 } => Instruction::ShloR64 { dst: *dst, src1: *src1, src2: *src2 },
            Instruction::SharR64 { dst, src1, src2 } => Instruction::SharR64 { dst: *dst, src1: *src1, src2: *src2 },
            Instruction::AddImm32 { dst, src, value } => Instruction::AddImm32 { dst: *dst, src: *src, value: *value },
            Instruction::AddImm64 { dst, src, value } => Instruction::AddImm64 { dst: *dst, src: *src, value: *value },
            Instruction::AndImm { dst, src, value } => Instruction::AndImm { dst: *dst, src: *src, value: *value },
            Instruction::XorImm { dst, src, value } => Instruction::XorImm { dst: *dst, src: *src, value: *value },
            Instruction::OrImm { dst, src, value } => Instruction::OrImm { dst: *dst, src: *src, value: *value },
            Instruction::MulImm32 { dst, src, value } => Instruction::MulImm32 { dst: *dst, src: *src, value: *value },
            Instruction::MulImm64 { dst, src, value } => Instruction::MulImm64 { dst: *dst, src: *src, value: *value },
            Instruction::ShloLImm32 { dst, src, value } => Instruction::ShloLImm32 { dst: *dst, src: *src, value: *value },
            Instruction::ShloRImm32 { dst, src, value } => Instruction::ShloRImm32 { dst: *dst, src: *src, value: *value },
            Instruction::SharRImm32 { dst, src, value } => Instruction::SharRImm32 { dst: *dst, src: *src, value: *value },
            Instruction::ShloLImm64 { dst, src, value } => Instruction::ShloLImm64 { dst: *dst, src: *src, value: *value },
            Instruction::ShloRImm64 { dst, src, value } => Instruction::ShloRImm64 { dst: *dst, src: *src, value: *value },
            Instruction::SharRImm64 { dst, src, value } => Instruction::SharRImm64 { dst: *dst, src: *src, value: *value },
            Instruction::NegAddImm32 { dst, src, value } => Instruction::NegAddImm32 { dst: *dst, src: *src, value: *value },
            Instruction::NegAddImm64 { dst, src, value } => Instruction::NegAddImm64 { dst: *dst, src: *src, value: *value },
            Instruction::SetGtUImm { dst, src, value } => Instruction::SetGtUImm { dst: *dst, src: *src, value: *value },
            Instruction::SetGtSImm { dst, src, value } => Instruction::SetGtSImm { dst: *dst, src: *src, value: *value },
            Instruction::Jump { offset } => Instruction::Jump { offset: *offset },
            Instruction::LoadImmJump { reg, value, offset } => Instruction::LoadImmJump { reg: *reg, value: *value, offset: *offset },
            Instruction::JumpInd { reg, offset } => Instruction::JumpInd { reg: *reg, offset: *offset },
            Instruction::LoadIndU32 { dst, base, offset } => Instruction::LoadIndU32 { dst: *dst, base: *base, offset: *offset },
            Instruction::StoreIndU32 { base, src, offset } => Instruction::StoreIndU32 { base: *base, src: *src, offset: *offset },
            Instruction::LoadIndU64 { dst, base, offset } => Instruction::LoadIndU64 { dst: *dst, base: *base, offset: *offset },
            Instruction::StoreIndU64 { base, src, offset } => Instruction::StoreIndU64 { base: *base, src: *src, offset: *offset },
            Instruction::BranchNeImm { reg, value, offset } => Instruction::BranchNeImm { reg: *reg, value: *value, offset: *offset },
            Instruction::BranchEqImm { reg, value, offset } => Instruction::BranchEqImm { reg: *reg, value: *value, offset: *offset },
            Instruction::BranchGeSImm { reg, value, offset } => Instruction::BranchGeSImm { reg: *reg, value: *value, offset: *offset },
            Instruction::BranchLtUImm { reg, value, offset } => Instruction::BranchLtUImm { reg: *reg, value: *value, offset: *offset },
            Instruction::BranchLeUImm { reg, value, offset } => Instruction::BranchLeUImm { reg: *reg, value: *value, offset: *offset },
            Instruction::BranchGeUImm { reg, value, offset } => Instruction::BranchGeUImm { reg: *reg, value: *value, offset: *offset },
            Instruction::BranchGtUImm { reg, value, offset } => Instruction::BranchGtUImm { reg: *reg, value: *value, offset: *offset },
            Instruction::BranchLtSImm { reg, value, offset } => Instruction::BranchLtSImm { reg: *reg, value: *value, offset: *offset },
            Instruction::BranchLeSImm { reg, value, offset } => Instruction::BranchLeSImm { reg: *reg, value: *value, offset: *offset },
            Instruction::BranchGtSImm { reg, value, offset } => Instruction::BranchGtSImm { reg: *reg, value: *value, offset: *offset },
            Instruction::MoveReg { dst, src } => Instruction::MoveReg { dst: *dst, src: *src },
            Instruction::BranchEq { reg1, reg2, offset } => Instruction::BranchEq { reg1: *reg1, reg2: *reg2, offset: *offset },
            Instruction::BranchNe { reg1, reg2, offset } => Instruction::BranchNe { reg1: *reg1, reg2: *reg2, offset: *offset },
            Instruction::BranchGeU { reg1, reg2, offset } => Instruction::BranchGeU { reg1: *reg1, reg2: *reg2, offset: *offset },
            Instruction::BranchLtU { reg1, reg2, offset } => Instruction::BranchLtU { reg1: *reg1, reg2: *reg2, offset: *offset },
            Instruction::BranchLtS { reg1, reg2, offset } => Instruction::BranchLtS { reg1: *reg1, reg2: *reg2, offset: *offset },
            Instruction::BranchGeS { reg1, reg2, offset } => Instruction::BranchGeS { reg1: *reg1, reg2: *reg2, offset: *offset },
            Instruction::SetLtU { dst, src1, src2 } => Instruction::SetLtU { dst: *dst, src1: *src1, src2: *src2 },
            Instruction::SetLtS { dst, src1, src2 } => Instruction::SetLtS { dst: *dst, src1: *src1, src2: *src2 },
            Instruction::CmovIz { dst, src, cond } => Instruction::CmovIz { dst: *dst, src: *src, cond: *cond },
            Instruction::CmovNz { dst, src, cond } => Instruction::CmovNz { dst: *dst, src: *src, cond: *cond },
            Instruction::And { dst, src1, src2 } => Instruction::And { dst: *dst, src1: *src1, src2: *src2 },
            Instruction::Xor { dst, src1, src2 } => Instruction::Xor { dst: *dst, src1: *src1, src2: *src2 },
            Instruction::Or { dst, src1, src2 } => Instruction::Or { dst: *dst, src1: *src1, src2: *src2 },
            Instruction::SetLtUImm { dst, src, value } => Instruction::SetLtUImm { dst: *dst, src: *src, value: *value },
            Instruction::SetLtSImm { dst, src, value } => Instruction::SetLtSImm { dst: *dst, src: *src, value: *value },
            Instruction::ShloL32 { dst, src1, src2 } => Instruction::ShloL32 { dst: *dst, src1: *src1, src2: *src2 },
            Instruction::ShloR32 { dst, src1, src2 } => Instruction::ShloR32 { dst: *dst, src1: *src1, src2: *src2 },
            Instruction::SharR32 { dst, src1, src2 } => Instruction::SharR32 { dst: *dst, src1: *src1, src2: *src2 },
            Instruction::Sbrk { dst, src } => Instruction::Sbrk { dst: *dst, src: *src },
            Instruction::CountSetBits64 { dst, src } => Instruction::CountSetBits64 { dst: *dst, src: *src },
            Instruction::CountSetBits32 { dst, src } => Instruction::CountSetBits32 { dst: *dst, src: *src },
            Instruction::LeadingZeroBits64 { dst, src } => Instruction::LeadingZeroBits64 { dst: *dst, src: *src },
            Instruction::LeadingZeroBits32 { dst, src } => Instruction::LeadingZeroBits32 { dst: *dst, src: *src },
            Instruction::TrailingZeroBits64 { dst, src } => Instruction::TrailingZeroBits64 { dst: *dst, src: *src },
            Instruction::TrailingZeroBits32 { dst, src } => Instruction::TrailingZeroBits32 { dst: *dst, src: *src },
            Instruction::SignExtend8 { dst, src } => Instruction::SignExtend8 { dst: *dst, src: *src },
            Instruction::SignExtend16 { dst, src } => Instruction::SignExtend16 { dst: *dst, src: *src },
            Instruction::ZeroExtend16 { dst, src } => Instruction::ZeroExtend16 { dst: *dst, src: *src },
            Instruction::LoadIndU8 { dst, base, offset } => Instruction::LoadIndU8 { dst: *dst, base: *base, offset: *offset },
            Instruction::LoadIndI8 { dst, base, offset } => Instruction::LoadIndI8 { dst: *dst, base: *base, offset: *offset },
            Instruction::StoreIndU8 { base, src, offset } => Instruction::StoreIndU8 { base: *base, src: *src, offset: *offset },
            Instruction::LoadIndU16 { dst, base, offset } => Instruction::LoadIndU16 { dst: *dst, base: *base, offset: *offset },
            Instruction::LoadIndI16 { dst, base, offset } => Instruction::LoadIndI16 { dst: *dst, base: *base, offset: *offset },
            Instruction::StoreIndU16 { base, src, offset } => Instruction::StoreIndU16 { base: *base, src: *src, offset: *offset },
            Instruction::CmovIzImm { dst, cond, value } => Instruction::CmovIzImm { dst: *dst, cond: *cond, value: *value },
            Instruction::CmovNzImm { dst, cond, value } => Instruction::CmovNzImm { dst: *dst, cond: *cond, value: *value },
            Instruction::StoreImmU8 { address, value } => Instruction::StoreImmU8 { address: *address, value: *value },
            Instruction::StoreImmU16 { address, value } => Instruction::StoreImmU16 { address: *address, value: *value },
            Instruction::StoreImmU32 { address, value } => Instruction::StoreImmU32 { address: *address, value: *value },
            Instruction::StoreImmU64 { address, value } => Instruction::StoreImmU64 { address: *address, value: *value },
            Instruction::StoreImmIndU8 { base, offset, value } => Instruction::StoreImmIndU8 { base: *base, offset: *offset, value: *value },
            Instruction::StoreImmIndU16 { base, offset, value } => Instruction::StoreImmIndU16 { base: *base, offset: *offset, value: *value },
            Instruction::StoreImmIndU32 { base, offset, value } => Instruction::StoreImmIndU32 { base: *base, offset: *offset, value: *value },
            Instruction::StoreImmIndU64 { base, offset, value } => Instruction::StoreImmIndU64 { base: *base, offset: *offset, value: *value },
            Instruction::LoadU8 { dst, address } => Instruction::LoadU8 { dst: *dst, address: *address },
            Instruction::LoadI8 { dst, address } => Instruction::LoadI8 { dst: *dst, address: *address },
            Instruction::LoadU16 { dst, address } => Instruction::LoadU16 { dst: *dst, address: *address },
            Instruction::LoadI16 { dst, address } => Instruction::LoadI16 { dst: *dst, address: *address },
            Instruction::LoadU32 { dst, address } => Instruction::LoadU32 { dst: *dst, address: *address },
            Instruction::LoadI32 { dst, address } => Instruction::LoadI32 { dst: *dst, address: *address },
            Instruction::LoadU64 { dst, address } => Instruction::LoadU64 { dst: *dst, address: *address },
            Instruction::StoreU8 { src, address } => Instruction::StoreU8 { src: *src, address: *address },
            Instruction::StoreU16 { src, address } => Instruction::StoreU16 { src: *src, address: *address },
            Instruction::StoreU32 { src, address } => Instruction::StoreU32 { src: *src, address: *address },
            Instruction::StoreU64 { src, address } => Instruction::StoreU64 { src: *src, address: *address },
            Instruction::LoadIndI32 { dst, base, offset } => Instruction::LoadIndI32 { dst: *dst, base: *base, offset: *offset },
            Instruction::ReverseBytes { dst, src } => Instruction::ReverseBytes { dst: *dst, src: *src },
            Instruction::ShloLImmAlt32 { dst, src, value } => Instruction::ShloLImmAlt32 { dst: *dst, src: *src, value: *value },
            Instruction::ShloRImmAlt32 { dst, src, value } => Instruction::ShloRImmAlt32 { dst: *dst, src: *src, value: *value },
            Instruction::SharRImmAlt32 { dst, src, value } => Instruction::SharRImmAlt32 { dst: *dst, src: *src, value: *value },
            Instruction::ShloLImmAlt64 { dst, src, value } => Instruction::ShloLImmAlt64 { dst: *dst, src: *src, value: *value },
            Instruction::ShloRImmAlt64 { dst, src, value } => Instruction::ShloRImmAlt64 { dst: *dst, src: *src, value: *value },
            Instruction::SharRImmAlt64 { dst, src, value } => Instruction::SharRImmAlt64 { dst: *dst, src: *src, value: *value },
            Instruction::RotRImm64 { dst, src, value } => Instruction::RotRImm64 { dst: *dst, src: *src, value: *value },
            Instruction::RotRImmAlt64 { dst, src, value } => Instruction::RotRImmAlt64 { dst: *dst, src: *src, value: *value },
            Instruction::RotRImm32 { dst, src, value } => Instruction::RotRImm32 { dst: *dst, src: *src, value: *value },
            Instruction::RotRImmAlt32 { dst, src, value } => Instruction::RotRImmAlt32 { dst: *dst, src: *src, value: *value },
            Instruction::LoadImmJumpInd { base, dst, value, offset } => Instruction::LoadImmJumpInd { base: *base, dst: *dst, value: *value, offset: *offset },
            Instruction::MulUpperSS { dst, src1, src2 } => Instruction::MulUpperSS { dst: *dst, src1: *src1, src2: *src2 },
            Instruction::MulUpperUU { dst, src1, src2 } => Instruction::MulUpperUU { dst: *dst, src1: *src1, src2: *src2 },
            Instruction::MulUpperSU { dst, src1, src2 } => Instruction::MulUpperSU { dst: *dst, src1: *src1, src2: *src2 },
            Instruction::RotL64 { dst, src1, src2 } => Instruction::RotL64 { dst: *dst, src1: *src1, src2: *src2 },
            Instruction::RotL32 { dst, src1, src2 } => Instruction::RotL32 { dst: *dst, src1: *src1, src2: *src2 },
            Instruction::RotR64 { dst, src1, src2 } => Instruction::RotR64 { dst: *dst, src1: *src1, src2: *src2 },
            Instruction::RotR32 { dst, src1, src2 } => Instruction::RotR32 { dst: *dst, src1: *src1, src2: *src2 },
            Instruction::AndInv { dst, src1, src2 } => Instruction::AndInv { dst: *dst, src1: *src1, src2: *src2 },
            Instruction::OrInv { dst, src1, src2 } => Instruction::OrInv { dst: *dst, src1: *src1, src2: *src2 },
            Instruction::Xnor { dst, src1, src2 } => Instruction::Xnor { dst: *dst, src1: *src1, src2: *src2 },
            Instruction::Max { dst, src1, src2 } => Instruction::Max { dst: *dst, src1: *src1, src2: *src2 },
            Instruction::MaxU { dst, src1, src2 } => Instruction::MaxU { dst: *dst, src1: *src1, src2: *src2 },
            Instruction::Min { dst, src1, src2 } => Instruction::Min { dst: *dst, src1: *src1, src2: *src2 },
            Instruction::MinU { dst, src1, src2 } => Instruction::MinU { dst: *dst, src1: *src1, src2: *src2 },
            Instruction::Ecalli { index } => Instruction::Ecalli { index: *index },
            Instruction::Unknown { opcode, raw_bytes } => {
                let copied: Vec<u8> = raw_bytes.clone();
                assert(copied@ =~= raw_bytes@);
                Instruction::Unknown { opcode: *opcode, raw_bytes: copied }
            },
        }
    }
}

/// The same program text: equal program counters and the same instructions.
pub open spec fn same_code(a: Seq<(usize, Instruction)>, b: Seq<(usize, Instruction)>) -> bool {
    &&& a.len() == b.len()
    &&& forall|i: int|
        0 <= i < a.len() ==> #[trigger] a[i].0 == b[i].0 && same_instruction(a[i].1, b[i].1)
}

} // verus!
