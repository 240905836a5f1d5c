//! Instructions decode to what they were encoded from.

use pvm_decompiler::decoder::decode_instruction;
use pvm_decompiler::pvm::Instruction;
use wasm_pvm::pvm::Instruction as Code;

fn check(codes: Vec<Code>) {
    for code in codes {
        let bytes = code.encode();
        let (instr, len) = decode_instruction(&bytes, bytes.len()).unwrap();
        assert_eq!(format!("{:?}", instr), format!("{:?}", code));
        assert_eq!(len, bytes.len());
    }
}

#[test]
fn encoded_instructions_decode_1() {
    check(vec![
        Code::Trap,
        Code::Fallthrough,
        Code::LoadImm64 { reg: 3, value: 0x1122_3344_5566_7788 },
        Code::LoadImm { reg: 3, value: -7 },
        Code::Add32 { dst: 3, src1: 4, src2: 5 },
        Code::Sub32 { dst: 3, src1: 4, src2: 5 },
        Code::Mul32 { dst: 3, src1: 4, src2: 5 },
        Code::DivU32 { dst: 3, src1: 4, src2: 5 },
        Code::DivS32 { dst: 3, src1: 4, src2: 5 },
        Code::RemU32 { dst: 3, src1: 4, src2: 5 },
        Code::RemS32 { dst: 3, src1: 4, src2: 5 },
        Code::Add64 { dst: 3, src1: 4, src2: 5 },
        Code::Sub64 { dst: 3, src1: 4, src2: 5 },
        Code::Mul64 { dst: 3, src1: 4, src2: 5 },
        Code::DivU64 { dst: 3, src1: 4, src2: 5 },
        Code::DivS64 { dst: 3, src1: 4, src2: 5 },
        Code::RemU64 { dst: 3, src1: 4, src2: 5 },
        Code::RemS64 { dst: 3, src1: 4, src2: 5 },
        Code::ShloL64 { dst: 3, src1: 4, src2: 5 },
        Code::ShloR64 { dst: 3, src1: 4, src2: 5 },
        Code::SharR64 { dst: 3, src1: 4, src2: 5 },
        Code::AddImm32 { dst: 3, src: 4, value: -7 },
        Code::AddImm64 { dst: 3, src: 4, value: -7 },
        Code::Jump { offset: 20 },
        Code::JumpInd { reg: 3, offset: 20 },
        Code::LoadIndU32 { dst: 3, base: 4, offset: 20 },
        Code::StoreIndU32 { base: 3, src: 4, offset: 20 },
        Code::LoadIndU64 { dst: 3, base: 4, offset: 20 },
        Code::StoreIndU64 { base: 3, src: 4, offset: 20 },
        Code::BranchNeImm { reg: 3, value: -7, offset: 20 },
        Code::BranchEqImm { reg: 3, value: -7, offset: 20 },
        Code::BranchGeSImm { reg: 3, value: -7, offset: 20 },
        Code::BranchGeU { reg1: 3, reg2: 4, offset: 20 },
        Code::BranchLtU { reg1: 3, reg2: 4, offset: 20 },
        Code::SetLtU { dst: 3, src1: 4, src2: 5 },
        Code::SetLtS { dst: 3, src1: 4, src2: 5 },
        Code::And { dst: 3, src1: 4, src2: 5 },
        Code::Xor { dst: 3, src1: 4, src2: 5 },
        Code::Or { dst: 3, src1: 4, src2: 5 },
        Code::SetLtUImm { dst: 3, src: 4, value: -7 },
    ]);
}

#[test]
fn encoded_instructions_decode_2() {
    check(vec![
        Code::SetLtSImm { dst: 3, src: 4, value: -7 },
        Code::ShloL32 { dst: 3, src1: 4, src2: 5 },
        Code::ShloR32 { dst: 3, src1: 4, src2: 5 },
        Code::SharR32 { dst: 3, src1: 4, src2: 5 },
        Code::Sbrk { dst: 3, src: 4 },
        Code::CountSetBits64 { dst: 3, src: 4 },
        Code::CountSetBits32 { dst: 3, src: 4 },
        Code::LeadingZeroBits64 { dst: 3, src: 4 },
        Code::LeadingZeroBits32 { dst: 3, src: 4 },
        Code::TrailingZeroBits64 { dst: 3, src: 4 },
        Code::TrailingZeroBits32 { dst: 3, src: 4 },
        Code::SignExtend8 { dst: 3, src: 4 },
        Code::SignExtend16 { dst: 3, src: 4 },
        Code::ZeroExtend16 { dst: 3, src: 4 },
        Code::LoadIndU8 { dst: 3, base: 4, offset: 20 },
        Code::LoadIndI8 { dst: 3, base: 4, offset: 20 },
        Code::StoreIndU8 { base: 3, src: 4, offset: 20 },
        Code::LoadIndU16 { dst: 3, base: 4, offset: 20 },
        Code::LoadIndI16 { dst: 3, base: 4, offset: 20 },
        Code::StoreIndU16 { base: 3, src: 4, offset: 20 },
        Code::Ecalli { index: 77 },
    ]);
}

/// Codes without a shape of their own are kept as bytes.
#[test]
fn other_instructions_are_kept_as_bytes() {
    let codes = vec![
        Code::AndImm { dst: 3, src: 4, value: -7 },
        Code::XorImm { dst: 3, src: 4, value: -7 },
        Code::OrImm { dst: 3, src: 4, value: -7 },
        Code::MulImm32 { dst: 3, src: 4, value: -7 },
        Code::MulImm64 { dst: 3, src: 4, value: -7 },
        Code::ShloLImm32 { dst: 3, src: 4, value: -7 },
        Code::ShloRImm32 { dst: 3, src: 4, value: -7 },
        Code::SharRImm32 { dst: 3, src: 4, value: -7 },
        Code::ShloLImm64 { dst: 3, src: 4, value: -7 },
        Code::ShloRImm64 { dst: 3, src: 4, value: -7 },
        Code::SharRImm64 { dst: 3, src: 4, value: -7 },
        Code::NegAddImm32 { dst: 3, src: 4, value: -7 },
        Code::NegAddImm64 { dst: 3, src: 4, value: -7 },
        Code::SetGtUImm { dst: 3, src: 4, value: -7 },
        Code::SetGtSImm { dst: 3, src: 4, value: -7 },
        Code::LoadImmJump { reg: 3, value: -7, offset: 20 },
        Code::BranchLtUImm { reg: 3, value: -7, offset: 20 },
        Code::BranchLeUImm { reg: 3, value: -7, offset: 20 },
        Code::BranchGeUImm { reg: 3, value: -7, offset: 20 },
        Code::BranchGtUImm { reg: 3, value: -7, offset: 20 },
        Code::BranchLtSImm { reg: 3, value: -7, offset: 20 },
        Code::BranchLeSImm { reg: 3, value: -7, offset: 20 },
        Code::BranchGtSImm { reg: 3, value: -7, offset: 20 },
        Code::MoveReg { dst: 3, src: 4 },
        Code::BranchEq { reg1: 3, reg2: 4, offset: 20 },
        Code::BranchNe { reg1: 3, reg2: 4, offset: 20 },
        Code::BranchLtS { reg1: 3, reg2: 4, offset: 20 },
        Code::BranchGeS { reg1: 3, reg2: 4, offset: 20 },
        Code::CmovIz { dst: 3, src: 4, cond: 5 },
        Code::CmovNz { dst: 3, src: 4, cond: 5 },
        Code::CmovIzImm { dst: 3, cond: 4, value: -7 },
        Code::CmovNzImm { dst: 3, cond: 4, value: -7 },
        Code::StoreImmU8 { address: 1000, value: -7 },
        Code::StoreImmU16 { address: 1000, value: -7 },
        Code::StoreImmU32 { address: 1000, value: -7 },
        Code::StoreImmU64 { address: 1000, value: -7 },
        Code::StoreImmIndU8 { base: 3, offset: 20, value: -7 },
        Code::StoreImmIndU16 { base: 3, offset: 20, value: -7 },
        Code::StoreImmIndU32 { base: 3, offset: 20, value: -7 },
        Code::StoreImmIndU64 { base: 3, offset: 20, value: -7 },
        Code::LoadU8 { dst: 3, address: 1000 },
        Code::LoadI8 { dst: 3, address: 1000 },
        Code::LoadU16 { dst: 3, address: 1000 },
        Code::LoadI16 { dst: 3, address: 1000 },
        Code::LoadU32 { dst: 3, address: 1000 },
        Code::LoadI32 { dst: 3, address: 1000 },
        Code::LoadU64 { dst: 3, address: 1000 },
        Code::StoreU8 { src: 3, address: 1000 },
        Code::StoreU16 { src: 3, address: 1000 },
        Code::StoreU32 { src: 3, address: 1000 },
        Code::StoreU64 { src: 3, address: 1000 },
        Code::LoadIndI32 { dst: 3, base: 4, offset: 20 },
        Code::ReverseBytes { dst: 3, src: 4 },
        Code::ShloLImmAlt32 { dst: 3, src: 4, value: -7 },
        Code::ShloRImmAlt32 { dst: 3, src: 4, value: -7 },
        Code::SharRImmAlt32 { dst: 3, src: 4, value: -7 },
        Code::ShloLImmAlt64 { dst: 3, src: 4, value: -7 },
        Code::ShloRImmAlt64 { dst: 3, src: 4, value: -7 },
        Code::SharRImmAlt64 { dst: 3, src: 4, value: -7 },
        Code::RotRImm64 { dst: 3, src: 4, value: -7 },
        Code::RotRImmAlt64 { dst: 3, src: 4, value: -7 },
        Code::RotRImm32 { dst: 3, src: 4, value: -7 },
        Code::RotRImmAlt32 { dst: 3, src: 4, value: -7 },
        Code::LoadImmJumpInd { base: 3, dst: 4, value: -7, offset: 20 },
        Code::MulUpperSS { dst: 3, src1: 4, src2: 5 },
        Code::MulUpperUU { dst: 3, src1: 4, src2: 5 },
        Code::MulUpperSU { dst: 3, src1: 4, src2: 5 },
        Code::RotL64 { dst: 3, src1: 4, src2: 5 },
        Code::RotL32 { dst: 3, src1: 4, src2: 5 },
        Code::RotR64 { dst: 3, src1: 4, src2: 5 },
        Code::RotR32 { dst: 3, src1: 4, src2: 5 },
        Code::AndInv { dst: 3, src1: 4, src2: 5 },
        Code::OrInv { dst: 3, src1: 4, src2: 5 },
        Code::Xnor { dst: 3, src1: 4, src2: 5 },
        Code::Max { dst: 3, src1: 4, src2: 5 },
        Code::MaxU { dst: 3, src1: 4, src2: 5 },
        Code::Min { dst: 3, src1: 4, src2: 5 },
        Code::MinU { dst: 3, src1: 4, src2: 5 },
    ];
    for code in codes {
        let bytes = code.encode();
        let (instr, len) = decode_instruction(&bytes, bytes.len()).unwrap();
        assert_eq!(instr, Instruction::Unknown { opcode: bytes[0], raw_bytes: bytes.clone() });
        assert_eq!(len, bytes.len());
    }
}
