//! The bytes of instructions, and that they decode to what was encoded.

use crate::decoder;
use crate::decoder::DecodeError;
use crate::machine;
use crate::pvm::Instruction;
use crate::varint;
use vstd::prelude::*;

verus! {

/// Two bytes: the opcode, and two half bytes, the low one first.
pub open spec fn pair(opcode: u8, low: u8, high: u8) -> Seq<u8> {
    seq![opcode, (low + 16 * high) as u8]
}

/// Three bytes: the opcode, two half bytes, and a whole one.
pub open spec fn three(opcode: u8, low: u8, high: u8, last: u8) -> Seq<u8> {
    seq![opcode, (low + 16 * high) as u8, last]
}

/// The bytes of an instruction whose immediate, where it has one of no fixed length, takes
/// `n` bytes.
pub open spec fn encoding(instr: Instruction, n: nat) -> Option<Seq<u8>> {
    match instr {
        Instruction::Trap => Some(seq![0u8]),
        Instruction::Fallthrough => Some(seq![1u8]),
        Instruction::Ecalli { index } => Some(seq![10u8] + varint::le_bytes(index as nat, n)),
        Instruction::LoadImm64 { reg, value } => Some(
            seq![20u8, reg] + varint::le_bytes(value as nat, 8),
        ),
        Instruction::Jump { offset } => Some(seq![40u8] + decoder::signed_bytes(offset as int, 4)),
        Instruction::JumpInd { reg, offset } => Some(
            seq![50u8, reg] + decoder::signed_bytes(offset as int, n),
        ),
        Instruction::LoadImm { reg, value } => Some(
            seq![51u8, reg] + decoder::signed_bytes(value as int, n),
        ),
        Instruction::Add32 { dst, src1, src2 } => Some(three(190, src1, src2, dst)),
        Instruction::Sub32 { dst, src1, src2 } => Some(three(191, src1, src2, dst)),
        Instruction::Mul32 { dst, src1, src2 } => Some(three(192, src1, src2, dst)),
        Instruction::DivU32 { dst, src1, src2 } => Some(three(193, src1, src2, dst)),
        Instruction::DivS32 { dst, src1, src2 } => Some(three(194, src1, src2, dst)),
        Instruction::RemU32 { dst, src1, src2 } => Some(three(195, src1, src2, dst)),
        Instruction::RemS32 { dst, src1, src2 } => Some(three(196, src1, src2, dst)),
        Instruction::ShloL32 { dst, src1, src2 } => Some(three(197, src1, src2, dst)),
        Instruction::ShloR32 { dst, src1, src2 } => Some(three(198, src1, src2, dst)),
        Instruction::SharR32 { dst, src1, src2 } => Some(three(199, src1, src2, dst)),
        Instruction::Add64 { dst, src1, src2 } => Some(three(200, src1, src2, dst)),
        Instruction::Sub64 { dst, src1, src2 } => Some(three(201, src1, src2, dst)),
        Instruction::Mul64 { dst, src1, src2 } => Some(three(202, src1, src2, dst)),
        Instruction::DivU64 { dst, src1, src2 } => Some(three(203, src1, src2, dst)),
        Instruction::DivS64 { dst, src1, src2 } => Some(three(204, src1, src2, dst)),
        Instruction::RemU64 { dst, src1, src2 } => Some(three(205, src1, src2, dst)),
        Instruction::RemS64 { dst, src1, src2 } => Some(three(206, src1, src2, dst)),
        Instruction::ShloL64 { dst, src1, src2 } => Some(three(207, src1, src2, dst)),
        Instruction::ShloR64 { dst, src1, src2 } => Some(three(208, src1, src2, dst)),
        Instruction::SharR64 { dst, src1, src2 } => Some(three(209, src1, src2, dst)),
        Instruction::And { dst, src1, src2 } => Some(three(210, src1, src2, dst)),
        Instruction::Xor { dst, src1, src2 } => Some(three(211, src1, src2, dst)),
        Instruction::Or { dst, src1, src2 } => Some(three(212, src1, src2, dst)),
        Instruction::SetLtU { dst, src1, src2 } => Some(three(216, src1, src2, dst)),
        Instruction::SetLtS { dst, src1, src2 } => Some(three(217, src1, src2, dst)),
        Instruction::Sbrk { dst, src } => Some(pair(101, dst, src)),
        Instruction::CountSetBits64 { dst, src } => Some(pair(102, dst, src)),
        Instruction::CountSetBits32 { dst, src } => Some(pair(103, dst, src)),
        Instruction::LeadingZeroBits64 { dst, src } => Some(pair(104, dst, src)),
        Instruction::LeadingZeroBits32 { dst, src } => Some(pair(105, dst, src)),
        Instruction::TrailingZeroBits64 { dst, src } => Some(pair(106, dst, src)),
        Instruction::TrailingZeroBits32 { dst, src } => Some(pair(107, dst, src)),
        Instruction::SignExtend8 { dst, src } => Some(pair(108, dst, src)),
        Instruction::SignExtend16 { dst, src } => Some(pair(109, dst, src)),
        Instruction::ZeroExtend16 { dst, src } => Some(pair(110, dst, src)),
        Instruction::AddImm32 { dst, src, value } => Some(pair(131, dst, src) + decoder::signed_bytes(value as int, n)),
        Instruction::AddImm64 { dst, src, value } => Some(pair(149, dst, src) + decoder::signed_bytes(value as int, n)),
        Instruction::SetLtUImm { dst, src, value } => Some(pair(136, dst, src) + decoder::signed_bytes(value as int, n)),
        Instruction::SetLtSImm { dst, src, value } => Some(pair(137, dst, src) + decoder::signed_bytes(value as int, n)),
        Instruction::LoadIndU8 { dst, base, offset } => Some(pair(124, dst, base) + decoder::signed_bytes(offset as int, n)),
        Instruction::LoadIndI8 { dst, base, offset } => Some(pair(125, dst, base) + decoder::signed_bytes(offset as int, n)),
        Instruction::LoadIndU16 { dst, base, offset } => Some(pair(126, dst, base) + decoder::signed_bytes(offset as int, n)),
        Instruction::LoadIndI16 { dst, base, offset } => Some(pair(127, dst, base) + decoder::signed_bytes(offset as int, n)),
        Instruction::LoadIndU32 { dst, base, offset } => Some(pair(128, dst, base) + decoder::signed_bytes(offset as int, n)),
        Instruction::LoadIndU64 { dst, base, offset } => Some(pair(130, dst, base) + decoder::signed_bytes(offset as int, n)),
        Instruction::StoreIndU8 { base, src, offset } => Some(pair(120, src, base) + decoder::signed_bytes(offset as int, n)),
        Instruction::StoreIndU16 { base, src, offset } => Some(pair(121, src, base) + decoder::signed_bytes(offset as int, n)),
        Instruction::StoreIndU32 { base, src, offset } => Some(pair(122, src, base) + decoder::signed_bytes(offset as int, n)),
        Instruction::StoreIndU64 { base, src, offset } => Some(pair(123, src, base) + decoder::signed_bytes(offset as int, n)),
        Instruction::BranchEqImm { reg, value, offset } => Some(pair(81, reg, n as u8) + decoder::signed_bytes(value as int, n) + decoder::signed_bytes(offset as int, 4)),
        Instruction::BranchNeImm { reg, value, offset } => Some(pair(82, reg, n as u8) + decoder::signed_bytes(value as int, n) + decoder::signed_bytes(offset as int, 4)),
        Instruction::BranchGeSImm { reg, value, offset } => Some(pair(89, reg, n as u8) + decoder::signed_bytes(value as int, n) + decoder::signed_bytes(offset as int, 4)),
        Instruction::BranchLtU { reg1, reg2, offset } => Some(pair(172, reg2, reg1) + decoder::signed_bytes(offset as int, 4)),
        Instruction::BranchGeU { reg1, reg2, offset } => Some(pair(174, reg2, reg1) + decoder::signed_bytes(offset as int, 4)),
        _ => None,
    }
}

/// Whether the immediate of no fixed length fits in `n` bytes.
pub open spec fn immediate_fits(instr: Instruction, n: nat) -> bool {
    match instr {
        Instruction::Ecalli { index } => index < vstd::arithmetic::power2::pow2(8 * n),
        Instruction::JumpInd { offset, .. } => decoder::fits_signed(offset as int, n),
        Instruction::LoadImm { value, .. } => decoder::fits_signed(value as int, n),
        Instruction::AddImm32 { value, .. } => decoder::fits_signed(value as int, n),
        Instruction::AddImm64 { value, .. } => decoder::fits_signed(value as int, n),
        Instruction::SetLtUImm { value, .. } => decoder::fits_signed(value as int, n),
        Instruction::SetLtSImm { value, .. } => decoder::fits_signed(value as int, n),
        Instruction::LoadIndU8 { offset, .. } => decoder::fits_signed(offset as int, n),
        Instruction::LoadIndI8 { offset, .. } => decoder::fits_signed(offset as int, n),
        Instruction::LoadIndU16 { offset, .. } => decoder::fits_signed(offset as int, n),
        Instruction::LoadIndI16 { offset, .. } => decoder::fits_signed(offset as int, n),
        Instruction::LoadIndU32 { offset, .. } => decoder::fits_signed(offset as int, n),
        Instruction::LoadIndU64 { offset, .. } => decoder::fits_signed(offset as int, n),
        Instruction::StoreIndU8 { offset, .. } => decoder::fits_signed(offset as int, n),
        Instruction::StoreIndU16 { offset, .. } => decoder::fits_signed(offset as int, n),
        Instruction::StoreIndU32 { offset, .. } => decoder::fits_signed(offset as int, n),
        Instruction::StoreIndU64 { offset, .. } => decoder::fits_signed(offset as int, n),
        Instruction::BranchEqImm { value, .. } => decoder::fits_signed(value as int, n),
        Instruction::BranchNeImm { value, .. } => decoder::fits_signed(value as int, n),
        Instruction::BranchGeSImm { value, .. } => decoder::fits_signed(value as int, n),
        _ => true,
    }
}

/// Whether every register of an instruction has a number of half a byte.
pub open spec fn registers_fit(instr: Instruction) -> bool {
    &&& forall|i: int| 0 <= i < machine::reads(instr).len() ==> #[trigger] machine::reads(instr)[i] < 16
    &&& forall|i: int|
        0 <= i < machine::writes(instr).len() ==> #[trigger] machine::writes(instr)[i] < 16
}

/// Whether `s` decodes to `instr`.
#[verifier::opaque]
spec fn back(s: Seq<u8>, instr: Instruction) -> bool {
    decoder::decoded(s) == Ok::<Option<Instruction>, DecodeError>(Some(instr))
}

proof fn lemma_halves(low: u8, high: u8)
    requires
        low < 16,
        high < 16,
    ensures
        (low + 16 * high) as u8 % 16 == low,
        (low + 16 * high) as u8 / 16 == high,
{
}

proof fn lemma_three_back(instr: Instruction, op: u8, dst: u8, src1: u8, src2: u8)
    requires
        decoder::three_register(op, dst, src1, src2) == Some(instr),
        dst < 16,
        src1 < 16,
        src2 < 16,
    ensures
        back(three(op, src1, src2, dst), instr),
{
    reveal(back);
    lemma_halves(src1, src2);
    assert(dst % 16 == dst);
}

proof fn lemma_two_back(instr: Instruction, op: u8, dst: u8, src: u8)
    requires
        decoder::two_register(op, dst, src) == Some(instr),
        dst < 16,
        src < 16,
    ensures
        back(pair(op, dst, src), instr),
{
    reveal(back);
    lemma_halves(dst, src);
}

proof fn lemma_immediate_back(instr: Instruction, op: u8, dst: u8, src: u8, value: i32, n: nat)
    requires
        decoder::register_immediate(op, dst, src, value) == Some(instr),
        dst < 16,
        src < 16,
        n <= 4,
        decoder::fits_signed(value as int, n),
    ensures
        back(pair(op, dst, src) + decoder::signed_bytes(value as int, n), instr),
{
    reveal(back);
    lemma_halves(dst, src);
    decoder::law_immediate_reads_back(value as int, n, seq![]);
    let s = pair(op, dst, src) + decoder::signed_bytes(value as int, n);
    assert(s.skip(2) =~= decoder::signed_bytes(value as int, n));
}

proof fn lemma_load_back(instr: Instruction, op: u8, dst: u8, base: u8, offset: i32, n: nat)
    requires
        decoder::load_indirect(op, dst, base, offset) == Some(instr),
        dst < 16,
        base < 16,
        n <= 4,
        decoder::fits_signed(offset as int, n),
    ensures
        back(pair(op, dst, base) + decoder::signed_bytes(offset as int, n), instr),
{
    reveal(back);
    lemma_halves(dst, base);
    decoder::law_immediate_reads_back(offset as int, n, seq![]);
    let s = pair(op, dst, base) + decoder::signed_bytes(offset as int, n);
    assert(s.skip(2) =~= decoder::signed_bytes(offset as int, n));
}

proof fn lemma_store_back(instr: Instruction, op: u8, base: u8, src: u8, offset: i32, n: nat)
    requires
        decoder::store_indirect(op, base, src, offset) == Some(instr),
        base < 16,
        src < 16,
        n <= 4,
        decoder::fits_signed(offset as int, n),
    ensures
        back(pair(op, src, base) + decoder::signed_bytes(offset as int, n), instr),
{
    reveal(back);
    lemma_halves(src, base);
    decoder::law_immediate_reads_back(offset as int, n, seq![]);
    let s = pair(op, src, base) + decoder::signed_bytes(offset as int, n);
    assert(s.skip(2) =~= decoder::signed_bytes(offset as int, n));
}

proof fn lemma_offset_fits(offset: i32)
    ensures
        decoder::fits_signed(offset as int, 4),
{
    vstd::arithmetic::power2::lemma2_to64();
}

proof fn lemma_branch_immediate_back(
    instr: Instruction,
    op: u8,
    reg: u8,
    value: i32,
    offset: i32,
    n: nat,
)
    requires
        decoder::branch_immediate(op, reg, value, offset) == Some(instr),
        reg < 16,
        n <= 4,
        decoder::fits_signed(value as int, n),
    ensures
        back(
            pair(op, reg, n as u8) + decoder::signed_bytes(value as int, n) + decoder::signed_bytes(offset as int, 4),
            instr,
        ),
{
    reveal(back);
    lemma_halves(reg, n as u8);
    lemma_offset_fits(offset);
    decoder::law_immediate_reads_back(value as int, n, seq![]);
    decoder::law_immediate_reads_back(offset as int, 4, seq![]);
    let s = pair(op, reg, n as u8) + decoder::signed_bytes(value as int, n) + decoder::signed_bytes(offset as int, 4);
    assert(s.subrange(2, 2 + n as int) =~= decoder::signed_bytes(value as int, n));
    assert(s.subrange(2 + n as int, 6 + n as int) =~= decoder::signed_bytes(offset as int, 4));
}

proof fn lemma_branch_register_back(
    instr: Instruction,
    op: u8,
    reg1: u8,
    reg2: u8,
    offset: i32,
)
    requires
        decoder::branch_register(op, reg1, reg2, offset) == Some(instr),
        reg1 < 16,
        reg2 < 16,
    ensures
        back(pair(op, reg2, reg1) + decoder::signed_bytes(offset as int, 4), instr),
{
    reveal(back);
    lemma_halves(reg2, reg1);
    lemma_offset_fits(offset);
    decoder::law_immediate_reads_back(offset as int, 4, seq![]);
    let s = pair(op, reg2, reg1) + decoder::signed_bytes(offset as int, 4);
    assert(s.subrange(2, 6) =~= decoder::signed_bytes(offset as int, 4));
}

#[verifier::spinoff_prover]
#[verifier::rlimit(60)]
proof fn lemma_back(instr: Instruction, n: nat)
    requires
        n <= 4,
        encoding(instr, n) is Some,
        registers_fit(instr),
        immediate_fits(instr, n),
    ensures
        back(encoding(instr, n)->0, instr),
{
    let us = machine::reads(instr);
    let ds = machine::writes(instr);
    if us.len() > 0 {
        assert(us[0] < 16);
    }
    if us.len() > 1 {
        assert(us[1] < 16);
    }
    if ds.len() > 0 {
        assert(ds[0] < 16);
    }
    match instr {
        Instruction::Trap | Instruction::Fallthrough | Instruction::Ecalli { .. }
        | Instruction::LoadImm64 { .. } | Instruction::Jump { .. } | Instruction::JumpInd { .. }
        | Instruction::LoadImm { .. } => lemma_special_back(instr, n),
        Instruction::Add32 { dst, src1, src2 } => lemma_three_back(instr, 190, dst, src1, src2),
        Instruction::Sub32 { dst, src1, src2 } => lemma_three_back(instr, 191, dst, src1, src2),
        Instruction::Mul32 { dst, src1, src2 } => lemma_three_back(instr, 192, dst, src1, src2),
        Instruction::DivU32 { dst, src1, src2 } => lemma_three_back(instr, 193, dst, src1, src2),
        Instruction::DivS32 { dst, src1, src2 } => lemma_three_back(instr, 194, dst, src1, src2),
        Instruction::RemU32 { dst, src1, src2 } => lemma_three_back(instr, 195, dst, src1, src2),
        Instruction::RemS32 { dst, src1, src2 } => lemma_three_back(instr, 196, dst, src1, src2),
        Instruction::ShloL32 { dst, src1, src2 } => lemma_three_back(instr, 197, dst, src1, src2),
        Instruction::ShloR32 { dst, src1, src2 } => lemma_three_back(instr, 198, dst, src1, src2),
        Instruction::SharR32 { dst, src1, src2 } => lemma_three_back(instr, 199, dst, src1, src2),
        Instruction::Add64 { dst, src1, src2 } => lemma_three_back(instr, 200, dst, src1, src2),
        Instruction::Sub64 { dst, src1, src2 } => lemma_three_back(instr, 201, dst, src1, src2),
        Instruction::Mul64 { dst, src1, src2 } => lemma_three_back(instr, 202, dst, src1, src2),
        Instruction::DivU64 { dst, src1, src2 } => lemma_three_back(instr, 203, dst, src1, src2),
        Instruction::DivS64 { dst, src1, src2 } => lemma_three_back(instr, 204, dst, src1, src2),
        Instruction::RemU64 { dst, src1, src2 } => lemma_three_back(instr, 205, dst, src1, src2),
        Instruction::RemS64 { dst, src1, src2 } => lemma_three_back(instr, 206, dst, src1, src2),
        Instruction::ShloL64 { dst, src1, src2 } => lemma_three_back(instr, 207, dst, src1, src2),
        Instruction::ShloR64 { dst, src1, src2 } => lemma_three_back(instr, 208, dst, src1, src2),
        Instruction::SharR64 { dst, src1, src2 } => lemma_three_back(instr, 209, dst, src1, src2),
        Instruction::And { dst, src1, src2 } => lemma_three_back(instr, 210, dst, src1, src2),
        Instruction::Xor { dst, src1, src2 } => lemma_three_back(instr, 211, dst, src1, src2),
        Instruction::Or { dst, src1, src2 } => lemma_three_back(instr, 212, dst, src1, src2),
        Instruction::SetLtU { dst, src1, src2 } => lemma_three_back(instr, 216, dst, src1, src2),
        Instruction::SetLtS { dst, src1, src2 } => lemma_three_back(instr, 217, dst, src1, src2),
        Instruction::Sbrk { dst, src } => lemma_two_back(instr, 101, dst, src),
        Instruction::CountSetBits64 { dst, src } => lemma_two_back(instr, 102, dst, src),
        Instruction::CountSetBits32 { dst, src } => lemma_two_back(instr, 103, dst, src),
        Instruction::LeadingZeroBits64 { dst, src } => lemma_two_back(instr, 104, dst, src),
        Instruction::LeadingZeroBits32 { dst, src } => lemma_two_back(instr, 105, dst, src),
        Instruction::TrailingZeroBits64 { dst, src } => lemma_two_back(instr, 106, dst, src),
        Instruction::TrailingZeroBits32 { dst, src } => lemma_two_back(instr, 107, dst, src),
        Instruction::SignExtend8 { dst, src } => lemma_two_back(instr, 108, dst, src),
        Instruction::SignExtend16 { dst, src } => lemma_two_back(instr, 109, dst, src),
        Instruction::ZeroExtend16 { dst, src } => lemma_two_back(instr, 110, dst, src),
        Instruction::AddImm32 { dst, src, value } => lemma_immediate_back(instr, 131, dst, src, value, n),
        Instruction::AddImm64 { dst, src, value } => lemma_immediate_back(instr, 149, dst, src, value, n),
        Instruction::SetLtUImm { dst, src, value } => lemma_immediate_back(instr, 136, dst, src, value, n),
        Instruction::SetLtSImm { dst, src, value } => lemma_immediate_back(instr, 137, dst, src, value, n),
        Instruction::LoadIndU8 { dst, base, offset } => lemma_load_back(instr, 124, dst, base, offset, n),
        Instruction::LoadIndI8 { dst, base, offset } => lemma_load_back(instr, 125, dst, base, offset, n),
        Instruction::LoadIndU16 { dst, base, offset } => lemma_load_back(instr, 126, dst, base, offset, n),
        Instruction::LoadIndI16 { dst, base, offset } => lemma_load_back(instr, 127, dst, base, offset, n),
        Instruction::LoadIndU32 { dst, base, offset } => lemma_load_back(instr, 128, dst, base, offset, n),
        Instruction::LoadIndU64 { dst, base, offset } => lemma_load_back(instr, 130, dst, base, offset, n),
        Instruction::StoreIndU8 { base, src, offset } => lemma_store_back(instr, 120, base, src, offset, n),
        Instruction::StoreIndU16 { base, src, offset } => lemma_store_back(instr, 121, base, src, offset, n),
        Instruction::StoreIndU32 { base, src, offset } => lemma_store_back(instr, 122, base, src, offset, n),
        Instruction::StoreIndU64 { base, src, offset } => lemma_store_back(instr, 123, base, src, offset, n),
        Instruction::BranchEqImm { reg, value, offset } => lemma_branch_immediate_back(instr, 81, reg, value, offset, n),
        Instruction::BranchNeImm { reg, value, offset } => lemma_branch_immediate_back(instr, 82, reg, value, offset, n),
        Instruction::BranchGeSImm { reg, value, offset } => lemma_branch_immediate_back(instr, 89, reg, value, offset, n),
        Instruction::BranchLtU { reg1, reg2, offset } => lemma_branch_register_back(instr, 172, reg1, reg2, offset),
        Instruction::BranchGeU { reg1, reg2, offset } => lemma_branch_register_back(instr, 174, reg1, reg2, offset),
        _ => {},
    }
}

proof fn lemma_special_back(instr: Instruction, n: nat)
    requires
        n <= 4,
        match instr {
            Instruction::Trap | Instruction::Fallthrough | Instruction::Jump { .. }
            | Instruction::Ecalli { .. } => true,
            Instruction::LoadImm64 { reg, .. } => reg < 16,
            Instruction::JumpInd { reg, .. } => reg < 16,
            Instruction::LoadImm { reg, .. } => reg < 16,
            _ => false,
        },
        immediate_fits(instr, n),
    ensures
        back(encoding(instr, n)->0, instr),
{
    reveal(back);
    let s = encoding(instr, n)->0;
    match instr {
        Instruction::Ecalli { index } => {
            decoder::law_unsigned_immediate_reads_back(index as nat, n, seq![]);
            assert(s.skip(1) =~= varint::le_bytes(index as nat, n));
        },
        Instruction::LoadImm64 { reg, value } => {
            vstd::arithmetic::power2::lemma2_to64();
            varint::law_bytes_read_back(value as nat, 8);
            assert(s.subrange(2, 10) =~= varint::le_bytes(value as nat, 8));
            assert(reg % 16 == reg);
        },
        Instruction::Jump { offset } => {
            lemma_offset_fits(offset);
            decoder::law_immediate_reads_back(offset as int, 4, seq![]);
            assert(s.subrange(1, 5) =~= decoder::signed_bytes(offset as int, 4));
        },
        Instruction::JumpInd { reg, offset } => {
            decoder::law_immediate_reads_back(offset as int, n, seq![]);
            assert(s.skip(2) =~= decoder::signed_bytes(offset as int, n));
            assert(reg % 16 == reg);
        },
        Instruction::LoadImm { reg, value } => {
            decoder::law_immediate_reads_back(value as int, n, seq![]);
            assert(s.skip(2) =~= decoder::signed_bytes(value as int, n));
            assert(reg % 16 == reg);
        },
        _ => {},
    }
}

/// Decoding undoes encoding: every instruction whose registers and immediate fit reads back
/// from its bytes.
pub proof fn law_decoding_undoes_encoding(instr: Instruction, n: nat)
    requires
        n <= 4,
        encoding(instr, n) is Some,
        registers_fit(instr),
        immediate_fits(instr, n),
    ensures
        decoder::decoded(encoding(instr, n)->0) == Ok::<Option<Instruction>, DecodeError>(Some(instr)),
{
    lemma_back(instr, n);
    reveal(back);
}

/// How many bytes an instruction with this opcode has at least, where the opcode is known.
/// A branch on a constant says in its second byte how long the constant is.
pub open spec fn least_bytes(s: Seq<u8>) -> Option<nat> {
    let op = s[0];
    if op == 0 || op == 1 || op == 10 {
        Some(1)
    } else if op == 20 {
        Some(10)
    } else if op == 40 {
        Some(5)
    } else if op == 50 || op == 51 {
        Some(2)
    } else if op == 81 || op == 82 || op == 89 {
        Some(
            if s.len() < 2 {
                2
            } else {
                6 + s[1] as nat / 16
            },
        )
    } else if 101 <= op <= 110 || 120 <= op <= 130 && op != 129 || op == 131 || op == 136 || op == 137
        || op == 149 {
        Some(2)
    } else if op == 172 || op == 174 {
        Some(6)
    } else if 190 <= op <= 212 || op == 216 || op == 217 {
        Some(3)
    } else {
        None
    }
}

/// Decoding fails exactly where bytes are missing, and knows exactly the opcodes of the
/// instruction set.
pub proof fn law_missing_bytes_are_refused(s: Seq<u8>)
    requires
        s.len() > 0,
    ensures
        match least_bytes(s) {
            Some(n) => if s.len() < n {
                decoder::decoded(s) == Err::<Option<Instruction>, DecodeError>(
                    DecodeError::UnexpectedEof,
                )
            } else {
                decoder::decoded(s) matches Ok(Some(_))
            },
            None => decoder::decoded(s) == Ok::<Option<Instruction>, DecodeError>(None),
        },
{
}

} // verus!
