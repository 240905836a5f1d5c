//! What the machine does with each instruction: the value that it leaves in its
//! destination, the memory that it reads or writes, when a branch is taken, and where
//! control goes.
//!
//! The laws of other modules hold what they build against this. Words of `n` bits are the
//! numbers from 0 to `2^n - 1`; a negative number is kept in two's complement.

use crate::instruction;
use crate::instruction::{BinOp, BitWidth, InstructionShape, MemWidth, UnaryOp};
use crate::pvm::Instruction;
use vstd::prelude::*;

verus! {

/// Number of words of `n` bits.
pub open spec fn words(n: nat) -> int {
    if n == 32 {
        0x1_0000_0000
    } else if n == 64 {
        0x1_0000_0000_0000_0000
    } else {
        vstd::arithmetic::power2::pow2(n) as int
    }
}

/// The low `n` bits of a number.
#[verifier::opaque]
pub open spec fn cut(n: nat, v: int) -> int {
    v % words(n)
}

/// The number that a word stands for in two's complement.
#[verifier::opaque]
pub open spec fn signed(n: nat, v: int) -> int {
    if v < words(n) / 2 {
        v
    } else {
        v - words(n)
    }
}

pub open spec fn flag(b: bool) -> int {
    if b {
        1
    } else {
        0
    }
}

/// Quotient rounded toward zero.
pub open spec fn quotient(x: int, y: int) -> int {
    let q = (if x < 0 {
        -x
    } else {
        x
    }) / (if y < 0 {
        -y
    } else {
        y
    });
    if (x < 0) == (y < 0) {
        q
    } else {
        -q
    }
}

/// Whether a signed division leaves the range of words.
pub open spec fn overflows(n: nat, a: int, b: int) -> bool {
    signed(n, a) == -(words(n) / 2) && signed(n, b) == -1
}

#[verifier::opaque]
pub open spec fn div_u(n: nat, a: int, b: int) -> int {
    if b == 0 {
        words(n) - 1
    } else {
        a / b
    }
}

#[verifier::opaque]
pub open spec fn div_s(n: nat, a: int, b: int) -> int {
    if b == 0 {
        words(n) - 1
    } else if overflows(n, a, b) {
        a
    } else {
        cut(n, quotient(signed(n, a), signed(n, b)))
    }
}

#[verifier::opaque]
pub open spec fn rem_u(n: nat, a: int, b: int) -> int {
    if b == 0 {
        a
    } else {
        a % b
    }
}

#[verifier::opaque]
pub open spec fn rem_s(n: nat, a: int, b: int) -> int {
    let x = signed(n, a);
    let y = signed(n, b);
    if b == 0 {
        a
    } else if overflows(n, a, b) {
        0
    } else {
        cut(n, x - y * quotient(x, y))
    }
}

#[verifier::opaque]
pub open spec fn and(a: int, b: int) -> int {
    ((a as u64) & (b as u64)) as int
}

#[verifier::opaque]
pub open spec fn or(a: int, b: int) -> int {
    ((a as u64) | (b as u64)) as int
}

#[verifier::opaque]
pub open spec fn xor(a: int, b: int) -> int {
    ((a as u64) ^ (b as u64)) as int
}

/// Every bit the other way.
#[verifier::opaque]
pub open spec fn inverse(n: nat, v: int) -> int {
    words(n) - 1 - v
}

/// A shift to the left by `k` places.
#[verifier::opaque]
pub open spec fn left(n: nat, a: int, k: int) -> int {
    cut(n, ((a as u64) << (k as u64)) as int)
}

/// A shift to the right by `k` places, zeros shifted in.
#[verifier::opaque]
pub open spec fn right(a: int, k: int) -> int {
    ((a as u64) >> (k as u64)) as int
}

/// A shift to the right by `k` places, copies of the sign shifted in.
#[verifier::opaque]
pub open spec fn right_signed(n: nat, a: int, k: int) -> int {
    cut(n, ((signed(n, a) as i64) >> (k as u64)) as int)
}

/// A rotation to the left by `k` places: what is shifted out comes in on the right.
#[verifier::opaque]
pub open spec fn turned(n: nat, a: int, k: int) -> int {
    if k == 0 {
        a
    } else {
        left(n, a, k) + right(a, n - k)
    }
}

/// The upper `n` bits of a product.
#[verifier::opaque]
pub open spec fn upper(n: nat, x: int, y: int) -> int {
    cut(n, (x * y) / words(n))
}

#[verifier::opaque]
pub open spec fn larger(x: int, y: int) -> int {
    if x > y {
        x
    } else {
        y
    }
}

#[verifier::opaque]
pub open spec fn smaller(x: int, y: int) -> int {
    if x < y {
        x
    } else {
        y
    }
}

/// Number of one bits among the low `n` bits.
pub open spec fn ones(n: nat, v: int) -> int
    decreases n,
{
    if n == 0 {
        0
    } else {
        v % 2 + ones((n - 1) as nat, v / 2)
    }
}

/// Number of zero bits below the lowest one bit among the low `n` bits.
pub open spec fn trailing_zeros(n: nat, v: int) -> int
    decreases n,
{
    if n == 0 || v % 2 == 1 {
        0
    } else {
        1 + trailing_zeros((n - 1) as nat, v / 2)
    }
}

/// Number of zero bits above the highest one bit among the low `n` bits.
pub open spec fn leading_zeros(n: nat, v: int) -> int
    decreases n,
{
    if n == 0 || (v / (vstd::arithmetic::power2::pow2((n - 1) as nat) as int)) % 2 == 1 {
        0
    } else {
        1 + leading_zeros((n - 1) as nat, v)
    }
}

/// The low `k` bits of a word, widened to 64 bits with copies of their sign.
#[verifier::opaque]
pub open spec fn sign_extended(k: nat, v: int) -> int {
    cut(64, signed(k, cut(k, v)))
}

/// The low `n` bytes in the opposite order.
pub open spec fn bytes_reversed(n: nat, v: int) -> int
    decreases n,
{
    if n == 0 {
        0
    } else {
        (v % 256) * (vstd::arithmetic::power2::pow2((8 * (n - 1)) as nat) as int) + bytes_reversed(
            (n - 1) as nat,
            v / 256,
        )
    }
}

/// What an operator gives on two words of `n` bits.
pub open spec fn apply(op: BinOp, n: nat, a: int, b: int) -> int {
    match op {
        BinOp::Add => cut(n, a + b),
        BinOp::Sub => cut(n, a - b),
        BinOp::Mul => cut(n, a * b),
        BinOp::DivU => div_u(n, a, b),
        BinOp::DivS => div_s(n, a, b),
        BinOp::RemU => rem_u(n, a, b),
        BinOp::RemS => rem_s(n, a, b),
        BinOp::And => and(a, b),
        BinOp::Or => or(a, b),
        BinOp::Xor => xor(a, b),
        BinOp::Shl => left(n, a, b % (n as int)),
        BinOp::ShrU => right(a, b % (n as int)),
        BinOp::ShrS => right_signed(n, a, b % (n as int)),
        BinOp::LtU => flag(a < b),
        BinOp::LtS => flag(signed(n, a) < signed(n, b)),
        BinOp::GeU => flag(a >= b),
        BinOp::GeS => flag(signed(n, a) >= signed(n, b)),
        BinOp::GtU => flag(a > b),
        BinOp::GtS => flag(signed(n, a) > signed(n, b)),
        BinOp::LeU => flag(a <= b),
        BinOp::LeS => flag(signed(n, a) <= signed(n, b)),
        BinOp::NegAdd => cut(n, b - a),
        BinOp::RotL => turned(n, a, b % (n as int)),
        BinOp::RotR => turned(n, a, (n - b % (n as int)) % (n as int)),
        BinOp::AndInv => and(a, inverse(n, b)),
        BinOp::OrInv => or(a, inverse(n, b)),
        BinOp::Xnor => inverse(n, xor(a, b)),
        BinOp::Max => cut(n, larger(signed(n, a), signed(n, b))),
        BinOp::MaxU => larger(a, b),
        BinOp::Min => cut(n, smaller(signed(n, a), signed(n, b))),
        BinOp::MinU => smaller(a, b),
        BinOp::MulUpperSS => upper(n, signed(n, a), signed(n, b)),
        BinOp::MulUpperUU => upper(n, a, b),
        BinOp::MulUpperSU => upper(n, signed(n, a), b),
    }
}

/// What an operator with one operand gives on a word of 64 bits. What an allocation gives
/// is no matter of its operand alone.
pub open spec fn apply_unary(op: UnaryOp, v: int) -> Option<int> {
    match op {
        UnaryOp::Not => Some(flag(v == 0)),
        UnaryOp::Popcnt64 => Some(ones(64, v)),
        UnaryOp::Popcnt32 => Some(ones(32, cut(32, v))),
        UnaryOp::Clz64 => Some(leading_zeros(64, v)),
        UnaryOp::Clz32 => Some(leading_zeros(32, cut(32, v))),
        UnaryOp::Ctz64 => Some(trailing_zeros(64, v)),
        UnaryOp::Ctz32 => Some(trailing_zeros(32, cut(32, v))),
        UnaryOp::Sext8 => Some(sign_extended(8, v)),
        UnaryOp::Sext16 => Some(sign_extended(16, v)),
        UnaryOp::Zext16 => Some(cut(16, v)),
        UnaryOp::Bswap => Some(bytes_reversed(8, v)),
        UnaryOp::Sbrk => None,
    }
}

/// An immediate as a word of 64 bits.
pub open spec fn widened(v: int) -> int {
    cut(64, v)
}

/// The low `bits` bits that an instruction leaves in register `dst`.
pub ghost struct Outcome {
    pub dst: u8,
    pub bits: nat,
    pub value: int,
}

pub open spec fn word64(dst: u8, value: int) -> Option<Outcome> {
    Some(Outcome { dst, bits: 64, value })
}

pub open spec fn word32(dst: u8, value: int) -> Option<Outcome> {
    Some(Outcome { dst, bits: 32, value })
}

/// What an instruction that computes from registers alone leaves in its destination, where
/// `r` gives the registers before it.
pub open spec fn computed(instr: Instruction, r: spec_fn(u8) -> u64) -> Option<Outcome> {
    let x = |reg: u8| r(reg) as int;
    let h = |reg: u8| cut(32, r(reg) as int);
    let w = |v: i32| widened(v as int);
    let k = |v: i32| cut(32, v as int);
    let s = |reg: u8| signed(64, r(reg) as int);
    match instr {
        Instruction::LoadImm64 { reg, value } => word64(reg, value as int),
        Instruction::LoadImm { reg, value } => word64(reg, w(value)),
        Instruction::MoveReg { dst, src } => word64(dst, x(src)),
        Instruction::Add32 { dst, src1, src2 } => word32(dst, cut(32, h(src1) + h(src2))),
        Instruction::Sub32 { dst, src1, src2 } => word32(dst, cut(32, h(src1) - h(src2))),
        Instruction::Mul32 { dst, src1, src2 } => word32(dst, cut(32, h(src1) * h(src2))),
        Instruction::DivU32 { dst, src1, src2 } => word32(dst, div_u(32, h(src1), h(src2))),
        Instruction::DivS32 { dst, src1, src2 } => word32(dst, div_s(32, h(src1), h(src2))),
        Instruction::RemU32 { dst, src1, src2 } => word32(dst, rem_u(32, h(src1), h(src2))),
        Instruction::RemS32 { dst, src1, src2 } => word32(dst, rem_s(32, h(src1), h(src2))),
        Instruction::ShloL32 { dst, src1, src2 } => word32(dst, left(32, h(src1), h(src2) % 32)),
        Instruction::ShloR32 { dst, src1, src2 } => word32(dst, right(h(src1), h(src2) % 32)),
        Instruction::SharR32 { dst, src1, src2 } => word32(
            dst,
            right_signed(32, h(src1), h(src2) % 32),
        ),
        Instruction::RotL32 { dst, src1, src2 } => word32(dst, turned(32, h(src1), h(src2) % 32)),
        Instruction::RotR32 { dst, src1, src2 } => word32(
            dst,
            turned(32, h(src1), (32 - h(src2) % 32) % 32),
        ),
        Instruction::Add64 { dst, src1, src2 } => word64(dst, cut(64, x(src1) + x(src2))),
        Instruction::Sub64 { dst, src1, src2 } => word64(dst, cut(64, x(src1) - x(src2))),
        Instruction::Mul64 { dst, src1, src2 } => word64(dst, cut(64, x(src1) * x(src2))),
        Instruction::DivU64 { dst, src1, src2 } => word64(dst, div_u(64, x(src1), x(src2))),
        Instruction::DivS64 { dst, src1, src2 } => word64(dst, div_s(64, x(src1), x(src2))),
        Instruction::RemU64 { dst, src1, src2 } => word64(dst, rem_u(64, x(src1), x(src2))),
        Instruction::RemS64 { dst, src1, src2 } => word64(dst, rem_s(64, x(src1), x(src2))),
        Instruction::ShloL64 { dst, src1, src2 } => word64(dst, left(64, x(src1), x(src2) % 64)),
        Instruction::ShloR64 { dst, src1, src2 } => word64(dst, right(x(src1), x(src2) % 64)),
        Instruction::SharR64 { dst, src1, src2 } => word64(
            dst,
            right_signed(64, x(src1), x(src2) % 64),
        ),
        Instruction::RotL64 { dst, src1, src2 } => word64(dst, turned(64, x(src1), x(src2) % 64)),
        Instruction::RotR64 { dst, src1, src2 } => word64(
            dst,
            turned(64, x(src1), (64 - x(src2) % 64) % 64),
        ),
        Instruction::And { dst, src1, src2 } => word64(dst, and(x(src1), x(src2))),
        Instruction::Or { dst, src1, src2 } => word64(dst, or(x(src1), x(src2))),
        Instruction::Xor { dst, src1, src2 } => word64(dst, xor(x(src1), x(src2))),
        Instruction::AndInv { dst, src1, src2 } => word64(dst, and(x(src1), inverse(64, x(src2)))),
        Instruction::OrInv { dst, src1, src2 } => word64(dst, or(x(src1), inverse(64, x(src2)))),
        Instruction::Xnor { dst, src1, src2 } => word64(dst, inverse(64, xor(x(src1), x(src2)))),
        Instruction::SetLtU { dst, src1, src2 } => word64(dst, flag(x(src1) < x(src2))),
        Instruction::SetLtS { dst, src1, src2 } => word64(dst, flag(s(src1) < s(src2))),
        Instruction::Max { dst, src1, src2 } => word64(dst, cut(64, larger(s(src1), s(src2)))),
        Instruction::MaxU { dst, src1, src2 } => word64(dst, larger(x(src1), x(src2))),
        Instruction::Min { dst, src1, src2 } => word64(dst, cut(64, smaller(s(src1), s(src2)))),
        Instruction::MinU { dst, src1, src2 } => word64(dst, smaller(x(src1), x(src2))),
        Instruction::MulUpperSS { dst, src1, src2 } => word64(dst, upper(64, s(src1), s(src2))),
        Instruction::MulUpperUU { dst, src1, src2 } => word64(dst, upper(64, x(src1), x(src2))),
        Instruction::MulUpperSU { dst, src1, src2 } => word64(dst, upper(64, s(src1), x(src2))),
        Instruction::AddImm32 { dst, src, value } => word32(dst, cut(32, h(src) + k(value))),
        Instruction::AddImm64 { dst, src, value } => word64(dst, cut(64, x(src) + w(value))),
        Instruction::AndImm { dst, src, value } => word64(dst, and(x(src), w(value))),
        Instruction::OrImm { dst, src, value } => word64(dst, or(x(src), w(value))),
        Instruction::XorImm { dst, src, value } => word64(dst, xor(x(src), w(value))),
        Instruction::MulImm32 { dst, src, value } => word32(dst, cut(32, h(src) * k(value))),
        Instruction::MulImm64 { dst, src, value } => word64(dst, cut(64, x(src) * w(value))),
        Instruction::NegAddImm32 { dst, src, value } => word32(dst, cut(32, k(value) - h(src))),
        Instruction::NegAddImm64 { dst, src, value } => word64(dst, cut(64, w(value) - x(src))),
        Instruction::SetLtUImm { dst, src, value } => word64(dst, flag(x(src) < w(value))),
        Instruction::SetLtSImm { dst, src, value } => word64(
            dst,
            flag(s(src) < signed(64, w(value))),
        ),
        Instruction::SetGtUImm { dst, src, value } => word64(dst, flag(x(src) > w(value))),
        Instruction::SetGtSImm { dst, src, value } => word64(
            dst,
            flag(s(src) > signed(64, w(value))),
        ),
        Instruction::ShloLImm32 { dst, src, value } => word32(dst, left(32, h(src), k(value) % 32)),
        Instruction::ShloRImm32 { dst, src, value } => word32(dst, right(h(src), k(value) % 32)),
        Instruction::SharRImm32 { dst, src, value } => word32(
            dst,
            right_signed(32, h(src), k(value) % 32),
        ),
        Instruction::ShloLImm64 { dst, src, value } => word64(dst, left(64, x(src), w(value) % 64)),
        Instruction::ShloRImm64 { dst, src, value } => word64(dst, right(x(src), w(value) % 64)),
        Instruction::SharRImm64 { dst, src, value } => word64(
            dst,
            right_signed(64, x(src), w(value) % 64),
        ),
        Instruction::RotRImm32 { dst, src, value } => word32(
            dst,
            turned(32, h(src), (32 - k(value) % 32) % 32),
        ),
        Instruction::RotRImm64 { dst, src, value } => word64(
            dst,
            turned(64, x(src), (64 - w(value) % 64) % 64),
        ),
        Instruction::ShloLImmAlt32 { dst, src, value } => word32(
            dst,
            left(32, k(value), h(src) % 32),
        ),
        Instruction::ShloRImmAlt32 { dst, src, value } => word32(dst, right(k(value), h(src) % 32)),
        Instruction::SharRImmAlt32 { dst, src, value } => word32(
            dst,
            right_signed(32, k(value), h(src) % 32),
        ),
        Instruction::ShloLImmAlt64 { dst, src, value } => word64(
            dst,
            left(64, w(value), x(src) % 64),
        ),
        Instruction::ShloRImmAlt64 { dst, src, value } => word64(dst, right(w(value), x(src) % 64)),
        Instruction::SharRImmAlt64 { dst, src, value } => word64(
            dst,
            right_signed(64, w(value), x(src) % 64),
        ),
        Instruction::RotRImmAlt32 { dst, src, value } => word32(
            dst,
            turned(32, k(value), (32 - h(src) % 32) % 32),
        ),
        Instruction::RotRImmAlt64 { dst, src, value } => word64(
            dst,
            turned(64, w(value), (64 - x(src) % 64) % 64),
        ),
        Instruction::CountSetBits64 { dst, src } => word64(dst, ones(64, x(src))),
        Instruction::CountSetBits32 { dst, src } => word64(dst, ones(32, h(src))),
        Instruction::LeadingZeroBits64 { dst, src } => word64(dst, leading_zeros(64, x(src))),
        Instruction::LeadingZeroBits32 { dst, src } => word64(dst, leading_zeros(32, h(src))),
        Instruction::TrailingZeroBits64 { dst, src } => word64(dst, trailing_zeros(64, x(src))),
        Instruction::TrailingZeroBits32 { dst, src } => word64(dst, trailing_zeros(32, h(src))),
        Instruction::SignExtend8 { dst, src } => word64(dst, sign_extended(8, x(src))),
        Instruction::SignExtend16 { dst, src } => word64(dst, sign_extended(16, x(src))),
        Instruction::ZeroExtend16 { dst, src } => word64(dst, cut(16, x(src))),
        Instruction::ReverseBytes { dst, src } => word64(dst, bytes_reversed(8, x(src))),
        _ => None,
    }
}

/// A place in memory: as much as `width` says, at the sum of the offset and what the base
/// register holds.
pub ghost struct Place {
    pub width: MemWidth,
    pub base: Option<u8>,
    pub offset: int,
}

impl Place {
    /// The address, where `r` gives the registers.
    pub open spec fn address(self, r: spec_fn(u8) -> u64) -> int {
        match self.base {
            Some(reg) => cut(64, r(reg) as int + self.offset),
            None => cut(64, self.offset),
        }
    }
}

pub open spec fn absolute(width: MemWidth, address: i32) -> Place {
    Place { width, base: None, offset: address as int }
}

pub open spec fn indirect(width: MemWidth, base: u8, offset: i32) -> Place {
    Place { width, base: Some(base), offset: offset as int }
}

/// The register that an instruction fills from memory, and the place that it reads.
pub open spec fn loads(instr: Instruction) -> Option<(u8, Place)> {
    match instr {
        Instruction::LoadU8 { dst, address } => Some((dst, absolute(MemWidth::U8, address))),
        Instruction::LoadI8 { dst, address } => Some((dst, absolute(MemWidth::I8, address))),
        Instruction::LoadU16 { dst, address } => Some((dst, absolute(MemWidth::U16, address))),
        Instruction::LoadI16 { dst, address } => Some((dst, absolute(MemWidth::I16, address))),
        Instruction::LoadU32 { dst, address } => Some((dst, absolute(MemWidth::U32, address))),
        Instruction::LoadI32 { dst, address } => Some((dst, absolute(MemWidth::I32, address))),
        Instruction::LoadU64 { dst, address } => Some((dst, absolute(MemWidth::U64, address))),
        Instruction::LoadIndU8 { dst, base, offset } => Some(
            (dst, indirect(MemWidth::U8, base, offset)),
        ),
        Instruction::LoadIndI8 { dst, base, offset } => Some(
            (dst, indirect(MemWidth::I8, base, offset)),
        ),
        Instruction::LoadIndU16 { dst, base, offset } => Some(
            (dst, indirect(MemWidth::U16, base, offset)),
        ),
        Instruction::LoadIndI16 { dst, base, offset } => Some(
            (dst, indirect(MemWidth::I16, base, offset)),
        ),
        Instruction::LoadIndU32 { dst, base, offset } => Some(
            (dst, indirect(MemWidth::U32, base, offset)),
        ),
        Instruction::LoadIndI32 { dst, base, offset } => Some(
            (dst, indirect(MemWidth::I32, base, offset)),
        ),
        Instruction::LoadIndU64 { dst, base, offset } => Some(
            (dst, indirect(MemWidth::U64, base, offset)),
        ),
        _ => None,
    }
}

/// The register that an instruction writes to memory, and the place that it goes to.
pub open spec fn stores(instr: Instruction) -> Option<(u8, Place)> {
    match instr {
        Instruction::StoreU8 { src, address } => Some((src, absolute(MemWidth::U8, address))),
        Instruction::StoreU16 { src, address } => Some((src, absolute(MemWidth::U16, address))),
        Instruction::StoreU32 { src, address } => Some((src, absolute(MemWidth::U32, address))),
        Instruction::StoreU64 { src, address } => Some((src, absolute(MemWidth::U64, address))),
        Instruction::StoreIndU8 { base, src, offset } => Some(
            (src, indirect(MemWidth::U8, base, offset)),
        ),
        Instruction::StoreIndU16 { base, src, offset } => Some(
            (src, indirect(MemWidth::U16, base, offset)),
        ),
        Instruction::StoreIndU32 { base, src, offset } => Some(
            (src, indirect(MemWidth::U32, base, offset)),
        ),
        Instruction::StoreIndU64 { base, src, offset } => Some(
            (src, indirect(MemWidth::U64, base, offset)),
        ),
        _ => None,
    }
}

/// The constant that an instruction writes to memory, and the place that it goes to.
pub open spec fn stores_constant(instr: Instruction) -> Option<(i32, Place)> {
    match instr {
        Instruction::StoreImmU8 { address, value } => Some(
            (value, absolute(MemWidth::U8, address)),
        ),
        Instruction::StoreImmU16 { address, value } => Some(
            (value, absolute(MemWidth::U16, address)),
        ),
        Instruction::StoreImmU32 { address, value } => Some(
            (value, absolute(MemWidth::U32, address)),
        ),
        Instruction::StoreImmU64 { address, value } => Some(
            (value, absolute(MemWidth::U64, address)),
        ),
        Instruction::StoreImmIndU8 { base, offset, value } => Some(
            (value, indirect(MemWidth::U8, base, offset)),
        ),
        Instruction::StoreImmIndU16 { base, offset, value } => Some(
            (value, indirect(MemWidth::U16, base, offset)),
        ),
        Instruction::StoreImmIndU32 { base, offset, value } => Some(
            (value, indirect(MemWidth::U32, base, offset)),
        ),
        Instruction::StoreImmIndU64 { base, offset, value } => Some(
            (value, indirect(MemWidth::U64, base, offset)),
        ),
        _ => None,
    }
}

/// Whether a conditional branch is taken, where `r` gives the registers.
///
/// A two-register branch compares its second register with its first.
pub open spec fn taken(instr: Instruction, r: spec_fn(u8) -> u64) -> Option<bool> {
    let x = |reg: u8| r(reg) as int;
    let s = |reg: u8| signed(64, r(reg) as int);
    let w = |v: i32| widened(v as int);
    match instr {
        Instruction::BranchEqImm { reg, value, .. } => Some(x(reg) == w(value)),
        Instruction::BranchNeImm { reg, value, .. } => Some(x(reg) != w(value)),
        Instruction::BranchLtUImm { reg, value, .. } => Some(x(reg) < w(value)),
        Instruction::BranchLeUImm { reg, value, .. } => Some(x(reg) <= w(value)),
        Instruction::BranchGeUImm { reg, value, .. } => Some(x(reg) >= w(value)),
        Instruction::BranchGtUImm { reg, value, .. } => Some(x(reg) > w(value)),
        Instruction::BranchLtSImm { reg, value, .. } => Some(s(reg) < value),
        Instruction::BranchLeSImm { reg, value, .. } => Some(s(reg) <= value),
        Instruction::BranchGeSImm { reg, value, .. } => Some(s(reg) >= value),
        Instruction::BranchGtSImm { reg, value, .. } => Some(s(reg) > value),
        Instruction::BranchEq { reg1, reg2, .. } => Some(x(reg2) == x(reg1)),
        Instruction::BranchNe { reg1, reg2, .. } => Some(x(reg2) != x(reg1)),
        Instruction::BranchLtU { reg1, reg2, .. } => Some(x(reg2) < x(reg1)),
        Instruction::BranchGeU { reg1, reg2, .. } => Some(x(reg2) >= x(reg1)),
        Instruction::BranchLtS { reg1, reg2, .. } => Some(s(reg2) < s(reg1)),
        Instruction::BranchGeS { reg1, reg2, .. } => Some(s(reg2) >= s(reg1)),
        _ => None,
    }
}

/// The distance of a jump or of a taken branch.
pub open spec fn jumps_by(instr: Instruction) -> Option<i32> {
    match instr {
        Instruction::Jump { offset } => Some(offset),
        Instruction::LoadImmJump { offset, .. } => Some(offset),
        Instruction::BranchEqImm { offset, .. } => Some(offset),
        Instruction::BranchNeImm { offset, .. } => Some(offset),
        Instruction::BranchLtUImm { offset, .. } => Some(offset),
        Instruction::BranchLeUImm { offset, .. } => Some(offset),
        Instruction::BranchGeUImm { offset, .. } => Some(offset),
        Instruction::BranchGtUImm { offset, .. } => Some(offset),
        Instruction::BranchLtSImm { offset, .. } => Some(offset),
        Instruction::BranchLeSImm { offset, .. } => Some(offset),
        Instruction::BranchGeSImm { offset, .. } => Some(offset),
        Instruction::BranchGtSImm { offset, .. } => Some(offset),
        Instruction::BranchEq { offset, .. } => Some(offset),
        Instruction::BranchNe { offset, .. } => Some(offset),
        Instruction::BranchLtU { offset, .. } => Some(offset),
        Instruction::BranchGeU { offset, .. } => Some(offset),
        Instruction::BranchLtS { offset, .. } => Some(offset),
        Instruction::BranchGeS { offset, .. } => Some(offset),
        _ => None,
    }
}

/// Whether control can go from the instruction at `pc` to `s` by a jump; a jump past either
/// end of the range of program counters stops there.
pub open spec fn jumps_to(pc: usize, instr: Instruction, s: usize) -> bool {
    match jumps_by(instr) {
        Some(offset) => {
            ||| pc + offset == s
            ||| pc + offset < 0 && s == 0
            ||| pc + offset > usize::MAX && s == usize::MAX
        },
        None => false,
    }
}

/// Whether control can go on behind an instruction. A `LoadImmJumpInd` counts as one that
/// does: it saves the address behind it, where the callee comes back to.
pub open spec fn goes_on(instr: Instruction) -> bool {
    match instr {
        Instruction::Trap => false,
        Instruction::Jump { .. } => false,
        Instruction::JumpInd { .. } => false,
        Instruction::LoadImmJump { .. } => false,
        _ => true,
    }
}

/// Whether control may leave the straight line behind an instruction.
pub open spec fn turns(instr: Instruction) -> bool {
    !goes_on(instr) || jumps_by(instr) is Some || instr is LoadImmJumpInd
}

/// What an instruction of this shape gives in words of `n` bits.
pub open spec fn shape_value(shape: InstructionShape, n: nat, r: spec_fn(u8) -> u64) -> Option<
    int,
> {
    let x = |reg: u8| cut(n, r(reg) as int);
    match shape {
        InstructionShape::LoadImm { value, .. } => Some(cut(n, value as int)),
        InstructionShape::BinReg { op, src1, src2, .. } => Some(apply(op, n, x(src1), x(src2))),
        InstructionShape::BinImm { op, src, value, .. } => Some(
            apply(op, n, x(src), cut(n, value as int)),
        ),
        InstructionShape::BinImmRev { op, src, value, .. } => Some(
            apply(op, n, cut(n, value as int), x(src)),
        ),
        InstructionShape::Unary { op, src, .. } => apply_unary(op, r(src) as int),
        _ => None,
    }
}

/// Whether an instruction is worked in words of 64 bits although its shape says 32: the
/// bitwise operations on registers, and the comparisons.
pub open spec fn wider_than_shape(instr: Instruction) -> bool {
    match instr {
        Instruction::And { .. } => true,
        Instruction::Or { .. } => true,
        Instruction::Xor { .. } => true,
        Instruction::SetLtU { .. } => true,
        Instruction::SetLtS { .. } => true,
        Instruction::SetLtUImm { .. } => true,
        Instruction::SetLtSImm { .. } => true,
        Instruction::SetGtUImm { .. } => true,
        Instruction::SetGtSImm { .. } => true,
        _ => false,
    }
}

/// The width of an operation on two operands.
pub open spec fn shape_width(shape: InstructionShape) -> Option<nat> {
    let bits = |w: BitWidth|
        if w == BitWidth::W32 {
            32nat
        } else {
            64nat
        };
    match shape {
        InstructionShape::BinReg { width, .. } => Some(bits(width)),
        InstructionShape::BinImm { width, .. } => Some(bits(width)),
        InstructionShape::BinImmRev { width, .. } => Some(bits(width)),
        _ => None,
    }
}

/// What holds of the shape of an instruction that computes from registers: it names the
/// destination, gives the value, and has the width of what the machine computes.
pub open spec fn shape_agrees(instr: Instruction, r: spec_fn(u8) -> u64) -> bool {
    let shape = instruction::classified(instr);
    computed(instr, r) matches Some(o) && {
        &&& shape.defined() == Some(o.dst)
        &&& shape_value(shape, o.bits, r) == Some(o.value)
        &&& shape_width(shape) matches Some(n) ==> n == if wider_than_shape(instr) {
            32
        } else {
            o.bits
        }
    }
}

pub proof fn lemma_cut(v: int)
    ensures
        0 <= v <= u64::MAX ==> cut(64, v) == v,
        0 <= v <= u32::MAX ==> cut(32, v) == v,
        cut(32, cut(64, v)) == cut(32, v),
        cut(64, cut(64, v)) == cut(64, v),
        cut(32, cut(32, v)) == cut(32, v),
        0 <= cut(32, v) <= u32::MAX,
        0 <= cut(64, v) <= u64::MAX,
{
    reveal(cut);
}

proof fn lemma_registers(r: spec_fn(u8) -> u64)
    ensures
        forall|reg: u8| cut(64, #[trigger] r(reg) as int) == r(reg),
{
    assert forall|reg: u8| cut(64, #[trigger] r(reg) as int) == r(reg) by {
        lemma_cut(r(reg) as int);
    }
}

proof fn lemma_on_registers(instr: Instruction, r: spec_fn(u8) -> u64)
    requires
        instruction::classified(instr) is BinReg,
    ensures
        shape_agrees(instr, r),
{
    lemma_registers(r);
}

proof fn lemma_on_immediate(instr: Instruction, r: spec_fn(u8) -> u64)
    requires
        instruction::classified(instr) is BinImm,
    ensures
        shape_agrees(instr, r),
{
    lemma_registers(r);
    if let Instruction::MoveReg { dst, src } = instr {
        lemma_cut(0);
        lemma_cut(r(src) as int);
    }
}

proof fn lemma_of_immediate(instr: Instruction, r: spec_fn(u8) -> u64)
    requires
        instruction::classified(instr) is BinImmRev,
    ensures
        shape_agrees(instr, r),
{
    lemma_registers(r);
}

proof fn lemma_on_one(instr: Instruction, r: spec_fn(u8) -> u64)
    requires
        instruction::classified(instr) is Unary,
        !(instr is Sbrk),
    ensures
        shape_agrees(instr, r),
{
}

/// The shape of an instruction gives what the machine computes: the same operation on the
/// same operands in the same order and words, into the same register.
pub proof fn law_shape_computes(instr: Instruction, r: spec_fn(u8) -> u64)
    ensures
        computed(instr, r) is Some ==> shape_agrees(instr, r),
        computed(instr, r) is Some <==> match instruction::classified(instr) {
            InstructionShape::LoadImm { .. } => true,
            InstructionShape::BinReg { .. } => true,
            InstructionShape::BinImm { .. } => true,
            InstructionShape::BinImmRev { .. } => true,
            InstructionShape::Unary { op, .. } => op != UnaryOp::Sbrk,
            _ => false,
        },
{
    match instruction::classified(instr) {
        InstructionShape::BinReg { .. } => lemma_on_registers(instr, r),
        InstructionShape::BinImm { .. } => lemma_on_immediate(instr, r),
        InstructionShape::BinImmRev { .. } => lemma_of_immediate(instr, r),
        InstructionShape::Unary { .. } => {
            if !(instr is Sbrk) {
                lemma_on_one(instr, r);
            }
        },
        _ => {
            if let Instruction::LoadImm64 { reg, value } = instr {
                reveal(cut);
                assert(value as i64 as int == value || value as i64 as int == value
                    - 0x1_0000_0000_0000_0000) by (bit_vector);
            }
        },
    }
}

/// The shape of an instruction that reads or writes memory names the register, the place and
/// the width that the machine uses.
pub proof fn law_shape_accesses(instr: Instruction)
    ensures
        loads(instr) == match instruction::classified(instr) {
            InstructionShape::Load { width, dst, base, offset } => Some(
                (dst, indirect(width, base, offset)),
            ),
            InstructionShape::LoadAbsolute { width, dst, address } => Some(
                (dst, absolute(width, address)),
            ),
            _ => None,
        },
        stores(instr) == match instruction::classified(instr) {
            InstructionShape::Store { width, base, src, offset } => Some(
                (src, indirect(width, base, offset)),
            ),
            InstructionShape::StoreAbsolute { width, src, address } => Some(
                (src, absolute(width, address)),
            ),
            _ => None,
        },
        stores_constant(instr) == match instruction::classified(instr) {
            InstructionShape::StoreImm { width, address, value } => Some(
                (value, absolute(width, address)),
            ),
            InstructionShape::StoreImmInd { width, base, offset, value } => Some(
                (value, indirect(width, base, offset)),
            ),
            _ => None,
        },
{
}

/// Whether the comparison that an operator's text names holds of two words of 64 bits.
pub open spec fn compares(text: Seq<char>, a: int, b: int) -> bool {
    let x = signed(64, a);
    let y = signed(64, b);
    ||| text == "=="@ && a == b
    ||| text == "!="@ && a != b
    ||| text == "<u"@ && a < b
    ||| text == "<=u"@ && a <= b
    ||| text == ">=u"@ && a >= b
    ||| text == ">u"@ && a > b
    ||| text == "<s"@ && x < y
    ||| text == "<=s"@ && x <= y
    ||| text == ">=s"@ && x >= y
    ||| text == ">s"@ && x > y
}

/// The texts of the comparing operators are all different.
pub proof fn lemma_comparison_texts(a: int, b: int)
    ensures
        compares("=="@, a, b) == (a == b),
        compares("!="@, a, b) == (a != b),
        compares("<u"@, a, b) == (a < b),
        compares("<=u"@, a, b) == (a <= b),
        compares(">=u"@, a, b) == (a >= b),
        compares(">u"@, a, b) == (a > b),
        compares("<s"@, a, b) == (signed(64, a) < signed(64, b)),
        compares("<=s"@, a, b) == (signed(64, a) <= signed(64, b)),
        compares(">=s"@, a, b) == (signed(64, a) >= signed(64, b)),
        compares(">s"@, a, b) == (signed(64, a) > signed(64, b)),
{
    reveal_strlit("==");
    reveal_strlit("!=");
    reveal_strlit("<u");
    reveal_strlit("<=u");
    reveal_strlit(">=u");
    reveal_strlit(">u");
    reveal_strlit("<s");
    reveal_strlit("<=s");
    reveal_strlit(">=s");
    reveal_strlit(">s");
    assert("=="@[0] == '=' && "!="@[0] == '!');
    assert("<u"@[0] == '<' && "<u"@[1] == 'u' && ">u"@[0] == '>' && ">u"@[1] == 'u');
    assert("<s"@[0] == '<' && "<s"@[1] == 's' && ">s"@[0] == '>' && ">s"@[1] == 's');
    assert("<=u"@[0] == '<' && "<=u"@[2] == 'u' && ">=u"@[0] == '>' && ">=u"@[2] == 'u');
    assert("<=s"@[0] == '<' && "<=s"@[2] == 's' && ">=s"@[0] == '>' && ">=s"@[2] == 's');
}

/// The shape of a branch states when the machine takes it, by the text of its operator, and
/// where it leads.
pub proof fn law_shape_branches(instr: Instruction, r: spec_fn(u8) -> u64)
    ensures
        taken(instr, r) == match instruction::classified(instr) {
            InstructionShape::BranchImm { cond, reg, value, .. } => Some(
                compares(cond@, r(reg) as int, widened(value as int)),
            ),
            InstructionShape::BranchReg { cond, reg1, reg2, .. } => Some(
                compares(cond@, r(reg1) as int, r(reg2) as int),
            ),
            _ => None,
        },
        instruction::classified(instr).offset() == jumps_by(instr),
        instruction::classified(instr).conditional() == taken(instr, r) is Some,
{
    match instruction::classified(instr) {
        InstructionShape::BranchImm { cond, reg, value, .. } => {
            lemma_comparison_texts(r(reg) as int, widened(value as int));
            assert(signed(64, widened(value as int)) == value) by {
                reveal(cut);
                reveal(signed);
            }
        },
        InstructionShape::BranchReg { cond, reg1, reg2, .. } => {
            lemma_comparison_texts(r(reg1) as int, r(reg2) as int);
        },
        _ => {},
    }
}

/// The registers that the machine reads on an instruction, in the order of its operands. A
/// host call or an unknown instruction may read all.
pub open spec fn reads(instr: Instruction) -> Seq<u8> {
    match instr {
        Instruction::Add32 { src1, src2, .. } => seq![src1, src2],
        Instruction::Sub32 { src1, src2, .. } => seq![src1, src2],
        Instruction::Mul32 { src1, src2, .. } => seq![src1, src2],
        Instruction::DivU32 { src1, src2, .. } => seq![src1, src2],
        Instruction::DivS32 { src1, src2, .. } => seq![src1, src2],
        Instruction::RemU32 { src1, src2, .. } => seq![src1, src2],
        Instruction::RemS32 { src1, src2, .. } => seq![src1, src2],
        Instruction::Add64 { src1, src2, .. } => seq![src1, src2],
        Instruction::Sub64 { src1, src2, .. } => seq![src1, src2],
        Instruction::Mul64 { src1, src2, .. } => seq![src1, src2],
        Instruction::DivU64 { src1, src2, .. } => seq![src1, src2],
        Instruction::DivS64 { src1, src2, .. } => seq![src1, src2],
        Instruction::RemU64 { src1, src2, .. } => seq![src1, src2],
        Instruction::RemS64 { src1, src2, .. } => seq![src1, src2],
        Instruction::ShloL64 { src1, src2, .. } => seq![src1, src2],
        Instruction::ShloR64 { src1, src2, .. } => seq![src1, src2],
        Instruction::SharR64 { src1, src2, .. } => seq![src1, src2],
        Instruction::AddImm32 { src, .. } => seq![src],
        Instruction::AddImm64 { src, .. } => seq![src],
        Instruction::AndImm { src, .. } => seq![src],
        Instruction::XorImm { src, .. } => seq![src],
        Instruction::OrImm { src, .. } => seq![src],
        Instruction::MulImm32 { src, .. } => seq![src],
        Instruction::MulImm64 { src, .. } => seq![src],
        Instruction::ShloLImm32 { src, .. } => seq![src],
        Instruction::ShloRImm32 { src, .. } => seq![src],
        Instruction::SharRImm32 { src, .. } => seq![src],
        Instruction::ShloLImm64 { src, .. } => seq![src],
        Instruction::ShloRImm64 { src, .. } => seq![src],
        Instruction::SharRImm64 { src, .. } => seq![src],
        Instruction::NegAddImm32 { src, .. } => seq![src],
        Instruction::NegAddImm64 { src, .. } => seq![src],
        Instruction::SetGtUImm { src, .. } => seq![src],
        Instruction::SetGtSImm { src, .. } => seq![src],
        Instruction::JumpInd { reg, .. } => seq![reg],
        Instruction::LoadIndU32 { base, .. } => seq![base],
        Instruction::StoreIndU32 { base, src, .. } => seq![base, src],
        Instruction::LoadIndU64 { base, .. } => seq![base],
        Instruction::StoreIndU64 { base, src, .. } => seq![base, src],
        Instruction::BranchNeImm { reg, .. } => seq![reg],
        Instruction::BranchEqImm { reg, .. } => seq![reg],
        Instruction::BranchGeSImm { reg, .. } => seq![reg],
        Instruction::BranchLtUImm { reg, .. } => seq![reg],
        Instruction::BranchLeUImm { reg, .. } => seq![reg],
        Instruction::BranchGeUImm { reg, .. } => seq![reg],
        Instruction::BranchGtUImm { reg, .. } => seq![reg],
        Instruction::BranchLtSImm { reg, .. } => seq![reg],
        Instruction::BranchLeSImm { reg, .. } => seq![reg],
        Instruction::BranchGtSImm { reg, .. } => seq![reg],
        Instruction::MoveReg { src, .. } => seq![src],
        Instruction::BranchEq { reg2, reg1, .. } => seq![reg2, reg1],
        Instruction::BranchNe { reg2, reg1, .. } => seq![reg2, reg1],
        Instruction::BranchGeU { reg2, reg1, .. } => seq![reg2, reg1],
        Instruction::BranchLtU { reg2, reg1, .. } => seq![reg2, reg1],
        Instruction::BranchLtS { reg2, reg1, .. } => seq![reg2, reg1],
        Instruction::BranchGeS { reg2, reg1, .. } => seq![reg2, reg1],
        Instruction::SetLtU { src1, src2, .. } => seq![src1, src2],
        Instruction::SetLtS { src1, src2, .. } => seq![src1, src2],
        Instruction::CmovIz { src, cond, .. } => seq![src, cond],
        Instruction::CmovNz { src, cond, .. } => seq![src, cond],
        Instruction::And { src1, src2, .. } => seq![src1, src2],
        Instruction::Xor { src1, src2, .. } => seq![src1, src2],
        Instruction::Or { src1, src2, .. } => seq![src1, src2],
        Instruction::SetLtUImm { src, .. } => seq![src],
        Instruction::SetLtSImm { src, .. } => seq![src],
        Instruction::ShloL32 { src1, src2, .. } => seq![src1, src2],
        Instruction::ShloR32 { src1, src2, .. } => seq![src1, src2],
        Instruction::SharR32 { src1, src2, .. } => seq![src1, src2],
        Instruction::Sbrk { src, .. } => seq![src],
        Instruction::CountSetBits64 { src, .. } => seq![src],
        Instruction::CountSetBits32 { src, .. } => seq![src],
        Instruction::LeadingZeroBits64 { src, .. } => seq![src],
        Instruction::LeadingZeroBits32 { src, .. } => seq![src],
        Instruction::TrailingZeroBits64 { src, .. } => seq![src],
        Instruction::TrailingZeroBits32 { src, .. } => seq![src],
        Instruction::SignExtend8 { src, .. } => seq![src],
        Instruction::SignExtend16 { src, .. } => seq![src],
        Instruction::ZeroExtend16 { src, .. } => seq![src],
        Instruction::LoadIndU8 { base, .. } => seq![base],
        Instruction::LoadIndI8 { base, .. } => seq![base],
        Instruction::StoreIndU8 { base, src, .. } => seq![base, src],
        Instruction::LoadIndU16 { base, .. } => seq![base],
        Instruction::LoadIndI16 { base, .. } => seq![base],
        Instruction::StoreIndU16 { base, src, .. } => seq![base, src],
        Instruction::CmovIzImm { cond, .. } => seq![cond],
        Instruction::CmovNzImm { cond, .. } => seq![cond],
        Instruction::StoreImmIndU8 { base, .. } => seq![base],
        Instruction::StoreImmIndU16 { base, .. } => seq![base],
        Instruction::StoreImmIndU32 { base, .. } => seq![base],
        Instruction::StoreImmIndU64 { base, .. } => seq![base],
        Instruction::StoreU8 { src, .. } => seq![src],
        Instruction::StoreU16 { src, .. } => seq![src],
        Instruction::StoreU32 { src, .. } => seq![src],
        Instruction::StoreU64 { src, .. } => seq![src],
        Instruction::LoadIndI32 { base, .. } => seq![base],
        Instruction::ReverseBytes { src, .. } => seq![src],
        Instruction::ShloLImmAlt32 { src, .. } => seq![src],
        Instruction::ShloRImmAlt32 { src, .. } => seq![src],
        Instruction::SharRImmAlt32 { src, .. } => seq![src],
        Instruction::ShloLImmAlt64 { src, .. } => seq![src],
        Instruction::ShloRImmAlt64 { src, .. } => seq![src],
        Instruction::SharRImmAlt64 { src, .. } => seq![src],
        Instruction::RotRImm64 { src, .. } => seq![src],
        Instruction::RotRImmAlt64 { src, .. } => seq![src],
        Instruction::RotRImm32 { src, .. } => seq![src],
        Instruction::RotRImmAlt32 { src, .. } => seq![src],
        Instruction::LoadImmJumpInd { base, .. } => seq![base],
        Instruction::MulUpperSS { src1, src2, .. } => seq![src1, src2],
        Instruction::MulUpperUU { src1, src2, .. } => seq![src1, src2],
        Instruction::MulUpperSU { src1, src2, .. } => seq![src1, src2],
        Instruction::RotL64 { src1, src2, .. } => seq![src1, src2],
        Instruction::RotL32 { src1, src2, .. } => seq![src1, src2],
        Instruction::RotR64 { src1, src2, .. } => seq![src1, src2],
        Instruction::RotR32 { src1, src2, .. } => seq![src1, src2],
        Instruction::AndInv { src1, src2, .. } => seq![src1, src2],
        Instruction::OrInv { src1, src2, .. } => seq![src1, src2],
        Instruction::Xnor { src1, src2, .. } => seq![src1, src2],
        Instruction::Max { src1, src2, .. } => seq![src1, src2],
        Instruction::MaxU { src1, src2, .. } => seq![src1, src2],
        Instruction::Min { src1, src2, .. } => seq![src1, src2],
        Instruction::MinU { src1, src2, .. } => seq![src1, src2],
        Instruction::Ecalli { .. } => every_register(),
        Instruction::Unknown { .. } => every_register(),
        _ => seq![],
    }
}

/// The registers that the machine writes on an instruction. A host call or an unknown
/// instruction may write all.
pub open spec fn writes(instr: Instruction) -> Seq<u8> {
    match instr {
        Instruction::LoadImm64 { reg, .. } => seq![reg],
        Instruction::LoadImm { reg, .. } => seq![reg],
        Instruction::Add32 { dst, .. } => seq![dst],
        Instruction::Sub32 { dst, .. } => seq![dst],
        Instruction::Mul32 { dst, .. } => seq![dst],
        Instruction::DivU32 { dst, .. } => seq![dst],
        Instruction::DivS32 { dst, .. } => seq![dst],
        Instruction::RemU32 { dst, .. } => seq![dst],
        Instruction::RemS32 { dst, .. } => seq![dst],
        Instruction::Add64 { dst, .. } => seq![dst],
        Instruction::Sub64 { dst, .. } => seq![dst],
        Instruction::Mul64 { dst, .. } => seq![dst],
        Instruction::DivU64 { dst, .. } => seq![dst],
        Instruction::DivS64 { dst, .. } => seq![dst],
        Instruction::RemU64 { dst, .. } => seq![dst],
        Instruction::RemS64 { dst, .. } => seq![dst],
        Instruction::ShloL64 { dst, .. } => seq![dst],
        Instruction::ShloR64 { dst, .. } => seq![dst],
        Instruction::SharR64 { dst, .. } => seq![dst],
        Instruction::AddImm32 { dst, .. } => seq![dst],
        Instruction::AddImm64 { dst, .. } => seq![dst],
        Instruction::AndImm { dst, .. } => seq![dst],
        Instruction::XorImm { dst, .. } => seq![dst],
        Instruction::OrImm { dst, .. } => seq![dst],
        Instruction::MulImm32 { dst, .. } => seq![dst],
        Instruction::MulImm64 { dst, .. } => seq![dst],
        Instruction::ShloLImm32 { dst, .. } => seq![dst],
        Instruction::ShloRImm32 { dst, .. } => seq![dst],
        Instruction::SharRImm32 { dst, .. } => seq![dst],
        Instruction::ShloLImm64 { dst, .. } => seq![dst],
        Instruction::ShloRImm64 { dst, .. } => seq![dst],
        Instruction::SharRImm64 { dst, .. } => seq![dst],
        Instruction::NegAddImm32 { dst, .. } => seq![dst],
        Instruction::NegAddImm64 { dst, .. } => seq![dst],
        Instruction::SetGtUImm { dst, .. } => seq![dst],
        Instruction::SetGtSImm { dst, .. } => seq![dst],
        Instruction::LoadImmJump { reg, .. } => seq![reg],
        Instruction::LoadIndU32 { dst, .. } => seq![dst],
        Instruction::LoadIndU64 { dst, .. } => seq![dst],
        Instruction::MoveReg { dst, .. } => seq![dst],
        Instruction::SetLtU { dst, .. } => seq![dst],
        Instruction::SetLtS { dst, .. } => seq![dst],
        Instruction::CmovIz { dst, .. } => seq![dst],
        Instruction::CmovNz { dst, .. } => seq![dst],
        Instruction::And { dst, .. } => seq![dst],
        Instruction::Xor { dst, .. } => seq![dst],
        Instruction::Or { dst, .. } => seq![dst],
        Instruction::SetLtUImm { dst, .. } => seq![dst],
        Instruction::SetLtSImm { dst, .. } => seq![dst],
        Instruction::ShloL32 { dst, .. } => seq![dst],
        Instruction::ShloR32 { dst, .. } => seq![dst],
        Instruction::SharR32 { dst, .. } => seq![dst],
        Instruction::Sbrk { dst, .. } => seq![dst],
        Instruction::CountSetBits64 { dst, .. } => seq![dst],
        Instruction::CountSetBits32 { dst, .. } => seq![dst],
        Instruction::LeadingZeroBits64 { dst, .. } => seq![dst],
        Instruction::LeadingZeroBits32 { dst, .. } => seq![dst],
        Instruction::TrailingZeroBits64 { dst, .. } => seq![dst],
        Instruction::TrailingZeroBits32 { dst, .. } => seq![dst],
        Instruction::SignExtend8 { dst, .. } => seq![dst],
        Instruction::SignExtend16 { dst, .. } => seq![dst],
        Instruction::ZeroExtend16 { dst, .. } => seq![dst],
        Instruction::LoadIndU8 { dst, .. } => seq![dst],
        Instruction::LoadIndI8 { dst, .. } => seq![dst],
        Instruction::LoadIndU16 { dst, .. } => seq![dst],
        Instruction::LoadIndI16 { dst, .. } => seq![dst],
        Instruction::CmovIzImm { dst, .. } => seq![dst],
        Instruction::CmovNzImm { dst, .. } => seq![dst],
        Instruction::LoadU8 { dst, .. } => seq![dst],
        Instruction::LoadI8 { dst, .. } => seq![dst],
        Instruction::LoadU16 { dst, .. } => seq![dst],
        Instruction::LoadI16 { dst, .. } => seq![dst],
        Instruction::LoadU32 { dst, .. } => seq![dst],
        Instruction::LoadI32 { dst, .. } => seq![dst],
        Instruction::LoadU64 { dst, .. } => seq![dst],
        Instruction::LoadIndI32 { dst, .. } => seq![dst],
        Instruction::ReverseBytes { dst, .. } => seq![dst],
        Instruction::ShloLImmAlt32 { dst, .. } => seq![dst],
        Instruction::ShloRImmAlt32 { dst, .. } => seq![dst],
        Instruction::SharRImmAlt32 { dst, .. } => seq![dst],
        Instruction::ShloLImmAlt64 { dst, .. } => seq![dst],
        Instruction::ShloRImmAlt64 { dst, .. } => seq![dst],
        Instruction::SharRImmAlt64 { dst, .. } => seq![dst],
        Instruction::RotRImm64 { dst, .. } => seq![dst],
        Instruction::RotRImmAlt64 { dst, .. } => seq![dst],
        Instruction::RotRImm32 { dst, .. } => seq![dst],
        Instruction::RotRImmAlt32 { dst, .. } => seq![dst],
        Instruction::LoadImmJumpInd { dst, .. } => seq![dst],
        Instruction::MulUpperSS { dst, .. } => seq![dst],
        Instruction::MulUpperUU { dst, .. } => seq![dst],
        Instruction::MulUpperSU { dst, .. } => seq![dst],
        Instruction::RotL64 { dst, .. } => seq![dst],
        Instruction::RotL32 { dst, .. } => seq![dst],
        Instruction::RotR64 { dst, .. } => seq![dst],
        Instruction::RotR32 { dst, .. } => seq![dst],
        Instruction::AndInv { dst, .. } => seq![dst],
        Instruction::OrInv { dst, .. } => seq![dst],
        Instruction::Xnor { dst, .. } => seq![dst],
        Instruction::Max { dst, .. } => seq![dst],
        Instruction::MaxU { dst, .. } => seq![dst],
        Instruction::Min { dst, .. } => seq![dst],
        Instruction::MinU { dst, .. } => seq![dst],
        Instruction::Ecalli { .. } => every_register(),
        Instruction::Unknown { .. } => every_register(),
        _ => seq![],
    }
}

/// The machine's thirteen registers.
pub open spec fn every_register() -> Seq<u8> {
    seq![0u8, 1, 2, 3, 4, 5, 6, 7, 8, 9, 10, 11, 12]
}

/// Whether the shape of an instruction names the registers that the machine reads and writes.
pub open spec fn names_registers(instr: Instruction) -> bool {
    &&& instruction::classified(instr).uses() == reads(instr)
    &&& instruction::classified(instr).defs() == writes(instr)
}

proof fn lemma_names_two(instr: Instruction)
    requires
        instruction::classified(instr) is BinReg,
    ensures
        names_registers(instr),
{
}

proof fn lemma_names_one(instr: Instruction)
    requires
        instruction::classified(instr) is BinImm || instruction::classified(instr) is BinImmRev,
    ensures
        names_registers(instr),
{
}

proof fn lemma_names_loads(instr: Instruction)
    requires
        instruction::classified(instr) is Load || instruction::classified(instr) is LoadAbsolute
            || instruction::classified(instr) is Unary,
    ensures
        names_registers(instr),
{
}

proof fn lemma_names_stores(instr: Instruction)
    requires
        instruction::classified(instr) is Store || instruction::classified(instr) is StoreAbsolute
            || instruction::classified(instr) is StoreImm || instruction::classified(
            instr,
        ) is StoreImmInd,
    ensures
        names_registers(instr),
{
}

proof fn lemma_names_branches(instr: Instruction)
    requires
        instruction::classified(instr) is BranchImm || instruction::classified(instr) is BranchReg,
    ensures
        names_registers(instr),
{
}

proof fn lemma_names_others(instr: Instruction)
    requires
        match instruction::classified(instr) {
            InstructionShape::NoOp { .. } => true,
            InstructionShape::LoadImm { .. } => true,
            InstructionShape::CmovReg { .. } => true,
            InstructionShape::CmovImm { .. } => true,
            InstructionShape::Jump { .. } => true,
            InstructionShape::JumpInd { .. } => true,
            InstructionShape::LoadImmJump { .. } => true,
            InstructionShape::LoadImmJumpInd { .. } => true,
            _ => false,
        },
    ensures
        names_registers(instr),
{
}

/// The shape of an instruction names the registers that the machine reads and writes.
pub proof fn law_shape_names_registers(instr: Instruction)
    ensures
        names_registers(instr),
{
    match instruction::classified(instr) {
        InstructionShape::BinReg { .. } => lemma_names_two(instr),
        InstructionShape::BinImm { .. } | InstructionShape::BinImmRev { .. } => {
            lemma_names_one(instr)
        },
        InstructionShape::Load { .. } | InstructionShape::LoadAbsolute { .. }
        | InstructionShape::Unary { .. } => lemma_names_loads(instr),
        InstructionShape::Store { .. } | InstructionShape::StoreAbsolute { .. }
        | InstructionShape::StoreImm { .. } | InstructionShape::StoreImmInd { .. } => {
            lemma_names_stores(instr)
        },
        InstructionShape::BranchImm { .. } | InstructionShape::BranchReg { .. } => {
            lemma_names_branches(instr)
        },
        InstructionShape::Ecalli { .. } | InstructionShape::Unknown { .. } => {
            assert(instruction::all_registers() =~= every_register());
        },
        _ => lemma_names_others(instr),
    }
}

/// Whether two states of the registers agree on those that an instruction reads.
pub open spec fn agree_on_reads(
    instr: Instruction,
    a: spec_fn(u8) -> u64,
    b: spec_fn(u8) -> u64,
) -> bool {
    forall|i: int|
        0 <= i < reads(instr).len() ==> a(#[trigger] reads(instr)[i]) == b(reads(instr)[i])
}

proof fn lemma_decides_branch(instr: Instruction, a: spec_fn(u8) -> u64, b: spec_fn(u8) -> u64)
    requires
        instruction::classified(instr) is BranchImm || instruction::classified(instr) is BranchReg,
        agree_on_reads(instr, a, b),
    ensures
        taken(instr, a) == taken(instr, b),
{
    law_shape_branches(instr, a);
    law_shape_branches(instr, b);
    law_shape_names_registers(instr);
    let us = reads(instr);
    assert(us.len() > 0);
    assert(a(us[0]) == b(us[0]));
    if us.len() > 1 {
        assert(a(us[1]) == b(us[1]));
    }
}

/// Whether an instruction branches is decided by the registers that it reads, and what it
/// computes goes into the register that it writes.
pub proof fn law_reads_decide_branch(
    instr: Instruction,
    a: spec_fn(u8) -> u64,
    b: spec_fn(u8) -> u64,
)
    requires
        agree_on_reads(instr, a, b),
    ensures
        taken(instr, a) == taken(instr, b),
        computed(instr, a) matches Some(o) ==> writes(instr) == seq![o.dst],
{
    law_shape_computes(instr, a);
    law_shape_branches(instr, a);
    law_shape_branches(instr, b);
    law_shape_names_registers(instr);
    if instruction::classified(instr).conditional() {
        lemma_decides_branch(instr, a, b);
    }
}

/// What a conditional move leaves in its destination: the source where the condition
/// register is zero, or is not, and else what was there.
pub open spec fn moved(instr: Instruction, r: spec_fn(u8) -> u64) -> Option<Outcome> {
    match instr {
        Instruction::CmovIz { dst, src, cond } => word64(
            dst,
            if r(cond) == 0 {
                r(src) as int
            } else {
                r(dst) as int
            },
        ),
        Instruction::CmovNz { dst, src, cond } => word64(
            dst,
            if r(cond) != 0 {
                r(src) as int
            } else {
                r(dst) as int
            },
        ),
        Instruction::CmovIzImm { dst, cond, value } => word64(
            dst,
            if r(cond) == 0 {
                widened(value as int)
            } else {
                r(dst) as int
            },
        ),
        Instruction::CmovNzImm { dst, cond, value } => word64(
            dst,
            if r(cond) != 0 {
                widened(value as int)
            } else {
                r(dst) as int
            },
        ),
        _ => None,
    }
}

/// The shape of a conditional move names when it moves, and what.
pub proof fn law_shape_moves(instr: Instruction, r: spec_fn(u8) -> u64)
    ensures
        moved(instr, r) == match instruction::classified(instr) {
            InstructionShape::CmovReg { is_zero, dst, src, cond } => word64(
                dst,
                if (r(cond) == 0) == is_zero {
                    r(src) as int
                } else {
                    r(dst) as int
                },
            ),
            InstructionShape::CmovImm { is_zero, dst, cond, value } => word64(
                dst,
                if (r(cond) == 0) == is_zero {
                    widened(value as int)
                } else {
                    r(dst) as int
                },
            ),
            _ => None,
        },
{
}

/// The constant that an instruction saves in a register before it jumps.
pub open spec fn saved(instr: Instruction) -> Option<(u8, i32)> {
    match instr {
        Instruction::LoadImmJump { reg, value, .. } => Some((reg, value)),
        Instruction::LoadImmJumpInd { dst, value, .. } => Some((dst, value)),
        _ => None,
    }
}

/// The shape of a jump that saves a constant names the register and the constant, and the
/// register that it jumps by.
pub proof fn law_shape_saves(instr: Instruction)
    ensures
        saved(instr) == match instruction::classified(instr) {
            InstructionShape::LoadImmJump { dst, value, .. } => Some((dst, value)),
            InstructionShape::LoadImmJumpInd { dst, value, .. } => Some((dst, value)),
            _ => None,
        },
        instr matches Instruction::JumpInd { reg, .. } ==> instruction::classified(instr)
            == (InstructionShape::JumpInd { reg }),
        instr matches Instruction::LoadImmJumpInd { base, .. } ==> instruction::classified(instr)
            matches InstructionShape::LoadImmJumpInd { base: b, .. } && b == base,
{
}

} // verus!
