//! Binary format decoding.
//!
//! Two containers are understood:
//! - **SPI format**: a header with the lengths of the data sections, then the code blob
//! - **raw program blob**: jump table, code section and a bitmask of instruction boundaries
//!
//! Both give a `DecodedProgram`: the instruction stream, the jump table and the
//! length of the code.

use crate::pvm;
use crate::pvm::Instruction;
use crate::text;
use crate::text::push_dec;
use crate::varint;
use crate::varint::{decode_var_u32, read_le};
use vstd::prelude::*;
use vstd::slice::{slice_subrange, slice_to_vec};

verus! {

#[derive(Debug)]
pub struct DecodedProgram {
    pub jump_table: Vec<u32>,
    /// Program counter and instruction, in program order.
    pub instructions: Vec<(usize, Instruction)>,
    /// Total byte length of the code section.
    pub code_len: usize,
    /// Start of the data memory, where it is known.
    pub memory_base: Option<u64>,
}

#[derive(Debug, Clone, Copy, PartialEq, Eq, Structural)]
pub enum DecodeError {
    UnexpectedEof,
    InvalidOpcode(u8),
    InvalidVarInt,
    InvalidMask,
    UnsupportedJumpTableEntrySize(u8),
}

impl DecodeError {
    pub open spec fn message_text(self) -> Seq<char> {
        match self {
            DecodeError::UnexpectedEof => "UnexpectedEof"@,
            DecodeError::InvalidOpcode(n) => "InvalidOpcode("@ + text::dec(n as nat) + ")"@,
            DecodeError::InvalidVarInt => "InvalidVarInt"@,
            DecodeError::InvalidMask => "InvalidMask"@,
            DecodeError::UnsupportedJumpTableEntrySize(n) => "UnsupportedJumpTableEntrySize("@ + text::dec(
                n as nat,
            ) + ")"@,
        }
    }

    /// Text of the error for the user.
    pub fn message(&self) -> (text: String)
        ensures
            text@ == self.message_text(),
    {
        match self {
            DecodeError::UnexpectedEof => "UnexpectedEof".to_owned(),
            DecodeError::InvalidOpcode(n) => {
                let mut s = "InvalidOpcode(".to_owned();
                push_dec(&mut s, *n as u64);
                s.append(")");
                s
            },
            DecodeError::InvalidVarInt => "InvalidVarInt".to_owned(),
            DecodeError::InvalidMask => "InvalidMask".to_owned(),
            DecodeError::UnsupportedJumpTableEntrySize(n) => {
                let mut s = "UnsupportedJumpTableEntrySize(".to_owned();
                push_dec(&mut s, *n as u64);
                s.append(")");
                s
            },
        }
    }
}

/// Printable ASCII, line breaks and tabs.
pub open spec fn printable(b: u8) -> bool {
    32 <= b <= 126 || b == 10 || b == 13 || b == 9
}

/// How many bytes of `s` are printable.
pub open spec fn printable_count(s: Seq<u8>) -> nat
    decreases s.len(),
{
    if s.len() == 0 {
        0
    } else {
        printable_count(s.drop_last()) + if printable(s.last()) {
            1nat
        } else {
            0nat
        }
    }
}

/// Whether `data` starts with metadata: a length and that many bytes, at least
/// four fifths of them printable.
pub open spec fn has_metadata(data: Seq<u8>) -> bool {
    match varint::var_u32(data) {
        Some((len, n)) => {
            &&& len > 0
            &&& n + len <= data.len()
            &&& 5 * printable_count(data.subrange(n as int, n + len)) >= 4 * len
        },
        None => false,
    }
}

/// `data` without its metadata prefix, where it has one.
pub open spec fn stripped(data: Seq<u8>) -> Seq<u8> {
    if has_metadata(data) {
        let (len, n) = varint::var_u32(data)->0;
        data.skip(n + len)
    } else {
        data
    }
}

/// Try to strip the metadata prefix from a PVM blob:
/// `<length of the metadata><metadata bytes><program>`.
///
/// A prefix is taken for metadata if its length is positive, lies within the data and
/// at least 80% of its bytes are printable.
pub fn try_strip_metadata(data: &[u8]) -> (r: Result<&[u8], DecodeError>)
    ensures
        r is Ok,
        r->Ok_0@ == stripped(data@),
{
    if let Some((metadata_len, varint_len)) = decode_var_u32(data) {
        if metadata_len == 0 {
            return Ok(data);
        }
        if (data.len() - varint_len) < metadata_len as usize {
            return Ok(data);
        }
        let metadata_end: usize = varint_len + metadata_len as usize;
        let mut count: u64 = 0;
        let mut i: usize = varint_len;
        while i < metadata_end
            invariant
                varint_len <= i <= metadata_end <= data@.len(),
                metadata_end - varint_len == metadata_len,
                count == printable_count(data@.subrange(varint_len as int, i as int)),
                count <= i - varint_len,
            decreases metadata_end - i,
        {
            let b: u8 = data[i];
            proof {
                let s = data@.subrange(varint_len as int, i + 1);
                assert(s.drop_last() =~= data@.subrange(varint_len as int, i as int));
                assert(s.last() == b);
            }
            if (32 <= b && b <= 126) || b == 10 || b == 13 || b == 9 {
                count = count + 1;
            }
            i = i + 1;
        }
        if 5 * (count as u128) >= 4 * (metadata_len as u128) {
            assert(data@.subrange(metadata_end as int, data@.len() as int) =~= data@.skip(
                metadata_end as int,
            ));
            return Ok(slice_subrange(data, metadata_end, data.len()));
        }
    }
    Ok(data)
}

/// Reads numbers from a byte sequence, front to back.
pub struct Cursor<'a> {
    pub data: &'a [u8],
    pub position: usize,
}

impl<'a> Cursor<'a> {
    /// The bytes that are not read yet.
    pub open spec fn rest(self) -> Seq<u8> {
        if self.position <= self.data@.len() {
            self.data@.skip(self.position as int)
        } else {
            seq![]
        }
    }

    /// Whether `after` is this cursor moved on by `n` bytes.
    pub open spec fn moved(self, n: nat, after: Cursor<'a>) -> bool {
        after.data == self.data && after.position == self.position + n
    }

    pub fn new(data: &'a [u8]) -> (c: Self)
        ensures
            c.data == data,
            c.position == 0,
            c.rest() == data@,
    {
        assert(data@.skip(0) =~= data@);
        Cursor { data, position: 0 }
    }

    pub fn remaining(&self) -> (n: usize)
        ensures
            n == self.rest().len(),
    {
        self.data.len().saturating_sub(self.position)
    }

    /// Skip `n` bytes; past the largest position the cursor stays there.
    pub fn advance(&mut self, n: usize)
        ensures
            final(self).data == old(self).data,
            final(self).position == if old(self).position + n <= usize::MAX {
                old(self).position + n
            } else {
                usize::MAX as int
            },
    {
        self.position = self.position.saturating_add(n);
    }

    /// The number in the next `n` bytes, if they are there.
    fn read_number(&mut self, n: usize) -> (r: Result<u64, DecodeError>)
        requires
            n <= 8,
        ensures
            old(self).rest().len() < n ==> r == Err::<u64, DecodeError>(
                DecodeError::UnexpectedEof,
            ) && *final(self) == *old(self),
            old(self).rest().len() >= n ==> r is Ok && r->Ok_0 == varint::le(old(self).rest().take(n as int))
                && old(self).moved(n as nat, *final(self)) && r->Ok_0 < crate::varint::base256(
                n as nat,
            ),
    {
        if self.remaining() < n {
            return Err(DecodeError::UnexpectedEof);
        }
        if n == 0 {
            assert(self.rest().take(0) =~= seq![]);
            reveal_with_fuel(crate::varint::base256, 2);
            return Ok(0);
        }
        assert(self.data.len() == self.data@.len());
        let v: u128 = read_le(self.data, self.position, self.position + n);
        assert(self.data@.subrange(self.position as int, self.position + n) =~= self.rest().take(
            n as int,
        ));
        self.position = self.position + n;
        Ok(v as u64)
    }

    pub fn read_u8(&mut self) -> (r: Result<u8, DecodeError>)
        ensures
            old(self).rest().len() == 0 ==> r == Err::<u8, DecodeError>(DecodeError::UnexpectedEof)
                && *final(self) == *old(self),
            old(self).rest().len() > 0 ==> r == Ok::<u8, DecodeError>(old(self).rest()[0])
                && old(self).moved(1, *final(self)),
    {
        if self.position >= self.data.len() {
            return Err(DecodeError::UnexpectedEof);
        }
        let b: u8 = self.data[self.position];
        self.position = self.position + 1;
        Ok(b)
    }

    pub fn read_u16(&mut self) -> (r: Result<u16, DecodeError>)
        ensures
            old(self).rest().len() < 2 ==> r == Err::<u16, DecodeError>(DecodeError::UnexpectedEof)
                && *final(self) == *old(self),
            old(self).rest().len() >= 2 ==> r is Ok && r->Ok_0 == varint::le(old(self).rest().take(2))
                && old(self).moved(2, *final(self)),
    {
        let v: u64 = self.read_number(2)?;
        reveal_with_fuel(crate::varint::base256, 3);
        Ok(v as u16)
    }

    pub fn read_u24(&mut self) -> (r: Result<u32, DecodeError>)
        ensures
            old(self).rest().len() < 3 ==> r == Err::<u32, DecodeError>(DecodeError::UnexpectedEof)
                && *final(self) == *old(self),
            old(self).rest().len() >= 3 ==> r is Ok && r->Ok_0 == varint::le(old(self).rest().take(3))
                && old(self).moved(3, *final(self)),
    {
        let v: u64 = self.read_number(3)?;
        reveal_with_fuel(crate::varint::base256, 4);
        Ok(v as u32)
    }

    pub fn read_u32(&mut self) -> (r: Result<u32, DecodeError>)
        ensures
            old(self).rest().len() < 4 ==> r == Err::<u32, DecodeError>(DecodeError::UnexpectedEof)
                && *final(self) == *old(self),
            old(self).rest().len() >= 4 ==> r is Ok && r->Ok_0 == varint::le(old(self).rest().take(4))
                && old(self).moved(4, *final(self)),
    {
        let v: u64 = self.read_number(4)?;
        reveal_with_fuel(crate::varint::base256, 5);
        Ok(v as u32)
    }

    /// Read an N-byte little-endian unsigned integer (1, 2, 3, or 4 bytes).
    pub fn read_n_byte_le(&mut self, n: u8) -> (r: Result<u32, DecodeError>)
        ensures
            n == 0 || n > 4 ==> r == Err::<u32, DecodeError>(
                DecodeError::UnsupportedJumpTableEntrySize(n),
            ) && *final(self) == *old(self),
            1 <= n <= 4 && old(self).rest().len() < n ==> r == Err::<u32, DecodeError>(
                DecodeError::UnexpectedEof,
            ) && *final(self) == *old(self),
            1 <= n <= 4 && old(self).rest().len() >= n ==> r is Ok && r->Ok_0 == varint::le(
                old(self).rest().take(n as int),
            ) && old(self).moved(n as nat, *final(self)),
    {
        if n == 0 || n > 4 {
            return Err(DecodeError::UnsupportedJumpTableEntrySize(n));
        }
        let v: u64 = self.read_number(n as usize)?;
        reveal_with_fuel(crate::varint::base256, 5);
        Ok(v as u32)
    }

    pub fn read_var_u32(&mut self) -> (r: Result<u32, DecodeError>)
        requires
            old(self).position <= old(self).data@.len(),
        ensures
            match varint::var_u32(old(self).rest()) {
                Some((value, len)) => r == Ok::<u32, DecodeError>(value) && old(self).moved(
                    len,
                    *final(self),
                ) && len <= old(self).rest().len(),
                None => r == Err::<u32, DecodeError>(DecodeError::InvalidVarInt) && *final(self)
                    == *old(self),
            },
    {
        let rest: &[u8] = slice_subrange(self.data, self.position, self.data.len());
        assert(rest@ =~= self.rest());
        match decode_var_u32(rest) {
            Some((value, len)) => {
                self.position = self.position + len;
                Ok(value)
            },
            None => Err(DecodeError::InvalidVarInt),
        }
    }
}

/// The signed number of `bits` bits whose unsigned value is `v`.
pub open spec fn sign_extended(v: nat, bits: nat) -> int {
    if v >= vstd::arithmetic::power2::pow2((bits - 1) as nat) {
        v - vstd::arithmetic::power2::pow2(bits)
    } else {
        v as int
    }
}

/// Value of a variable-length signed immediate: at most four little-endian bytes,
/// sign-extended.
pub open spec fn immediate(s: Seq<u8>) -> int {
    if s.len() == 0 {
        0
    } else if s.len() < 4 {
        sign_extended(varint::le(s), 8 * s.len())
    } else {
        sign_extended(varint::le(s.take(4)), 32)
    }
}

/// Value of a variable-length unsigned immediate: at most four little-endian bytes.
pub open spec fn unsigned_immediate(s: Seq<u8>) -> nat {
    if s.len() < 4 {
        varint::le(s)
    } else {
        varint::le(s.take(4))
    }
}

/// Decode an immediate value from bytes (variable-length, little-endian).
/// The length determines how many bytes to read.
pub fn decode_imm_bytes(data: &[u8]) -> (v: i32)
    ensures
        v == immediate(data@),
{
    let n: usize = if data.len() < 4 {
        data.len()
    } else {
        4
    };
    let raw: u128 = read_le(data, 0, n);
    assert(data@.subrange(0, n as int) =~= if data@.len() < 4 {
        data@
    } else {
        data@.take(4)
    });
    proof {
        reveal_with_fuel(crate::varint::base256, 5);
        vstd::arithmetic::power2::lemma2_to64();
    }
    let value: i64 = raw as i64;
    if n == 0 {
        0
    } else if n == 1 {
        (if value >= 0x80 {
            value - 0x100
        } else {
            value
        }) as i32
    } else if n == 2 {
        (if value >= 0x8000 {
            value - 0x1_0000
        } else {
            value
        }) as i32
    } else if n == 3 {
        (if value >= 0x80_0000 {
            value - 0x100_0000
        } else {
            value
        }) as i32
    } else {
        (if value >= 0x8000_0000 {
            value - 0x1_0000_0000
        } else {
            value
        }) as i32
    }
}

/// Decode an unsigned immediate value from bytes (variable-length, little-endian).
pub fn decode_uimm_bytes(data: &[u8]) -> (v: u32)
    ensures
        v == unsigned_immediate(data@),
{
    let n: usize = if data.len() < 4 {
        data.len()
    } else {
        4
    };
    let raw: u128 = read_le(data, 0, n);
    assert(data@.subrange(0, n as int) =~= if data@.len() < 4 {
        data@
    } else {
        data@.take(4)
    });
    proof {
        reveal_with_fuel(crate::varint::base256, 5);
    }
    raw as u32
}

/// A four-byte signed number at `data[at..at + 4]`.
fn read_i32(data: &[u8], at: usize) -> (v: i32)
    requires
        at + 4 <= data@.len(),
    ensures
        v == immediate(data@.subrange(at as int, at + 4)),
{
    assert(data.len() == data@.len());
    let four: &[u8] = slice_subrange(data, at, at + 4);
    decode_imm_bytes(four)
}

/// Three-register instructions.
pub open spec fn three_register(opcode: u8, dst: u8, src1: u8, src2: u8) -> Option<Instruction> {
    match opcode {
        190 => Some(Instruction::Add32 { dst, src1, src2 }),
        191 => Some(Instruction::Sub32 { dst, src1, src2 }),
        192 => Some(Instruction::Mul32 { dst, src1, src2 }),
        193 => Some(Instruction::DivU32 { dst, src1, src2 }),
        194 => Some(Instruction::DivS32 { dst, src1, src2 }),
        195 => Some(Instruction::RemU32 { dst, src1, src2 }),
        196 => Some(Instruction::RemS32 { dst, src1, src2 }),
        197 => Some(Instruction::ShloL32 { dst, src1, src2 }),
        198 => Some(Instruction::ShloR32 { dst, src1, src2 }),
        199 => Some(Instruction::SharR32 { dst, src1, src2 }),
        200 => Some(Instruction::Add64 { dst, src1, src2 }),
        201 => Some(Instruction::Sub64 { dst, src1, src2 }),
        202 => Some(Instruction::Mul64 { dst, src1, src2 }),
        203 => Some(Instruction::DivU64 { dst, src1, src2 }),
        204 => Some(Instruction::DivS64 { dst, src1, src2 }),
        205 => Some(Instruction::RemU64 { dst, src1, src2 }),
        206 => Some(Instruction::RemS64 { dst, src1, src2 }),
        207 => Some(Instruction::ShloL64 { dst, src1, src2 }),
        208 => Some(Instruction::ShloR64 { dst, src1, src2 }),
        209 => Some(Instruction::SharR64 { dst, src1, src2 }),
        210 => Some(Instruction::And { dst, src1, src2 }),
        211 => Some(Instruction::Xor { dst, src1, src2 }),
        212 => Some(Instruction::Or { dst, src1, src2 }),
        216 => Some(Instruction::SetLtU { dst, src1, src2 }),
        217 => Some(Instruction::SetLtS { dst, src1, src2 }),
        _ => None,
    }
}

fn make_three_register(opcode: u8, dst: u8, src1: u8, src2: u8) -> (r: Option<Instruction>)
    ensures
        r == three_register(opcode, dst, src1, src2),
{
    match opcode {
        190 => Some(Instruction::Add32 { dst, src1, src2 }),
        191 => Some(Instruction::Sub32 { dst, src1, src2 }),
        192 => Some(Instruction::Mul32 { dst, src1, src2 }),
        193 => Some(Instruction::DivU32 { dst, src1, src2 }),
        194 => Some(Instruction::DivS32 { dst, src1, src2 }),
        195 => Some(Instruction::RemU32 { dst, src1, src2 }),
        196 => Some(Instruction::RemS32 { dst, src1, src2 }),
        197 => Some(Instruction::ShloL32 { dst, src1, src2 }),
        198 => Some(Instruction::ShloR32 { dst, src1, src2 }),
        199 => Some(Instruction::SharR32 { dst, src1, src2 }),
        200 => Some(Instruction::Add64 { dst, src1, src2 }),
        201 => Some(Instruction::Sub64 { dst, src1, src2 }),
        202 => Some(Instruction::Mul64 { dst, src1, src2 }),
        203 => Some(Instruction::DivU64 { dst, src1, src2 }),
        204 => Some(Instruction::DivS64 { dst, src1, src2 }),
        205 => Some(Instruction::RemU64 { dst, src1, src2 }),
        206 => Some(Instruction::RemS64 { dst, src1, src2 }),
        207 => Some(Instruction::ShloL64 { dst, src1, src2 }),
        208 => Some(Instruction::ShloR64 { dst, src1, src2 }),
        209 => Some(Instruction::SharR64 { dst, src1, src2 }),
        210 => Some(Instruction::And { dst, src1, src2 }),
        211 => Some(Instruction::Xor { dst, src1, src2 }),
        212 => Some(Instruction::Or { dst, src1, src2 }),
        216 => Some(Instruction::SetLtU { dst, src1, src2 }),
        217 => Some(Instruction::SetLtS { dst, src1, src2 }),
        _ => None,
    }
}

/// Two-register instructions.
pub open spec fn two_register(opcode: u8, dst: u8, src: u8) -> Option<Instruction> {
    match opcode {
        101 => Some(Instruction::Sbrk { dst, src }),
        102 => Some(Instruction::CountSetBits64 { dst, src }),
        103 => Some(Instruction::CountSetBits32 { dst, src }),
        104 => Some(Instruction::LeadingZeroBits64 { dst, src }),
        105 => Some(Instruction::LeadingZeroBits32 { dst, src }),
        106 => Some(Instruction::TrailingZeroBits64 { dst, src }),
        107 => Some(Instruction::TrailingZeroBits32 { dst, src }),
        108 => Some(Instruction::SignExtend8 { dst, src }),
        109 => Some(Instruction::SignExtend16 { dst, src }),
        110 => Some(Instruction::ZeroExtend16 { dst, src }),
        _ => None,
    }
}

fn make_two_register(opcode: u8, dst: u8, src: u8) -> (r: Option<Instruction>)
    ensures
        r == two_register(opcode, dst, src),
{
    match opcode {
        101 => Some(Instruction::Sbrk { dst, src }),
        102 => Some(Instruction::CountSetBits64 { dst, src }),
        103 => Some(Instruction::CountSetBits32 { dst, src }),
        104 => Some(Instruction::LeadingZeroBits64 { dst, src }),
        105 => Some(Instruction::LeadingZeroBits32 { dst, src }),
        106 => Some(Instruction::TrailingZeroBits64 { dst, src }),
        107 => Some(Instruction::TrailingZeroBits32 { dst, src }),
        108 => Some(Instruction::SignExtend8 { dst, src }),
        109 => Some(Instruction::SignExtend16 { dst, src }),
        110 => Some(Instruction::ZeroExtend16 { dst, src }),
        _ => None,
    }
}

/// Two registers and an immediate.
pub open spec fn register_immediate(opcode: u8, dst: u8, src: u8, value: i32) -> Option<Instruction> {
    match opcode {
        131 => Some(Instruction::AddImm32 { dst, src, value }),
        149 => Some(Instruction::AddImm64 { dst, src, value }),
        136 => Some(Instruction::SetLtUImm { dst, src, value }),
        137 => Some(Instruction::SetLtSImm { dst, src, value }),
        _ => None,
    }
}

fn make_register_immediate(opcode: u8, dst: u8, src: u8, value: i32) -> (r: Option<Instruction>)
    ensures
        r == register_immediate(opcode, dst, src, value),
{
    match opcode {
        131 => Some(Instruction::AddImm32 { dst, src, value }),
        149 => Some(Instruction::AddImm64 { dst, src, value }),
        136 => Some(Instruction::SetLtUImm { dst, src, value }),
        137 => Some(Instruction::SetLtSImm { dst, src, value }),
        _ => None,
    }
}

/// Indirect loads.
pub open spec fn load_indirect(opcode: u8, dst: u8, base: u8, offset: i32) -> Option<Instruction> {
    match opcode {
        124 => Some(Instruction::LoadIndU8 { dst, base, offset }),
        125 => Some(Instruction::LoadIndI8 { dst, base, offset }),
        126 => Some(Instruction::LoadIndU16 { dst, base, offset }),
        127 => Some(Instruction::LoadIndI16 { dst, base, offset }),
        128 => Some(Instruction::LoadIndU32 { dst, base, offset }),
        130 => Some(Instruction::LoadIndU64 { dst, base, offset }),
        _ => None,
    }
}

fn make_load_indirect(opcode: u8, dst: u8, base: u8, offset: i32) -> (r: Option<Instruction>)
    ensures
        r == load_indirect(opcode, dst, base, offset),
{
    match opcode {
        124 => Some(Instruction::LoadIndU8 { dst, base, offset }),
        125 => Some(Instruction::LoadIndI8 { dst, base, offset }),
        126 => Some(Instruction::LoadIndU16 { dst, base, offset }),
        127 => Some(Instruction::LoadIndI16 { dst, base, offset }),
        128 => Some(Instruction::LoadIndU32 { dst, base, offset }),
        130 => Some(Instruction::LoadIndU64 { dst, base, offset }),
        _ => None,
    }
}

/// Indirect stores.
pub open spec fn store_indirect(opcode: u8, base: u8, src: u8, offset: i32) -> Option<Instruction> {
    match opcode {
        120 => Some(Instruction::StoreIndU8 { base, src, offset }),
        121 => Some(Instruction::StoreIndU16 { base, src, offset }),
        122 => Some(Instruction::StoreIndU32 { base, src, offset }),
        123 => Some(Instruction::StoreIndU64 { base, src, offset }),
        _ => None,
    }
}

fn make_store_indirect(opcode: u8, base: u8, src: u8, offset: i32) -> (r: Option<Instruction>)
    ensures
        r == store_indirect(opcode, base, src, offset),
{
    match opcode {
        120 => Some(Instruction::StoreIndU8 { base, src, offset }),
        121 => Some(Instruction::StoreIndU16 { base, src, offset }),
        122 => Some(Instruction::StoreIndU32 { base, src, offset }),
        123 => Some(Instruction::StoreIndU64 { base, src, offset }),
        _ => None,
    }
}

/// Branches that compare a register with an immediate.
pub open spec fn branch_immediate(opcode: u8, reg: u8, value: i32, offset: i32) -> Option<Instruction> {
    match opcode {
        81 => Some(Instruction::BranchEqImm { reg, value, offset }),
        82 => Some(Instruction::BranchNeImm { reg, value, offset }),
        89 => Some(Instruction::BranchGeSImm { reg, value, offset }),
        _ => None,
    }
}

fn make_branch_immediate(opcode: u8, reg: u8, value: i32, offset: i32) -> (r: Option<Instruction>)
    ensures
        r == branch_immediate(opcode, reg, value, offset),
{
    match opcode {
        81 => Some(Instruction::BranchEqImm { reg, value, offset }),
        82 => Some(Instruction::BranchNeImm { reg, value, offset }),
        89 => Some(Instruction::BranchGeSImm { reg, value, offset }),
        _ => None,
    }
}

/// Branches that compare two registers.
pub open spec fn branch_register(opcode: u8, reg1: u8, reg2: u8, offset: i32) -> Option<Instruction> {
    match opcode {
        172 => Some(Instruction::BranchLtU { reg1, reg2, offset }),
        174 => Some(Instruction::BranchGeU { reg1, reg2, offset }),
        _ => None,
    }
}

fn make_branch_register(opcode: u8, reg1: u8, reg2: u8, offset: i32) -> (r: Option<Instruction>)
    ensures
        r == branch_register(opcode, reg1, reg2, offset),
{
    match opcode {
        172 => Some(Instruction::BranchLtU { reg1, reg2, offset }),
        174 => Some(Instruction::BranchGeU { reg1, reg2, offset }),
        _ => None,
    }
}

/// The instruction that `s`, its opcode first, encodes: an error where operand bytes
/// are missing, nothing where the opcode is not known.
pub open spec fn decoded(s: Seq<u8>) -> Result<Option<Instruction>, DecodeError> {
    if s.len() == 0 {
        Err(DecodeError::UnexpectedEof)
    } else {
        let op = s[0];
        let low = if s.len() >= 2 {
            (s[1] % 16) as u8
        } else {
            0
        };
        let high = if s.len() >= 2 {
            (s[1] / 16) as u8
        } else {
            0
        };
        let tail = s.skip(2);
        if op == 0 {
            Ok(Some(Instruction::Trap))
        } else if op == 1 {
            Ok(Some(Instruction::Fallthrough))
        } else if op == 10 {
            Ok(Some(Instruction::Ecalli { index: unsigned_immediate(s.skip(1)) as u32 }))
        } else if op == 20 {
            if s.len() < 10 {
                Err(DecodeError::UnexpectedEof)
            } else {
                Ok(Some(Instruction::LoadImm64 { reg: low, value: varint::le(s.subrange(2, 10)) as u64 }))
            }
        } else if op == 40 {
            if s.len() < 5 {
                Err(DecodeError::UnexpectedEof)
            } else {
                Ok(Some(Instruction::Jump { offset: immediate(s.subrange(1, 5)) as i32 }))
            }
        } else if op == 50 || op == 51 {
            if s.len() < 2 {
                Err(DecodeError::UnexpectedEof)
            } else if op == 50 {
                Ok(Some(Instruction::JumpInd { reg: low, offset: immediate(tail) as i32 }))
            } else {
                Ok(Some(Instruction::LoadImm { reg: low, value: immediate(tail) as i32 }))
            }
        } else if three_register(op, 0, 0, 0) is Some {
            if s.len() < 3 {
                Err(DecodeError::UnexpectedEof)
            } else {
                Ok(three_register(op, (s[2] % 16) as u8, low, high))
            }
        } else if two_register(op, 0, 0) is Some {
            if s.len() < 2 {
                Err(DecodeError::UnexpectedEof)
            } else {
                Ok(two_register(op, low, high))
            }
        } else if register_immediate(op, 0, 0, 0) is Some {
            if s.len() < 2 {
                Err(DecodeError::UnexpectedEof)
            } else {
                Ok(register_immediate(op, low, high, immediate(tail) as i32))
            }
        } else if load_indirect(op, 0, 0, 0) is Some {
            if s.len() < 2 {
                Err(DecodeError::UnexpectedEof)
            } else {
                Ok(load_indirect(op, low, high, immediate(tail) as i32))
            }
        } else if store_indirect(op, 0, 0, 0) is Some {
            if s.len() < 2 {
                Err(DecodeError::UnexpectedEof)
            } else {
                Ok(store_indirect(op, high, low, immediate(tail) as i32))
            }
        } else if branch_immediate(op, 0, 0, 0) is Some {
            if s.len() < 2 || s.len() < 6 + high {
                Err(DecodeError::UnexpectedEof)
            } else {
                Ok(
                    branch_immediate(
                        op,
                        low,
                        immediate(s.subrange(2, 2 + high as int)) as i32,
                        immediate(s.subrange(2 + high as int, 6 + high as int)) as i32,
                    ),
                )
            }
        } else if branch_register(op, 0, 0, 0) is Some {
            if s.len() < 6 {
                Err(DecodeError::UnexpectedEof)
            } else {
                Ok(branch_register(op, high, low, immediate(s.subrange(2, 6)) as i32))
            }
        } else {
            Ok(None)
        }
    }
}

/// Whether `instr` is what `s` encodes; an unknown instruction keeps its bytes.
pub open spec fn encodes(s: Seq<u8>, instr: Instruction) -> bool {
    match decoded(s) {
        Err(_) => false,
        Ok(Some(known)) => instr == known,
        Ok(None) => match instr {
            Instruction::Unknown { opcode, raw_bytes } => opcode == s[0] && raw_bytes@ == s,
            _ => false,
        },
    }
}

/// Decode the instruction in the first `length` bytes of `data`.
pub fn decode_instruction(data: &[u8], length: usize) -> (r: Result<
    (Instruction, usize),
    DecodeError,
>)
    requires
        length <= data@.len(),
        data@.len() > 0 ==> length > 0,
    ensures
        match r {
            Ok((instr, n)) => n == length && encodes(data@.take(length as int), instr),
            Err(e) => decoded(data@.take(length as int)) == Err::<Option<Instruction>, DecodeError>(
                e,
            ),
        },
{
    let ghost s = data@.take(length as int);
    if data.len() == 0 {
        return Err(DecodeError::UnexpectedEof);
    }
    let op: u8 = data[0];
    assert(s[0] == op);
    if op == 0 {
        return Ok((Instruction::Trap, length));
    }
    if op == 1 {
        return Ok((Instruction::Fallthrough, length));
    }
    if op == 10 {
        let imm: &[u8] = slice_subrange(data, 1, length);
        assert(imm@ =~= s.skip(1));
        let index: u32 = decode_uimm_bytes(imm);
        return Ok((Instruction::Ecalli { index }, length));
    }
    let (low, high): (u8, u8) = if length >= 2 {
        (data[1] % 16, data[1] / 16)
    } else {
        (0, 0)
    };
    assert(length >= 2 ==> s[1] == data@[1]);
    if op == 20 {
        if length < 10 {
            return Err(DecodeError::UnexpectedEof);
        }
        let value: u128 = read_le(data, 2, 10);
        assert(data@.subrange(2, 10) =~= s.subrange(2, 10));
        return Ok((Instruction::LoadImm64 { reg: low, value: value as u64 }, length));
    }
    if op == 40 {
        if length < 5 {
            return Err(DecodeError::UnexpectedEof);
        }
        let offset: i32 = read_i32(data, 1);
        assert(data@.subrange(1, 5) =~= s.subrange(1, 5));
        return Ok((Instruction::Jump { offset }, length));
    }
    let tail: i32 = if length >= 2 {
        let imm: &[u8] = slice_subrange(data, 2, length);
        assert(imm@ =~= s.skip(2));
        decode_imm_bytes(imm)
    } else {
        0
    };
    if op == 50 || op == 51 {
        if length < 2 {
            return Err(DecodeError::UnexpectedEof);
        }
        if op == 50 {
            return Ok((Instruction::JumpInd { reg: low, offset: tail }, length));
        }
        return Ok((Instruction::LoadImm { reg: low, value: tail }, length));
    }
    if make_three_register(op, 0, 0, 0).is_some() {
        if length < 3 {
            return Err(DecodeError::UnexpectedEof);
        }
        assert(s[2] == data@[2]);
        if let Some(instr) = make_three_register(op, data[2] % 16, low, high) {
            return Ok((instr, length));
        }
    }
    if make_two_register(op, 0, 0).is_some() {
        if length < 2 {
            return Err(DecodeError::UnexpectedEof);
        }
        if let Some(instr) = make_two_register(op, low, high) {
            return Ok((instr, length));
        }
    }
    if make_register_immediate(op, 0, 0, 0).is_some() {
        if length < 2 {
            return Err(DecodeError::UnexpectedEof);
        }
        if let Some(instr) = make_register_immediate(op, low, high, tail) {
            return Ok((instr, length));
        }
    }
    if make_load_indirect(op, 0, 0, 0).is_some() {
        if length < 2 {
            return Err(DecodeError::UnexpectedEof);
        }
        if let Some(instr) = make_load_indirect(op, low, high, tail) {
            return Ok((instr, length));
        }
    }
    if make_store_indirect(op, 0, 0, 0).is_some() {
        if length < 2 {
            return Err(DecodeError::UnexpectedEof);
        }
        if let Some(instr) = make_store_indirect(op, high, low, tail) {
            return Ok((instr, length));
        }
    }
    if make_branch_immediate(op, 0, 0, 0).is_some() {
        if length < 2 {
            return Err(DecodeError::UnexpectedEof);
        }
        let imm_len: usize = high as usize;
        if length < 6 + imm_len {
            return Err(DecodeError::UnexpectedEof);
        }
        let imm: &[u8] = slice_subrange(data, 2, 2 + imm_len);
        assert(imm@ =~= s.subrange(2, 2 + imm_len as int));
        let value: i32 = decode_imm_bytes(imm);
        let offset: i32 = read_i32(data, 2 + imm_len);
        assert(data@.subrange(2 + imm_len as int, 6 + imm_len as int) =~= s.subrange(
            2 + imm_len as int,
            6 + imm_len as int,
        ));
        if let Some(instr) = make_branch_immediate(op, low, value, offset) {
            return Ok((instr, length));
        }
    }
    if make_branch_register(op, 0, 0, 0).is_some() {
        if length < 6 {
            return Err(DecodeError::UnexpectedEof);
        }
        let offset: i32 = read_i32(data, 2);
        assert(data@.subrange(2, 6) =~= s.subrange(2, 6));
        if let Some(instr) = make_branch_register(op, high, low, offset) {
            return Ok((instr, length));
        }
    }
    let raw: &[u8] = slice_subrange(data, 0, length);
    assert(raw@ =~= s);
    let raw_bytes: Vec<u8> = slice_to_vec(raw);
    Ok((Instruction::Unknown { opcode: op, raw_bytes }, length))
}

/// Whether the bitmask marks `pc` as the start of an instruction.
pub open spec fn marked(mask: Seq<u8>, pc: int) -> bool {
    (mask[pc / 8] >> ((pc % 8) as u8)) & 1u8 == 1u8
}

fn is_marked(mask: &[u8], pc: usize) -> (r: bool)
    requires
        pc / 8 < mask@.len(),
    ensures
        r == marked(mask@, pc as int),
{
    let bit: u8 = (pc % 8) as u8;
    (mask[pc / 8] >> bit) & 1u8 == 1u8
}

/// Program counters from `pc` on at which the mask starts an instruction, in order.
pub open spec fn starts_from(mask: Seq<u8>, pc: int, code_len: int) -> Seq<int>
    decreases code_len - pc,
{
    if pc >= code_len {
        seq![]
    } else if marked(mask, pc) {
        seq![pc] + starts_from(mask, pc + 1, code_len)
    } else {
        starts_from(mask, pc + 1, code_len)
    }
}

/// First marked program counter at or after `pc`, or the end of the code.
pub open spec fn next_start(mask: Seq<u8>, pc: int, code_len: int) -> int
    decreases code_len - pc,
{
    if pc >= code_len || marked(mask, pc) {
        pc
    } else {
        next_start(mask, pc + 1, code_len)
    }
}

/// Find the length of an instruction by scanning the mask for the next set bit.
/// Returns the distance from current PC to the next set bit (or end of code).
///
/// The mask has one bit for each byte of code.
pub fn find_instruction_length(mask_bytes: &[u8], start_pc: usize, code_len: usize) -> (n: usize)
    requires
        start_pc < code_len,
        code_len <= 8 * mask_bytes@.len(),
    ensures
        start_pc + n == next_start(mask_bytes@, start_pc + 1, code_len as int),
        1 <= n <= code_len - start_pc,
{
    let mut pc: usize = start_pc + 1;
    while pc < code_len
        invariant
            start_pc < pc <= code_len,
            code_len <= 8 * mask_bytes@.len(),
            next_start(mask_bytes@, pc as int, code_len as int) == next_start(
                mask_bytes@,
                start_pc + 1,
                code_len as int,
            ),
        decreases code_len - pc,
    {
        if is_marked(mask_bytes, pc) {
            return pc - start_pc;
        }
        pc = pc + 1;
    }
    code_len - start_pc
}

proof fn lemma_skip_unmarked(mask: Seq<u8>, pc: int, code_len: int)
    requires
        pc <= code_len,
    ensures
        pc <= next_start(mask, pc, code_len) <= code_len,
        starts_from(mask, pc, code_len) == starts_from(
            mask,
            next_start(mask, pc, code_len),
            code_len,
        ),
    decreases code_len - pc,
{
    if pc < code_len && !marked(mask, pc) {
        lemma_skip_unmarked(mask, pc + 1, code_len);
    }
}

/// The parts of a program blob.
pub struct BlobLayout {
    pub jump_table: Seq<nat>,
    pub code: Seq<u8>,
    pub mask: Seq<u8>,
}

/// Entries of a jump table of `count` items of `size` bytes each.
pub open spec fn table_entries(s: Seq<u8>, count: nat, size: nat) -> Seq<nat> {
    Seq::new(count, |i: int| varint::le(s.subrange(i * size, i * size + size)))
}

/// How a program blob divides into jump table, code and mask:
/// number of table entries, size of an entry, length of the code, entries, code,
/// one mask bit for each code byte.
pub open spec fn blob_layout(d: Seq<u8>) -> Result<BlobLayout, DecodeError> {
    match varint::var_u32(d) {
        None => Err(DecodeError::InvalidVarInt),
        Some((count, n1)) => {
            let d1 = d.skip(n1 as int);
            if d1.len() == 0 {
                Err(DecodeError::UnexpectedEof)
            } else {
                let size = d1[0];
                match varint::var_u32(d1.skip(1)) {
                    None => Err(DecodeError::InvalidVarInt),
                    Some((code_len, n2)) => layout_sections(
                        d1.skip(1 + n2 as int),
                        count as nat,
                        size,
                        code_len as nat,
                    ),
                }
            }
        },
    }
}

/// The sections behind the header of a program blob.
pub open spec fn layout_sections(d: Seq<u8>, count: nat, size: u8, code_len: nat) -> Result<
    BlobLayout,
    DecodeError,
> {
    let mask_len = (code_len + 7) / 8;
    if size > 4 && count > 0 {
        Err(DecodeError::UnsupportedJumpTableEntrySize(size))
    } else if d.len() < count * size + code_len + mask_len {
        Err(DecodeError::UnexpectedEof)
    } else {
        let table = (count * size) as int;
        Ok(
            BlobLayout {
                jump_table: if size == 0 {
                    seq![]
                } else {
                    table_entries(d, count, size as nat)
                },
                code: d.subrange(table, table + code_len),
                mask: d.subrange(table + code_len, table + code_len + mask_len),
            },
        )
    }
}

/// End of the `i`th instruction: the next start, or the end of the code.
pub open spec fn end_of(starts: Seq<int>, i: int, code_len: int) -> int {
    if i + 1 < starts.len() {
        starts[i + 1]
    } else {
        code_len
    }
}

/// The bytes of the `i`th instruction.
pub open spec fn bytes_of(layout: BlobLayout, i: int) -> Seq<u8> {
    let starts = starts_from(layout.mask, 0, layout.code.len() as int);
    layout.code.subrange(starts[i], end_of(starts, i, layout.code.len() as int))
}

/// Whether `p` is the program that `layout` holds.
pub open spec fn is_program_of(p: DecodedProgram, layout: BlobLayout) -> bool {
    let starts = starts_from(layout.mask, 0, layout.code.len() as int);
    &&& p.code_len == layout.code.len()
    &&& p.memory_base is None
    &&& p.jump_table@.len() == layout.jump_table.len()
    &&& forall|i: int|
        0 <= i < p.jump_table@.len() ==> #[trigger] p.jump_table@[i] == layout.jump_table[i]
    &&& p.instructions@.len() == starts.len()
    &&& forall|i: int|
        0 <= i < starts.len() ==> (#[trigger] p.instructions@[i]).0 == starts[i] && encodes(
            bytes_of(layout, i),
            p.instructions@[i].1,
        )
}

/// Whether decoding `layout` stops with `e` at its `i`th instruction, the first that
/// cannot be decoded.
pub open spec fn fails_at(layout: BlobLayout, i: int, e: DecodeError) -> bool {
    &&& 0 <= i < starts_from(layout.mask, 0, layout.code.len() as int).len()
    &&& decoded(bytes_of(layout, i)) == Err::<Option<Instruction>, DecodeError>(e)
    &&& forall|j: int| 0 <= j < i ==> decoded(#[trigger] bytes_of(layout, j)) is Ok
}

/// What decoding the blob `d` gives.
pub open spec fn blob_outcome(d: Seq<u8>, r: Result<DecodedProgram, DecodeError>) -> bool {
    match blob_layout(d) {
        Err(e) => r == Err::<DecodedProgram, DecodeError>(e),
        Ok(layout) => match r {
            Ok(p) => is_program_of(p, layout),
            Err(e) => exists|i: int| fails_at(layout, i, e),
        },
    }
}

/// The jump table at the front of the cursor.
fn read_jump_table(cursor: &mut Cursor, count: u32, size: u8) -> (r: Result<Vec<u32>, DecodeError>)
    requires
        old(cursor).position <= old(cursor).data@.len(),
        1 <= size,
        1 <= count,
    ensures
        size > 4 ==> r == Err::<Vec<u32>, DecodeError>(
            DecodeError::UnsupportedJumpTableEntrySize(size),
        ),
        size <= 4 && old(cursor).rest().len() < count * size ==> r == Err::<Vec<u32>, DecodeError>(
            DecodeError::UnexpectedEof,
        ),
        size <= 4 && old(cursor).rest().len() >= count * size ==> {
            &&& r is Ok
            &&& r->Ok_0@.len() == count
            &&& forall|i: int|
                0 <= i < count ==> #[trigger] r->Ok_0@[i] == table_entries(
                    old(cursor).rest(),
                    count as nat,
                    size as nat,
                )[i]
            &&& old(cursor).moved((count * size) as nat, *final(cursor))
        },
{
    let ghost start = *cursor;
    let mut table: Vec<u32> = Vec::new();
    let mut k: u32 = 0;
    while k < count
        invariant
            start == *old(cursor),
            1 <= size,
            1 <= count,
            k <= count,
            k > 0 ==> size <= 4,
            start.position <= start.data@.len(),
            k * size <= start.rest().len(),
            start.moved((k * size) as nat, *cursor),
            table@.len() == k,
            forall|i: int|
                0 <= i < k ==> #[trigger] table@[i] == table_entries(
                    start.rest(),
                    count as nat,
                    size as nat,
                )[i],
        decreases count - k,
    {
        let ghost before = *cursor;
        proof {
            assert(before.rest().len() == start.rest().len() - k * size);
            assert((k + 1) * size == k * size + size) by (nonlinear_arith);
            assert((k + 1) * size <= count * size) by (nonlinear_arith)
                requires
                    k + 1 <= count,
            ;
        }
        let entry: u32 = match cursor.read_n_byte_le(size) {
            Ok(entry) => entry,
            Err(e) => {
                return Err(e);
            },
        };
        proof {
            assert(before.rest().take(size as int) =~= start.rest().subrange(
                k * size as int,
                k * size as int + size as int,
            ));
        }
        table.push(entry);
        k = k + 1;
    }
    Ok(table)
}

#[verifier::spinoff_prover]
#[verifier::rlimit(60)]
pub fn decode_blob_internal(blob_data: &[u8]) -> (r: Result<DecodedProgram, DecodeError>)
    ensures
        blob_outcome(blob_data@, r),
{
    let mut cursor = Cursor::new(blob_data);
    let count: u32 = match cursor.read_var_u32() {
        Ok(v) => v,
        Err(e) => {
            return Err(e);
        },
    };
    let ghost d1 = cursor.rest();
    let size: u8 = match cursor.read_u8() {
        Ok(v) => v,
        Err(e) => {
            return Err(e);
        },
    };
    assert(cursor.rest() =~= d1.skip(1));
    let code_len: u32 = match cursor.read_var_u32() {
        Ok(v) => v,
        Err(e) => {
            return Err(e);
        },
    };
    let ghost d = cursor.rest();
    proof {
        let (n1, n2) = ((varint::var_u32(blob_data@)->0).1, (varint::var_u32(d1.skip(1))->0).1);
        assert(d =~= d1.skip(1 + n2 as int));
        assert(blob_layout(blob_data@) == layout_sections(
            d,
            count as nat,
            size,
            code_len as nat,
        ));
    }
    let mut jump_table: Vec<u32> = Vec::new();
    if size > 0 && count > 0 {
        jump_table =
        match read_jump_table(&mut cursor, count, size) {
            Ok(table) => table,
            Err(e) => {
                return Err(e);
            },
        };
    }
    assert(count == 0 || size == 0 ==> count * size == 0) by (nonlinear_arith);
    let code_start: usize = cursor.position;
    let ghost table = (count * size) as int;
    assert(code_start == blob_data@.len() - d.len() + table);
    assert(blob_data.len() == blob_data@.len());
    if cursor.remaining() < code_len as usize {
        return Err(DecodeError::UnexpectedEof);
    }
    let code_end: usize = code_start + code_len as usize;
    let code_bytes: &[u8] = slice_subrange(blob_data, code_start, code_end);
    cursor.advance(code_len as usize);
    let mask_len: usize = (code_len as usize) / 8 + if code_len % 8 > 0 {
        1
    } else {
        0
    };
    assert(mask_len == (code_len + 7) / 8);
    if cursor.remaining() < mask_len {
        return Err(DecodeError::UnexpectedEof);
    }
    let mask_bytes: &[u8] = slice_subrange(blob_data, code_end, code_end + mask_len);
    let ghost layout = blob_layout(blob_data@)->Ok_0;
    proof {
        assert(code_bytes@ =~= layout.code);
        assert(mask_bytes@ =~= layout.mask);
    }
    decode_code(code_bytes, mask_bytes, jump_table, Ghost(layout))
}

/// Decode the instructions that the mask marks.
fn decode_code(code: &[u8], mask: &[u8], jump_table: Vec<u32>, layout: Ghost<BlobLayout>) -> (r:
    Result<DecodedProgram, DecodeError>)
    requires
        layout@.code == code@,
        layout@.mask == mask@,
        code@.len() <= 8 * mask@.len(),
        jump_table@.len() == layout@.jump_table.len(),
        forall|i: int|
            0 <= i < jump_table@.len() ==> #[trigger] jump_table@[i] == layout@.jump_table[i],
    ensures
        match r {
            Ok(p) => is_program_of(p, layout@),
            Err(e) => exists|i: int| fails_at(layout@, i, e),
        },
{
    let ghost len = code@.len() as int;
    let ghost starts = starts_from(mask@, 0, len);
    let mut instructions: Vec<(usize, Instruction)> = Vec::new();
    let mut pc: usize = 0;
    while pc < code.len()
        invariant
            pc <= code@.len(),
            len == code@.len(),
            layout@.code == code@,
            layout@.mask == mask@,
            code@.len() <= 8 * mask@.len(),
            starts == starts_from(mask@, 0, len),
            instructions@.len() <= starts.len(),
            starts.skip(instructions@.len() as int) == starts_from(mask@, pc as int, len),
            forall|i: int|
                0 <= i < instructions@.len() ==> (#[trigger] instructions@[i]).0 == starts[i]
                    && encodes(bytes_of(layout@, i), instructions@[i].1),
        decreases code@.len() - pc,
    {
        let ghost k = instructions@.len() as int;
        if !is_marked(mask, pc) {
            pc = pc + 1;
            continue ;
        }
        let instr_len: usize = find_instruction_length(mask, pc, code.len());
        proof {
            let next = starts_from(mask@, pc + 1, len);
            assert(starts_from(mask@, pc as int, len) == seq![pc as int] + next);
            assert(starts.skip(k)[0] == pc);
            assert(starts[k] == pc);
            lemma_skip_unmarked(mask@, pc + 1, len);
            assert(starts.skip(k + 1) =~= starts.skip(k).skip(1));
            assert(starts.skip(k).skip(1) =~= next);
            if pc + instr_len < len {
                assert(marked(mask@, pc + instr_len)) by {
                    lemma_next_start_marked(mask@, pc + 1, len);
                }
                assert(next[0] == pc + instr_len);
                assert(starts[k + 1] == starts.skip(k + 1)[0]);
            } else {
                assert(next.len() == 0);
            }
            assert(end_of(starts, k, len) == pc + instr_len);
        }
        let bytes: &[u8] = slice_subrange(code, pc, pc + instr_len);
        proof {
            assert(bytes@ =~= bytes_of(layout@, k));
            assert(bytes@.take(instr_len as int) =~= bytes@);
        }
        match decode_instruction(bytes, instr_len) {
            Ok((instr, _)) => {
                instructions.push((pc, instr));
            },
            Err(e) => {
                assert forall|j: int| 0 <= j < k implies decoded(
                    #[trigger] bytes_of(layout@, j),
                ) is Ok by {
                    assert(instructions@[j].0 == starts[j]);
                }
                assert(fails_at(layout@, k, e));
                return Err(e);
            },
        }
        pc = pc + instr_len;
    }
    assert(starts.skip(instructions@.len() as int).len() == 0);
    Ok(DecodedProgram { jump_table, instructions, code_len: code.len(), memory_base: None })
}

proof fn lemma_next_start_marked(mask: Seq<u8>, pc: int, code_len: int)
    ensures
        next_start(mask, pc, code_len) < code_len ==> marked(
            mask,
            next_start(mask, pc, code_len),
        ),
    decreases code_len - pc,
{
    if pc < code_len && !marked(mask, pc) {
        lemma_next_start_marked(mask, pc + 1, code_len);
    }
}

/// The code blob of an SPI program: behind a header of eleven bytes, the read-only and
/// the read-write data.
pub open spec fn spi_code(d: Seq<u8>) -> Option<Seq<u8>> {
    if d.len() < 11 {
        None
    } else {
        let at: int = 11int + varint::le(d.subrange(0, 3)) + varint::le(d.subrange(3, 6));
        if d.len() < at + 4 {
            None
        } else {
            let len: int = varint::le(d.subrange(at, at + 4)) as int;
            if d.len() < at + 4 + len {
                None
            } else {
                Some(d.subrange(at + 4, at + 4 + len))
            }
        }
    }
}

/// Decode SPI format: optional metadata, then
/// `[u24: ro_data_len] [u24: rw_data_len] [u16: heap_pages] [u24: stack_size]
/// [ro_data] [rw_data] [u32: code_blob_len] [code_blob]`.
pub fn decode_spi(data: &[u8]) -> (r: Result<DecodedProgram, DecodeError>)
    ensures
        match spi_code(stripped(data@)) {
            None => r == Err::<DecodedProgram, DecodeError>(DecodeError::UnexpectedEof),
            Some(code) => blob_outcome(code, r),
        },
{
    let blob_data: &[u8] = match try_strip_metadata(data) {
        Ok(d) => d,
        Err(e) => {
            return Err(e);
        },
    };
    let ghost d = blob_data@;
    let mut cursor = Cursor::new(blob_data);
    let ro_data_len: u32 = match cursor.read_u24() {
        Ok(v) => v,
        Err(e) => {
            return Err(e);
        },
    };
    let ghost r3 = cursor.rest();
    let rw_data_len: u32 = match cursor.read_u24() {
        Ok(v) => v,
        Err(e) => {
            return Err(e);
        },
    };
    if let Err(e) = cursor.read_u16() {
        return Err(e);
    }
    if let Err(e) = cursor.read_u24() {
        return Err(e);
    }
    proof {
        assert(d.take(3) =~= d.subrange(0, 3));
        assert(r3.take(3) =~= d.subrange(3, 6));
        assert(cursor.position == 11);
    }
    cursor.advance(ro_data_len as usize);
    cursor.advance(rw_data_len as usize);
    let ghost at: int = 11int + varint::le(d.subrange(0, 3)) + varint::le(d.subrange(3, 6));
    let ghost r4 = cursor.rest();
    let code_blob_len: u32 = match cursor.read_u32() {
        Ok(v) => v,
        Err(e) => {
            return Err(e);
        },
    };
    assert(r4.take(4) =~= d.subrange(at, at + 4));
    assert(blob_data.len() == blob_data@.len());
    if cursor.remaining() < code_blob_len as usize {
        return Err(DecodeError::UnexpectedEof);
    }
    let code_blob_start: usize = cursor.position;
    let code_blob: &[u8] = slice_subrange(
        blob_data,
        code_blob_start,
        code_blob_start + code_blob_len as usize,
    );
    decode_blob_internal(code_blob)
}

/// Decode a raw program blob, metadata stripped where there is any.
pub fn decode_blob(data: &[u8]) -> (r: Result<DecodedProgram, DecodeError>)
    ensures
        blob_outcome(stripped(data@), r),
{
    let blob_data: &[u8] = match try_strip_metadata(data) {
        Ok(d) => d,
        Err(e) => {
            return Err(e);
        },
    };
    decode_blob_internal(blob_data)
}

proof fn lemma_starts(mask: Seq<u8>, pc: int, code_len: int)
    ensures
        ({
            let s = starts_from(mask, pc, code_len);
            &&& forall|i: int|
                0 <= i < s.len() ==> pc <= #[trigger] s[i] < code_len && marked(mask, s[i])
            &&& forall|i: int, j: int| 0 <= i < j < s.len() ==> s[i] < s[j]
            &&& forall|q: int| pc <= q < code_len && marked(mask, q) ==> #[trigger] s.contains(q)
        }),
    decreases code_len - pc,
{
    if pc < code_len {
        lemma_starts(mask, pc + 1, code_len);
        let rest = starts_from(mask, pc + 1, code_len);
        let s = starts_from(mask, pc, code_len);
        if marked(mask, pc) {
            assert(s == seq![pc] + rest);
            assert forall|i: int| 0 <= i < s.len() implies pc <= #[trigger] s[i] < code_len
                && marked(mask, s[i]) by {
                if i > 0 {
                    assert(s[i] == rest[i - 1]);
                }
            }
            assert forall|i: int, j: int| 0 <= i < j < s.len() implies s[i] < s[j] by {
                assert(s[j] == rest[j - 1]);
                if i > 0 {
                    assert(s[i] == rest[i - 1]);
                }
            }
            assert forall|q: int| pc <= q < code_len && marked(mask, q) implies #[trigger] s.contains(
                q,
            ) by {
                if q == pc {
                    assert(s[0] == q);
                } else {
                    assert(rest.contains(q));
                    let k = choose|k: int| 0 <= k < rest.len() && rest[k] == q;
                    assert(s[k + 1] == q);
                }
            }
        }
    }
}

/// The instructions of a program come by their program counters, all within the code,
/// and they are just where the mask marks one.
pub proof fn law_program_counters(p: DecodedProgram, layout: BlobLayout)
    requires
        is_program_of(p, layout),
    ensures
        forall|i: int, j: int|
            0 <= i < j < p.instructions@.len() ==> (#[trigger] p.instructions@[i]).0 < (
            #[trigger] p.instructions@[j]).0,
        forall|i: int|
            0 <= i < p.instructions@.len() ==> (#[trigger] p.instructions@[i]).0 < p.code_len
                && marked(layout.mask, p.instructions@[i].0 as int),
        forall|pc: int|
            0 <= pc < p.code_len && #[trigger] marked(layout.mask, pc) ==> exists|i: int|
                0 <= i < p.instructions@.len() && (#[trigger] p.instructions@[i]).0 == pc,
{
    let n = layout.code.len() as int;
    lemma_starts(layout.mask, 0, n);
    let s = starts_from(layout.mask, 0, n);
    assert forall|i: int, j: int| 0 <= i < j < p.instructions@.len() implies (
    #[trigger] p.instructions@[i]).0 < (#[trigger] p.instructions@[j]).0 by {
        assert(s[i] < s[j]);
    }
    assert forall|pc: int| 0 <= pc < p.code_len && #[trigger] marked(layout.mask, pc) implies exists|
        i: int,
    |
        0 <= i < p.instructions@.len() && (#[trigger] p.instructions@[i]).0 == pc by {
        assert(s.contains(pc));
        let k = choose|k: int| 0 <= k < s.len() && s[k] == pc;
        assert(p.instructions@[k].0 == pc);
    }
}

/// A length and that many bytes, most of them printable, do not change what is decoded.
pub proof fn law_metadata_is_stripped(prefix: Seq<u8>, metadata: Seq<u8>, program: Seq<u8>)
    requires
        varint::var_u32(prefix + metadata + program) == Some(
            (metadata.len() as u32, prefix.len()),
        ),
        0 < metadata.len() <= u32::MAX,
        5 * printable_count(metadata) >= 4 * metadata.len(),
    ensures
        stripped(prefix + metadata + program) == program,
{
    let data = prefix + metadata + program;
    assert(data.subrange(prefix.len() as int, (prefix.len() + metadata.len()) as int) =~= metadata);
    assert(data.skip((prefix.len() + metadata.len()) as int) =~= program);
}

/// An SPI program gives the code blob that was put into it, whatever stands behind it.
pub proof fn law_spi_gives_its_code(
    header: Seq<u8>,
    read_only: Seq<u8>,
    read_write: Seq<u8>,
    size: Seq<u8>,
    code: Seq<u8>,
    rest: Seq<u8>,
)
    requires
        header.len() == 11,
        varint::le(header.subrange(0, 3)) == read_only.len(),
        varint::le(header.subrange(3, 6)) == read_write.len(),
        size.len() == 4,
        varint::le(size) == code.len(),
    ensures
        spi_code(header + read_only + read_write + size + code + rest) == Some(code),
{
    let d = header + read_only + read_write + size + code + rest;
    let at: int = 11int + read_only.len() + read_write.len();
    assert(d.subrange(0, 3) =~= header.subrange(0, 3));
    assert(d.subrange(3, 6) =~= header.subrange(3, 6));
    assert(d.subrange(at, at + 4) =~= size);
    assert(d.subrange(at + 4, at + 4 + code.len()) =~= code);
}

/// A blob gives the code and the mask that were put into it, and each entry of its jump
/// table, whatever stands behind them.
pub proof fn law_blob_gives_its_parts(
    count: Seq<u8>,
    size: u8,
    code_len: Seq<u8>,
    entries: Seq<Seq<u8>>,
    code: Seq<u8>,
    mask: Seq<u8>,
    rest: Seq<u8>,
)
    requires
        1 <= size <= 4,
        forall|i: int| 0 <= i < entries.len() ==> (#[trigger] entries[i]).len() == size,
        mask.len() == (code.len() + 7) / 8,
        ({
            let tail = entries.flatten() + code + mask + rest;
            &&& varint::var_u32(count + seq![size] + code_len + tail) == Some(
                (entries.len() as u32, count.len()),
            )
            &&& varint::var_u32(code_len + tail) == Some((code.len() as u32, code_len.len()))
        }),
        entries.len() <= u32::MAX,
        code.len() <= u32::MAX,
    ensures
        ({
            let tail = entries.flatten() + code + mask + rest;
            blob_layout(count + seq![size] + code_len + tail) == Ok::<BlobLayout, DecodeError>(
                BlobLayout {
                    jump_table: Seq::new(entries.len(), |i: int| varint::le(entries[i])),
                    code,
                    mask,
                },
            )
        }),
{
    let table = entries.flatten();
    let tail = table + code + mask + rest;
    let d = count + seq![size] + code_len + tail;
    let d1 = d.skip(count.len() as int);
    assert(d1 =~= seq![size] + code_len + tail);
    assert(d1.skip(1) =~= code_len + tail);
    assert(d1.skip(1 + code_len.len() as int) =~= tail);
    lemma_table_bytes(entries, size as nat);
    let n = (entries.len() * size) as int;
    assert(table.len() == n);
    assert(tail.subrange(n, n + code.len()) =~= code);
    assert(tail.subrange(n + code.len(), n + code.len() + mask.len()) =~= mask);
    let want = Seq::new(entries.len(), |i: int| varint::le(entries[i]));
    let got = table_entries(tail, entries.len(), size as nat);
    assert forall|i: int| 0 <= i < got.len() implies got[i] == want[i] by {
        let from = i * (size as nat);
        assert(from + size <= n) by (nonlinear_arith)
            requires
                0 <= i < entries.len(),
                from == i * (size as nat),
                n == entries.len() * size,
        ;
        assert(0 <= from) by (nonlinear_arith)
            requires
                0 <= i,
                from == i * (size as nat),
        ;
        assert(tail.subrange(from, from + size) =~= table.subrange(from, from + size));
    }
    assert(got =~= want);
}

/// Where the entries of a table stand.
proof fn lemma_table_bytes(entries: Seq<Seq<u8>>, size: nat)
    requires
        forall|i: int| 0 <= i < entries.len() ==> (#[trigger] entries[i]).len() == size,
    ensures
        entries.flatten().len() == entries.len() * size,
        forall|i: int|
            0 <= i < entries.len() ==> entries.flatten().subrange(i * size, i * size + size)
                == #[trigger] entries[i],
    decreases entries.len(),
{
    if entries.len() == 0 {
        assert(entries.len() * size == 0) by (nonlinear_arith)
            requires
                entries.len() == 0,
        ;
    } else {
        let rest = entries.drop_first();
        assert forall|i: int| 0 <= i < rest.len() implies (#[trigger] rest[i]).len() == size by {
            assert(rest[i] == entries[i + 1]);
        }
        lemma_table_bytes(rest, size);
        let all = entries.flatten();
        assert(all == entries[0] + rest.flatten());
        assert(entries.len() * size == size + rest.len() * size) by (nonlinear_arith)
            requires
                entries.len() == rest.len() + 1,
        ;
        assert forall|i: int| 0 <= i < entries.len() implies all.subrange(
            i * size,
            i * size + size,
        ) == #[trigger] entries[i] by {
            if i == 0 {
                assert(all.subrange(0, size as int) =~= entries[0]);
            } else {
                let k = i - 1;
                assert(rest[k] == entries[i]);
                assert(i * size == size + k * size) by (nonlinear_arith)
                    requires
                        i == k + 1,
                ;
                assert(0 <= k * size && k * size + size <= rest.len() * size) by (nonlinear_arith)
                    requires
                        0 <= k < rest.len(),
                ;
                assert(all.subrange(i * size, i * size + size) =~= rest.flatten().subrange(
                    k * size,
                    k * size + size,
                ));
            }
        }
    }
}

/// A blob decides what decoding it gives: the error, or the jump table, the length of the
/// code and the instructions with their places.
pub proof fn law_decoding_is_determined(
    d: Seq<u8>,
    a: Result<DecodedProgram, DecodeError>,
    b: Result<DecodedProgram, DecodeError>,
)
    requires
        blob_outcome(d, a),
        blob_outcome(d, b),
    ensures
        a is Ok == b is Ok,
        a is Err ==> a == b,
        a is Ok ==> a->Ok_0.jump_table@ == b->Ok_0.jump_table@ && a->Ok_0.code_len
            == b->Ok_0.code_len && a->Ok_0.instructions@.len() == b->Ok_0.instructions@.len()
            && forall|i: int|
            0 <= i < a->Ok_0.instructions@.len() ==> (#[trigger] a->Ok_0.instructions@[i]).0
                == b->Ok_0.instructions@[i].0 && pvm::same_instruction(
                a->Ok_0.instructions@[i].1,
                b->Ok_0.instructions@[i].1,
            ),
{
    match blob_layout(d) {
        Err(_) => {},
        Ok(layout) => {
            lemma_outcome_unique(layout, a, b);
            lemma_outcome_unique(layout, b, a);
            if a is Ok {
                assert(a->Ok_0.jump_table@ =~= b->Ok_0.jump_table@);
            }
        },
    }
}

proof fn lemma_outcome_unique(
    layout: BlobLayout,
    a: Result<DecodedProgram, DecodeError>,
    b: Result<DecodedProgram, DecodeError>,
)
    requires
        match a {
            Ok(p) => is_program_of(p, layout),
            Err(e) => exists|i: int| fails_at(layout, i, e),
        },
        match b {
            Ok(p) => is_program_of(p, layout),
            Err(e) => exists|i: int| fails_at(layout, i, e),
        },
    ensures
        b is Err ==> a is Err && a == b,
{
    if let Err(f) = b {
        let j = choose|j: int| fails_at(layout, j, f);
        match a {
            Ok(p) => {
                assert(encodes(bytes_of(layout, j), p.instructions@[j].1));
                assert(false);
            },
            Err(e) => {
                let i = choose|i: int| fails_at(layout, i, e);
                if i < j {
                    assert(decoded(bytes_of(layout, i)) is Ok);
                }
                if j < i {
                    assert(decoded(bytes_of(layout, j)) is Ok);
                }
            },
        }
    }
}

/// The `n` little-endian bytes of `v` in two's complement.
pub open spec fn signed_bytes(v: int, n: nat) -> Seq<u8> {
    varint::le_bytes((v % (vstd::arithmetic::power2::pow2(8 * n) as int)) as nat, n)
}

/// Whether `v` fits in `n` bytes in two's complement; in no byte, only 0 does.
pub open spec fn fits_signed(v: int, n: nat) -> bool {
    if n == 0 {
        v == 0
    } else {
        let half = vstd::arithmetic::power2::pow2((8 * n - 1) as nat);
        -half <= v < half
    }
}

/// Decoding undoes encoding: a signed immediate that was written in the bytes it fits in
/// reads back, and bytes behind the fourth change nothing.
pub proof fn law_immediate_reads_back(v: int, n: nat, rest: Seq<u8>)
    requires
        n <= 4,
        fits_signed(v, n),
    ensures
        signed_bytes(v, n).len() == n,
        immediate(signed_bytes(v, n)) == v,
        n == 4 ==> immediate(signed_bytes(v, n) + rest) == v,
        i32::MIN <= v <= i32::MAX,
{
    vstd::arithmetic::power2::lemma2_to64();
    let s = signed_bytes(v, n);
    let m = vstd::arithmetic::power2::pow2(8 * n);
    varint::law_bytes_read_back((v % (m as int)) as nat, n);
    assert((s + rest).take(n as int) =~= s);
    assert(s.take(n as int) =~= s);
    if n == 1 {
        assert(v % 0x100 == if v < 0 { v + 0x100 } else { v });
    } else if n == 2 {
        assert(v % 0x1_0000 == if v < 0 { v + 0x1_0000 } else { v });
    } else if n == 3 {
        assert(v % 0x100_0000 == if v < 0 { v + 0x100_0000 } else { v });
    } else if n == 4 {
        assert(v % 0x1_0000_0000 == if v < 0 { v + 0x1_0000_0000 } else { v });
    }
    if n > 0 {
        assert(varint::le(s) == v % (m as int));
    }
}

/// An unsigned immediate that was written in the bytes it fits in reads back.
pub proof fn law_unsigned_immediate_reads_back(v: nat, n: nat, rest: Seq<u8>)
    requires
        n <= 4,
        v < vstd::arithmetic::power2::pow2(8 * n),
    ensures
        unsigned_immediate(varint::le_bytes(v, n)) == v,
        n == 4 ==> unsigned_immediate(varint::le_bytes(v, n) + rest) == v,
{
    let s = varint::le_bytes(v, n);
    varint::law_bytes_read_back(v, n);
    assert((s + rest).take(n as int) =~= s);
    assert(s.take(n as int) =~= s);
}

/// The mask has a bit for each byte of the code, the lowest bit of a byte first: a program
/// counter is marked where its bit is one.
pub proof fn law_mask_is_by_bits(mask: Seq<u8>, pc: int)
    requires
        0 <= pc < 8 * mask.len(),
    ensures
        marked(mask, pc) <==> (mask[pc / 8] as int / vstd::arithmetic::power2::pow2(
            (pc % 8) as nat,
        ) as int) % 2 == 1,
{
    let b = mask[pc / 8];
    let k = (pc % 8) as u8;
    vstd::bits::lemma_u8_shr_is_div(b, k);
    let x = b >> k;
    assert(x & 1 == x % 2) by (bit_vector);
}

/// The bytes of an instruction reach from its program counter to the next that is marked, or
/// to the end of the code.
pub proof fn law_instruction_reaches_to_next(p: DecodedProgram, layout: BlobLayout, i: int) -> (end:
    int)
    requires
        is_program_of(p, layout),
        0 <= i < p.instructions@.len(),
    ensures
        p.instructions@[i].0 < end <= layout.code.len(),
        end == layout.code.len() || marked(layout.mask, end),
        forall|pc: int| p.instructions@[i].0 < pc < end ==> !#[trigger] marked(layout.mask, pc),
        encodes(
            layout.code.subrange(p.instructions@[i].0 as int, end),
            p.instructions@[i].1,
        ),
{
    let n = layout.code.len() as int;
    lemma_starts(layout.mask, 0, n);
    let s = starts_from(layout.mask, 0, n);
    assert(p.instructions@[i].0 == s[i]);
    let end = end_of(s, i, n);
    assert forall|pc: int| p.instructions@[i].0 < pc < end implies !#[trigger] marked(
        layout.mask,
        pc,
    ) by {
        if marked(layout.mask, pc) {
            assert(s.contains(pc));
            let k = choose|k: int| 0 <= k < s.len() && s[k] == pc;
            if k < i {
                assert(s[k] < s[i]);
            } else if k > i + 1 {
                assert(s[i + 1] < s[k]);
            }
        }
    }
    if i + 1 < s.len() {
        assert(s[i] < s[i + 1]);
    }
    end
}

} // verus!
