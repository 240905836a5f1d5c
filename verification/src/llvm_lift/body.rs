//! LLVM IR for instructions and the ends of blocks.

use crate::cfg;
use crate::cfg::{BasicBlock, ControlFlowGraph};
use crate::decoder::DecodedProgram;
use crate::instruction;
use crate::instruction::{InstructionShape, MemWidth};
use crate::llvm_lift::layout;
use crate::llvm_lift::lines;
use crate::llvm_lift::lines::{
    push_br, push_br_cond, push_cast, push_compare, push_compare_const, push_const, push_ecalli,
    push_element, push_label, push_load, push_offset, push_read, push_ret, push_select,
    push_select_const, push_store, push_store_const, push_switch_case, push_switch_start,
    push_trap, push_unknown, push_write,
};
use crate::llvm_lift::ops;
use crate::llvm_lift::ops::{emit_binop, emit_unary, next_tmp, Ir};
use crate::structuring::lines as split;
use crate::text;
use crate::text::{push_dec, push_hex_padded, same_text};
use std::collections::BTreeSet;
use vstd::prelude::*;

verus! {

broadcast use vstd::laws_cmp::group_laws_cmp;

/// The type of a memory access, and how what is read is extended.
pub open spec fn access_type(width: MemWidth) -> (Seq<char>, Option<Seq<char>>) {
    match width {
        MemWidth::U8 => ("i8"@, Some("zext"@)),
        MemWidth::I8 => ("i8"@, Some("sext"@)),
        MemWidth::U16 => ("i16"@, Some("zext"@)),
        MemWidth::I16 => ("i16"@, Some("sext"@)),
        MemWidth::U32 => ("i32"@, Some("zext"@)),
        MemWidth::I32 => ("i32"@, Some("sext"@)),
        MemWidth::U64 => ("i64"@, None),
    }
}

fn access_type_str(width: MemWidth) -> (r: (&'static str, Option<&'static str>))
    ensures
        r.0@ == access_type(width).0,
        r.1 is Some == access_type(width).1 is Some,
        r.1 is Some ==> Some(r.1->0@) == access_type(width).1,
{
    match width {
        MemWidth::U8 => ("i8", Some("zext")),
        MemWidth::I8 => ("i8", Some("sext")),
        MemWidth::U16 => ("i16", Some("zext")),
        MemWidth::I16 => ("i16", Some("sext")),
        MemWidth::U32 => ("i32", Some("zext")),
        MemWidth::I32 => ("i32", Some("sext")),
        MemWidth::U64 => ("i64", None),
    }
}

/// An address, computed; the second part names the value that holds it.
pub open spec fn address(s: Ir, base: Option<u8>, offset: i64) -> (Ir, Seq<char>) {
    let t = ops::tmp_name(s.next);
    let n = ops::fresh(s.next);
    match base {
        Some(reg) => {
            let loaded = lines::load_line(s.text, t, reg);
            if offset != 0 {
                let a = ops::tmp_name(n);
                (Ir { text: lines::offset_line(loaded, a, t, offset), next: ops::fresh(n) }, a)
            } else {
                (Ir { text: loaded, next: n }, t)
            }
        },
        None => (Ir { text: lines::const_line(s.text, t, offset), next: n }, t),
    }
}

/// A place in memory, computed.
pub open spec fn placed(s: Ir, base: Option<u8>, offset: i64) -> (Ir, Seq<char>) {
    let (found, addr) = address(s, base, offset);
    let place = ops::tmp_name(found.next);
    (
        Ir { text: lines::element_line(found.text, place, addr), next: ops::fresh(found.next) },
        place,
    )
}

/// A load from memory into a register.
pub open spec fn memory_load(s: Ir, width: MemWidth, dst: u8, base: Option<u8>, offset: i64) -> Ir {
    let (at, place) = placed(s, base, offset);
    let (ty, ext) = access_type(width);
    let loaded = ops::tmp_name(at.next);
    let n = ops::fresh(at.next);
    let read = lines::read_line(at.text, loaded, ty, place);
    match ext {
        Some(op) => {
            let wide = ops::tmp_name(n);
            Ir {
                text: lines::store_line(
                    lines::cast_line(read, wide, op, ty, loaded, "i64"@),
                    wide,
                    dst,
                ),
                next: ops::fresh(n),
            }
        },
        None => Ir { text: lines::store_line(read, loaded, dst), next: n },
    }
}

/// A store of a value into memory.
pub open spec fn memory_store(
    s: Ir,
    width: MemWidth,
    base: Option<u8>,
    offset: i64,
    v: Seq<char>,
) -> Ir {
    let (at, place) = placed(s, base, offset);
    let (ty, ext) = access_type(width);
    match ext {
        Some(_) => {
            let narrow = ops::tmp_name(at.next);
            Ir {
                text: lines::write_line(
                    lines::cast_line(at.text, narrow, "trunc"@, "i64"@, v, ty),
                    ty,
                    narrow,
                    place,
                ),
                next: ops::fresh(at.next),
            }
        },
        None => Ir { text: lines::write_line(at.text, "i64"@, v, place), next: at.next },
    }
}

fn emit_place(out: &mut String, base: Option<u8>, offset: i64, tmp: &mut u64) -> (place: String)
    ensures
        ((Ir { text: final(out)@, next: *final(tmp) }), place@) == placed(
            Ir { text: old(out)@, next: *old(tmp) },
            base,
            offset,
        ),
{
    let addr: String = match base {
        Some(reg) => {
            let t = next_tmp(tmp);
            push_load(out, &t, reg);
            if offset != 0 {
                let a = next_tmp(tmp);
                push_offset(out, &a, &t, offset);
                a
            } else {
                t
            }
        },
        None => {
            let a = next_tmp(tmp);
            push_const(out, &a, offset);
            a
        },
    };
    let place = next_tmp(tmp);
    push_element(out, &place, &addr);
    place
}

/// Emit a memory load from PVM memory.
fn emit_memory_load(
    out: &mut String,
    width: MemWidth,
    dst: u8,
    base: Option<u8>,
    offset: i64,
    tmp: &mut u64,
)
    ensures
        (Ir { text: final(out)@, next: *final(tmp) }) == memory_load(
            Ir { text: old(out)@, next: *old(tmp) },
            width,
            dst,
            base,
            offset,
        ),
{
    let place = emit_place(out, base, offset, tmp);
    let (ty, ext) = access_type_str(width);
    let loaded = next_tmp(tmp);
    push_read(out, &loaded, ty, &place);
    match ext {
        Some(op) => {
            let wide = next_tmp(tmp);
            push_cast(out, &wide, op, ty, &loaded, "i64");
            push_store(out, &wide, dst);
        },
        None => {
            push_store(out, &loaded, dst);
        },
    }
}

/// Emit a store of a value to PVM memory.
fn emit_memory_store_value(
    out: &mut String,
    width: MemWidth,
    base: Option<u8>,
    offset: i64,
    v: &str,
    tmp: &mut u64,
)
    ensures
        (Ir { text: final(out)@, next: *final(tmp) }) == memory_store(
            Ir { text: old(out)@, next: *old(tmp) },
            width,
            base,
            offset,
            v@,
        ),
{
    let place = emit_place(out, base, offset, tmp);
    let (ty, ext) = access_type_str(width);
    match ext {
        Some(_) => {
            let narrow = next_tmp(tmp);
            push_cast(out, &narrow, "trunc", "i64", v, ty);
            push_write(out, ty, &narrow, &place);
        },
        None => {
            push_write(out, "i64", v, &place);
        },
    }
}

/// A store of a register into memory.
pub open spec fn register_store(
    s: Ir,
    width: MemWidth,
    base: Option<u8>,
    offset: i64,
    src: u8,
) -> Ir {
    let v = ops::tmp_name(s.next);
    memory_store(
        Ir { text: lines::load_line(s.text, v, src), next: ops::fresh(s.next) },
        width,
        base,
        offset,
        v,
    )
}

/// A store of a constant into memory.
pub open spec fn constant_store(
    s: Ir,
    width: MemWidth,
    base: Option<u8>,
    offset: i64,
    value: i64,
) -> Ir {
    let v = ops::tmp_name(s.next);
    memory_store(
        Ir { text: lines::const_line(s.text, v, value), next: ops::fresh(s.next) },
        width,
        base,
        offset,
        v,
    )
}

/// Emit a memory store to PVM memory (from register).
fn emit_memory_store(
    out: &mut String,
    width: MemWidth,
    base: Option<u8>,
    offset: i64,
    src: u8,
    tmp: &mut u64,
)
    ensures
        (Ir { text: final(out)@, next: *final(tmp) }) == register_store(
            Ir { text: old(out)@, next: *old(tmp) },
            width,
            base,
            offset,
            src,
        ),
{
    let v = next_tmp(tmp);
    push_load(out, &v, src);
    emit_memory_store_value(out, width, base, offset, &v, tmp);
}

/// Emit a memory store to PVM memory (immediate value).
fn emit_memory_store_imm(
    out: &mut String,
    width: MemWidth,
    base: Option<u8>,
    offset: i64,
    value: i64,
    tmp: &mut u64,
)
    ensures
        (Ir { text: final(out)@, next: *final(tmp) }) == constant_store(
            Ir { text: old(out)@, next: *old(tmp) },
            width,
            base,
            offset,
            value,
        ),
{
    let v = next_tmp(tmp);
    push_const(out, &v, value);
    emit_memory_store_value(out, width, base, offset, &v, tmp);
}

/// The predicate by which a conditional move moves.
pub open spec fn move_predicate(is_zero: bool) -> Seq<char> {
    if is_zero {
        "eq"@
    } else {
        "ne"@
    }
}

/// A move of a register on a condition.
pub open spec fn register_move(s: Ir, is_zero: bool, dst: u8, src: u8, cond: u8) -> Ir {
    let n1 = ops::fresh(s.next);
    let n2 = ops::fresh(n1);
    let n3 = ops::fresh(n2);
    let n4 = ops::fresh(n3);
    let c = ops::tmp_name(s.next);
    let test = ops::tmp_name(n1);
    let from = ops::tmp_name(n2);
    let held = ops::tmp_name(n3);
    let taken = ops::tmp_name(n4);
    let t1 = lines::load_line(s.text, c, cond);
    let t2 = lines::compare_line(t1, test, move_predicate(is_zero), "i64"@, c, "0"@);
    let t3 = lines::load_line(t2, from, src);
    let t4 = lines::load_line(t3, held, dst);
    let t5 = lines::select_line(t4, taken, test, "i64"@, from, held);
    Ir { text: lines::store_line(t5, taken, dst), next: ops::fresh(n4) }
}

/// A move of a constant on a condition.
pub open spec fn constant_move(s: Ir, is_zero: bool, dst: u8, cond: u8, value: i64) -> Ir {
    let n1 = ops::fresh(s.next);
    let n2 = ops::fresh(n1);
    let n3 = ops::fresh(n2);
    let c = ops::tmp_name(s.next);
    let test = ops::tmp_name(n1);
    let held = ops::tmp_name(n2);
    let taken = ops::tmp_name(n3);
    let t1 = lines::load_line(s.text, c, cond);
    let t2 = lines::compare_line(t1, test, move_predicate(is_zero), "i64"@, c, "0"@);
    let t3 = lines::load_line(t2, held, dst);
    let t4 = lines::select_const_line(t3, taken, test, value, held);
    Ir { text: lines::store_line(t4, taken, dst), next: ops::fresh(n3) }
}

fn move_predicate_str(is_zero: bool) -> (r: &'static str)
    ensures
        r@ == move_predicate(is_zero),
{
    if is_zero {
        "eq"
    } else {
        "ne"
    }
}

fn emit_register_move(
    out: &mut String,
    is_zero: bool,
    dst: u8,
    src: u8,
    cond: u8,
    tmp: &mut u64,
)
    ensures
        (Ir { text: final(out)@, next: *final(tmp) }) == register_move(
            Ir { text: old(out)@, next: *old(tmp) },
            is_zero,
            dst,
            src,
            cond,
        ),
{
    let c = next_tmp(tmp);
    push_load(out, &c, cond);
    let test = next_tmp(tmp);
    push_compare(out, &test, move_predicate_str(is_zero), "i64", &c, "0");
    let from = next_tmp(tmp);
    push_load(out, &from, src);
    let held = next_tmp(tmp);
    push_load(out, &held, dst);
    let taken = next_tmp(tmp);
    push_select(out, &taken, &test, "i64", &from, &held);
    push_store(out, &taken, dst);
}

fn emit_constant_move(
    out: &mut String,
    is_zero: bool,
    dst: u8,
    cond: u8,
    value: i64,
    tmp: &mut u64,
)
    ensures
        (Ir { text: final(out)@, next: *final(tmp) }) == constant_move(
            Ir { text: old(out)@, next: *old(tmp) },
            is_zero,
            dst,
            cond,
            value,
        ),
{
    let c = next_tmp(tmp);
    push_load(out, &c, cond);
    let test = next_tmp(tmp);
    push_compare(out, &test, move_predicate_str(is_zero), "i64", &c, "0");
    let held = next_tmp(tmp);
    push_load(out, &held, dst);
    let taken = next_tmp(tmp);
    push_select_const(out, &taken, &test, value, &held);
    push_store(out, &taken, dst);
}

/// What an instruction does, but for the jump that it may end with.
#[verifier::opaque]
pub open spec fn instruction_ir(s: Ir, shape: InstructionShape) -> Ir {
    let t1 = ops::tmp_name(s.next);
    let t2 = ops::tmp_name(ops::fresh(s.next));
    let n1 = ops::fresh(s.next);
    let n2 = ops::fresh(n1);
    match shape {
        InstructionShape::LoadImm { dst, value } => Ir {
            text: lines::store_const_line(s.text, value, dst),
            next: s.next,
        },
        InstructionShape::BinReg { op, width, dst, src1, src2 } => ops::binary(
            Ir {
                text: lines::load_line(lines::load_line(s.text, t1, src1), t2, src2),
                next: n2,
            },
            op,
            width,
            dst,
            t1,
            t2,
        ),
        InstructionShape::BinImm { op, width, dst, src, value } => ops::binary(
            Ir {
                text: lines::const_line(lines::load_line(s.text, t1, src), t2, value as i64),
                next: n2,
            },
            op,
            width,
            dst,
            t1,
            t2,
        ),
        InstructionShape::BinImmRev { op, width, dst, src, value } => ops::binary(
            Ir {
                text: lines::load_line(lines::const_line(s.text, t1, value as i64), t2, src),
                next: n2,
            },
            op,
            width,
            dst,
            t1,
            t2,
        ),
        InstructionShape::Unary { op, dst, src } => ops::unary(
            Ir { text: lines::load_line(s.text, t1, src), next: n1 },
            op,
            dst,
            t1,
        ),
        InstructionShape::Load { width, dst, base, offset } => memory_load(
            s,
            width,
            dst,
            Some(base),
            offset as i64,
        ),
        InstructionShape::Store { width, base, src, offset } => register_store(
            s,
            width,
            Some(base),
            offset as i64,
            src,
        ),
        InstructionShape::LoadAbsolute { width, dst, address } => memory_load(
            s,
            width,
            dst,
            None,
            address as i64,
        ),
        InstructionShape::StoreAbsolute { width, src, address } => register_store(
            s,
            width,
            None,
            address as i64,
            src,
        ),
        InstructionShape::StoreImm { width, address, value } => constant_store(
            s,
            width,
            None,
            address as i64,
            value as i64,
        ),
        InstructionShape::StoreImmInd { width, base, offset, value } => constant_store(
            s,
            width,
            Some(base),
            offset as i64,
            value as i64,
        ),
        InstructionShape::CmovReg { is_zero, dst, src, cond } => register_move(
            s,
            is_zero,
            dst,
            src,
            cond,
        ),
        InstructionShape::CmovImm { is_zero, dst, cond, value } => constant_move(
            s,
            is_zero,
            dst,
            cond,
            value as i64,
        ),
        InstructionShape::LoadImmJump { dst, value, .. } => Ir {
            text: lines::store_const_line(s.text, value as i64, dst),
            next: s.next,
        },
        InstructionShape::LoadImmJumpInd { dst, value, .. } => Ir {
            text: lines::store_const_line(s.text, value as i64, dst),
            next: s.next,
        },
        InstructionShape::Ecalli { index } => Ir {
            text: lines::ecalli_line(s.text, index),
            next: s.next,
        },
        InstructionShape::Unknown { opcode } => Ir {
            text: lines::unknown_line(s.text, opcode),
            next: s.next,
        },
        InstructionShape::NoOp { .. } | InstructionShape::Jump { .. } | InstructionShape::JumpInd {
            ..
        } | InstructionShape::BranchImm { .. } | InstructionShape::BranchReg { .. } => s,
    }
}

/// Emit LLVM IR for a single PVM instruction.
pub(crate) fn emit_instruction(out: &mut String, shape: &InstructionShape, tmp: &mut u64)
    ensures
        (Ir { text: final(out)@, next: *final(tmp) }) == instruction_ir(
            Ir { text: old(out)@, next: *old(tmp) },
            *shape,
        ),
{
    proof {
        reveal(instruction_ir);
    }
    match shape {
        InstructionShape::LoadImm { dst, value } => push_store_const(out, *value, *dst),
        InstructionShape::BinReg { op, width, dst, src1, src2 } => {
            let t1 = next_tmp(tmp);
            let t2 = next_tmp(tmp);
            push_load(out, &t1, *src1);
            push_load(out, &t2, *src2);
            emit_binop(out, *op, *width, *dst, &t1, &t2, tmp);
        },
        InstructionShape::BinImm { op, width, dst, src, value } => {
            let t1 = next_tmp(tmp);
            push_load(out, &t1, *src);
            let t2 = next_tmp(tmp);
            push_const(out, &t2, *value as i64);
            emit_binop(out, *op, *width, *dst, &t1, &t2, tmp);
        },
        InstructionShape::BinImmRev { op, width, dst, src, value } => {
            let t1 = next_tmp(tmp);
            push_const(out, &t1, *value as i64);
            let t2 = next_tmp(tmp);
            push_load(out, &t2, *src);
            emit_binop(out, *op, *width, *dst, &t1, &t2, tmp);
        },
        InstructionShape::Unary { op, dst, src } => {
            let t1 = next_tmp(tmp);
            push_load(out, &t1, *src);
            emit_unary(out, *op, *dst, &t1, tmp);
        },
        InstructionShape::Load { width, dst, base, offset } => {
            emit_memory_load(out, *width, *dst, Some(*base), *offset as i64, tmp);
        },
        InstructionShape::Store { width, base, src, offset } => {
            emit_memory_store(out, *width, Some(*base), *offset as i64, *src, tmp);
        },
        InstructionShape::LoadAbsolute { width, dst, address } => {
            emit_memory_load(out, *width, *dst, None, *address as i64, tmp);
        },
        InstructionShape::StoreAbsolute { width, src, address } => {
            emit_memory_store(out, *width, None, *address as i64, *src, tmp);
        },
        InstructionShape::StoreImm { width, address, value } => {
            emit_memory_store_imm(out, *width, None, *address as i64, *value as i64, tmp);
        },
        InstructionShape::StoreImmInd { width, base, offset, value } => {
            emit_memory_store_imm(out, *width, Some(*base), *offset as i64, *value as i64, tmp);
        },
        InstructionShape::CmovReg { is_zero, dst, src, cond } => {
            emit_register_move(out, *is_zero, *dst, *src, *cond, tmp);
        },
        InstructionShape::CmovImm { is_zero, dst, cond, value } => {
            emit_constant_move(out, *is_zero, *dst, *cond, *value as i64, tmp);
        },
        InstructionShape::LoadImmJump { dst, value, .. } => {
            push_store_const(out, *value as i64, *dst);
        },
        InstructionShape::LoadImmJumpInd { dst, value, .. } => {
            push_store_const(out, *value as i64, *dst);
        },
        InstructionShape::Ecalli { index } => push_ecalli(out, *index),
        InstructionShape::Unknown { opcode } => push_unknown(out, *opcode),
        InstructionShape::NoOp { .. } | InstructionShape::Jump { .. } | InstructionShape::JumpInd {
            ..
        } | InstructionShape::BranchImm { .. } | InstructionShape::BranchReg { .. } => {},
    }
}

/// The predicate of a branch condition, in the notation of instructions or in that of
/// their names.
pub open spec fn branch_predicate(cond: Seq<char>) -> Seq<char> {
    if cond == "=="@ || cond == "eq"@ {
        "eq"@
    } else if cond == "!="@ || cond == "ne"@ {
        "ne"@
    } else if cond == "<u"@ || cond == "lt_u"@ {
        "ult"@
    } else if cond == "<s"@ || cond == "lt_s"@ {
        "slt"@
    } else if cond == ">=u"@ || cond == "ge_u"@ {
        "uge"@
    } else if cond == ">=s"@ || cond == "ge_s"@ {
        "sge"@
    } else if cond == ">u"@ || cond == "gt_u"@ {
        "ugt"@
    } else if cond == ">s"@ || cond == "gt_s"@ {
        "sgt"@
    } else if cond == "<=u"@ || cond == "le_u"@ {
        "ule"@
    } else if cond == "<=s"@ || cond == "le_s"@ {
        "sle"@
    } else {
        "eq"@
    }
}

/// Convert a branch condition to an LLVM predicate.
fn branch_predicate_str(cond: &str) -> (r: &'static str)
    ensures
        r@ == branch_predicate(cond@),
{
    if same_text(cond, "==") || same_text(cond, "eq") {
        "eq"
    } else if same_text(cond, "!=") || same_text(cond, "ne") {
        "ne"
    } else if same_text(cond, "<u") || same_text(cond, "lt_u") {
        "ult"
    } else if same_text(cond, "<s") || same_text(cond, "lt_s") {
        "slt"
    } else if same_text(cond, ">=u") || same_text(cond, "ge_u") {
        "uge"
    } else if same_text(cond, ">=s") || same_text(cond, "ge_s") {
        "sge"
    } else if same_text(cond, ">u") || same_text(cond, "gt_u") {
        "ugt"
    } else if same_text(cond, ">s") || same_text(cond, "gt_s") {
        "sgt"
    } else if same_text(cond, "<=u") || same_text(cond, "le_u") {
        "ule"
    } else if same_text(cond, "<=s") || same_text(cond, "le_s") {
        "sle"
    } else {
        "eq"
    }
}

/// A return of register 0.
pub open spec fn returned(s: Ir) -> Ir {
    let t = ops::tmp_name(s.next);
    Ir {
        text: lines::ret_line(lines::load_line(s.text, t, 0), t),
        next: ops::fresh(s.next),
    }
}

/// A jump to a block of the function; to any other place it is a return.
pub open spec fn jumped(s: Ir, own: Set<usize>, target: usize) -> Ir {
    if own.contains(target) {
        Ir { text: lines::br_line(s.text, target), next: s.next }
    } else {
        returned(s)
    }
}

/// The label of a branch target: a block of the function, or a way out of it.
pub open spec fn target_label(own: Set<usize>, pc: usize) -> Seq<char> {
    if own.contains(pc) {
        "bb_"@ + text::hex_padded(pc as nat, 4)
    } else {
        "bb_exit_"@ + text::hex_padded(pc as nat, 4)
    }
}

/// Emitted text and the ways out that it holds.
pub struct Scene {
    pub ir: Ir,
    pub exits: Set<usize>,
}

/// A way out, unless it is a block of the function or was emitted.
pub open spec fn with_exit(s: Scene, own: Set<usize>, pc: usize) -> Scene {
    if own.contains(pc) || s.exits.contains(pc) {
        s
    } else {
        Scene {
            ir: returned(
                Ir {
                    text: lines::label_line(s.ir.text, target_label(own, pc)),
                    next: s.ir.next,
                },
            ),
            exits: s.exits.insert(pc),
        }
    }
}

/// A branch on `test`, and the ways out that it needs.
pub open spec fn branched(
    s: Scene,
    own: Set<usize>,
    test: Seq<char>,
    target: usize,
    fall: usize,
) -> Scene {
    let split = Scene {
        ir: Ir {
            text: lines::br_cond_line(
                s.ir.text,
                test,
                target_label(own, target),
                target_label(own, fall),
            ),
            next: s.ir.next,
        },
        exits: s.exits,
    };
    with_exit(with_exit(split, own, target), own, fall)
}

/// The cases of the first `n` entries of a jump table: those within the function.
pub open spec fn cases(s: Seq<char>, table: Seq<u32>, own: Set<usize>, n: nat) -> Seq<char>
    decreases n,
{
    if n == 0 {
        s
    } else {
        let rest = cases(s, table, own, (n - 1) as nat);
        if own.contains(table[n - 1] as usize) {
            lines::switch_case(rest, (n - 1) as usize, table[n - 1] as usize)
        } else {
            rest
        }
    }
}

/// An indirect jump: a switch over the jump table, with a return where nothing matches.
pub open spec fn switched(s: Ir, v: Seq<char>, table: Seq<u32>, own: Set<usize>) -> Ir {
    let narrow = ops::tmp_name(s.next);
    let n = ops::fresh(s.next);
    let label = "sw_default_"@ + text::dec(n as nat);
    let cut = lines::cast_line(s.text, narrow, "trunc"@, "i64"@, v, "i32"@);
    let start = lines::switch_start(cut, narrow, label);
    let listed = cases(start, table, own, table.len());
    returned(Ir { text: lines::label_line(listed + " ]\n"@, label), next: ops::fresh(n) })
}

/// The jump to the block behind, where there is one.
pub open spec fn fallen(s: Ir, own: Set<usize>, successors: Seq<usize>) -> Ir {
    if successors.len() > 0 {
        jumped(s, own, successors[0])
    } else {
        returned(s)
    }
}

/// How a block ends.
#[verifier::opaque]
pub open spec fn terminator(s: Scene, b: BasicBlock, table: Seq<u32>, own: Set<usize>) -> Scene {
    let t1 = ops::tmp_name(s.ir.next);
    let n1 = ops::fresh(s.ir.next);
    let t2 = ops::tmp_name(n1);
    let n2 = ops::fresh(n1);
    let t3 = ops::tmp_name(n2);
    let n3 = ops::fresh(n2);
    if b.instructions@.len() == 0 {
        Scene { ir: fallen(s.ir, own, b.successors@), exits: s.exits }
    } else {
        let (pc, instr) = b.instructions@.last();
        match instruction::classified(instr) {
            InstructionShape::NoOp { name } => if name@ == "trap"@ {
                Scene {
                    ir: Ir {
                        text: lines::trap_lines(lines::load_line(s.ir.text, t1, 0)),
                        next: n1,
                    },
                    exits: s.exits,
                }
            } else {
                Scene { ir: fallen(s.ir, own, b.successors@), exits: s.exits }
            },
            InstructionShape::Jump { offset } => Scene {
                ir: jumped(s.ir, own, cfg::jump_target(pc, offset)),
                exits: s.exits,
            },
            InstructionShape::LoadImmJump { offset, .. } => Scene {
                ir: jumped(s.ir, own, cfg::jump_target(pc, offset)),
                exits: s.exits,
            },
            InstructionShape::JumpInd { reg } => Scene {
                ir: if table.len() > 0 {
                    switched(
                        Ir { text: lines::load_line(s.ir.text, t1, reg), next: n1 },
                        t1,
                        table,
                        own,
                    )
                } else {
                    returned(s.ir)
                },
                exits: s.exits,
            },
            InstructionShape::LoadImmJumpInd { .. } => Scene {
                ir: returned(s.ir),
                exits: s.exits,
            },
            InstructionShape::BranchImm { cond, reg, value, offset } => branched(
                Scene {
                    ir: Ir {
                        text: lines::compare_const_line(
                            lines::load_line(s.ir.text, t1, reg),
                            t2,
                            branch_predicate(cond@),
                            t1,
                            value as i64,
                        ),
                        next: n2,
                    },
                    exits: s.exits,
                },
                own,
                t2,
                cfg::jump_target(pc, offset),
                b.end_pc,
            ),
            InstructionShape::BranchReg { cond, reg1, reg2, offset } => branched(
                Scene {
                    ir: Ir {
                        text: lines::compare_line(
                            lines::load_line(lines::load_line(s.ir.text, t1, reg1), t2, reg2),
                            t3,
                            branch_predicate(cond@),
                            "i64"@,
                            t1,
                            t2,
                        ),
                        next: n3,
                    },
                    exits: s.exits,
                },
                own,
                t3,
                cfg::jump_target(pc, offset),
                b.end_pc,
            ),
            InstructionShape::Unknown { opcode } => Scene {
                ir: Ir {
                    text: lines::trap_lines(lines::unknown_line(s.ir.text, opcode)),
                    next: s.ir.next,
                },
                exits: s.exits,
            },
            _ => Scene { ir: fallen(s.ir, own, b.successors@), exits: s.exits },
        }
    }
}

fn emit_return(out: &mut String, tmp: &mut u64)
    ensures
        (Ir { text: final(out)@, next: *final(tmp) }) == returned(
            Ir { text: old(out)@, next: *old(tmp) },
        ),
{
    let t = next_tmp(tmp);
    push_load(out, &t, 0);
    push_ret(out, &t);
}

fn emit_jump(out: &mut String, own: &BTreeSet<usize>, target: usize, tmp: &mut u64)
    ensures
        (Ir { text: final(out)@, next: *final(tmp) }) == jumped(
            Ir { text: old(out)@, next: *old(tmp) },
            own@,
            target,
        ),
{
    if own.contains(&target) {
        push_br(out, target);
    } else {
        emit_return(out, tmp);
    }
}

fn label_of(own: &BTreeSet<usize>, pc: usize) -> (label: String)
    ensures
        label@ == target_label(own@, pc),
{
    let mut label = if own.contains(&pc) {
        "bb_".to_owned()
    } else {
        "bb_exit_".to_owned()
    };
    push_hex_padded(&mut label, pc as u64, 4);
    label
}

fn emit_exit(
    out: &mut String,
    own: &BTreeSet<usize>,
    pc: usize,
    exits: &mut BTreeSet<usize>,
    tmp: &mut u64,
)
    ensures
        (Scene {
            ir: Ir { text: final(out)@, next: *final(tmp) },
            exits: final(exits)@,
        }) == with_exit(
            Scene { ir: Ir { text: old(out)@, next: *old(tmp) }, exits: old(exits)@ },
            own@,
            pc,
        ),
{
    if own.contains(&pc) || exits.contains(&pc) {
        return;
    }
    exits.insert(pc);
    let label = label_of(own, pc);
    push_label(out, &label);
    emit_return(out, tmp);
}

fn emit_branch(
    out: &mut String,
    own: &BTreeSet<usize>,
    test: &str,
    target: usize,
    fall: usize,
    exits: &mut BTreeSet<usize>,
    tmp: &mut u64,
)
    ensures
        (Scene {
            ir: Ir { text: final(out)@, next: *final(tmp) },
            exits: final(exits)@,
        }) == branched(
            Scene { ir: Ir { text: old(out)@, next: *old(tmp) }, exits: old(exits)@ },
            own@,
            test@,
            target,
            fall,
        ),
{
    let target_text = label_of(own, target);
    let fall_text = label_of(own, fall);
    push_br_cond(out, test, &target_text, &fall_text);
    emit_exit(out, own, target, exits, tmp);
    emit_exit(out, own, fall, exits, tmp);
}

/// Emit an indirect jump as a switch statement over the jump table.
pub fn emit_indirect_jump(
    out: &mut String,
    reg_val: &str,
    program: &DecodedProgram,
    func_block_pcs: &BTreeSet<usize>,
    tmp: &mut u64,
)
    ensures
        (Ir { text: final(out)@, next: *final(tmp) }) == switched(
            Ir { text: old(out)@, next: *old(tmp) },
            reg_val@,
            program.jump_table@,
            func_block_pcs@,
        ),
{
    let table = &program.jump_table;
    let narrow = next_tmp(tmp);
    let mut label = "sw_default_".to_owned();
    push_dec(&mut label, *tmp);
    *tmp = tmp.wrapping_add(1);
    push_cast(out, &narrow, "trunc", "i64", reg_val, "i32");
    push_switch_start(out, &narrow, &label);
    let ghost start = out@;
    let mut i: usize = 0;
    while i < table.len()
        invariant
            i <= table@.len(),
            out@ == cases(start, table@, func_block_pcs@, i as nat),
        decreases table@.len() - i,
    {
        let target: usize = table[i] as usize;
        if func_block_pcs.contains(&target) {
            push_switch_case(out, i, target);
        }
        i = i + 1;
    }
    out.append(" ]\n");
    push_label(out, &label);
    emit_return(out, tmp);
}

fn emit_fall(out: &mut String, own: &BTreeSet<usize>, successors: &Vec<usize>, tmp: &mut u64)
    ensures
        (Ir { text: final(out)@, next: *final(tmp) }) == fallen(
            Ir { text: old(out)@, next: *old(tmp) },
            own@,
            successors@,
        ),
{
    if successors.len() > 0 {
        emit_jump(out, own, successors[0], tmp);
    } else {
        emit_return(out, tmp);
    }
}

/// Emit the terminator for a basic block.
pub(crate) fn emit_terminator(
    out: &mut String,
    block: &BasicBlock,
    program: &DecodedProgram,
    own: &BTreeSet<usize>,
    exits: &mut BTreeSet<usize>,
    tmp: &mut u64,
)
    ensures
        (Scene {
            ir: Ir { text: final(out)@, next: *final(tmp) },
            exits: final(exits)@,
        }) == terminator(
            Scene { ir: Ir { text: old(out)@, next: *old(tmp) }, exits: old(exits)@ },
            *block,
            program.jump_table@,
            own@,
        ),
{
    proof {
        reveal(terminator);
    }
    let n: usize = block.instructions.len();
    if n == 0 {
        emit_fall(out, own, &block.successors, tmp);
        return;
    }
    let pc: usize = block.instructions[n - 1].0;
    let shape = InstructionShape::classify(&block.instructions[n - 1].1);
    match &shape {
        InstructionShape::NoOp { name } => {
            if same_text(name, "trap") {
                let t = next_tmp(tmp);
                push_load(out, &t, 0);
                push_trap(out);
            } else {
                emit_fall(out, own, &block.successors, tmp);
            }
        },
        InstructionShape::Jump { offset } => {
            emit_jump(out, own, ControlFlowGraph::compute_jump_target(pc, *offset), tmp);
        },
        InstructionShape::LoadImmJump { offset, .. } => {
            emit_jump(out, own, ControlFlowGraph::compute_jump_target(pc, *offset), tmp);
        },
        InstructionShape::JumpInd { reg } => {
            if program.jump_table.len() > 0 {
                let t = next_tmp(tmp);
                push_load(out, &t, *reg);
                emit_indirect_jump(out, &t, program, own, tmp);
            } else {
                emit_return(out, tmp);
            }
        },
        InstructionShape::LoadImmJumpInd { .. } => {
            emit_return(out, tmp);
        },
        InstructionShape::BranchImm { cond, reg, value, offset } => {
            let t = next_tmp(tmp);
            push_load(out, &t, *reg);
            let test = next_tmp(tmp);
            push_compare_const(out, &test, branch_predicate_str(cond), &t, *value as i64);
            let target: usize = ControlFlowGraph::compute_jump_target(pc, *offset);
            emit_branch(out, own, &test, target, block.end_pc, exits, tmp);
        },
        InstructionShape::BranchReg { cond, reg1, reg2, offset } => {
            let t1 = next_tmp(tmp);
            let t2 = next_tmp(tmp);
            push_load(out, &t1, *reg1);
            push_load(out, &t2, *reg2);
            let test = next_tmp(tmp);
            push_compare(out, &test, branch_predicate_str(cond), "i64", &t1, &t2);
            let target: usize = ControlFlowGraph::compute_jump_target(pc, *offset);
            emit_branch(out, own, &test, target, block.end_pc, exits, tmp);
        },
        InstructionShape::Unknown { opcode } => {
            push_unknown(out, *opcode);
            push_trap(out);
        },
        _ => {
            emit_fall(out, own, &block.successors, tmp);
        },
    }
}

/// The line of a label by which a branch leaves the function.
pub open spec fn exit_line(pc: usize) -> Seq<char> {
    "bb_exit_"@ + text::hex_padded(pc as nat, 4) + ":"@
}

proof fn lemma_exit_line(pc: usize)
    ensures
        exit_line(pc).len() > 0,
        exit_line(pc)[0] != ' ',
        split::plain(exit_line(pc)),
{
    broadcast use layout::lemma_plain_add;

    reveal_strlit("bb_exit_");
    layout::lemma_plain_hex(pc as nat, 4);
    assert(exit_line(pc)[0] == 'b');
    assert(split::plain("bb_exit_"@) && split::plain(":"@)) by {
        reveal(split::plain);
        reveal_strlit(":");
    }
}

proof fn lemma_exit_lines_differ(a: usize, b: usize)
    requires
        exit_line(a) == exit_line(b),
    ensures
        a == b,
{
    reveal_strlit("bb_exit_");
    reveal_strlit(":");
    let x = exit_line(a);
    let y = exit_line(b);
    assert(x.subrange(8, x.len() - 1) =~= text::hex_padded(a as nat, 4));
    assert(y.subrange(8, y.len() - 1) =~= text::hex_padded(b as nat, 4));
    text::law_hex_numerals_differ(a as nat, b as nat, 4);
}

proof fn lemma_load_held(base: Seq<char>, s: Seq<char>, x: usize, k: nat, n: u64, reg: u8)
    requires
        layout::holding(base, s, exit_line(x), k),
    ensures
        layout::holding(base, lines::load_line(s, ops::tmp_name(n), reg), exit_line(x), k),
{
    broadcast use layout::lemma_plain_add;

    lemma_exit_line(x);
    layout::lemma_plain_tmp(n);
    layout::lemma_plain_dec(reg as nat);
    reveal_strlit(", align 8");
    reveal_strlit("\n");
    reveal_strlit(", align 8\n");
    assert(split::plain(" = load i64, ptr %r"@) && split::plain(", align 8"@)) by {
        reveal(split::plain);
        reveal_strlit(" = load i64, ptr %r");
    }
    let rest = ops::tmp_name(n) + " = load i64, ptr %r"@ + text::dec(reg as nat) + ", align 8"@;
    layout::lemma_holding_code(base, s, exit_line(x), k, rest);
    assert(", align 8\n"@ =~= ", align 8"@ + "\n"@);
    assert(lines::load_line(s, ops::tmp_name(n), reg) =~= s + "  "@ + rest + "\n"@);
}

proof fn lemma_returned_held(base: Seq<char>, s: Ir, x: usize, k: nat)
    requires
        layout::holding(base, s.text, exit_line(x), k),
    ensures
        layout::holding(base, returned(s).text, exit_line(x), k),
{
    broadcast use layout::lemma_plain_add;

    lemma_exit_line(x);
    layout::lemma_plain_tmp(s.next);
    let t = ops::tmp_name(s.next);
    lemma_load_held(base, s.text, x, k, s.next, 0);
    let loaded = lines::load_line(s.text, t, 0);
    reveal_strlit("  ");
    reveal_strlit("ret i64 ");
    reveal_strlit("  ret i64 ");
    assert(split::plain("ret i64 "@)) by {
        reveal(split::plain);
    }
    let rest = "ret i64 "@ + t;
    layout::lemma_holding_code(base, loaded, exit_line(x), k, rest);
    assert("  ret i64 "@ =~= "  "@ + "ret i64 "@);
    assert(lines::ret_line(loaded, t) =~= loaded + "  "@ + rest + "\n"@);
}

proof fn lemma_with_exit_held(base: Seq<char>, s: Scene, own: Set<usize>, pc: usize, x: usize, k: nat)
    requires
        layout::holding(base, s.ir.text, exit_line(x), k),
    ensures
        layout::holding(
            base,
            with_exit(s, own, pc).ir.text,
            exit_line(x),
            if pc == x && !own.contains(x) && !s.exits.contains(x) {
                k + 1
            } else {
                k
            },
        ),
        with_exit(s, own, pc).exits == if own.contains(pc) {
            s.exits
        } else {
            s.exits.insert(pc)
        },
{
    if own.contains(pc) || s.exits.contains(pc) {
        if s.exits.contains(pc) {
            assert(s.exits.insert(pc) =~= s.exits);
        }
    } else {
        let empty: Seq<char> = seq![];
        lemma_exit_line(x);
        lemma_exit_line(pc);
        assert(split::plain(empty)) by {
            reveal(split::plain);
        }
        layout::lemma_holding_step(base, s.ir.text, exit_line(x), k, empty);
        let one = s.ir.text + empty + "\n"@;
        assert(one =~= s.ir.text + "\n"@);
        if pc != x && exit_line(pc) == exit_line(x) {
            lemma_exit_lines_differ(pc, x);
        }
        layout::lemma_holding_step(base, one, exit_line(x), k, exit_line(pc));
        let labeled = lines::label_line(s.ir.text, target_label(own, pc));
        reveal_strlit(":");
        reveal_strlit("\n");
        reveal_strlit(":\n");
        assert(":\n"@ =~= ":"@ + "\n"@);
        assert(labeled =~= one + exit_line(pc) + "\n"@);
        let j = if pc == x {
            k + 1
        } else {
            k
        };
        lemma_returned_held(base, Ir { text: labeled, next: s.ir.next }, x, j);
    }
}

proof fn lemma_label_plain(own: Set<usize>, pc: usize)
    ensures
        split::plain(target_label(own, pc)),
{
    broadcast use layout::lemma_plain_add;

    layout::lemma_plain_hex(pc as nat, 4);
    assert(split::plain("bb_"@) && split::plain("bb_exit_"@)) by {
        reveal(split::plain);
        reveal_strlit("bb_");
        reveal_strlit("bb_exit_");
    }
}

proof fn lemma_branched_held(
    base: Seq<char>,
    s: Scene,
    own: Set<usize>,
    n: u64,
    target: usize,
    fall: usize,
    x: usize,
)
    requires
        layout::holding(base, s.ir.text, exit_line(x), 0),
        !own.contains(x),
        x == target || x == fall,
    ensures
        layout::holding(
            base,
            branched(s, own, ops::tmp_name(n), target, fall).ir.text,
            exit_line(x),
            if s.exits.contains(x) {
                0
            } else {
                1
            },
        ),
        branched(s, own, ops::tmp_name(n), target, fall).exits.contains(x),
        s.exits.subset_of(branched(s, own, ops::tmp_name(n), target, fall).exits),
{
    broadcast use layout::lemma_plain_add;

    let test = ops::tmp_name(n);
    let a = target_label(own, target);
    let b = target_label(own, fall);
    lemma_exit_line(x);
    lemma_label_plain(own, target);
    lemma_label_plain(own, fall);
    layout::lemma_plain_tmp(n);
    reveal_strlit("  ");
    reveal_strlit("br i1 ");
    reveal_strlit("  br i1 ");
    assert(split::plain("br i1 "@) && split::plain(", label %"@)) by {
        reveal(split::plain);
        reveal_strlit(", label %");
    }
    let rest = "br i1 "@ + test + ", label %"@ + a + ", label %"@ + b;
    layout::lemma_holding_code(base, s.ir.text, exit_line(x), 0, rest);
    assert("  br i1 "@ =~= "  "@ + "br i1 "@);
    let text = lines::br_cond_line(s.ir.text, test, a, b);
    assert(text =~= s.ir.text + "  "@ + rest + "\n"@);
    let split_scene = Scene { ir: Ir { text, next: s.ir.next }, exits: s.exits };
    lemma_with_exit_held(base, split_scene, own, target, x, 0);
    let mid = with_exit(split_scene, own, target);
    let k: nat = if target == x && !s.exits.contains(x) {
        1
    } else {
        0
    };
    lemma_with_exit_held(base, mid, own, fall, x, k);
}

proof fn lemma_branch_test_held(
    base: Seq<char>,
    s: Seq<char>,
    x: usize,
    n: u64,
    cond: Seq<char>,
    l: u64,
    r: Seq<char>,
)
    requires
        layout::holding(base, s, exit_line(x), 0),
        split::plain(r),
    ensures
        layout::holding(
            base,
            s + "  "@ + ops::tmp_name(n) + " = icmp "@ + branch_predicate(cond) + " i64 "@
                + ops::tmp_name(l) + ", "@ + r + "\n"@,
            exit_line(x),
            0,
        ),
{
    broadcast use layout::lemma_plain_add;

    lemma_exit_line(x);
    layout::lemma_plain_tmp(n);
    layout::lemma_plain_tmp(l);
    layout::lemma_plain_types();
    layout::lemma_plain_parts();
    assert(split::plain(" = icmp "@)) by {
        reveal(split::plain);
        reveal_strlit(" = icmp ");
    }
    let rest = ops::tmp_name(n) + " = icmp "@ + branch_predicate(cond) + " i64 "@
        + ops::tmp_name(l) + ", "@ + r;
    layout::lemma_holding_code(base, s, exit_line(x), 0, rest);
    assert(s + "  "@ + rest + "\n"@ =~= s + "  "@ + ops::tmp_name(n) + " = icmp "@
        + branch_predicate(cond) + " i64 "@ + ops::tmp_name(l) + ", "@ + r + "\n"@);
}

/// What the branch at the end of a block adds.
spec fn exits_once(s: Scene, t: Scene, x: usize) -> bool {
    &&& layout::holding(
        s.ir.text,
        t.ir.text,
        exit_line(x),
        if s.exits.contains(x) {
            0
        } else {
            1
        },
    )
    &&& t.exits.contains(x)
    &&& s.exits.subset_of(t.exits)
}

/// A branch on a register and a constant.
spec fn constant_branch(
    s: Scene,
    own: Set<usize>,
    cond: Seq<char>,
    reg: u8,
    value: i64,
    target: usize,
    fall: usize,
) -> Scene {
    let t1 = ops::tmp_name(s.ir.next);
    let n1 = ops::fresh(s.ir.next);
    let t2 = ops::tmp_name(n1);
    let text = lines::compare_const_line(
        lines::load_line(s.ir.text, t1, reg),
        t2,
        branch_predicate(cond),
        t1,
        value,
    );
    let tested = Scene { ir: Ir { text, next: ops::fresh(n1) }, exits: s.exits };
    branched(tested, own, t2, target, fall)
}

/// A branch on two registers.
spec fn register_branch(
    s: Scene,
    own: Set<usize>,
    cond: Seq<char>,
    reg1: u8,
    reg2: u8,
    target: usize,
    fall: usize,
) -> Scene {
    let t1 = ops::tmp_name(s.ir.next);
    let n1 = ops::fresh(s.ir.next);
    let t2 = ops::tmp_name(n1);
    let n2 = ops::fresh(n1);
    let t3 = ops::tmp_name(n2);
    let text = lines::compare_line(
        lines::load_line(lines::load_line(s.ir.text, t1, reg1), t2, reg2),
        t3,
        branch_predicate(cond),
        "i64"@,
        t1,
        t2,
    );
    let tested = Scene { ir: Ir { text, next: ops::fresh(n2) }, exits: s.exits };
    branched(tested, own, t3, target, fall)
}

proof fn lemma_constant_branch(
    s: Scene,
    own: Set<usize>,
    cond: Seq<char>,
    reg: u8,
    value: i64,
    target: usize,
    fall: usize,
    x: usize,
)
    requires
        !own.contains(x),
        x == target || x == fall,
    ensures
        exits_once(s, constant_branch(s, own, cond, reg, value, target, fall), x),
{
    let base = s.ir.text;
    let n0 = s.ir.next;
    let n1 = ops::fresh(n0);
    layout::lemma_holding_start(base, exit_line(x));
    let loaded = lines::load_line(base, ops::tmp_name(n0), reg);
    lemma_load_held(base, base, x, 0, n0, reg);
    let number = text::dec_signed(value as int);
    layout::lemma_plain_signed(value as int);
    lemma_branch_test_held(base, loaded, x, n1, cond, n0, number);
    let tested = lines::compare_const_line(
        loaded,
        ops::tmp_name(n1),
        branch_predicate(cond),
        ops::tmp_name(n0),
        value,
    );
    let sc = Scene { ir: Ir { text: tested, next: ops::fresh(n1) }, exits: s.exits };
    lemma_branched_held(base, sc, own, n1, target, fall, x);
}

proof fn lemma_register_branch(
    s: Scene,
    own: Set<usize>,
    cond: Seq<char>,
    reg1: u8,
    reg2: u8,
    target: usize,
    fall: usize,
    x: usize,
)
    requires
        !own.contains(x),
        x == target || x == fall,
    ensures
        exits_once(s, register_branch(s, own, cond, reg1, reg2, target, fall), x),
{
    let base = s.ir.text;
    let n0 = s.ir.next;
    let n1 = ops::fresh(n0);
    let n2 = ops::fresh(n1);
    layout::lemma_holding_start(base, exit_line(x));
    let first = lines::load_line(base, ops::tmp_name(n0), reg1);
    lemma_load_held(base, base, x, 0, n0, reg1);
    let second = lines::load_line(first, ops::tmp_name(n1), reg2);
    lemma_load_held(base, first, x, 0, n1, reg2);
    layout::lemma_plain_tmp(n1);
    lemma_branch_test_held(base, second, x, n2, cond, n0, ops::tmp_name(n1));
    let p = branch_predicate(cond);
    let tested = lines::compare_line(
        second,
        ops::tmp_name(n2),
        p,
        "i64"@,
        ops::tmp_name(n0),
        ops::tmp_name(n1),
    );
    lemma_compare_text(second, ops::tmp_name(n2), p, ops::tmp_name(n0), ops::tmp_name(n1));
    let sc = Scene { ir: Ir { text: tested, next: ops::fresh(n2) }, exits: s.exits };
    lemma_branched_held(base, sc, own, n2, target, fall, x);
}

proof fn lemma_compare_text(s: Seq<char>, t: Seq<char>, p: Seq<char>, l: Seq<char>, r: Seq<char>)
    ensures
        lines::compare_line(s, t, p, "i64"@, l, r) == s + "  "@ + t + " = icmp "@ + p + " i64 "@ + l
            + ", "@ + r + "\n"@,
{
    reveal_strlit(" ");
    reveal_strlit("i64");
    reveal_strlit(" i64 ");
    assert(" i64 "@ =~= " "@ + "i64"@ + " "@);
    assert(lines::compare_line(s, t, p, "i64"@, l, r) =~= s + "  "@ + t + " = icmp "@ + p
        + " i64 "@ + l + ", "@ + r + "\n"@);
}

/// A conditional branch at the end of a block writes the label of a place outside the function
/// that it leads to once, unless it was written before. Text and labels that were there stay.
pub proof fn law_branch_writes_exit_once(
    s: Scene,
    b: BasicBlock,
    table: Seq<u32>,
    own: Set<usize>,
    x: usize,
)
    requires
        b.instructions@.len() > 0,
        ({
            let shape = instruction::classified(b.instructions@.last().1);
            shape is BranchImm || shape is BranchReg
        }),
        cfg::target_of(b.instructions@.last()) == Some(x) || x == b.end_pc,
        !own.contains(x),
    ensures
        s.ir.text.is_prefix_of(terminator(s, b, table, own).ir.text),
        layout::occurrences(
            split::lines_from(
                layout::added(s.ir.text, terminator(s, b, table, own).ir.text),
                0,
            ),
            exit_line(x),
        ) == if s.exits.contains(x) {
            0nat
        } else {
            1
        },
        terminator(s, b, table, own).exits.contains(x),
        s.exits.subset_of(terminator(s, b, table, own).exits),
{
    reveal(terminator);
    let t = terminator(s, b, table, own);
    let (pc, instr) = b.instructions@.last();
    match instruction::classified(instr) {
        InstructionShape::BranchImm { cond, reg, value, offset } => {
            let target = cfg::jump_target(pc, offset);
            lemma_constant_branch(s, own, cond@, reg, value as i64, target, b.end_pc, x);
        },
        InstructionShape::BranchReg { cond, reg1, reg2, offset } => {
            let target = cfg::jump_target(pc, offset);
            lemma_register_branch(s, own, cond@, reg1, reg2, target, b.end_pc, x);
        },
        _ => {},
    }
    layout::lemma_holding_end(
        s.ir.text,
        t.ir.text,
        exit_line(x),
        if s.exits.contains(x) {
            0
        } else {
            1
        },
    );
}

} // verus!
