//! The lines of LLVM IR text.
//!
//! Each line has a spec function that appends it to a text, and a function that does so.

use crate::text;
use crate::text::{push_dec, push_dec_signed, push_hex_padded};
use vstd::prelude::*;

verus! {

/// `s`, and a line: a register loaded into `t`.
pub open spec fn load_line(s: Seq<char>, t: Seq<char>, reg: u8) -> Seq<char> {
    s + "  "@ + t + " = load i64, ptr %r"@ + text::dec(reg as nat) + ", align 8\n"@
}

pub(crate) fn push_load(out: &mut String, t: &str, reg: u8)
    ensures
        final(out)@ == load_line(old(out)@, t@, reg),
{
    out.append("  ");
    out.append(t);
    out.append(" = load i64, ptr %r");
    push_dec(out, reg as u64);
    out.append(", align 8\n");
}

/// `s`, and a line: a value stored into a register.
pub open spec fn store_line(s: Seq<char>, v: Seq<char>, reg: u8) -> Seq<char> {
    s + "  store i64 "@ + v + ", ptr %r"@ + text::dec(reg as nat) + ", align 8\n"@
}

pub(crate) fn push_store(out: &mut String, v: &str, reg: u8)
    ensures
        final(out)@ == store_line(old(out)@, v@, reg),
{
    out.append("  store i64 ");
    out.append(v);
    out.append(", ptr %r");
    push_dec(out, reg as u64);
    out.append(", align 8\n");
}

/// `s`, and a line: a constant stored into a register.
pub open spec fn store_const_line(s: Seq<char>, value: i64, reg: u8) -> Seq<char> {
    s + "  store i64 "@ + text::dec_signed(value as int) + ", ptr %r"@ + text::dec(reg as nat) + ", align 8\n"@
}

pub(crate) fn push_store_const(out: &mut String, value: i64, reg: u8)
    ensures
        final(out)@ == store_const_line(old(out)@, value, reg),
{
    out.append("  store i64 ");
    push_dec_signed(out, value);
    out.append(", ptr %r");
    push_dec(out, reg as u64);
    out.append(", align 8\n");
}

/// `s`, and a line: `t` set to a constant.
pub open spec fn const_line(s: Seq<char>, t: Seq<char>, value: i64) -> Seq<char> {
    s + "  "@ + t + " = add i64 0, "@ + text::dec_signed(value as int) + "\n"@
}

pub(crate) fn push_const(out: &mut String, t: &str, value: i64)
    ensures
        final(out)@ == const_line(old(out)@, t@, value),
{
    out.append("  ");
    out.append(t);
    out.append(" = add i64 0, ");
    push_dec_signed(out, value);
    out.append("\n");
}

/// `s`, and a line: `t` set to a value and an offset.
pub open spec fn offset_line(s: Seq<char>, t: Seq<char>, v: Seq<char>, offset: i64) -> Seq<char> {
    s + "  "@ + t + " = add i64 "@ + v + ", "@ + text::dec_signed(offset as int) + "\n"@
}

pub(crate) fn push_offset(out: &mut String, t: &str, v: &str, offset: i64)
    ensures
        final(out)@ == offset_line(old(out)@, t@, v@, offset),
{
    out.append("  ");
    out.append(t);
    out.append(" = add i64 ");
    out.append(v);
    out.append(", ");
    push_dec_signed(out, offset);
    out.append("\n");
}

/// `s`, and a line: `t` set to an operation on two values.
pub open spec fn op_line(s: Seq<char>, t: Seq<char>, op: Seq<char>, ty: Seq<char>, l: Seq<char>, r: Seq<char>) -> Seq<char> {
    s + "  "@ + t + " = "@ + op + " "@ + ty + " "@ + l + ", "@ + r + "\n"@
}

pub(crate) fn push_op(out: &mut String, t: &str, op: &str, ty: &str, l: &str, r: &str)
    ensures
        final(out)@ == op_line(old(out)@, t@, op@, ty@, l@, r@),
{
    out.append("  ");
    out.append(t);
    out.append(" = ");
    out.append(op);
    out.append(" ");
    out.append(ty);
    out.append(" ");
    out.append(l);
    out.append(", ");
    out.append(r);
    out.append("\n");
}

/// `s`, and a line: `t` set to a comparison of two values.
pub open spec fn compare_line(s: Seq<char>, t: Seq<char>, cond: Seq<char>, ty: Seq<char>, l: Seq<char>, r: Seq<char>) -> Seq<char> {
    s + "  "@ + t + " = icmp "@ + cond + " "@ + ty + " "@ + l + ", "@ + r + "\n"@
}

pub(crate) fn push_compare(out: &mut String, t: &str, cond: &str, ty: &str, l: &str, r: &str)
    ensures
        final(out)@ == compare_line(old(out)@, t@, cond@, ty@, l@, r@),
{
    out.append("  ");
    out.append(t);
    out.append(" = icmp ");
    out.append(cond);
    out.append(" ");
    out.append(ty);
    out.append(" ");
    out.append(l);
    out.append(", ");
    out.append(r);
    out.append("\n");
}

/// `s`, and a line: `t` set to a comparison with a constant.
pub open spec fn compare_const_line(s: Seq<char>, t: Seq<char>, cond: Seq<char>, l: Seq<char>, value: i64) -> Seq<char> {
    s + "  "@ + t + " = icmp "@ + cond + " i64 "@ + l + ", "@ + text::dec_signed(value as int) + "\n"@
}

pub(crate) fn push_compare_const(out: &mut String, t: &str, cond: &str, l: &str, value: i64)
    ensures
        final(out)@ == compare_const_line(old(out)@, t@, cond@, l@, value),
{
    out.append("  ");
    out.append(t);
    out.append(" = icmp ");
    out.append(cond);
    out.append(" i64 ");
    out.append(l);
    out.append(", ");
    push_dec_signed(out, value);
    out.append("\n");
}

/// `s`, and a line: `t` set to a value of another width.
pub open spec fn cast_line(s: Seq<char>, t: Seq<char>, op: Seq<char>, from: Seq<char>, v: Seq<char>, to: Seq<char>) -> Seq<char> {
    s + "  "@ + t + " = "@ + op + " "@ + from + " "@ + v + " to "@ + to + "\n"@
}

pub(crate) fn push_cast(out: &mut String, t: &str, op: &str, from: &str, v: &str, to: &str)
    ensures
        final(out)@ == cast_line(old(out)@, t@, op@, from@, v@, to@),
{
    out.append("  ");
    out.append(t);
    out.append(" = ");
    out.append(op);
    out.append(" ");
    out.append(from);
    out.append(" ");
    out.append(v);
    out.append(" to ");
    out.append(to);
    out.append("\n");
}

/// `s`, and a line: `t` set to one of two values.
pub open spec fn select_line(s: Seq<char>, t: Seq<char>, c: Seq<char>, ty: Seq<char>, l: Seq<char>, r: Seq<char>) -> Seq<char> {
    s + "  "@ + t + " = select i1 "@ + c + ", "@ + ty + " "@ + l + ", "@ + ty + " "@ + r + "\n"@
}

pub(crate) fn push_select(out: &mut String, t: &str, c: &str, ty: &str, l: &str, r: &str)
    ensures
        final(out)@ == select_line(old(out)@, t@, c@, ty@, l@, r@),
{
    out.append("  ");
    out.append(t);
    out.append(" = select i1 ");
    out.append(c);
    out.append(", ");
    out.append(ty);
    out.append(" ");
    out.append(l);
    out.append(", ");
    out.append(ty);
    out.append(" ");
    out.append(r);
    out.append("\n");
}

/// `s`, and a line: `t` set to a constant or a value.
pub open spec fn select_const_line(s: Seq<char>, t: Seq<char>, c: Seq<char>, value: i64, r: Seq<char>) -> Seq<char> {
    s + "  "@ + t + " = select i1 "@ + c + ", i64 "@ + text::dec_signed(value as int) + ", i64 "@ + r + "\n"@
}

pub(crate) fn push_select_const(out: &mut String, t: &str, c: &str, value: i64, r: &str)
    ensures
        final(out)@ == select_const_line(old(out)@, t@, c@, value, r@),
{
    out.append("  ");
    out.append(t);
    out.append(" = select i1 ");
    out.append(c);
    out.append(", i64 ");
    push_dec_signed(out, value);
    out.append(", i64 ");
    out.append(r);
    out.append("\n");
}

/// `s`, and a line: `t` set to a rotated value.
pub open spec fn funnel_line(s: Seq<char>, t: Seq<char>, f: Seq<char>, ty: Seq<char>, l: Seq<char>, r: Seq<char>) -> Seq<char> {
    s + "  "@ + t + " = call "@ + ty + " @llvm."@ + f + "."@ + ty + "("@ + ty + " "@ + l + ", "@ + ty + " "@ + l + ", "@ + ty + " "@ + r + ")\n"@
}

pub(crate) fn push_funnel(out: &mut String, t: &str, f: &str, ty: &str, l: &str, r: &str)
    ensures
        final(out)@ == funnel_line(old(out)@, t@, f@, ty@, l@, r@),
{
    out.append("  ");
    out.append(t);
    out.append(" = call ");
    out.append(ty);
    out.append(" @llvm.");
    out.append(f);
    out.append(".");
    out.append(ty);
    out.append("(");
    out.append(ty);
    out.append(" ");
    out.append(l);
    out.append(", ");
    out.append(ty);
    out.append(" ");
    out.append(l);
    out.append(", ");
    out.append(ty);
    out.append(" ");
    out.append(r);
    out.append(")\n");
}

/// `s`, and a line: `t` set to an intrinsic of a value.
pub open spec fn intrinsic_line(s: Seq<char>, t: Seq<char>, f: Seq<char>, ty: Seq<char>, v: Seq<char>) -> Seq<char> {
    s + "  "@ + t + " = call "@ + ty + " @llvm."@ + f + "."@ + ty + "("@ + ty + " "@ + v + ")\n"@
}

pub(crate) fn push_intrinsic(out: &mut String, t: &str, f: &str, ty: &str, v: &str)
    ensures
        final(out)@ == intrinsic_line(old(out)@, t@, f@, ty@, v@),
{
    out.append("  ");
    out.append(t);
    out.append(" = call ");
    out.append(ty);
    out.append(" @llvm.");
    out.append(f);
    out.append(".");
    out.append(ty);
    out.append("(");
    out.append(ty);
    out.append(" ");
    out.append(v);
    out.append(")\n");
}

/// `s`, and a line: `t` set to a count of zeros.
pub open spec fn count_line(s: Seq<char>, t: Seq<char>, f: Seq<char>, ty: Seq<char>, v: Seq<char>) -> Seq<char> {
    s + "  "@ + t + " = call "@ + ty + " @llvm."@ + f + "."@ + ty + "("@ + ty + " "@ + v + ", i1 false)\n"@
}

pub(crate) fn push_count(out: &mut String, t: &str, f: &str, ty: &str, v: &str)
    ensures
        final(out)@ == count_line(old(out)@, t@, f@, ty@, v@),
{
    out.append("  ");
    out.append(t);
    out.append(" = call ");
    out.append(ty);
    out.append(" @llvm.");
    out.append(f);
    out.append(".");
    out.append(ty);
    out.append("(");
    out.append(ty);
    out.append(" ");
    out.append(v);
    out.append(", i1 false)\n");
}

/// `s`, and a line: `t` set to newly allocated memory.
pub open spec fn sbrk_line(s: Seq<char>, t: Seq<char>, v: Seq<char>) -> Seq<char> {
    s + "  "@ + t + " = call i64 @pvm_sbrk(i64 "@ + v + ")\n"@
}

pub(crate) fn push_sbrk(out: &mut String, t: &str, v: &str)
    ensures
        final(out)@ == sbrk_line(old(out)@, t@, v@),
{
    out.append("  ");
    out.append(t);
    out.append(" = call i64 @pvm_sbrk(i64 ");
    out.append(v);
    out.append(")\n");
}

/// `s`, and a line: a host call.
pub open spec fn ecalli_line(s: Seq<char>, index: u32) -> Seq<char> {
    s + "  call void @pvm_ecalli(i32 "@ + text::dec(index as nat) + ")\n"@
}

pub(crate) fn push_ecalli(out: &mut String, index: u32)
    ensures
        final(out)@ == ecalli_line(old(out)@, index),
{
    out.append("  call void @pvm_ecalli(i32 ");
    push_dec(out, index as u64);
    out.append(")\n");
}

/// `s`, and a line: an opcode that is not known.
pub open spec fn unknown_line(s: Seq<char>, opcode: u8) -> Seq<char> {
    s + "  ; unknown opcode 0x"@ + text::hex_padded(opcode as nat, 2) + "\n"@
}

pub(crate) fn push_unknown(out: &mut String, opcode: u8)
    ensures
        final(out)@ == unknown_line(old(out)@, opcode),
{
    out.append("  ; unknown opcode 0x");
    push_hex_padded(out, opcode as u64, 2);
    out.append("\n");
}

/// `s`, and a line: a trap.
pub open spec fn trap_lines(s: Seq<char>) -> Seq<char> {
    s + "  call void @pvm_trap()\n  unreachable\n"@
}

pub(crate) fn push_trap(out: &mut String)
    ensures
        final(out)@ == trap_lines(old(out)@),
{
    out.append("  call void @pvm_trap()\n  unreachable\n");
}

/// `s`, and a line: a return.
pub open spec fn ret_line(s: Seq<char>, v: Seq<char>) -> Seq<char> {
    s + "  ret i64 "@ + v + "\n"@
}

pub(crate) fn push_ret(out: &mut String, v: &str)
    ensures
        final(out)@ == ret_line(old(out)@, v@),
{
    out.append("  ret i64 ");
    out.append(v);
    out.append("\n");
}

/// `s`, and a line: a jump to a block.
pub open spec fn br_line(s: Seq<char>, pc: usize) -> Seq<char> {
    s + "  br label %bb_"@ + text::hex_padded(pc as nat, 4) + "\n"@
}

pub(crate) fn push_br(out: &mut String, pc: usize)
    ensures
        final(out)@ == br_line(old(out)@, pc),
{
    out.append("  br label %bb_");
    push_hex_padded(out, pc as u64, 4);
    out.append("\n");
}

/// `s`, and a line: a branch.
pub open spec fn br_cond_line(s: Seq<char>, c: Seq<char>, target: Seq<char>, fall: Seq<char>) -> Seq<char> {
    s + "  br i1 "@ + c + ", label %"@ + target + ", label %"@ + fall + "\n"@
}

pub(crate) fn push_br_cond(out: &mut String, c: &str, target: &str, fall: &str)
    ensures
        final(out)@ == br_cond_line(old(out)@, c@, target@, fall@),
{
    out.append("  br i1 ");
    out.append(c);
    out.append(", label %");
    out.append(target);
    out.append(", label %");
    out.append(fall);
    out.append("\n");
}

/// `s`, and a line: a label behind a blank line.
pub open spec fn label_line(s: Seq<char>, name: Seq<char>) -> Seq<char> {
    s + "\n"@ + name + ":\n"@
}

pub(crate) fn push_label(out: &mut String, name: &str)
    ensures
        final(out)@ == label_line(old(out)@, name@),
{
    out.append("\n");
    out.append(name);
    out.append(":\n");
}

/// `s`, and a line: the label of a block.
pub open spec fn block_line(s: Seq<char>, pc: usize) -> Seq<char> {
    s + "bb_"@ + text::hex_padded(pc as nat, 4) + ":\n"@
}

pub(crate) fn push_block(out: &mut String, pc: usize)
    ensures
        final(out)@ == block_line(old(out)@, pc),
{
    out.append("bb_");
    push_hex_padded(out, pc as u64, 4);
    out.append(":\n");
}

/// `s`, and a line: `t` set to a place in memory.
pub open spec fn element_line(s: Seq<char>, t: Seq<char>, addr: Seq<char>) -> Seq<char> {
    s + "  "@ + t + " = getelementptr [268435456 x i8], ptr @pvm_memory, i64 0, i64 "@ + addr + "\n"@
}

pub(crate) fn push_element(out: &mut String, t: &str, addr: &str)
    ensures
        final(out)@ == element_line(old(out)@, t@, addr@),
{
    out.append("  ");
    out.append(t);
    out.append(" = getelementptr [268435456 x i8], ptr @pvm_memory, i64 0, i64 ");
    out.append(addr);
    out.append("\n");
}

/// `s`, and a line: `t` set to what memory holds.
pub open spec fn read_line(s: Seq<char>, t: Seq<char>, ty: Seq<char>, place: Seq<char>) -> Seq<char> {
    s + "  "@ + t + " = load "@ + ty + ", ptr "@ + place + "\n"@
}

pub(crate) fn push_read(out: &mut String, t: &str, ty: &str, place: &str)
    ensures
        final(out)@ == read_line(old(out)@, t@, ty@, place@),
{
    out.append("  ");
    out.append(t);
    out.append(" = load ");
    out.append(ty);
    out.append(", ptr ");
    out.append(place);
    out.append("\n");
}

/// `s`, and a line: a value stored into memory.
pub open spec fn write_line(s: Seq<char>, ty: Seq<char>, v: Seq<char>, place: Seq<char>) -> Seq<char> {
    s + "  store "@ + ty + " "@ + v + ", ptr "@ + place + "\n"@
}

pub(crate) fn push_write(out: &mut String, ty: &str, v: &str, place: &str)
    ensures
        final(out)@ == write_line(old(out)@, ty@, v@, place@),
{
    out.append("  store ");
    out.append(ty);
    out.append(" ");
    out.append(v);
    out.append(", ptr ");
    out.append(place);
    out.append("\n");
}

/// `s`, and a line: the start of a switch.
pub open spec fn switch_start(s: Seq<char>, v: Seq<char>, label: Seq<char>) -> Seq<char> {
    s + "  switch i32 "@ + v + ", label %"@ + label + " ["@
}

pub(crate) fn push_switch_start(out: &mut String, v: &str, label: &str)
    ensures
        final(out)@ == switch_start(old(out)@, v@, label@),
{
    out.append("  switch i32 ");
    out.append(v);
    out.append(", label %");
    out.append(label);
    out.append(" [");
}

/// `s`, and a line: a case of a switch.
pub open spec fn switch_case(s: Seq<char>, index: usize, pc: usize) -> Seq<char> {
    s + " i32 "@ + text::dec(index as nat) + ", label %bb_"@ + text::hex_padded(pc as nat, 4)
}

pub(crate) fn push_switch_case(out: &mut String, index: usize, pc: usize)
    ensures
        final(out)@ == switch_case(old(out)@, index, pc),
{
    out.append(" i32 ");
    push_dec(out, index as u64);
    out.append(", label %bb_");
    push_hex_padded(out, pc as u64, 4);
}

/// `s`, and a line: the start of a function.
pub open spec fn define_lines(s: Seq<char>, name: Seq<char>) -> Seq<char> {
    s + "define i64 @"@ + name + "() {\nentry:\n"@
}

pub(crate) fn push_define(out: &mut String, name: &str)
    ensures
        final(out)@ == define_lines(old(out)@, name@),
{
    out.append("define i64 @");
    out.append(name);
    out.append("() {\nentry:\n");
}

/// `s`, and a line: the allocation of a register.
pub open spec fn alloca_line(s: Seq<char>, reg: u8) -> Seq<char> {
    s + "  %r"@ + text::dec(reg as nat) + " = alloca i64, align 8\n"@
}

pub(crate) fn push_alloca(out: &mut String, reg: u8)
    ensures
        final(out)@ == alloca_line(old(out)@, reg),
{
    out.append("  %r");
    push_dec(out, reg as u64);
    out.append(" = alloca i64, align 8\n");
}

/// `s`, and a line: a register set to zero.
pub open spec fn clear_line(s: Seq<char>, reg: u8) -> Seq<char> {
    s + "  store i64 0, ptr %r"@ + text::dec(reg as nat) + ", align 8\n"@
}

pub(crate) fn push_clear(out: &mut String, reg: u8)
    ensures
        final(out)@ == clear_line(old(out)@, reg),
{
    out.append("  store i64 0, ptr %r");
    push_dec(out, reg as u64);
    out.append(", align 8\n");
}

/// `s`, and a line: the stack pointer set up.
pub open spec fn stack_line(s: Seq<char>, base: u64) -> Seq<char> {
    s + "  store i64 "@ + text::dec(base as nat) + ", ptr %r1, align 8 ; SP = memory_base\n"@
}

pub(crate) fn push_stack(out: &mut String, base: u64)
    ensures
        final(out)@ == stack_line(old(out)@, base),
{
    out.append("  store i64 ");
    push_dec(out, base);
    out.append(", ptr %r1, align 8 ; SP = memory_base\n");
}

/// `s`, and a line: the jump to the entry block.
pub open spec fn enter_lines(s: Seq<char>, pc: usize) -> Seq<char> {
    s + "  br label %bb_"@ + text::hex_padded(pc as nat, 4) + "\n\n"@
}

pub(crate) fn push_enter(out: &mut String, pc: usize)
    ensures
        final(out)@ == enter_lines(old(out)@, pc),
{
    out.append("  br label %bb_");
    push_hex_padded(out, pc as u64, 4);
    out.append("\n\n");
}

} // verus!
