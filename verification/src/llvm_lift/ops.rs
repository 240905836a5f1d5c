//! LLVM IR for operations on values.

use crate::instruction::{BinOp, BitWidth, UnaryOp};
use crate::llvm_lift::layout;
use crate::llvm_lift::lines;
use crate::llvm_lift::lines::{
    push_cast, push_compare, push_count, push_funnel, push_intrinsic, push_op, push_sbrk,
    push_select, push_store,
};
use crate::structuring::lines as split;
use crate::text;
use crate::text::push_dec;
use vstd::prelude::*;

verus! {

/// Emitted text, and the number of the next temporary.
pub struct Ir {
    pub text: Seq<char>,
    pub next: u64,
}

/// The number after `n`; the numbers start over at the end of their range.
pub open spec fn fresh(n: u64) -> u64 {
    if n == u64::MAX {
        0
    } else {
        (n + 1) as u64
    }
}

/// The name of a temporary.
pub open spec fn tmp_name(n: u64) -> Seq<char> {
    "%t"@ + text::dec(n as nat)
}

/// Generate next temporary variable name.
pub(crate) fn next_tmp(counter: &mut u64) -> (name: String)
    ensures
        name@ == tmp_name(*old(counter)),
        *final(counter) == fresh(*old(counter)),
{
    let mut name = "%t".to_owned();
    push_dec(&mut name, *counter);
    *counter = counter.wrapping_add(1);
    name
}

/// The instruction that an operator is, where it is a single one on both operands.
pub open spec fn plain_op(op: BinOp) -> Option<Seq<char>> {
    match op {
        BinOp::Add => Some("add"@),
        BinOp::Sub => Some("sub"@),
        BinOp::Mul => Some("mul"@),
        BinOp::DivU => Some("udiv"@),
        BinOp::DivS => Some("sdiv"@),
        BinOp::RemU => Some("urem"@),
        BinOp::RemS => Some("srem"@),
        BinOp::Shl => Some("shl"@),
        BinOp::ShrU => Some("lshr"@),
        BinOp::ShrS => Some("ashr"@),
        BinOp::And => Some("and"@),
        BinOp::Or => Some("or"@),
        BinOp::Xor => Some("xor"@),
        _ => None,
    }
}

fn plain_op_str(op: BinOp) -> (r: Option<&'static str>)
    ensures
        r is Some == plain_op(op) is Some,
        r is Some ==> Some(r->0@) == plain_op(op),
{
    match op {
        BinOp::Add => Some("add"),
        BinOp::Sub => Some("sub"),
        BinOp::Mul => Some("mul"),
        BinOp::DivU => Some("udiv"),
        BinOp::DivS => Some("sdiv"),
        BinOp::RemU => Some("urem"),
        BinOp::RemS => Some("srem"),
        BinOp::Shl => Some("shl"),
        BinOp::ShrU => Some("lshr"),
        BinOp::ShrS => Some("ashr"),
        BinOp::And => Some("and"),
        BinOp::Or => Some("or"),
        BinOp::Xor => Some("xor"),
        _ => None,
    }
}

/// The predicate that a comparing operator is.
pub open spec fn predicate(op: BinOp) -> Option<Seq<char>> {
    match op {
        BinOp::LtU => Some("ult"@),
        BinOp::LtS => Some("slt"@),
        BinOp::GeU => Some("uge"@),
        BinOp::GeS => Some("sge"@),
        BinOp::GtU => Some("ugt"@),
        BinOp::GtS => Some("sgt"@),
        BinOp::LeU => Some("ule"@),
        BinOp::LeS => Some("sle"@),
        _ => None,
    }
}

fn predicate_str(op: BinOp) -> (r: Option<&'static str>)
    ensures
        r is Some == predicate(op) is Some,
        r is Some ==> Some(r->0@) == predicate(op),
{
    match op {
        BinOp::LtU => Some("ult"),
        BinOp::LtS => Some("slt"),
        BinOp::GeU => Some("uge"),
        BinOp::GeS => Some("sge"),
        BinOp::GtU => Some("ugt"),
        BinOp::GtS => Some("sgt"),
        BinOp::LeU => Some("ule"),
        BinOp::LeS => Some("sle"),
        _ => None,
    }
}

/// How the two operands of a multiplication for its upper half are extended.
pub open spec fn extensions(op: BinOp) -> Option<(Seq<char>, Seq<char>)> {
    match op {
        BinOp::MulUpperSS => Some(("sext"@, "sext"@)),
        BinOp::MulUpperUU => Some(("zext"@, "zext"@)),
        BinOp::MulUpperSU => Some(("sext"@, "zext"@)),
        _ => None,
    }
}

/// The type of an operation.
pub open spec fn ty_of(width: BitWidth) -> Seq<char> {
    match width {
        BitWidth::W32 => "i32"@,
        BitWidth::W64 => "i64"@,
    }
}

fn ty_str(width: BitWidth) -> (r: &'static str)
    ensures
        r@ == ty_of(width),
{
    match width {
        BitWidth::W32 => "i32",
        BitWidth::W64 => "i64",
    }
}

/// A comparison, widened and stored.
pub open spec fn comparison(
    s: Ir,
    cond: Seq<char>,
    width: BitWidth,
    dst: u8,
    l: Seq<char>,
    r: Seq<char>,
) -> Ir {
    let result = tmp_name(s.next);
    let b = fresh(s.next);
    let ext = tmp_name(b);
    let c = fresh(b);
    let wide = tmp_name(c);
    let compared = lines::compare_line(s.text, result, cond, ty_of(width), l, r);
    let extended = lines::cast_line(compared, ext, "zext"@, "i1"@, result, ty_of(width));
    match width {
        BitWidth::W32 => Ir {
            text: lines::store_line(
                lines::cast_line(extended, wide, "zext"@, "i32"@, ext, "i64"@),
                wide,
                dst,
            ),
            next: fresh(c),
        },
        BitWidth::W64 => Ir { text: lines::store_line(extended, ext, dst), next: c },
    }
}

/// The upper half of a product, stored.
pub open spec fn upper_product(
    s: Ir,
    exts: (Seq<char>, Seq<char>),
    dst: u8,
    l: Seq<char>,
    r: Seq<char>,
) -> Ir {
    let result = tmp_name(s.next);
    let n1 = fresh(s.next);
    let n2 = fresh(n1);
    let n3 = fresh(n2);
    let n4 = fresh(n3);
    let t1 = lines::cast_line(s.text, tmp_name(n1), exts.0, "i64"@, l, "i128"@);
    let t2 = lines::cast_line(t1, tmp_name(n2), exts.1, "i64"@, r, "i128"@);
    let t3 = lines::op_line(t2, tmp_name(n3), "mul"@, "i128"@, tmp_name(n1), tmp_name(n2));
    let t4 = lines::op_line(t3, tmp_name(n4), "lshr"@, "i128"@, tmp_name(n3), "64"@);
    let t5 = lines::cast_line(t4, result, "trunc"@, "i128"@, tmp_name(n4), "i64"@);
    Ir { text: lines::store_line(t5, result, dst), next: fresh(n4) }
}

/// Which of two values is taken by a comparison.
pub open spec fn chosen(
    s: Ir,
    cond: Seq<char>,
    ty: Seq<char>,
    result: Seq<char>,
    l: Seq<char>,
    r: Seq<char>,
) -> Ir {
    let c = tmp_name(s.next);
    Ir {
        text: lines::select_line(
            lines::compare_line(s.text, c, cond, ty, l, r),
            result,
            c,
            ty,
            l,
            r,
        ),
        next: fresh(s.next),
    }
}

/// An operation with the second operand inverted.
pub open spec fn inverted(
    s: Ir,
    op: Seq<char>,
    ty: Seq<char>,
    result: Seq<char>,
    l: Seq<char>,
    r: Seq<char>,
) -> Ir {
    let inv = tmp_name(s.next);
    Ir {
        text: lines::op_line(
            lines::op_line(s.text, inv, "xor"@, ty, r, "-1"@),
            result,
            op,
            ty,
            l,
            inv,
        ),
        next: fresh(s.next),
    }
}

/// The operation that sets `result`, of the operators that neither compare nor take the
/// upper half of a product.
pub open spec fn operation(
    s: Ir,
    op: BinOp,
    ty: Seq<char>,
    result: Seq<char>,
    l: Seq<char>,
    r: Seq<char>,
) -> Ir {
    match op {
        BinOp::NegAdd => Ir {
            text: lines::op_line(s.text, result, "sub"@, ty, r, l),
            next: s.next,
        },
        BinOp::RotL => Ir {
            text: lines::funnel_line(s.text, result, "fshl"@, ty, l, r),
            next: s.next,
        },
        BinOp::RotR => Ir {
            text: lines::funnel_line(s.text, result, "fshr"@, ty, l, r),
            next: s.next,
        },
        BinOp::AndInv => inverted(s, "and"@, ty, result, l, r),
        BinOp::OrInv => inverted(s, "or"@, ty, result, l, r),
        BinOp::Xnor => {
            let x = tmp_name(s.next);
            Ir {
                text: lines::op_line(
                    lines::op_line(s.text, x, "xor"@, ty, l, r),
                    result,
                    "xor"@,
                    ty,
                    x,
                    "-1"@,
                ),
                next: fresh(s.next),
            }
        },
        BinOp::Max => chosen(s, "sgt"@, ty, result, l, r),
        BinOp::MaxU => chosen(s, "ugt"@, ty, result, l, r),
        BinOp::Min => chosen(s, "slt"@, ty, result, l, r),
        BinOp::MinU => chosen(s, "ult"@, ty, result, l, r),
        _ => match plain_op(op) {
            Some(name) => Ir {
                text: lines::op_line(s.text, result, name, ty, l, r),
                next: s.next,
            },
            None => s,
        },
    }
}

/// A result, widened where it has to be, and stored.
pub open spec fn stored(s: Ir, width: BitWidth, result: Seq<char>, dst: u8) -> Ir {
    match width {
        BitWidth::W32 => {
            let ext = tmp_name(s.next);
            Ir {
                text: lines::store_line(
                    lines::cast_line(s.text, ext, "zext"@, "i32"@, result, "i64"@),
                    ext,
                    dst,
                ),
                next: fresh(s.next),
            }
        },
        BitWidth::W64 => Ir { text: lines::store_line(s.text, result, dst), next: s.next },
    }
}

/// A binary operation on operands of its own width.
pub open spec fn applied(
    s: Ir,
    op: BinOp,
    width: BitWidth,
    dst: u8,
    l: Seq<char>,
    r: Seq<char>,
) -> Ir {
    match (predicate(op), extensions(op)) {
        (Some(cond), _) => comparison(s, cond, width, dst, l, r),
        (None, Some(exts)) => upper_product(s, exts, dst, l, r),
        (None, None) => {
            let result = tmp_name(s.next);
            let done = operation(
                Ir { text: s.text, next: fresh(s.next) },
                op,
                ty_of(width),
                result,
                l,
                r,
            );
            stored(done, width, result, dst)
        },
    }
}

/// A binary operation on two 64-bit values: 32-bit operands are cut first.
pub open spec fn binary(
    s: Ir,
    op: BinOp,
    width: BitWidth,
    dst: u8,
    lhs: Seq<char>,
    rhs: Seq<char>,
) -> Ir {
    match width {
        BitWidth::W32 => {
            let l = tmp_name(s.next);
            let r = tmp_name(fresh(s.next));
            let cut = Ir {
                text: lines::cast_line(
                    lines::cast_line(s.text, l, "trunc"@, "i64"@, lhs, "i32"@),
                    r,
                    "trunc"@,
                    "i64"@,
                    rhs,
                    "i32"@,
                ),
                next: fresh(fresh(s.next)),
            };
            applied(cut, op, width, dst, l, r)
        },
        BitWidth::W64 => applied(s, op, width, dst, lhs, rhs),
    }
}

fn emit_comparison(
    out: &mut String,
    cond: &str,
    width: BitWidth,
    dst: u8,
    l: &str,
    r: &str,
    tmp: &mut u64,
)
    ensures
        (Ir { text: final(out)@, next: *final(tmp) }) == comparison(
            Ir { text: old(out)@, next: *old(tmp) },
            cond@,
            width,
            dst,
            l@,
            r@,
        ),
{
    let result = next_tmp(tmp);
    let ty = ty_str(width);
    push_compare(out, &result, cond, ty, l, r);
    let ext = next_tmp(tmp);
    push_cast(out, &ext, "zext", "i1", &result, ty);
    match width {
        BitWidth::W32 => {
            let wide = next_tmp(tmp);
            push_cast(out, &wide, "zext", "i32", &ext, "i64");
            push_store(out, &wide, dst);
        },
        BitWidth::W64 => {
            push_store(out, &ext, dst);
        },
    }
}

fn emit_upper_product(
    out: &mut String,
    ext_l: &str,
    ext_r: &str,
    dst: u8,
    l: &str,
    r: &str,
    tmp: &mut u64,
)
    ensures
        (Ir { text: final(out)@, next: *final(tmp) }) == upper_product(
            Ir { text: old(out)@, next: *old(tmp) },
            (ext_l@, ext_r@),
            dst,
            l@,
            r@,
        ),
{
    let result = next_tmp(tmp);
    let el = next_tmp(tmp);
    let er = next_tmp(tmp);
    push_cast(out, &el, ext_l, "i64", l, "i128");
    push_cast(out, &er, ext_r, "i64", r, "i128");
    let product = next_tmp(tmp);
    push_op(out, &product, "mul", "i128", &el, &er);
    let shift = next_tmp(tmp);
    push_op(out, &shift, "lshr", "i128", &product, "64");
    push_cast(out, &result, "trunc", "i128", &shift, "i64");
    push_store(out, &result, dst);
}

fn emit_chosen(
    out: &mut String,
    cond: &str,
    ty: &str,
    result: &str,
    l: &str,
    r: &str,
    tmp: &mut u64,
)
    ensures
        (Ir { text: final(out)@, next: *final(tmp) }) == chosen(
            Ir { text: old(out)@, next: *old(tmp) },
            cond@,
            ty@,
            result@,
            l@,
            r@,
        ),
{
    let c = next_tmp(tmp);
    push_compare(out, &c, cond, ty, l, r);
    push_select(out, result, &c, ty, l, r);
}

fn emit_inverted(
    out: &mut String,
    op: &str,
    ty: &str,
    result: &str,
    l: &str,
    r: &str,
    tmp: &mut u64,
)
    ensures
        (Ir { text: final(out)@, next: *final(tmp) }) == inverted(
            Ir { text: old(out)@, next: *old(tmp) },
            op@,
            ty@,
            result@,
            l@,
            r@,
        ),
{
    let inv = next_tmp(tmp);
    push_op(out, &inv, "xor", ty, r, "-1");
    push_op(out, result, op, ty, l, &inv);
}

fn emit_operation(
    out: &mut String,
    op: BinOp,
    ty: &str,
    result: &str,
    l: &str,
    r: &str,
    tmp: &mut u64,
)
    ensures
        (Ir { text: final(out)@, next: *final(tmp) }) == operation(
            Ir { text: old(out)@, next: *old(tmp) },
            op,
            ty@,
            result@,
            l@,
            r@,
        ),
{
    match op {
        BinOp::NegAdd => push_op(out, result, "sub", ty, r, l),
        BinOp::RotL => push_funnel(out, result, "fshl", ty, l, r),
        BinOp::RotR => push_funnel(out, result, "fshr", ty, l, r),
        BinOp::AndInv => emit_inverted(out, "and", ty, result, l, r, tmp),
        BinOp::OrInv => emit_inverted(out, "or", ty, result, l, r, tmp),
        BinOp::Xnor => {
            let x = next_tmp(tmp);
            push_op(out, &x, "xor", ty, l, r);
            push_op(out, result, "xor", ty, &x, "-1");
        },
        BinOp::Max => emit_chosen(out, "sgt", ty, result, l, r, tmp),
        BinOp::MaxU => emit_chosen(out, "ugt", ty, result, l, r, tmp),
        BinOp::Min => emit_chosen(out, "slt", ty, result, l, r, tmp),
        BinOp::MinU => emit_chosen(out, "ult", ty, result, l, r, tmp),
        _ => {
            if let Some(name) = plain_op_str(op) {
                push_op(out, result, name, ty, l, r);
            }
        },
    }
}

fn emit_stored(out: &mut String, width: BitWidth, result: &str, dst: u8, tmp: &mut u64)
    ensures
        (Ir { text: final(out)@, next: *final(tmp) }) == stored(
            Ir { text: old(out)@, next: *old(tmp) },
            width,
            result@,
            dst,
        ),
{
    match width {
        BitWidth::W32 => {
            let ext = next_tmp(tmp);
            push_cast(out, &ext, "zext", "i32", result, "i64");
            push_store(out, &ext, dst);
        },
        BitWidth::W64 => {
            push_store(out, result, dst);
        },
    }
}

fn emit_applied(
    out: &mut String,
    op: BinOp,
    width: BitWidth,
    dst: u8,
    l: &str,
    r: &str,
    tmp: &mut u64,
)
    ensures
        (Ir { text: final(out)@, next: *final(tmp) }) == applied(
            Ir { text: old(out)@, next: *old(tmp) },
            op,
            width,
            dst,
            l@,
            r@,
        ),
{
    if let Some(cond) = predicate_str(op) {
        emit_comparison(out, cond, width, dst, l, r, tmp);
        return;
    }
    match op {
        BinOp::MulUpperSS => emit_upper_product(out, "sext", "sext", dst, l, r, tmp),
        BinOp::MulUpperUU => emit_upper_product(out, "zext", "zext", dst, l, r, tmp),
        BinOp::MulUpperSU => emit_upper_product(out, "sext", "zext", dst, l, r, tmp),
        _ => {
            let result = next_tmp(tmp);
            emit_operation(out, op, ty_str(width), &result, l, r, tmp);
            emit_stored(out, width, &result, dst, tmp);
        },
    }
}

/// Emit LLVM IR for a binary operation.
pub(crate) fn emit_binop(
    out: &mut String,
    op: BinOp,
    width: BitWidth,
    dst: u8,
    lhs: &str,
    rhs: &str,
    tmp: &mut u64,
)
    ensures
        (Ir { text: final(out)@, next: *final(tmp) }) == binary(
            Ir { text: old(out)@, next: *old(tmp) },
            op,
            width,
            dst,
            lhs@,
            rhs@,
        ),
{
    match width {
        BitWidth::W32 => {
            let l = next_tmp(tmp);
            let r = next_tmp(tmp);
            push_cast(out, &l, "trunc", "i64", lhs, "i32");
            push_cast(out, &r, "trunc", "i64", rhs, "i32");
            emit_applied(out, op, width, dst, &l, &r, tmp);
        },
        BitWidth::W64 => {
            emit_applied(out, op, width, dst, lhs, rhs, tmp);
        },
    }
}

/// A value cut to `ty` and extended again by `ext`.
pub open spec fn cut(
    s: Ir,
    ext: Seq<char>,
    ty: Seq<char>,
    result: Seq<char>,
    src: Seq<char>,
) -> Ir {
    let t = tmp_name(s.next);
    Ir {
        text: lines::cast_line(
            lines::cast_line(s.text, t, "trunc"@, "i64"@, src, ty),
            result,
            ext,
            ty,
            t,
            "i64"@,
        ),
        next: fresh(s.next),
    }
}

/// Zeros of the lower half of a value, counted by `f`.
pub open spec fn counted(s: Ir, f: Seq<char>, result: Seq<char>, src: Seq<char>) -> Ir {
    let t = tmp_name(s.next);
    let c = tmp_name(fresh(s.next));
    Ir {
        text: lines::cast_line(
            lines::count_line(
                lines::cast_line(s.text, t, "trunc"@, "i64"@, src, "i32"@),
                c,
                f,
                "i32"@,
                t,
            ),
            result,
            "zext"@,
            "i32"@,
            c,
            "i64"@,
        ),
        next: fresh(fresh(s.next)),
    }
}

/// The operation that sets `result` from one value.
pub open spec fn unary_operation(s: Ir, op: UnaryOp, result: Seq<char>, src: Seq<char>) -> Ir {
    let t = tmp_name(s.next);
    let p = tmp_name(fresh(s.next));
    match op {
        UnaryOp::Not => Ir {
            text: lines::cast_line(
                lines::compare_line(s.text, t, "eq"@, "i64"@, src, "0"@),
                result,
                "zext"@,
                "i1"@,
                t,
                "i64"@,
            ),
            next: fresh(s.next),
        },
        UnaryOp::Sext8 => cut(s, "sext"@, "i8"@, result, src),
        UnaryOp::Sext16 => cut(s, "sext"@, "i16"@, result, src),
        UnaryOp::Zext16 => cut(s, "zext"@, "i16"@, result, src),
        UnaryOp::Popcnt32 => Ir {
            text: lines::cast_line(
                lines::intrinsic_line(
                    lines::cast_line(s.text, t, "trunc"@, "i64"@, src, "i32"@),
                    p,
                    "ctpop"@,
                    "i32"@,
                    t,
                ),
                result,
                "zext"@,
                "i32"@,
                p,
                "i64"@,
            ),
            next: fresh(fresh(s.next)),
        },
        UnaryOp::Popcnt64 => Ir {
            text: lines::op_line(
                lines::intrinsic_line(s.text, t, "ctpop"@, "i64"@, src),
                result,
                "add"@,
                "i64"@,
                t,
                "0"@,
            ),
            next: fresh(s.next),
        },
        UnaryOp::Clz32 => counted(s, "ctlz"@, result, src),
        UnaryOp::Clz64 => Ir {
            text: lines::count_line(s.text, result, "ctlz"@, "i64"@, src),
            next: s.next,
        },
        UnaryOp::Ctz32 => counted(s, "cttz"@, result, src),
        UnaryOp::Ctz64 => Ir {
            text: lines::count_line(s.text, result, "cttz"@, "i64"@, src),
            next: s.next,
        },
        UnaryOp::Sbrk => Ir { text: lines::sbrk_line(s.text, result, src), next: s.next },
        UnaryOp::Bswap => Ir {
            text: lines::intrinsic_line(s.text, result, "bswap"@, "i64"@, src),
            next: s.next,
        },
    }
}

/// A unary operation, stored.
pub open spec fn unary(s: Ir, op: UnaryOp, dst: u8, src: Seq<char>) -> Ir {
    let result = tmp_name(s.next);
    let done = unary_operation(Ir { text: s.text, next: fresh(s.next) }, op, result, src);
    Ir { text: lines::store_line(done.text, result, dst), next: done.next }
}

fn emit_cut(out: &mut String, ext: &str, ty: &str, result: &str, src: &str, tmp: &mut u64)
    ensures
        (Ir { text: final(out)@, next: *final(tmp) }) == cut(
            Ir { text: old(out)@, next: *old(tmp) },
            ext@,
            ty@,
            result@,
            src@,
        ),
{
    let t = next_tmp(tmp);
    push_cast(out, &t, "trunc", "i64", src, ty);
    push_cast(out, result, ext, ty, &t, "i64");
}

fn emit_counted(out: &mut String, f: &str, result: &str, src: &str, tmp: &mut u64)
    ensures
        (Ir { text: final(out)@, next: *final(tmp) }) == counted(
            Ir { text: old(out)@, next: *old(tmp) },
            f@,
            result@,
            src@,
        ),
{
    let t = next_tmp(tmp);
    push_cast(out, &t, "trunc", "i64", src, "i32");
    let c = next_tmp(tmp);
    push_count(out, &c, f, "i32", &t);
    push_cast(out, result, "zext", "i32", &c, "i64");
}

/// Emit LLVM IR for a unary operation.
pub(crate) fn emit_unary(out: &mut String, op: UnaryOp, dst: u8, src: &str, tmp: &mut u64)
    ensures
        (Ir { text: final(out)@, next: *final(tmp) }) == unary(
            Ir { text: old(out)@, next: *old(tmp) },
            op,
            dst,
            src@,
        ),
{
    let result = next_tmp(tmp);
    match op {
        UnaryOp::Not => {
            let t = next_tmp(tmp);
            push_compare(out, &t, "eq", "i64", src, "0");
            push_cast(out, &result, "zext", "i1", &t, "i64");
        },
        UnaryOp::Sext8 => emit_cut(out, "sext", "i8", &result, src, tmp),
        UnaryOp::Sext16 => emit_cut(out, "sext", "i16", &result, src, tmp),
        UnaryOp::Zext16 => emit_cut(out, "zext", "i16", &result, src, tmp),
        UnaryOp::Popcnt32 => {
            let t = next_tmp(tmp);
            push_cast(out, &t, "trunc", "i64", src, "i32");
            let p = next_tmp(tmp);
            push_intrinsic(out, &p, "ctpop", "i32", &t);
            push_cast(out, &result, "zext", "i32", &p, "i64");
        },
        UnaryOp::Popcnt64 => {
            let t = next_tmp(tmp);
            push_intrinsic(out, &t, "ctpop", "i64", src);
            push_op(out, &result, "add", "i64", &t, "0");
        },
        UnaryOp::Clz32 => emit_counted(out, "ctlz", &result, src, tmp),
        UnaryOp::Clz64 => push_count(out, &result, "ctlz", "i64", src),
        UnaryOp::Ctz32 => emit_counted(out, "cttz", &result, src, tmp),
        UnaryOp::Ctz64 => push_count(out, &result, "cttz", "i64", src),
        UnaryOp::Sbrk => push_sbrk(out, &result, src),
        UnaryOp::Bswap => push_intrinsic(out, &result, "bswap", "i64", src),
    }
    push_store(out, &result, dst);
}

/// Different temporaries have different names.
pub proof fn law_temporaries_differ(a: u64, b: u64)
    requires
        tmp_name(a) == tmp_name(b),
    ensures
        a == b,
{
    reveal_strlit("%t");
    let x = tmp_name(a);
    let y = tmp_name(b);
    assert(x.subrange(2, x.len() as int) =~= text::dec(a as nat));
    assert(y.subrange(2, y.len() as int) =~= text::dec(b as nat));
    text::law_numerals_differ(a as nat, b as nat);
}

/// Whether `names` are the numbers in `lo..hi`, each once.
#[verifier::opaque]
spec fn ranges(names: Seq<u64>, lo: int, hi: int) -> bool {
    &&& names.no_duplicates()
    &&& forall|n: u64| #[trigger] names.contains(n) <==> lo <= n < hi
}

proof fn lemma_ranges_join(a: Seq<u64>, b: Seq<u64>, lo: int, mid: int, hi: int)
    requires
        lo <= mid <= hi,
        ranges(a, lo, mid),
        ranges(b, mid, hi),
    ensures
        ranges(a + b, lo, hi),
{
    reveal(ranges);
    let c = a + b;
    assert forall|n: u64| #[trigger] c.contains(n) <==> lo <= n < hi by {
        if a.contains(n) {
            let i = choose|i: int| 0 <= i < a.len() && a[i] == n;
            assert(c[i] == n);
        }
        if b.contains(n) {
            let i = choose|i: int| 0 <= i < b.len() && b[i] == n;
            assert(c[a.len() + i] == n);
        }
        if c.contains(n) {
            let i = choose|i: int| 0 <= i < c.len() && c[i] == n;
            if i < a.len() {
                assert(a.contains(a[i]));
            } else {
                assert(b.contains(b[i - a.len()]));
            }
        }
    }
    assert forall|i: int, j: int| 0 <= i < j < c.len() implies c[i] != c[j] by {
        if j < a.len() {
            assert(a[i] != a[j]);
        } else if i >= a.len() {
            assert(b[i - a.len()] != b[j - a.len()]);
        } else {
            assert(a.contains(a[i]));
            assert(b.contains(b[j - a.len()]));
        }
    }
}

/// What a piece of code adds to `base`: lines that set the temporaries from `lo` on to that
/// which comes next, and a store behind them.
#[verifier::opaque]
spec fn ends_in_store(base: Seq<char>, lo: int, t: Ir, dst: u8) -> bool {
    exists|mid: Seq<char>, names: Seq<u64>, v: Seq<char>|
        {
            &&& #[trigger] layout::traced(base, mid, names)
            &&& ranges(names, lo, t.next as int)
            &&& split::plain(v)
            &&& t.text == #[trigger] lines::store_line(mid, v, dst)
        }
}

proof fn lemma_ends(
    base: Seq<char>,
    mid: Seq<char>,
    before: Seq<u64>,
    more: Seq<u64>,
    names: Seq<u64>,
    v: u64,
    lo: int,
    at: int,
    t: Ir,
    dst: u8,
)
    requires
        lo <= at <= t.next,
        ranges(before, lo, at),
        ranges(more, at, t.next as int),
        names == before + more,
        layout::traced(base, mid, names),
        t.text == lines::store_line(mid, tmp_name(v), dst),
    ensures
        ends_in_store(base, lo, t, dst),
{
    reveal(ends_in_store);
    lemma_ranges_join(before, more, lo, at, t.next as int);
    layout::lemma_plain_tmp(v);
}

proof fn lemma_comparison(
    base: Seq<char>,
    names: Seq<u64>,
    lo: int,
    s: Ir,
    cond: Seq<char>,
    width: BitWidth,
    dst: u8,
    l: Seq<char>,
    r: Seq<char>,
)
    requires
        lo <= s.next < comparison(s, cond, width, dst, l, r).next,
        layout::traced(base, s.text, names),
        ranges(names, lo, s.next as int),
        split::plain(cond),
        split::plain(l),
        split::plain(r),
    ensures
        ends_in_store(base, lo, comparison(s, cond, width, dst, l, r), dst),
{
    let a = s.next;
    let b = fresh(a);
    let c = fresh(b);
    let t = comparison(s, cond, width, dst, l, r);
    layout::lemma_plain_types();
    layout::lemma_plain_tmp(a);
    layout::lemma_plain_tmp(b);
    let ty = ty_of(width);
    let m1 = lines::compare_line(s.text, tmp_name(a), cond, ty, l, r);
    layout::lemma_compare(base, s.text, names, a, cond, ty, l, r);
    let m2 = lines::cast_line(m1, tmp_name(b), "zext"@, "i1"@, tmp_name(a), ty);
    layout::lemma_cast(base, m1, names.push(a), b, "zext"@, "i1"@, tmp_name(a), ty);
    match width {
        BitWidth::W32 => {
            let m3 = lines::cast_line(m2, tmp_name(c), "zext"@, "i32"@, tmp_name(b), "i64"@);
            let n2 = names.push(a).push(b);
            layout::lemma_cast(base, m2, n2, c, "zext"@, "i32"@, tmp_name(b), "i64"@);
            let more = seq![a, b, c];
            assert(n2.push(c) =~= names + more);
            assert(more[0] == a && more[1] == b && more[2] == c);
            assert(ranges(more, a as int, t.next as int)) by {
                reveal(ranges);
            }
            lemma_ends(base, m3, names, more, n2.push(c), c, lo, a as int, t, dst);
        },
        BitWidth::W64 => {
            let more = seq![a, b];
            assert(names.push(a).push(b) =~= names + more);
            assert(more[0] == a && more[1] == b);
            assert(ranges(more, a as int, t.next as int)) by {
                reveal(ranges);
            }
            lemma_ends(base, m2, names, more, names.push(a).push(b), b, lo, a as int, t, dst);
        },
    }
}

proof fn lemma_upper_product(
    base: Seq<char>,
    names: Seq<u64>,
    lo: int,
    s: Ir,
    exts: (Seq<char>, Seq<char>),
    dst: u8,
    l: Seq<char>,
    r: Seq<char>,
)
    requires
        lo <= s.next < upper_product(s, exts, dst, l, r).next,
        layout::traced(base, s.text, names),
        ranges(names, lo, s.next as int),
        split::plain(exts.0),
        split::plain(exts.1),
        split::plain(l),
        split::plain(r),
    ensures
        ends_in_store(base, lo, upper_product(s, exts, dst, l, r), dst),
{
    let n0 = s.next;
    let n1 = fresh(n0);
    let n2 = fresh(n1);
    let n3 = fresh(n2);
    let n4 = fresh(n3);
    let t = upper_product(s, exts, dst, l, r);
    layout::lemma_plain_types();
    layout::lemma_plain_words();
    layout::lemma_plain_tmp(n1);
    layout::lemma_plain_tmp(n2);
    layout::lemma_plain_tmp(n3);
    layout::lemma_plain_tmp(n4);
    let t1 = lines::cast_line(s.text, tmp_name(n1), exts.0, "i64"@, l, "i128"@);
    let t2 = lines::cast_line(t1, tmp_name(n2), exts.1, "i64"@, r, "i128"@);
    let t3 = lines::op_line(t2, tmp_name(n3), "mul"@, "i128"@, tmp_name(n1), tmp_name(n2));
    let t4 = lines::op_line(t3, tmp_name(n4), "lshr"@, "i128"@, tmp_name(n3), "64"@);
    let t5 = lines::cast_line(t4, tmp_name(n0), "trunc"@, "i128"@, tmp_name(n4), "i64"@);
    let a1 = names.push(n1);
    let a2 = a1.push(n2);
    let a3 = a2.push(n3);
    let a4 = a3.push(n4);
    let a5 = a4.push(n0);
    layout::lemma_cast(base, s.text, names, n1, exts.0, "i64"@, l, "i128"@);
    layout::lemma_cast(base, t1, a1, n2, exts.1, "i64"@, r, "i128"@);
    layout::lemma_op(base, t2, a2, n3, "mul"@, "i128"@, tmp_name(n1), tmp_name(n2));
    layout::lemma_op(base, t3, a3, n4, "lshr"@, "i128"@, tmp_name(n3), "64"@);
    layout::lemma_cast(base, t4, a4, n0, "trunc"@, "i128"@, tmp_name(n4), "i64"@);
    let more = seq![n1, n2, n3, n4, n0];
    assert(a5 =~= names + more);
    assert(more[0] == n1 && more[1] == n2 && more[2] == n3 && more[3] == n4 && more[4] == n0);
    assert(ranges(more, n0 as int, t.next as int)) by {
        reveal(ranges);
    }
    lemma_ends(base, t5, names, more, a5, n0, lo, n0 as int, t, dst);
}

/// The lines of an operation set the temporaries that it takes, and `result`.
proof fn lemma_operation(
    base: Seq<char>,
    names: Seq<u64>,
    s: Ir,
    op: BinOp,
    ty: Seq<char>,
    result: u64,
    l: Seq<char>,
    r: Seq<char>,
) -> (more: Seq<u64>)
    requires
        fresh(result) == s.next,
        result < operation(s, op, ty, tmp_name(result), l, r).next,
        predicate(op) is None,
        extensions(op) is None,
        layout::traced(base, s.text, names),
        split::plain(ty),
        split::plain(l),
        split::plain(r),
    ensures
        layout::traced(base, operation(s, op, ty, tmp_name(result), l, r).text, names + more),
        ranges(more, result as int, operation(s, op, ty, tmp_name(result), l, r).next as int),
        s.next <= operation(s, op, ty, tmp_name(result), l, r).next <= s.next + 1,
{
    layout::lemma_plain_types();
    layout::lemma_plain_words();
    let x = s.next;
    layout::lemma_plain_tmp(x);
    let done = operation(s, op, ty, tmp_name(result), l, r);
    let one = seq![result];
    let two = seq![x, result];
    assert(names.push(result) =~= names + one);
    assert(names.push(x).push(result) =~= names + two);
    assert(one[0] == result);
    assert(two[0] == x && two[1] == result);
    assert(ranges(one, result as int, x as int)) by {
        reveal(ranges);
    }
    assert(ranges(two, result as int, x + 1)) by {
        reveal(ranges);
    }
    let after = names.push(x);
    match op {
        BinOp::NegAdd => {
            layout::lemma_op(base, s.text, names, result, "sub"@, ty, r, l);
            one
        },
        BinOp::RotL => {
            layout::lemma_funnel(base, s.text, names, result, "fshl"@, ty, l, r);
            one
        },
        BinOp::RotR => {
            layout::lemma_funnel(base, s.text, names, result, "fshr"@, ty, l, r);
            one
        },
        BinOp::AndInv | BinOp::OrInv => {
            let word = if op == BinOp::AndInv {
                "and"@
            } else {
                "or"@
            };
            let m = lines::op_line(s.text, tmp_name(x), "xor"@, ty, r, "-1"@);
            layout::lemma_op(base, s.text, names, x, "xor"@, ty, r, "-1"@);
            layout::lemma_op(base, m, after, result, word, ty, l, tmp_name(x));
            two
        },
        BinOp::Xnor => {
            let m = lines::op_line(s.text, tmp_name(x), "xor"@, ty, l, r);
            layout::lemma_op(base, s.text, names, x, "xor"@, ty, l, r);
            layout::lemma_op(base, m, after, result, "xor"@, ty, tmp_name(x), "-1"@);
            two
        },
        BinOp::Max | BinOp::MaxU | BinOp::Min | BinOp::MinU => {
            let cond = match op {
                BinOp::Max => "sgt"@,
                BinOp::MaxU => "ugt"@,
                BinOp::Min => "slt"@,
                _ => "ult"@,
            };
            let m = lines::compare_line(s.text, tmp_name(x), cond, ty, l, r);
            layout::lemma_compare(base, s.text, names, x, cond, ty, l, r);
            layout::lemma_select(base, m, after, result, tmp_name(x), ty, l, r);
            two
        },
        _ => {
            let word = plain_op(op)->0;
            layout::lemma_op(base, s.text, names, result, word, ty, l, r);
            one
        },
    }
}

proof fn lemma_applied(
    base: Seq<char>,
    names: Seq<u64>,
    lo: int,
    s: Ir,
    op: BinOp,
    width: BitWidth,
    dst: u8,
    l: Seq<char>,
    r: Seq<char>,
)
    requires
        lo <= s.next < applied(s, op, width, dst, l, r).next,
        layout::traced(base, s.text, names),
        ranges(names, lo, s.next as int),
        split::plain(l),
        split::plain(r),
    ensures
        ends_in_store(base, lo, applied(s, op, width, dst, l, r), dst),
{
    layout::lemma_plain_types();
    match (predicate(op), extensions(op)) {
        (Some(cond), _) => {
            lemma_comparison(base, names, lo, s, cond, width, dst, l, r);
        },
        (None, Some(exts)) => {
            lemma_upper_product(base, names, lo, s, exts, dst, l, r);
        },
        (None, None) => {
            lemma_operated(base, names, lo, s, op, width, dst, l, r);
        },
    }
}

proof fn lemma_operation_next(
    s: Ir,
    op: BinOp,
    ty: Seq<char>,
    result: Seq<char>,
    l: Seq<char>,
    r: Seq<char>,
)
    ensures
        operation(s, op, ty, result, l, r).next == s.next || operation(
            s,
            op,
            ty,
            result,
            l,
            r,
        ).next == fresh(s.next),
{
}

/// An operation takes at most five temporaries; where their numbers start over, what comes next
/// is small.
proof fn lemma_applied_next(
    s: Ir,
    op: BinOp,
    width: BitWidth,
    dst: u8,
    l: Seq<char>,
    r: Seq<char>,
)
    ensures
        s.next < applied(s, op, width, dst, l, r).next || (applied(s, op, width, dst, l, r).next
            < 5 && s.next >= u64::MAX - 4),
{
    match (predicate(op), extensions(op)) {
        (None, None) => {
            let start = Ir { text: s.text, next: fresh(s.next) };
            lemma_operation_next(start, op, ty_of(width), tmp_name(s.next), l, r);
        },
        _ => {},
    }
}

proof fn lemma_operated(
    base: Seq<char>,
    names: Seq<u64>,
    lo: int,
    s: Ir,
    op: BinOp,
    width: BitWidth,
    dst: u8,
    l: Seq<char>,
    r: Seq<char>,
)
    requires
        lo <= s.next < applied(s, op, width, dst, l, r).next,
        predicate(op) is None,
        extensions(op) is None,
        layout::traced(base, s.text, names),
        ranges(names, lo, s.next as int),
        split::plain(l),
        split::plain(r),
    ensures
        ends_in_store(base, lo, applied(s, op, width, dst, l, r), dst),
{
    layout::lemma_plain_types();
    let n = s.next;
    let start = Ir { text: s.text, next: fresh(n) };
    let ty = ty_of(width);
    let done = operation(start, op, ty, tmp_name(n), l, r);
    lemma_operation_next(start, op, ty, tmp_name(n), l, r);
    let more = lemma_operation(base, names, start, op, ty, n, l, r);
    let t = stored(done, width, tmp_name(n), dst);
    match width {
        BitWidth::W32 => {
            let e = done.next;
            let mid = lines::cast_line(
                done.text,
                tmp_name(e),
                "zext"@,
                "i32"@,
                tmp_name(n),
                "i64"@,
            );
            layout::lemma_plain_tmp(n);
            layout::lemma_cast(
                base,
                done.text,
                names + more,
                e,
                "zext"@,
                "i32"@,
                tmp_name(n),
                "i64"@,
            );
            let one = seq![e];
            assert(one[0] == e);
            assert(ranges(one, e as int, t.next as int)) by {
                reveal(ranges);
            }
            lemma_ranges_join(more, one, n as int, e as int, t.next as int);
            assert((names + more).push(e) =~= names + (more + one));
            lemma_ends(
                base,
                mid,
                names,
                more + one,
                (names + more).push(e),
                e,
                lo,
                n as int,
                t,
                dst,
            );
        },
        BitWidth::W64 => {
            lemma_ends(
                base,
                done.text,
                names,
                more,
                names + more,
                n,
                lo,
                n as int,
                t,
                dst,
            );
        },
    }
}

/// Whether one of the lines sets the temporary `n`.
pub open spec fn is_set(all: Seq<Seq<char>>, n: u64) -> bool {
    exists|i: int| 0 <= i < all.len() && #[trigger] layout::assigns(all[i], n)
}

/// Whether the lines set each temporary in `lo..hi` once and no other, and the one store
/// among them is the last, which stores into the register `dst`.
pub open spec fn sets_and_stores(all: Seq<Seq<char>>, lo: u64, hi: u64, dst: u8) -> bool {
    &&& all.len() > 0
    &&& forall|n: u64| lo <= n < hi ==> #[trigger] is_set(all, n)
    &&& forall|i: int, j: int, n: u64|
        0 <= i < all.len() && 0 <= j < all.len() && #[trigger] layout::assigns(all[i], n)
            && #[trigger] layout::assigns(all[j], n) ==> i == j
    &&& forall|i: int, n: u64|
        0 <= i < all.len() && #[trigger] layout::assigns(all[i], n) ==> lo <= n < hi
    &&& forall|i: int|
        0 <= i < all.len() ==> (layout::is_store(#[trigger] all[i]) <==> i == all.len() - 1)
    &&& exists|v: Seq<char>| all.last() == #[trigger] layout::register_store(v, dst)
}

/// The lines of a binary operation set each temporary that it takes once and no other, and
/// end with their only store, which is into the destination. Text that was there stays. Left
/// out are operands that hold a line break, and numbers of temporaries that start over.
pub proof fn law_binary_operation_lines(
    s: Ir,
    op: BinOp,
    width: BitWidth,
    dst: u8,
    lhs: Seq<char>,
    rhs: Seq<char>,
)
    requires
        split::plain(lhs),
        split::plain(rhs),
        s.next < binary(s, op, width, dst, lhs, rhs).next,
    ensures
        s.text.is_prefix_of(binary(s, op, width, dst, lhs, rhs).text),
        sets_and_stores(
            split::lines_from(
                layout::added(s.text, binary(s, op, width, dst, lhs, rhs).text),
                0,
            ),
            s.next,
            binary(s, op, width, dst, lhs, rhs).next,
            dst,
        ),
{
    let t = binary(s, op, width, dst, lhs, rhs);
    match width {
        BitWidth::W32 => {
            lemma_narrow(s, op, dst, lhs, rhs);
        },
        BitWidth::W64 => {
            lemma_wide(s, op, dst, lhs, rhs);
        },
    }
    lemma_store_closes(s.text, s.next, t, dst);
}

proof fn lemma_wide(s: Ir, op: BinOp, dst: u8, lhs: Seq<char>, rhs: Seq<char>)
    requires
        split::plain(lhs),
        split::plain(rhs),
        s.next < binary(s, op, BitWidth::W64, dst, lhs, rhs).next,
    ensures
        ends_in_store(s.text, s.next as int, binary(s, op, BitWidth::W64, dst, lhs, rhs), dst),
{
    let none: Seq<u64> = seq![];
    layout::lemma_start(s.text);
    assert(ranges(none, s.next as int, s.next as int)) by {
        reveal(ranges);
    }
    lemma_applied(s.text, none, s.next as int, s, op, BitWidth::W64, dst, lhs, rhs);
    assert(binary(s, op, BitWidth::W64, dst, lhs, rhs) == applied(
        s,
        op,
        BitWidth::W64,
        dst,
        lhs,
        rhs,
    ));
}

/// The two operands of a 32-bit operation, cut.
proof fn lemma_cut(s: Ir, lhs: Seq<char>, rhs: Seq<char>) -> (names: Seq<u64>)
    requires
        split::plain(lhs),
        split::plain(rhs),
        s.next <= u64::MAX - 2,
    ensures
        ranges(names, s.next as int, s.next + 2),
        layout::traced(
            s.text,
            lines::cast_line(
                lines::cast_line(s.text, tmp_name(s.next), "trunc"@, "i64"@, lhs, "i32"@),
                tmp_name(fresh(s.next)),
                "trunc"@,
                "i64"@,
                rhs,
                "i32"@,
            ),
            names,
        ),
{
    let base = s.text;
    let none: Seq<u64> = seq![];
    let a = s.next;
    let b = fresh(a);
    layout::lemma_start(base);
    layout::lemma_plain_types();
    let m1 = lines::cast_line(base, tmp_name(a), "trunc"@, "i64"@, lhs, "i32"@);
    layout::lemma_cast(base, base, none, a, "trunc"@, "i64"@, lhs, "i32"@);
    layout::lemma_cast(base, m1, none.push(a), b, "trunc"@, "i64"@, rhs, "i32"@);
    let names = none.push(a).push(b);
    assert(names[0] == a && names[1] == b);
    assert(ranges(names, a as int, a + 2)) by {
        reveal(ranges);
    }
    names
}

proof fn lemma_narrow(s: Ir, op: BinOp, dst: u8, lhs: Seq<char>, rhs: Seq<char>)
    requires
        split::plain(lhs),
        split::plain(rhs),
        s.next < binary(s, op, BitWidth::W32, dst, lhs, rhs).next,
    ensures
        ends_in_store(s.text, s.next as int, binary(s, op, BitWidth::W32, dst, lhs, rhs), dst),
{
    let a = s.next;
    let b = fresh(a);
    let m1 = lines::cast_line(s.text, tmp_name(a), "trunc"@, "i64"@, lhs, "i32"@);
    let m2 = lines::cast_line(m1, tmp_name(b), "trunc"@, "i64"@, rhs, "i32"@);
    let cut = Ir { text: m2, next: fresh(b) };
    lemma_applied_next(cut, op, BitWidth::W32, dst, tmp_name(a), tmp_name(b));
    let names = lemma_cut(s, lhs, rhs);
    layout::lemma_plain_tmp(a);
    layout::lemma_plain_tmp(b);
    lemma_applied(
        s.text,
        names,
        a as int,
        cut,
        op,
        BitWidth::W32,
        dst,
        tmp_name(a),
        tmp_name(b),
    );
    assert(binary(s, op, BitWidth::W32, dst, lhs, rhs) == applied(
        cut,
        op,
        BitWidth::W32,
        dst,
        tmp_name(a),
        tmp_name(b),
    ));
}

proof fn lemma_store_closes(base: Seq<char>, lo: u64, t: Ir, dst: u8)
    requires
        ends_in_store(base, lo as int, t, dst),
    ensures
        base.is_prefix_of(t.text),
        sets_and_stores(split::lines_from(layout::added(base, t.text), 0), lo, t.next, dst),
{
    reveal(ends_in_store);
    let (mid, names, v) = choose|mid: Seq<char>, names: Seq<u64>, v: Seq<char>|
        {
            &&& #[trigger] layout::traced(base, mid, names)
            &&& ranges(names, lo as int, t.next as int)
            &&& split::plain(v)
            &&& t.text == #[trigger] lines::store_line(mid, v, dst)
        };
    reveal(ranges);
    let last = layout::register_store(v, dst);
    layout::lemma_store(v, dst);
    reveal_strlit(", align 8");
    reveal_strlit("\n");
    reveal_strlit(", align 8\n");
    assert(", align 8\n"@ =~= ", align 8"@ + "\n"@);
    assert(t.text =~= mid + last + "\n"@);
    let rests = layout::lemma_split(base, mid, names, last);
    let all = split::lines_from(layout::added(base, t.text), 0);
    let k = names.len() as int;
    assert forall|i: int| 0 <= i < k implies layout::assigns(#[trigger] all[i], names[i]) by {
        assert(all[i] == layout::assignment(tmp_name(names[i]), rests[i]));
    }
    assert(all[k] == last);
    assert forall|i: int, n: u64|
        0 <= i < all.len() && #[trigger] layout::assigns(all[i], n) implies i < k && names[i]
        == n by {
        layout::lemma_no_store(all[i], n);
        assert(i != k);
        layout::law_line_sets_one_temporary(all[i], n, names[i]);
    }
    assert forall|n: u64| lo <= n < t.next implies #[trigger] is_set(all, n) by {
        assert(names.contains(n));
        let i = choose|i: int| 0 <= i < names.len() && names[i] == n;
        assert(layout::assigns(all[i], names[i]));
    }
    assert forall|i: int, n: u64|
        0 <= i < all.len() && #[trigger] layout::assigns(all[i], n) implies lo <= n < t.next by {
        assert(names.contains(names[i]));
    }
    assert forall|i: int| 0 <= i < all.len() implies (layout::is_store(#[trigger] all[i]) <==> i
        == all.len() - 1) by {
        if i < k {
            layout::lemma_no_store(all[i], names[i]);
        }
    }
}

proof fn lemma_cut_traced(
    base: Seq<char>,
    s: Ir,
    ext: Seq<char>,
    ty: Seq<char>,
    result: u64,
    src: Seq<char>,
)
    requires
        layout::traced(base, s.text, seq![]),
        split::plain(ext),
        split::plain(ty),
        split::plain(src),
    ensures
        layout::traced(
            base,
            cut(s, ext, ty, tmp_name(result), src).text,
            seq![s.next, result],
        ),
{
    layout::lemma_plain_types();
    let x = s.next;
    let none: Seq<u64> = seq![];
    layout::lemma_plain_tmp(x);
    let m = lines::cast_line(s.text, tmp_name(x), "trunc"@, "i64"@, src, ty);
    layout::lemma_cast(base, s.text, none, x, "trunc"@, "i64"@, src, ty);
    layout::lemma_cast(base, m, none.push(x), result, ext, ty, tmp_name(x), "i64"@);
    assert(none.push(x).push(result) =~= seq![x, result]);
}

proof fn lemma_counted_traced(base: Seq<char>, s: Ir, f: Seq<char>, result: u64, src: Seq<char>)
    requires
        layout::traced(base, s.text, seq![]),
        split::plain(f),
        split::plain(src),
    ensures
        layout::traced(
            base,
            counted(s, f, tmp_name(result), src).text,
            seq![s.next, fresh(s.next), result],
        ),
{
    layout::lemma_plain_types();
    let x = s.next;
    let c = fresh(x);
    let none: Seq<u64> = seq![];
    let one = none.push(x);
    let two = one.push(c);
    layout::lemma_plain_tmp(x);
    layout::lemma_plain_tmp(c);
    let m = lines::cast_line(s.text, tmp_name(x), "trunc"@, "i64"@, src, "i32"@);
    let k = lines::count_line(m, tmp_name(c), f, "i32"@, tmp_name(x));
    layout::lemma_cast(base, s.text, none, x, "trunc"@, "i64"@, src, "i32"@);
    layout::lemma_count(base, m, one, c, f, "i32"@, tmp_name(x));
    layout::lemma_cast(base, k, two, result, "zext"@, "i32"@, tmp_name(c), "i64"@);
    assert(two.push(result) =~= seq![x, c, result]);
}

/// The lines of a unary operation set the temporaries that it takes, and `result`.
proof fn lemma_unary_operation(base: Seq<char>, s: Ir, op: UnaryOp, result: u64, src: Seq<char>) -> (
    names: Seq<u64>)
    requires
        fresh(result) == s.next,
        result < unary_operation(s, op, tmp_name(result), src).next,
        layout::traced(base, s.text, seq![]),
        split::plain(src),
    ensures
        layout::traced(base, unary_operation(s, op, tmp_name(result), src).text, names),
        ranges(
            names,
            result as int,
            unary_operation(s, op, tmp_name(result), src).next as int,
        ),
{
    layout::lemma_plain_types();
    layout::lemma_plain_words();
    layout::lemma_plain_unary_words();
    let x = s.next;
    let p = fresh(x);
    let none: Seq<u64> = seq![];
    let one = seq![result];
    let two = seq![x, result];
    let three = seq![x, p, result];
    assert(none.push(result) =~= one);
    assert(none.push(x).push(result) =~= two);
    assert(none.push(x).push(p).push(result) =~= three);
    layout::lemma_plain_tmp(x);
    layout::lemma_plain_tmp(p);
    assert(one[0] == result);
    assert(two[0] == x && two[1] == result);
    assert(three[0] == x && three[1] == p && three[2] == result);
    assert(ranges(one, result as int, x as int)) by {
        reveal(ranges);
    }
    assert(ranges(two, result as int, x + 1)) by {
        reveal(ranges);
    }
    assert(x < u64::MAX ==> ranges(three, result as int, x + 2)) by {
        reveal(ranges);
    }
    match op {
        UnaryOp::Not => {
            let m = lines::compare_line(s.text, tmp_name(x), "eq"@, "i64"@, src, "0"@);
            layout::lemma_compare(base, s.text, none, x, "eq"@, "i64"@, src, "0"@);
            layout::lemma_cast(
                base,
                m,
                none.push(x),
                result,
                "zext"@,
                "i1"@,
                tmp_name(x),
                "i64"@,
            );
            two
        },
        UnaryOp::Sext8 => {
            lemma_cut_traced(base, s, "sext"@, "i8"@, result, src);
            two
        },
        UnaryOp::Sext16 => {
            lemma_cut_traced(base, s, "sext"@, "i16"@, result, src);
            two
        },
        UnaryOp::Zext16 => {
            lemma_cut_traced(base, s, "zext"@, "i16"@, result, src);
            two
        },
        UnaryOp::Popcnt32 => {
            let m = lines::cast_line(s.text, tmp_name(x), "trunc"@, "i64"@, src, "i32"@);
            let k = lines::intrinsic_line(m, tmp_name(p), "ctpop"@, "i32"@, tmp_name(x));
            layout::lemma_cast(base, s.text, none, x, "trunc"@, "i64"@, src, "i32"@);
            layout::lemma_intrinsic(base, m, none.push(x), p, "ctpop"@, "i32"@, tmp_name(x));
            layout::lemma_cast(
                base,
                k,
                none.push(x).push(p),
                result,
                "zext"@,
                "i32"@,
                tmp_name(p),
                "i64"@,
            );
            three
        },
        UnaryOp::Popcnt64 => {
            let m = lines::intrinsic_line(s.text, tmp_name(x), "ctpop"@, "i64"@, src);
            layout::lemma_intrinsic(base, s.text, none, x, "ctpop"@, "i64"@, src);
            layout::lemma_op(
                base,
                m,
                none.push(x),
                result,
                "add"@,
                "i64"@,
                tmp_name(x),
                "0"@,
            );
            two
        },
        UnaryOp::Clz32 => {
            lemma_counted_traced(base, s, "ctlz"@, result, src);
            three
        },
        UnaryOp::Clz64 => {
            layout::lemma_count(base, s.text, none, result, "ctlz"@, "i64"@, src);
            one
        },
        UnaryOp::Ctz32 => {
            lemma_counted_traced(base, s, "cttz"@, result, src);
            three
        },
        UnaryOp::Ctz64 => {
            layout::lemma_count(base, s.text, none, result, "cttz"@, "i64"@, src);
            one
        },
        UnaryOp::Sbrk => {
            layout::lemma_sbrk(base, s.text, none, result, src);
            one
        },
        UnaryOp::Bswap => {
            layout::lemma_intrinsic(base, s.text, none, result, "bswap"@, "i64"@, src);
            one
        },
    }
}

/// The lines of a unary operation set each temporary that it takes once and no other, and end
/// with their only store, which is into the destination. Text that was there stays. Left out
/// are operands that hold a line break, and numbers of temporaries that start over.
pub proof fn law_unary_operation_lines(s: Ir, op: UnaryOp, dst: u8, src: Seq<char>)
    requires
        split::plain(src),
        s.next < unary(s, op, dst, src).next,
    ensures
        s.text.is_prefix_of(unary(s, op, dst, src).text),
        sets_and_stores(
            split::lines_from(layout::added(s.text, unary(s, op, dst, src).text), 0),
            s.next,
            unary(s, op, dst, src).next,
            dst,
        ),
{
    let t = unary(s, op, dst, src);
    let base = s.text;
    let n = s.next;
    let start = Ir { text: base, next: fresh(n) };
    layout::lemma_start(base);
    let names = lemma_unary_operation(base, start, op, n, src);
    let done = unary_operation(start, op, tmp_name(n), src);
    assert(ends_in_store(base, n as int, t, dst)) by {
        reveal(ends_in_store);
        layout::lemma_plain_tmp(n);
        assert(t.text == lines::store_line(done.text, tmp_name(n), dst));
    }
    lemma_store_closes(base, n, t, dst);
}

} // verus!
