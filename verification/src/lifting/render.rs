//! Rendering of expressions as text.
//!
//! `text_of` says which text stands for an expression; the functions that build
//! the text are proved to build that one.

use crate::instruction::{BinOp, MemWidth};
use crate::lifting::expr;
use crate::lifting::expr::{Expr, Expression};
use crate::lifting::simplify;
use crate::lifting::simplify::is_boolean_expr;
use crate::text;
use crate::text::{has_prefix, push_dec_signed, push_upper_hex};
use vstd::prelude::*;

verus! {

/// Formatting context threaded through expression rendering.
#[derive(Debug, Clone, Copy)]
pub struct FormatContext {
    /// The PVM linear memory base address.
    /// When set, expressions involving this constant are simplified
    /// (e.g. `addr + MEMORY_BASE` is `pvm_addr(addr)`).
    pub memory_base: Option<u64>,
    /// Linear memory offset for heap accesses (e.g. 0x50000 for AS programs).
    /// When set, pointer dereferences through this offset render as `*ptr`.
    pub linear_memory_offset: Option<u64>,
    /// Whether formatting currently occurs in memory-dereference context.
    /// Some simplifications are only semantics-safe in this context.
    pub deref_context: bool,
}

impl Default for FormatContext {
    fn default() -> (ctx: Self)
        ensures
            ctx == (FormatContext {
                memory_base: None,
                linear_memory_offset: None,
                deref_context: false,
            }),
    {
        FormatContext { memory_base: None, linear_memory_offset: None, deref_context: false }
    }
}

impl FormatContext {
    /// Create a context with the given memory base.
    pub fn new(memory_base: Option<u64>) -> (ctx: Self)
        ensures
            ctx == (FormatContext {
                memory_base,
                linear_memory_offset: None,
                deref_context: false,
            }),
    {
        FormatContext { memory_base, linear_memory_offset: None, deref_context: false }
    }

    /// This context, inside a memory dereference.
    pub open spec fn dereferencing(self) -> Self {
        FormatContext { deref_context: true, ..self }
    }

    fn with_deref_context(&self) -> (ctx: Self)
        ensures
            ctx == self.dereferencing(),
    {
        FormatContext {
            memory_base: self.memory_base,
            linear_memory_offset: self.linear_memory_offset,
            deref_context: true,
        }
    }
}

/// The signed number that the 64 bits of `n` stand for.
pub open spec fn as_signed(n: u64) -> int {
    if n <= i64::MAX {
        n as int
    } else {
        n - 0x1_0000_0000_0000_0000
    }
}

fn signed(n: u64) -> (v: i64)
    ensures
        v == as_signed(n),
{
    if n <= i64::MAX as u64 {
        n as i64
    } else {
        (n as i128 - 0x1_0000_0000_0000_0000i128) as i64
    }
}

/// The unsigned number that the 64 bits of `v` stand for.
pub open spec fn as_unsigned(v: int) -> int {
    if v < 0 {
        v + 0x1_0000_0000_0000_0000
    } else {
        v
    }
}

fn unsigned(v: i64) -> (n: u64)
    ensures
        n == as_unsigned(v as int),
{
    if v < 0 {
        (v as i128 + 0x1_0000_0000_0000_0000i128) as u64
    } else {
        v as u64
    }
}

/// The negative of `v` in 64 bits; the least number is its own negative.
pub open spec fn negated(v: i64) -> i64 {
    if v == i64::MIN {
        v
    } else {
        (-v) as i64
    }
}

fn negate(v: i64) -> (r: i64)
    ensures
        r == negated(v),
{
    if v == i64::MIN {
        v
    } else {
        -v
    }
}

/// The negative of `v` in 32 bits.
pub open spec fn negated_offset(v: i32) -> i32 {
    if v == i32::MIN {
        v
    } else {
        (-v) as i32
    }
}

/// Text of a constant: hexadecimal from 0x1000 on, decimal below.
pub open spec fn const_text(v: int) -> Seq<char> {
    if v >= 0x1000 {
        "0x"@ + text::upper_hex(v as nat)
    } else if v <= -0x1000 {
        "-0x"@ + text::upper_hex((-v) as nat)
    } else {
        text::dec_signed(v)
    }
}

/// Format an integer constant: use hex for large values (|v| >= 0x1000), decimal otherwise.
pub fn format_const(v: i64) -> (s: String)
    ensures
        s@ == const_text(v as int),
{
    if v >= 0x1000 {
        let mut s = "0x".to_owned();
        push_upper_hex(&mut s, v as u64);
        s
    } else if v <= -0x1000 {
        let mut s = "-0x".to_owned();
        push_upper_hex(&mut s, (-(v as i128)) as u64);
        s
    } else {
        let mut s = String::new();
        push_dec_signed(&mut s, v);
        assert(s@ =~= text::dec_signed(v as int));
        s
    }
}

/// Whether swapping the operands of `op` changes nothing.
pub open spec fn commutes(op: BinOp) -> bool {
    op == BinOp::Add || op == BinOp::Mul || op == BinOp::And || op == BinOp::Or || op == BinOp::Xor
}

fn is_commutative(op: BinOp) -> (r: bool)
    ensures
        r == commutes(op),
{
    op == BinOp::Add || op == BinOp::Mul || op == BinOp::And || op == BinOp::Or || op == BinOp::Xor
}

/// Operator precedence (higher binds tighter).
pub open spec fn precedence(op: BinOp) -> int {
    match op {
        BinOp::Or | BinOp::OrInv => 1,
        BinOp::Xor | BinOp::Xnor => 2,
        BinOp::And | BinOp::AndInv => 3,
        BinOp::LtU
        | BinOp::LtS
        | BinOp::GeU
        | BinOp::GeS
        | BinOp::GtU
        | BinOp::GtS
        | BinOp::LeU
        | BinOp::LeS
        | BinOp::Max
        | BinOp::MaxU
        | BinOp::Min
        | BinOp::MinU => 4,
        BinOp::Shl | BinOp::ShrU | BinOp::ShrS | BinOp::RotL | BinOp::RotR => 5,
        BinOp::Add | BinOp::Sub | BinOp::NegAdd => 6,
        BinOp::Mul
        | BinOp::DivU
        | BinOp::DivS
        | BinOp::RemU
        | BinOp::RemS
        | BinOp::MulUpperSS
        | BinOp::MulUpperUU
        | BinOp::MulUpperSU => 7,
    }
}

fn op_precedence(op: BinOp) -> (p: u8)
    ensures
        p == precedence(op),
{
    match op {
        BinOp::Or | BinOp::OrInv => 1,
        BinOp::Xor | BinOp::Xnor => 2,
        BinOp::And | BinOp::AndInv => 3,
        BinOp::LtU
        | BinOp::LtS
        | BinOp::GeU
        | BinOp::GeS
        | BinOp::GtU
        | BinOp::GtS
        | BinOp::LeU
        | BinOp::LeS
        | BinOp::Max
        | BinOp::MaxU
        | BinOp::Min
        | BinOp::MinU => 4,
        BinOp::Shl | BinOp::ShrU | BinOp::ShrS | BinOp::RotL | BinOp::RotR => 5,
        BinOp::Add | BinOp::Sub | BinOp::NegAdd => 6,
        BinOp::Mul
        | BinOp::DivU
        | BinOp::DivS
        | BinOp::RemU
        | BinOp::RemS
        | BinOp::MulUpperSS
        | BinOp::MulUpperUU
        | BinOp::MulUpperSU => 7,
    }
}

/// Whether an operand needs parentheses: it binds looser than its parent, or as
/// tight on the right of an operator that does not commute
/// (`a - (b - c)` is not `a - b - c`).
pub open spec fn needs_parens(e: Expr, parent: BinOp, is_left: bool) -> bool {
    e matches Expr::BinOp { op, .. } && (precedence(op) < precedence(parent) || (precedence(op)
        == precedence(parent) && !is_left && !commutes(parent)))
}

/// The text of an operand.
pub open spec fn operand_text(e: Expr, parent: BinOp, is_left: bool, ctx: FormatContext) -> Seq<
    char,
>
    decreases e, 1nat,
{
    if needs_parens(e, parent, is_left) {
        "("@ + text_of(e, ctx) + ")"@
    } else {
        text_of(e, ctx)
    }
}

/// The pointer variable that an expression is.
pub open spec fn pointer_name(e: Expr) -> Option<Seq<char>> {
    match e {
        Expr::Var(n) => if text::begins_with(n, "ptr_"@) {
            Some(n)
        } else {
            None
        },
        _ => None,
    }
}

/// Name of the global at a constant address, or the access to linear memory there.
pub open spec fn global_text(
    base: Expr,
    offset: i32,
    width: MemWidth,
    ctx: FormatContext,
) -> Option<Seq<char>> {
    match base {
        Expr::Const(b) => {
            let addr = b.wrapping_add(offset as i64);
            if addr == 0x30000 {
                Some("RESULT_PTR"@)
            } else if addr == 0x30004 {
                Some("RESULT_LEN"@)
            } else if addr == 0x30008 {
                Some("HEAP_PTR"@)
            } else if addr == 0x3000C {
                Some("HEAP_PAGES"@)
            } else {
                match ctx.memory_base {
                    Some(m) => if addr >= as_signed(m) {
                        Some(
                            width.symbol() + "["@ + const_text(
                                addr.wrapping_sub(as_signed(m) as i64) as int,
                            ) + "]"@,
                        )
                    } else {
                        None
                    },
                    None => None,
                }
            }
        },
        _ => None,
    }
}

/// Access to linear memory through the memory base.
pub open spec fn linear_text(
    base: Expr,
    offset: i32,
    width: MemWidth,
    ctx: FormatContext,
) -> Option<Seq<char>>
    decreases base, 2nat,
{
    match ctx.memory_base {
        None => None,
        Some(m) => {
            let inner = ctx.dereferencing();
            if offset == 0 && (base matches Expr::BinOp { op, rhs, .. } && op == BinOp::Add && (
            *rhs matches Expr::Const(v) && v == as_signed(m))) {
                Some(width.symbol() + "["@ + text_of(*base->lhs, inner) + "]"@)
            } else if offset == 0 && (base matches Expr::BinOp { op, lhs, .. } && op == BinOp::Add
                && (*lhs matches Expr::Const(v) && v == as_signed(m))) {
                Some(width.symbol() + "["@ + text_of(*base->rhs, inner) + "]"@)
            } else if (ctx.linear_memory_offset matches Some(l) && as_unsigned(offset as int) == l)
                && pointer_name(base) is Some {
                Some("*"@ + pointer_name(base)->0)
            } else if offset == as_signed(m) {
                Some(width.symbol() + "["@ + text_of(base, inner) + "]"@)
            } else {
                None
            }
        },
    }
}

/// Field access through a pointer variable.
pub open spec fn field_text(base: Expr, offset: i32, ctx: FormatContext) -> Option<Seq<char>> {
    match pointer_name(base) {
        Some(n) => if offset < 0 {
            None
        } else if ctx.linear_memory_offset == Some(offset as u64) || ctx.memory_base == Some(
            offset as u64,
        ) {
            Some("*"@ + n)
        } else {
            Some(n + "->field_"@ + text::dec(offset as nat))
        },
        None => None,
    }
}

/// The index `i` of an expression `i * size`.
pub open spec fn scaled_index(e: Expr, size: int) -> Option<Expr> {
    match e {
        Expr::BinOp { op, lhs, rhs } => if op == BinOp::Mul && (*rhs matches Expr::Const(m) && m
            == size) {
            Some(*lhs)
        } else {
            None
        },
        _ => None,
    }
}

/// Array access: `base + index * size`, `size` being the width of the access, more
/// than a byte.
pub open spec fn array_text(base: Expr, offset: i32, width: MemWidth, ctx: FormatContext) -> Option<
    Seq<char>,
>
    decreases base, 2nat,
{
    if offset != 0 || width.bytes() <= 1 {
        None
    } else {
        match base {
            Expr::BinOp { op, lhs, rhs } => if op == BinOp::Add {
                if scaled_index(*rhs, width.bytes()) is Some {
                    match *rhs {
                        Expr::BinOp { lhs: index, .. } => Some(
                            text_of(*lhs, ctx) + "["@ + text_of(*index, ctx) + "]"@,
                        ),
                        _ => None,
                    }
                } else if scaled_index(*lhs, width.bytes()) is Some {
                    match *lhs {
                        Expr::BinOp { lhs: index, .. } => Some(
                            text_of(*rhs, ctx) + "["@ + text_of(*index, ctx) + "]"@,
                        ),
                        _ => None,
                    }
                } else {
                    None
                }
            } else {
                None
            },
            _ => None,
        }
    }
}

/// A memory address `base + offset`.
pub open spec fn address_text(base: Expr, offset: i32, ctx: FormatContext) -> Seq<char>
    decreases base, 2nat,
{
    match base {
        Expr::Const(b) => const_text(b.wrapping_add(offset as i64) as int),
        _ => if offset == 0 {
            text_of(base, ctx.dereferencing())
        } else if offset < 0 {
            text_of(base, ctx.dereferencing()) + " - "@ + const_text(negated_offset(offset) as int)
        } else {
            text_of(base, ctx.dereferencing()) + " + "@ + const_text(offset as int)
        },
    }
}

/// A memory access in the most readable form that fits.
pub open spec fn access_text(base: Expr, offset: i32, width: MemWidth, ctx: FormatContext) -> Seq<
    char,
>
    decreases base, 3nat,
{
    if global_text(base, offset, width, ctx) is Some {
        global_text(base, offset, width, ctx)->0
    } else if linear_text(base, offset, width, ctx) is Some {
        linear_text(base, offset, width, ctx)->0
    } else if field_text(base, offset, ctx) is Some {
        field_text(base, offset, ctx)->0
    } else if array_text(base, offset, width, ctx) is Some {
        array_text(base, offset, width, ctx)->0
    } else {
        width.symbol() + "["@ + address_text(base, offset, ctx) + "]"@
    }
}

/// The first `n` arguments, separated by commas.
pub open spec fn args_text(args: Seq<Expr>, n: nat, ctx: FormatContext) -> Seq<char>
    decreases args, n,
{
    if n == 0 || n > args.len() {
        seq![]
    } else if n == 1 {
        text_of(args[0], ctx)
    } else {
        args_text(args, (n - 1) as nat, ctx) + ", "@ + text_of(args[n - 1], ctx)
    }
}

/// Whether `m` is the constant that `v` adds.
pub open spec fn adds(v: i64, m: Option<u64>) -> bool {
    v > 0 && m == Some(v as u64)
}

/// Whether `m` is the constant that adding `v` subtracts.
pub open spec fn subtracts(v: i64, m: Option<u64>) -> bool {
    m matches Some(b) && as_unsigned(negated(v) as int) == b
}

/// The text of an expression, with as few parentheses as needed:
/// - `x + -n` is `x - n`, and `wasm_ptr(x)` where `n` is the memory base; inside a
///   dereference the linear memory offset vanishes
/// - `x + n` is `pvm_addr(x)` where `n` is the memory base
/// - `0 <u x` is `x != 0` where `x` is not boolean
pub open spec fn text_of(e: Expr, ctx: FormatContext) -> Seq<char>
    decreases e, 0nat,
{
    match e {
        Expr::Const(v) => const_text(v as int),
        Expr::Var(n) => n,
        Expr::Raw(s) => s,
        Expr::BinOp { op, lhs, rhs } => {
            let lhs = *lhs;
            let rhs = *rhs;
            let rc = expr::const_value(rhs);
            let lc = expr::const_value(lhs);
            if op == BinOp::Add && rc is Some && rc->0 < 0 {
                if subtracts(rc->0, ctx.memory_base) {
                    "wasm_ptr("@ + text_of(lhs, ctx) + ")"@
                } else if ctx.deref_context && subtracts(rc->0, ctx.linear_memory_offset) {
                    text_of(lhs, ctx)
                } else {
                    operand_text(lhs, BinOp::Sub, true, ctx) + " - "@ + const_text(
                        negated(rc->0) as int,
                    )
                }
            } else if op == BinOp::Add && rc is Some && adds(rc->0, ctx.memory_base) {
                "pvm_addr("@ + text_of(lhs, ctx) + ")"@
            } else if op == BinOp::Add && lc is Some && adds(lc->0, ctx.memory_base) {
                "pvm_addr("@ + text_of(rhs, ctx) + ")"@
            } else if op == BinOp::LtU && lc == Some(0i64) && !simplify::boolean(rhs) {
                if rhs is BinOp {
                    "("@ + text_of(rhs, ctx) + ")"@ + " != 0"@
                } else {
                    text_of(rhs, ctx) + " != 0"@
                }
            } else {
                operand_text(lhs, op, true, ctx) + " "@ + op.symbol() + " "@ + operand_text(
                    rhs,
                    op,
                    false,
                    ctx,
                )
            }
        },
        Expr::UnaryOp { op, operand } => op.symbol() + "("@ + text_of(*operand, ctx) + ")"@,
        Expr::Load { width, base, offset } => access_text(*base, offset, width, ctx),
        Expr::Store { width, base, offset, value } => access_text(*base, offset, width, ctx)
            + " = "@ + text_of(*value, ctx),
        Expr::Call { name, args } => name + "("@ + args_text(args, args.len(), ctx) + ")"@,
    }
}

/// The memory access with this base, offset and width.
pub fn format_access(base: &Expression, offset: i32, width: MemWidth, ctx: &FormatContext) -> (s:
    String)
    ensures
        s@ == access_text(base@, offset, width, *ctx),
    decreases base, 3nat,
{
    if let Some(name) = resolve_named_global(base, offset, width, ctx) {
        return name;
    }
    if let Some(access) = format_mem_base_access(base, offset, width, ctx) {
        return access;
    }
    if let Some(field) = format_struct_field(base, offset, ctx) {
        return field;
    }
    if let Some(arr) = format_array_access(base, offset, width, ctx) {
        return arr;
    }
    let mut s = width.as_str().to_owned();
    s.append("[");
    let address = format_mem_address(base, offset, ctx);
    s.append(address.as_str());
    s.append("]");
    s
}

/// Format an expression tree as a human-readable string with minimal parentheses.
pub fn format_expression(expr: &Expression, ctx: &FormatContext) -> (s: String)
    ensures
        s@ == text_of(expr@, *ctx),
    decreases expr, 0nat,
{
    match expr {
        Expression::Const(v) => format_const(*v),
        Expression::Var(name) => name.as_str().to_owned(),
        Expression::Raw(raw) => raw.as_str().to_owned(),
        Expression::BinOp { op, lhs, rhs } => {
            if *op == BinOp::Add {
                if let Expression::Const(v) = &**rhs {
                    assert(expr_of_const(**rhs, *v));
                    if *v < 0 {
                        let magnitude: u64 = unsigned(negate(*v));
                        if let Some(b) = ctx.memory_base {
                            if magnitude == b {
                                let mut s = "wasm_ptr(".to_owned();
                                let inner = format_expression(lhs, ctx);
                                s.append(inner.as_str());
                                s.append(")");
                                return s;
                            }
                        }
                        if let Some(l) = ctx.linear_memory_offset {
                            if ctx.deref_context && magnitude == l {
                                return format_expression(lhs, ctx);
                            }
                        }
                        let mut s = format_operand(lhs, BinOp::Sub, true, ctx);
                        s.append(" - ");
                        let number = format_const(negate(*v));
                        s.append(number.as_str());
                        return s;
                    }
                    if let Some(b) = ctx.memory_base {
                        if *v > 0 && *v as u64 == b {
                            let mut s = "pvm_addr(".to_owned();
                            let inner = format_expression(lhs, ctx);
                            s.append(inner.as_str());
                            s.append(")");
                            return s;
                        }
                    }
                }
                if let Expression::Const(v) = &**lhs {
                    assert(expr_of_const(**lhs, *v));
                    if let Some(b) = ctx.memory_base {
                        if *v > 0 && *v as u64 == b {
                            let mut s = "pvm_addr(".to_owned();
                            let inner = format_expression(rhs, ctx);
                            s.append(inner.as_str());
                            s.append(")");
                            return s;
                        }
                    }
                }
            }
            if *op == BinOp::LtU && is_zero(lhs) && !is_boolean_expr(rhs) {
                let inner = format_expression(rhs, ctx);
                if is_binop(rhs) {
                    let mut s = "(".to_owned();
                    s.append(inner.as_str());
                    s.append(")");
                    s.append(" != 0");
                    return s;
                }
                let mut s = inner;
                s.append(" != 0");
                return s;
            }
            let mut s = format_operand(lhs, *op, true, ctx);
            s.append(" ");
            s.append(op.as_str());
            s.append(" ");
            let right = format_operand(rhs, *op, false, ctx);
            s.append(right.as_str());
            s
        },
        Expression::UnaryOp { op, operand } => {
            let mut s = op.as_str().to_owned();
            s.append("(");
            let inner = format_expression(operand, ctx);
            s.append(inner.as_str());
            s.append(")");
            s
        },
        Expression::Load { width, base, offset } => format_access(base, *offset, *width, ctx),
        Expression::Store { width, base, offset, value } => {
            let mut s = format_access(base, *offset, *width, ctx);
            s.append(" = ");
            let stored = format_expression(value, ctx);
            s.append(stored.as_str());
            s
        },
        Expression::Call { name, args } => {
            proof {
                expr::lemma_call_view(*name, *args);
            }
            let mut s = name.as_str().to_owned();
            s.append("(");
            let list = format_args_list(args, ctx);
            s.append(list.as_str());
            s.append(")");
            s
        },
    }
}

spec fn expr_of_const(e: Expression, v: i64) -> bool {
    e@ == Expr::Const(v)
}

fn is_zero(expr: &Expression) -> (r: bool)
    ensures
        r == (expr::const_value(expr@) == Some(0i64)),
{
    match expr {
        Expression::Const(v) => *v == 0,
        _ => false,
    }
}

fn is_binop(expr: &Expression) -> (r: bool)
    ensures
        r == expr@ is BinOp,
{
    match expr {
        Expression::BinOp { .. } => true,
        _ => false,
    }
}

fn format_args_list(args: &Vec<Expression>, ctx: &FormatContext) -> (s: String)
    ensures
        s@ == args_text(expr::exprs_of(args@), args@.len(), *ctx),
    decreases args, 0nat,
{
    let ghost list = expr::exprs_of(args@);
    let mut s = String::new();
    let mut i: usize = 0;
    while i < args.len()
        invariant
            i <= args@.len(),
            list == expr::exprs_of(args@),
            s@ =~= args_text(list, i as nat, *ctx),
        decreases args@.len() - i,
    {
        assert(list[i as int] == args@[i as int]@);
        if i > 0 {
            s.append(", ");
        }
        let item = format_expression(&args[i], ctx);
        s.append(item.as_str());
        i = i + 1;
    }
    s
}

/// Format a sub-expression, adding parentheses only when needed for precedence.
fn format_operand(expr: &Expression, parent: BinOp, is_left: bool, ctx: &FormatContext) -> (s:
    String)
    ensures
        s@ == operand_text(expr@, parent, is_left, *ctx),
    decreases expr, 1nat,
{
    let parens: bool = match expr {
        Expression::BinOp { op, .. } => {
            let child: u8 = op_precedence(*op);
            let outer: u8 = op_precedence(parent);
            child < outer || (child == outer && !is_left && !is_commutative(parent))
        },
        _ => false,
    };
    let inner = format_expression(expr, ctx);
    if parens {
        let mut s = "(".to_owned();
        s.append(inner.as_str());
        s.append(")");
        s
    } else {
        inner
    }
}

/// `width[inner]`
fn indexed(width: MemWidth, inner: &str) -> (s: String)
    ensures
        s@ == width.symbol() + "["@ + inner@ + "]"@,
{
    let mut s = width.as_str().to_owned();
    s.append("[");
    s.append(inner);
    s.append("]");
    s
}

/// `*name`
fn dereferenced(name: &str) -> (s: String)
    ensures
        s@ == "*"@ + name@,
{
    let mut s = "*".to_owned();
    s.append(name);
    s
}

fn pointer_of(expr: &Expression) -> (r: Option<&String>)
    ensures
        match r {
            Some(n) => pointer_name(expr@) == Some(n@),
            None => pointer_name(expr@) is None,
        },
{
    match expr {
        Expression::Var(name) => if has_prefix(name.as_str(), "ptr_") {
            Some(name)
        } else {
            None
        },
        _ => None,
    }
}

/// Detect if a load or store base references linear memory via the memory base and
/// simplify it to a width-preserving memory access.
/// For example, `u8[var_61 + 0x50000]` is `u8[var_61]` when the memory base is 0x50000.
fn format_mem_base_access(base: &Expression, offset: i32, width: MemWidth, ctx: &FormatContext) -> (r:
    Option<String>)
    ensures
        match r {
            Some(s) => linear_text(base@, offset, width, *ctx) == Some(s@),
            None => linear_text(base@, offset, width, *ctx) is None,
        },
    decreases base, 2nat,
{
    proof {
        reveal_with_fuel(expr::expr_of, 3);
    }
    let mem_base: i64 = match ctx.memory_base {
        Some(m) => signed(m),
        None => {
            return None;
        },
    };
    let inner = ctx.with_deref_context();
    if offset == 0 {
        if let Expression::BinOp { op, lhs, rhs } = base {
            if *op == BinOp::Add {
                if let Expression::Const(v) = &**rhs {
                    if *v == mem_base {
                        let t = format_expression(lhs, &inner);
                        return Some(indexed(width, t.as_str()));
                    }
                }
                if let Expression::Const(v) = &**lhs {
                    if *v == mem_base {
                        let t = format_expression(rhs, &inner);
                        return Some(indexed(width, t.as_str()));
                    }
                }
            }
        }
    }
    if let Some(l) = ctx.linear_memory_offset {
        if unsigned(offset as i64) == l {
            if let Some(name) = pointer_of(base) {
                return Some(dereferenced(name.as_str()));
            }
        }
    }
    if offset as i64 == mem_base {
        let t = format_expression(base, &inner);
        return Some(indexed(width, t.as_str()));
    }
    None
}

/// Format a pointer dereference as a struct field access if the base is a pointer variable.
fn format_struct_field(base: &Expression, offset: i32, ctx: &FormatContext) -> (r: Option<String>)
    ensures
        match r {
            Some(s) => field_text(base@, offset, *ctx) == Some(s@),
            None => field_text(base@, offset, *ctx) is None,
        },
{
    let name: &String = match pointer_of(base) {
        Some(n) => n,
        None => {
            return None;
        },
    };
    if offset < 0 {
        return None;
    }
    if let Some(l) = ctx.linear_memory_offset {
        if offset as u64 == l {
            return Some(dereferenced(name.as_str()));
        }
    }
    if let Some(m) = ctx.memory_base {
        if offset as u64 == m {
            return Some(dereferenced(name.as_str()));
        }
    }
    let mut s = name.as_str().to_owned();
    s.append("->field_");
    text::push_dec(&mut s, offset as u64);
    Some(s)
}

fn index_of(expr: &Expression, size: i64) -> (r: Option<&Expression>)
    ensures
        match r {
            Some(i) => scaled_index(expr@, size as int) == Some(i@) && (*expr matches
                Expression::BinOp { lhs, .. } && *lhs == *i),
            None => scaled_index(expr@, size as int) is None,
        },
{
    proof {
        reveal_with_fuel(expr::expr_of, 3);
    }
    match expr {
        Expression::BinOp { op, lhs, rhs } => {
            if *op == BinOp::Mul {
                if let Expression::Const(m) = &**rhs {
                    if *m == size {
                        return Some(&**lhs);
                    }
                }
            }
            None
        },
        _ => None,
    }
}

/// Detect array access patterns: `base + index * element_size` where element_size
/// matches the load/store width. Returns `Some("base[index]")` on match.
///
/// Byte-width accesses (u8/i8) are excluded because `base + index * 1` doesn't
/// clearly indicate array semantics.
fn format_array_access(base: &Expression, offset: i32, width: MemWidth, ctx: &FormatContext) -> (r:
    Option<String>)
    ensures
        match r {
            Some(s) => array_text(base@, offset, width, *ctx) == Some(s@),
            None => array_text(base@, offset, width, *ctx) is None,
        },
    decreases base, 2nat,
{
    let size: i64 = width.byte_size();
    if offset != 0 || size <= 1 {
        return None;
    }
    match base {
        Expression::BinOp { op, lhs, rhs } => {
            if *op == BinOp::Add {
                if let Some(index) = index_of(rhs, size) {
                    let mut s = format_expression(lhs, ctx);
                    s.append("[");
                    let i = format_expression(index, ctx);
                    s.append(i.as_str());
                    s.append("]");
                    return Some(s);
                }
                if let Some(index) = index_of(lhs, size) {
                    let mut s = format_expression(rhs, ctx);
                    s.append("[");
                    let i = format_expression(index, ctx);
                    s.append(i.as_str());
                    s.append("]");
                    return Some(s);
                }
            }
            None
        },
        _ => None,
    }
}

/// Resolve a known PVM/AssemblyScript global address to a named constant.
fn resolve_named_global(base: &Expression, offset: i32, width: MemWidth, ctx: &FormatContext) -> (r:
    Option<String>)
    ensures
        match r {
            Some(s) => global_text(base@, offset, width, *ctx) == Some(s@),
            None => global_text(base@, offset, width, *ctx) is None,
        },
{
    match base {
        Expression::Const(b) => {
            let addr: i64 = b.wrapping_add(offset as i64);
            if addr == 0x30000 {
                Some("RESULT_PTR".to_owned())
            } else if addr == 0x30004 {
                Some("RESULT_LEN".to_owned())
            } else if addr == 0x30008 {
                Some("HEAP_PTR".to_owned())
            } else if addr == 0x3000C {
                Some("HEAP_PAGES".to_owned())
            } else {
                match ctx.memory_base {
                    Some(m) => {
                        let base: i64 = signed(m);
                        if addr >= base {
                            let t = format_const(addr.wrapping_sub(base));
                            Some(indexed(width, t.as_str()))
                        } else {
                            None
                        }
                    },
                    None => None,
                }
            }
        },
        _ => None,
    }
}

/// Format a memory address `base + offset`.
fn format_mem_address(base: &Expression, offset: i32, ctx: &FormatContext) -> (s: String)
    ensures
        s@ == address_text(base@, offset, *ctx),
    decreases base, 2nat,
{
    match base {
        Expression::Const(b) => format_const(b.wrapping_add(offset as i64)),
        _ => {
            let mut s = format_expression(base, &ctx.with_deref_context());
            if offset < 0 {
                s.append(" - ");
                let magnitude: i32 = if offset == i32::MIN {
                    offset
                } else {
                    -offset
                };
                let t = format_const(magnitude as i64);
                s.append(t.as_str());
            } else if offset > 0 {
                s.append(" + ");
                let t = format_const(offset as i64);
                s.append(t.as_str());
            }
            s
        },
    }
}

} // verus!
