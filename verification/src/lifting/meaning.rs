//! What expressions compute, and that simplification keeps it.

use crate::instruction::{BinOp, MemWidth, UnaryOp};
use crate::lifting::expr;
use crate::lifting::expr::Expr;
use crate::lifting::render;
use crate::lifting::simplify;
use vstd::prelude::*;

verus! {

/// What the parts of an expression stand for that simplification leaves as they are:
/// variables, memory, calls, raw text, and the operators without an identity of their
/// own. Simplification keeps the value under each of these.
pub ghost struct Meaning {
    pub vars: spec_fn(Seq<char>) -> u64,
    pub load: spec_fn(MemWidth, int) -> u64,
    pub store: spec_fn(MemWidth, int, u64) -> u64,
    pub call: spec_fn(Seq<char>, Seq<u64>) -> u64,
    pub raw: spec_fn(Seq<char>) -> u64,
    pub unary: spec_fn(UnaryOp, u64) -> u64,
    pub binary: spec_fn(BinOp, u64, u64) -> u64,
}

/// The 64 bits of a number.
pub open spec fn bits(v: i64) -> u64 {
    render::as_unsigned(v as int) as u64
}

pub open spec fn bit(b: bool) -> u64 {
    if b {
        1
    } else {
        0
    }
}

/// Quotient rounded toward zero.
pub open spec fn quotient(x: int, y: int) -> int {
    let x0 = if x < 0 {
        -x
    } else {
        x
    };
    let y0 = if y < 0 {
        -y
    } else {
        y
    };
    if (x < 0) == (y < 0) {
        x0 / y0
    } else {
        -(x0 / y0)
    }
}

/// The result of a 64-bit operation.
pub open spec fn operate(m: Meaning, op: BinOp, a: u64, b: u64) -> u64 {
    let x = render::as_signed(a);
    let y = render::as_signed(b);
    match op {
        BinOp::Add => a.wrapping_add(b),
        BinOp::Sub => a.wrapping_sub(b),
        BinOp::Mul => a.wrapping_mul(b),
        BinOp::DivU => if b == 0 {
            u64::MAX
        } else {
            a / b
        },
        BinOp::DivS => if b == 0 {
            u64::MAX
        } else if x == i64::MIN && y == -1 {
            a
        } else {
            render::as_unsigned(quotient(x, y)) as u64
        },
        BinOp::And => a & b,
        BinOp::Or => a | b,
        BinOp::Xor => a ^ b,
        BinOp::Shl => a << (b % 64),
        BinOp::ShrU => a >> (b % 64),
        BinOp::ShrS => render::as_unsigned(((x as i64) >> (b % 64)) as int) as u64,
        BinOp::LtU => bit(a < b),
        BinOp::LtS => bit(x < y),
        BinOp::GeU => bit(a >= b),
        BinOp::GeS => bit(x >= y),
        BinOp::GtU => bit(a > b),
        BinOp::GtS => bit(x > y),
        BinOp::LeU => bit(a <= b),
        BinOp::LeS => bit(x <= y),
        _ => (m.binary)(op, a, b),
    }
}

/// The address `base + offset` in 64 bits.
pub open spec fn address(base: u64, offset: int) -> int {
    (base + offset) % 0x1_0000_0000_0000_0000
}

/// The value of an expression; that of a store is what it does.
pub open spec fn value(m: Meaning, e: Expr) -> u64
    decreases e,
{
    match e {
        Expr::Const(v) => bits(v),
        Expr::Var(n) => (m.vars)(n),
        Expr::Raw(s) => (m.raw)(s),
        Expr::BinOp { op, lhs, rhs } => operate(m, op, value(m, *lhs), value(m, *rhs)),
        Expr::UnaryOp { op, operand } => if op == UnaryOp::Not {
            bit(value(m, *operand) == 0)
        } else {
            (m.unary)(op, value(m, *operand))
        },
        Expr::Load { width, base, offset } => (m.load)(
            width,
            address(value(m, *base), offset as int),
        ),
        Expr::Store { width, base, offset, value: v } => (m.store)(
            width,
            address(value(m, *base), offset as int),
            value(m, *v),
        ),
        Expr::Call { name, args } => (m.call)(name, values(m, args)),
    }
}

/// The values of a list of expressions.
pub open spec fn values(m: Meaning, args: Seq<Expr>) -> Seq<u64>
    decreases args,
{
    Seq::new(
        args.len(),
        |i: int|
            if 0 <= i < args.len() {
                value(m, args[i])
            } else {
                0
            },
    )
}

/// Whether a constant summand of the base can move into the offset without overflow.
pub open spec fn offset_fits(base: Expr, offset: i32) -> bool {
    match simplify::as_sum(base) {
        Some((x, c)) => i32::MIN <= c <= i32::MAX ==> i32::MIN <= offset + c <= i32::MAX,
        None => true,
    }
}

/// Whether nothing in the expression is read in a looser sense when it is simplified:
/// `!!x` becomes `x` only where that is 0 or 1, and no offset overflows.
pub open spec fn strict(m: Meaning, e: Expr) -> bool
    decreases e,
{
    match e {
        Expr::BinOp { op, lhs, rhs } => strict(m, *lhs) && strict(m, *rhs),
        Expr::UnaryOp { op, operand } => strict(m, *operand) && (op == UnaryOp::Not ==> {
            simplify::simplified(*operand) matches Expr::UnaryOp { op: inner, operand: x } ==> inner
                == UnaryOp::Not ==> value(m, *x) <= 1
        }),
        Expr::Load { width, base, offset } => strict(m, *base) && offset_fits(
            simplify::simplified(*base),
            offset,
        ),
        Expr::Store { width, base, offset, value: v } => strict(m, *base) && offset_fits(
            simplify::simplified(*base),
            offset,
        ) && strict(m, *v),
        Expr::Call { name, args } => forall|i: int|
            0 <= i < args.len() ==> strict(m, #[trigger] args[i]),
        _ => true,
    }
}

/// A boolean expression is 0 or 1.
pub proof fn law_boolean_is_a_bit(m: Meaning, e: Expr)
    requires
        simplify::boolean(e),
    ensures
        value(m, e) <= 1,
    decreases e,
{
    if let Expr::BinOp { op, lhs, rhs } = e {
        if !simplify::compares(op) {
            law_boolean_is_a_bit(m, *lhs);
            law_boolean_is_a_bit(m, *rhs);
            let a = value(m, *lhs);
            let b = value(m, *rhs);
            assert((a & b) <= 1 && (a | b) <= 1) by (bit_vector)
                requires
                    a <= 1,
                    b <= 1,
            ;
        }
    }
}

proof fn lemma_bits(v: i64)
    ensures
        bits(v) == if v < 0 {
            v + 0x1_0000_0000_0000_0000
        } else {
            v as int
        },
        bits(v) == (v as int) % 0x1_0000_0000_0000_0000,
{
}

/// Folding constants gives the constant that the operation gives.
proof fn lemma_folded(m: Meaning, op: BinOp, a: i64, b: i64)
    requires
        simplify::folded(op, a, b) is Some,
    ensures
        bits(simplify::folded(op, a, b)->0) == operate(m, op, bits(a), bits(b)),
{
    lemma_bits(a);
    lemma_bits(b);
    if op == BinOp::Mul {
        vstd::arithmetic::div_mod::lemma_mul_mod_noop(
            a as int,
            b as int,
            0x1_0000_0000_0000_0000,
        );
        lemma_bits(a.wrapping_mul(b));
        assert(bits(a) * bits(b) == ((a as int) % 0x1_0000_0000_0000_0000) * ((
        b as int) % 0x1_0000_0000_0000_0000));
    }
}

/// `x op 0` is `x` for the operators with a neutral zero on the right.
proof fn lemma_right_zero(m: Meaning, op: BinOp, a: u64)
    requires
        simplify::right_zero_is_neutral(op),
    ensures
        operate(m, op, a, 0) == a,
{
    assert((a | 0) == a) by (bit_vector);
    assert((a ^ 0) == a) by (bit_vector);
    assert((a << 0u64) == a) by (bit_vector);
    assert((a >> 0u64) == a) by (bit_vector);
    let x = render::as_signed(a) as i64;
    assert((x >> 0u64) == x) by (bit_vector);
}

proof fn lemma_left_zero(m: Meaning, op: BinOp, a: u64)
    requires
        simplify::left_zero_is_neutral(op),
    ensures
        operate(m, op, 0, a) == a,
{
    assert((0 | a) == a) by (bit_vector);
    assert((0 ^ a) == a) by (bit_vector);
}

/// Simplifying an operation keeps its value.
proof fn lemma_binop(m: Meaning, op: BinOp, l: Expr, r: Expr)
    ensures
        value(m, simplify::simplified_binop(op, l, r)) == operate(
            m,
            op,
            value(m, l),
            value(m, r),
        ),
{
    reveal_with_fuel(value, 3);
    let lc = expr::const_value(l);
    let rc = expr::const_value(r);
    let a = value(m, l);
    let b = value(m, r);
    if lc is Some && rc is Some && simplify::folded(op, lc->0, rc->0) is Some {
        lemma_folded(m, op, lc->0, rc->0);
    } else if simplify::right_zero_is_neutral(op) && rc == Some(0i64) {
        lemma_right_zero(m, op, a);
    } else if simplify::left_zero_is_neutral(op) && lc == Some(0i64) {
        lemma_left_zero(m, op, b);
    } else if op == BinOp::Add && simplify::as_sum(l) is Some && rc is Some {
        let (x, c1) = simplify::as_sum(l)->0;
        lemma_bits(c1);
        lemma_bits(rc->0);
        lemma_bits(c1.wrapping_add(rc->0));
    } else if (op == BinOp::Mul || op == BinOp::DivU || op == BinOp::DivS) && rc == Some(1i64) {
        assert(b == 1);
        assert(a as nat * 1 == a) by (nonlinear_arith);
        let x = render::as_signed(a);
        assert(quotient(x, 1) == x);
    } else if op == BinOp::Mul && lc == Some(1i64) {
        assert(1 * b as nat == b) by (nonlinear_arith);
    } else if (op == BinOp::Mul || op == BinOp::And) && (rc == Some(0i64) || lc == Some(0i64)) {
        assert((a & 0) == 0) by (bit_vector);
        assert((0 & b) == 0) by (bit_vector);
        assert(a as nat * 0 == 0) by (nonlinear_arith);
        assert(0 * b as nat == 0) by (nonlinear_arith);
    } else if op == BinOp::LtU && lc == Some(0i64) && simplify::boolean(r) {
        law_boolean_is_a_bit(m, r);
    }
}

/// Simplifying a negation keeps its value.
proof fn lemma_unary(m: Meaning, op: UnaryOp, e: Expr)
    requires
        op == UnaryOp::Not ==> (e matches Expr::UnaryOp { op: inner, operand: x } ==> inner
            == UnaryOp::Not ==> value(m, *x) <= 1),
    ensures
        value(m, simplify::simplified_unary(op, e)) == if op == UnaryOp::Not {
            bit(value(m, e) == 0)
        } else {
            (m.unary)(op, value(m, e))
        },
{
    match e {
        Expr::BinOp { op: inner, lhs, rhs } => {
            if op == UnaryOp::Not && simplify::compares(inner) {
                let a = value(m, *lhs);
                let b = value(m, *rhs);
                assert(value(m, e) == operate(m, inner, a, b));
                assert(operate(m, simplify::inverse(inner), a, b) == bit(
                    operate(m, inner, a, b) == 0,
                ));
                assert(value(m, simplify::bin(simplify::inverse(inner), *lhs, *rhs)) == operate(
                    m,
                    simplify::inverse(inner),
                    a,
                    b,
                ));
            }
        },
        Expr::UnaryOp { op: inner, operand } => {
            assert(value(m, e) == if inner == UnaryOp::Not {
                bit(value(m, *operand) == 0)
            } else {
                (m.unary)(inner, value(m, *operand))
            });
        },
        _ => {},
    }
}

/// Simplification keeps the value of an expression, whatever its variables, the memory
/// and calls stand for. Left out are an `!!x` of an `x` beyond 0 and 1, which is read as
/// a truth value, and an address whose offset overflows.
pub proof fn law_simplification_keeps_value(m: Meaning, e: Expr)
    requires
        strict(m, e),
    ensures
        value(m, simplify::simplified(e)) == value(m, e),
    decreases e,
{
    match e {
        Expr::BinOp { op, lhs, rhs } => {
            law_simplification_keeps_value(m, *lhs);
            law_simplification_keeps_value(m, *rhs);
            lemma_binop(m, op, simplify::simplified(*lhs), simplify::simplified(*rhs));
            assert(value(m, e) == operate(m, op, value(m, *lhs), value(m, *rhs)));
        },
        Expr::UnaryOp { op, operand } => {
            law_simplification_keeps_value(m, *operand);
            lemma_unary(m, op, simplify::simplified(*operand));
        },
        Expr::Load { width, base, offset } => {
            law_simplification_keeps_value(m, *base);
            lemma_absorbed(m, simplify::simplified(*base), offset);
        },
        Expr::Store { width, base, offset, value: v } => {
            law_simplification_keeps_value(m, *base);
            law_simplification_keeps_value(m, *v);
            lemma_absorbed(m, simplify::simplified(*base), offset);
        },
        Expr::Call { name, args } => {
            let out = simplify::simplified(e)->Call_args;
            assert forall|i: int| 0 <= i < args.len() implies values(m, args)[i] == values(
                m,
                out,
            )[i] by {
                law_simplification_keeps_value(m, args[i]);
                assert(out[i] == simplify::simplified(args[i]));
            }
            assert(values(m, args) =~= values(m, out));
        },
        _ => {},
    }
}

/// Moving a constant into the offset keeps the address.
proof fn lemma_absorbed(m: Meaning, base: Expr, offset: i32)
    requires
        offset_fits(base, offset),
    ensures
        ({
            let (b, o) = simplify::absorbed(base, offset);
            address(value(m, b), o as int) == address(value(m, base), offset as int)
        }),
{
    reveal_with_fuel(value, 3);
    match simplify::as_sum(base) {
        Some((x, c)) => {
            lemma_bits(c);
            let a = value(m, x);
            assert(value(m, base) == a.wrapping_add(bits(c)));
        },
        None => {},
    }
}

/// The meaning in which the variable `name` stands for `x`.
pub open spec fn with_var(m: Meaning, name: Seq<char>, x: u64) -> Meaning {
    Meaning {
        vars: |n: Seq<char>|
            if n == name {
                x
            } else {
                (m.vars)(n)
            },
        ..m
    }
}

/// Putting an expression in place of a variable is to let the variable have its value.
pub proof fn law_substitution_evaluates(m: Meaning, e: Expr, name: Seq<char>, by: Expr)
    ensures
        value(m, expr::substituted(e, name, by)) == value(with_var(m, name, value(m, by)), e),
    decreases e,
{
    let inner = with_var(m, name, value(m, by));
    match e {
        Expr::BinOp { op, lhs, rhs } => {
            law_substitution_evaluates(m, *lhs, name, by);
            law_substitution_evaluates(m, *rhs, name, by);
            assert(operate(m, op, value(inner, *lhs), value(inner, *rhs)) == operate(
                inner,
                op,
                value(inner, *lhs),
                value(inner, *rhs),
            ));
        },
        Expr::UnaryOp { op, operand } => {
            law_substitution_evaluates(m, *operand, name, by);
        },
        Expr::Load { width, base, offset } => {
            law_substitution_evaluates(m, *base, name, by);
        },
        Expr::Store { width, base, offset, value: v } => {
            law_substitution_evaluates(m, *base, name, by);
            law_substitution_evaluates(m, *v, name, by);
        },
        Expr::Call { name: callee, args } => {
            let out = expr::substituted(e, name, by)->Call_args;
            assert forall|i: int| 0 <= i < args.len() implies values(m, out)[i] == values(
                inner,
                args,
            )[i] by {
                law_substitution_evaluates(m, args[i], name, by);
                assert(out[i] == expr::substituted(args[i], name, by));
            }
            assert(values(m, out) =~= values(inner, args));
        },
        _ => {},
    }
}

} // verus!
