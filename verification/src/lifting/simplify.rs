//! Simplification of expressions by identities.

use crate::instruction::{BinOp, UnaryOp};
use crate::lifting::expr;
use crate::lifting::expr::{constant, Expr, Expression};
use vstd::prelude::*;

verus! {

/// The comparison operators.
pub open spec fn compares(op: BinOp) -> bool {
    op == BinOp::LtU || op == BinOp::LtS || op == BinOp::GeU || op == BinOp::GeS || op == BinOp::GtU
        || op == BinOp::GtS || op == BinOp::LeU || op == BinOp::LeS
}

fn is_comparison(op: BinOp) -> (r: bool)
    ensures
        r == compares(op),
{
    op == BinOp::LtU || op == BinOp::LtS || op == BinOp::GeU || op == BinOp::GeS || op == BinOp::GtU
        || op == BinOp::GtS || op == BinOp::LeU || op == BinOp::LeS
}

/// The comparison that holds exactly where `op` does not.
pub open spec fn inverse(op: BinOp) -> BinOp {
    match op {
        BinOp::LtU => BinOp::GeU,
        BinOp::LtS => BinOp::GeS,
        BinOp::GtU => BinOp::LeU,
        BinOp::GtS => BinOp::LeS,
        BinOp::GeU => BinOp::LtU,
        BinOp::GeS => BinOp::LtS,
        BinOp::LeU => BinOp::GtU,
        BinOp::LeS => BinOp::GtS,
        _ => op,
    }
}

fn inverted(op: BinOp) -> (r: BinOp)
    ensures
        r == inverse(op),
{
    match op {
        BinOp::LtU => BinOp::GeU,
        BinOp::LtS => BinOp::GeS,
        BinOp::GtU => BinOp::LeU,
        BinOp::GtS => BinOp::LeS,
        BinOp::GeU => BinOp::LtU,
        BinOp::GeS => BinOp::LtS,
        BinOp::LeU => BinOp::GtU,
        BinOp::LeS => BinOp::GtS,
        _ => op,
    }
}

/// Whether an expression is known to give 0 or 1: a negation, a comparison, or a
/// bitwise combination of such.
pub open spec fn boolean(e: Expr) -> bool
    decreases e,
{
    match e {
        Expr::UnaryOp { op, operand } => op == UnaryOp::Not,
        Expr::BinOp { op, lhs, rhs } => compares(op) || ((op == BinOp::And || op == BinOp::Or)
            && boolean(*lhs) && boolean(*rhs)),
        _ => false,
    }
}

/// Returns true if an expression is known to produce a boolean (0 or 1) result.
/// Used to elide `!= 0` checks on expressions that are already boolean.
pub fn is_boolean_expr(expr: &Expression) -> (r: bool)
    ensures
        r == boolean(expr@),
    decreases expr,
{
    match expr {
        Expression::UnaryOp { op, .. } => *op == UnaryOp::Not,
        Expression::BinOp { op, lhs, rhs } => {
            if is_comparison(*op) {
                return true;
            }
            if *op == BinOp::And || *op == BinOp::Or {
                return is_boolean_expr(lhs) && is_boolean_expr(rhs);
            }
            false
        },
        _ => false,
    }
}

pub open spec fn bin(op: BinOp, lhs: Expr, rhs: Expr) -> Expr {
    Expr::BinOp { op, lhs: Box::new(lhs), rhs: Box::new(rhs) }
}

pub open spec fn negation(e: Expr) -> Expr {
    Expr::UnaryOp { op: UnaryOp::Not, operand: Box::new(e) }
}

/// The sum `x + c` that an expression is, `c` being a constant.
pub open spec fn as_sum(e: Expr) -> Option<(Expr, i64)> {
    match e {
        Expr::BinOp { op, lhs, rhs } => if op == BinOp::Add && *rhs is Const {
            Some((*lhs, (*rhs)->Const_0))
        } else {
            None
        },
        _ => None,
    }
}

fn sum_of(expr: &Expression) -> (r: Option<(&Expression, i64)>)
    ensures
        match r {
            Some(p) => as_sum(expr@) == Some((p.0@, p.1)),
            None => as_sum(expr@) is None,
        },
{
    proof {
        reveal_with_fuel(expr::expr_of, 3);
    }
    match expr {
        Expression::BinOp { op, lhs, rhs } => {
            if *op == BinOp::Add {
                if let Expression::Const(c) = &**rhs {
                    return Some((&**lhs, *c));
                }
            }
            None
        },
        _ => None,
    }
}

/// Operators for which `x op 0` is `x`.
pub open spec fn right_zero_is_neutral(op: BinOp) -> bool {
    op == BinOp::Add || op == BinOp::Sub || op == BinOp::Or || op == BinOp::Xor || op == BinOp::Shl
        || op == BinOp::ShrU || op == BinOp::ShrS
}

/// Operators for which `0 op x` is `x`.
pub open spec fn left_zero_is_neutral(op: BinOp) -> bool {
    op == BinOp::Add || op == BinOp::Or || op == BinOp::Xor
}

/// The result of `op` on two constants, for the operators that are folded.
pub open spec fn folded(op: BinOp, a: i64, b: i64) -> Option<i64> {
    match op {
        BinOp::Add => Some(a.wrapping_add(b)),
        BinOp::Sub => Some(a.wrapping_sub(b)),
        BinOp::Mul => Some(a.wrapping_mul(b)),
        _ => None,
    }
}

/// What `l op r` is simplified to, `l` and `r` being simplified already. The first
/// rule that applies counts:
/// - constants are folded by `+`, `-` and `*`
/// - `x + 0`, `x - 0`, `x | 0`, `x ^ 0`, `x << 0`, `x >>u 0`, `x >>s 0` are `x`
/// - `0 + x`, `0 | x`, `0 ^ x` are `x`
/// - `(x + c1) + c2` is `x + (c1 + c2)`, and `x` where the constants cancel
/// - `x * 1`, `x /u 1`, `x /s 1`, `1 * x` are `x`
/// - `x * 0`, `x & 0`, `0 * x`, `0 & x` are `0`
/// - `x <u 1` is `!x`
/// - `0 <u x` is `x` where `x` is boolean
/// - `c <u x` and `c <s x` are `x >u c` and `x >s c`, except for `0 <u x`
pub open spec fn simplified_binop(op: BinOp, l: Expr, r: Expr) -> Expr {
    let lc = expr::const_value(l);
    let rc = expr::const_value(r);
    if lc is Some && rc is Some && folded(op, lc->0, rc->0) is Some {
        Expr::Const(folded(op, lc->0, rc->0)->0)
    } else if right_zero_is_neutral(op) && rc == Some(0i64) {
        l
    } else if left_zero_is_neutral(op) && lc == Some(0i64) {
        r
    } else if op == BinOp::Add && as_sum(l) is Some && rc is Some {
        let (x, c1) = as_sum(l)->0;
        let sum = c1.wrapping_add(rc->0);
        if sum == 0 {
            x
        } else {
            bin(BinOp::Add, x, Expr::Const(sum))
        }
    } else if (op == BinOp::Mul || op == BinOp::DivU || op == BinOp::DivS) && rc == Some(1i64) {
        l
    } else if op == BinOp::Mul && lc == Some(1i64) {
        r
    } else if (op == BinOp::Mul || op == BinOp::And) && (rc == Some(0i64) || lc == Some(0i64)) {
        Expr::Const(0)
    } else if op == BinOp::LtU && rc == Some(1i64) {
        negation(l)
    } else if op == BinOp::LtU && lc == Some(0i64) {
        if boolean(r) {
            r
        } else {
            bin(op, l, r)
        }
    } else if op == BinOp::LtU && lc is Some {
        bin(BinOp::GtU, r, l)
    } else if op == BinOp::LtS && lc is Some {
        bin(BinOp::GtS, r, l)
    } else {
        bin(op, l, r)
    }
}

fn fold_constants(op: BinOp, a: i64, b: i64) -> (r: Option<i64>)
    ensures
        r == folded(op, a, b),
{
    match op {
        BinOp::Add => Some(a.wrapping_add(b)),
        BinOp::Sub => Some(a.wrapping_sub(b)),
        BinOp::Mul => Some(a.wrapping_mul(b)),
        _ => None,
    }
}

fn simplify_binop(op: BinOp, l: Expression, r: Expression) -> (e: Expression)
    ensures
        e@ == simplified_binop(op, l@, r@),
{
    proof {
        reveal_with_fuel(expr::expr_of, 3);
    }
    let lc: Option<i64> = constant(&l);
    let rc: Option<i64> = constant(&r);
    if let Some(a) = lc {
        if let Some(b) = rc {
            if let Some(c) = fold_constants(op, a, b) {
                return Expression::Const(c);
            }
        }
    }
    let left_is_zero: bool = match lc {
        Some(v) => v == 0,
        None => false,
    };
    let left_is_one: bool = match lc {
        Some(v) => v == 1,
        None => false,
    };
    let right_is_zero: bool = match rc {
        Some(v) => v == 0,
        None => false,
    };
    let right_is_one: bool = match rc {
        Some(v) => v == 1,
        None => false,
    };
    if right_is_zero && (op == BinOp::Add || op == BinOp::Sub || op == BinOp::Or || op
        == BinOp::Xor || op == BinOp::Shl || op == BinOp::ShrU || op == BinOp::ShrS) {
        return l;
    }
    if left_is_zero && (op == BinOp::Add || op == BinOp::Or || op == BinOp::Xor) {
        return r;
    }
    if op == BinOp::Add {
        if let Some(c2) = rc {
            if let Some((x, c1)) = sum_of(&l) {
                let sum: i64 = c1.wrapping_add(c2);
                return if sum == 0 {
                    x.clone()
                } else {
                    Expression::BinOp {
                        op: BinOp::Add,
                        lhs: Box::new(x.clone()),
                        rhs: Box::new(Expression::Const(sum)),
                    }
                };
            }
        }
    }
    if right_is_one && (op == BinOp::Mul || op == BinOp::DivU || op == BinOp::DivS) {
        return l;
    }
    if left_is_one && op == BinOp::Mul {
        return r;
    }
    if (op == BinOp::Mul || op == BinOp::And) && (right_is_zero || left_is_zero) {
        return Expression::Const(0);
    }
    if op == BinOp::LtU && right_is_one {
        return Expression::UnaryOp { op: UnaryOp::Not, operand: Box::new(l) };
    }
    if op == BinOp::LtU && left_is_zero {
        if is_boolean_expr(&r) {
            return r;
        }
        return Expression::BinOp { op, lhs: Box::new(l), rhs: Box::new(r) };
    }
    if op == BinOp::LtU && lc.is_some() {
        return Expression::BinOp { op: BinOp::GtU, lhs: Box::new(r), rhs: Box::new(l) };
    }
    if op == BinOp::LtS && lc.is_some() {
        return Expression::BinOp { op: BinOp::GtS, lhs: Box::new(r), rhs: Box::new(l) };
    }
    Expression::BinOp { op, lhs: Box::new(l), rhs: Box::new(r) }
}

/// What `op(e)` is simplified to, `e` being simplified already: `!!x` is `x`, and the
/// negation of a comparison is the inverse comparison.
pub open spec fn simplified_unary(op: UnaryOp, e: Expr) -> Expr {
    let same = Expr::UnaryOp { op, operand: Box::new(e) };
    if op == UnaryOp::Not {
        match e {
            Expr::UnaryOp { op: inner, operand } => if inner == UnaryOp::Not {
                *operand
            } else {
                same
            },
            Expr::BinOp { op: inner, lhs, rhs } => if compares(inner) {
                bin(inverse(inner), *lhs, *rhs)
            } else {
                same
            },
            _ => same,
        }
    } else {
        same
    }
}

fn simplify_unary(op: UnaryOp, e: Expression) -> (r: Expression)
    ensures
        r@ == simplified_unary(op, e@),
{
    if op == UnaryOp::Not {
        match e {
            Expression::UnaryOp { op: inner, operand } => if inner == UnaryOp::Not {
                *operand
            } else {
                Expression::UnaryOp {
                    op,
                    operand: Box::new(Expression::UnaryOp { op: inner, operand }),
                }
            },
            Expression::BinOp { op: inner, lhs, rhs } => if is_comparison(inner) {
                Expression::BinOp { op: inverted(inner), lhs, rhs }
            } else {
                Expression::UnaryOp {
                    op,
                    operand: Box::new(Expression::BinOp { op: inner, lhs, rhs }),
                }
            },
            other => Expression::UnaryOp { op, operand: Box::new(other) },
        }
    } else {
        Expression::UnaryOp { op, operand: Box::new(e) }
    }
}

/// The address `base + offset` with a constant summand of the base, where it fits,
/// moved into the offset.
pub open spec fn absorbed(base: Expr, offset: i32) -> (Expr, i32) {
    match as_sum(base) {
        Some((x, c)) => if i32::MIN <= c <= i32::MAX {
            (x, offset.wrapping_add(c as i32))
        } else {
            (base, offset)
        },
        None => (base, offset),
    }
}

fn absorb(base: Expression, offset: i32) -> (r: (Expression, i32))
    ensures
        (r.0@, r.1) == absorbed(base@, offset),
{
    let moved: Option<(Expression, i32)> = match sum_of(&base) {
        Some((x, c)) => if (i32::MIN as i64) <= c && c <= (i32::MAX as i64) {
            Some((x.clone(), offset.wrapping_add(c as i32)))
        } else {
            None
        },
        None => None,
    };
    match moved {
        Some(p) => p,
        None => (base, offset),
    }
}

/// An expression with all its parts simplified.
pub open spec fn simplified(e: Expr) -> Expr
    decreases e,
{
    match e {
        Expr::BinOp { op, lhs, rhs } => simplified_binop(op, simplified(*lhs), simplified(*rhs)),
        Expr::UnaryOp { op, operand } => simplified_unary(op, simplified(*operand)),
        Expr::Load { width, base, offset } => {
            let a = absorbed(simplified(*base), offset);
            Expr::Load { width, base: Box::new(a.0), offset: a.1 }
        },
        Expr::Store { width, base, offset, value } => {
            let a = absorbed(simplified(*base), offset);
            Expr::Store {
                width,
                base: Box::new(a.0),
                offset: a.1,
                value: Box::new(simplified(*value)),
            }
        },
        Expr::Call { name, args } => Expr::Call {
            name,
            args: Seq::new(
                args.len(),
                |i: int|
                    if 0 <= i < args.len() {
                        simplified(args[i])
                    } else {
                        Expr::Const(0)
                    },
            ),
        },
        Expr::Const(_) => e,
        Expr::Var(_) => e,
        Expr::Raw(_) => e,
    }
}

/// Recursively simplify an expression by folding identity operations.
pub fn simplify_expression(expr: Expression) -> (r: Expression)
    ensures
        r@ == simplified(expr@),
    decreases expr@,
{
    match expr {
        Expression::BinOp { op, lhs, rhs } => {
            let l = simplify_expression(*lhs);
            let r = simplify_expression(*rhs);
            simplify_binop(op, l, r)
        },
        Expression::UnaryOp { op, operand } => {
            let e = simplify_expression(*operand);
            simplify_unary(op, e)
        },
        Expression::Load { width, base, offset } => {
            let simple = simplify_expression(*base);
            let (base, offset) = absorb(simple, offset);
            Expression::Load { width, base: Box::new(base), offset }
        },
        Expression::Store { width, base, offset, value } => {
            let simple = simplify_expression(*base);
            let value = simplify_expression(*value);
            let (base, offset) = absorb(simple, offset);
            Expression::Store { width, base: Box::new(base), offset, value: Box::new(value) }
        },
        Expression::Call { name, args } => {
            let ghost list = expr::exprs_of(args@);
            proof {
                expr::lemma_call_view(name, args);
            }
            let mut out: Vec<Expression> = Vec::new();
            let mut i: usize = 0;
            while i < args.len()
                invariant
                    i <= args@.len(),
                    out@.len() == i,
                    list == expr::exprs_of(args@),
                    decreases_to!(expr@ => list),
                    forall|k: int| 0 <= k < i ==> (#[trigger] out@[k])@ == simplified(list[k]),
                decreases args@.len() - i,
            {
                assert(list[i as int] == args@[i as int]@);
                out.push(simplify_expression(args[i].clone()));
                i = i + 1;
            }
            let r = Expression::Call { name, args: out };
            assert(r@->Call_args =~= simplified(Expr::Call { name: name@, args: list })->Call_args);
            r
        },
        other => other,
    }
}

proof fn lemma_binop_shrinks(op: BinOp, l: Expr, r: Expr, name: Seq<char>)
    ensures
        expr::depth(simplified_binop(op, l, r)) <= expr::depth(bin(op, l, r)),
        expr::mentions(simplified_binop(op, l, r), name) ==> expr::mentions(l, name)
            || expr::mentions(r, name),
{
    reveal_with_fuel(expr::depth, 3);
    reveal_with_fuel(expr::mentions, 3);
}

proof fn lemma_unary_shrinks(op: UnaryOp, e: Expr, name: Seq<char>)
    ensures
        expr::depth(simplified_unary(op, e)) <= 1 + expr::depth(e),
        expr::mentions(simplified_unary(op, e), name) ==> expr::mentions(e, name),
{
    reveal_with_fuel(expr::depth, 3);
    reveal_with_fuel(expr::mentions, 3);
}

proof fn lemma_base_shrinks(base: Expr, offset: i32, name: Seq<char>)
    ensures
        expr::depth(absorbed(base, offset).0) <= expr::depth(base),
        expr::mentions(absorbed(base, offset).0, name) ==> expr::mentions(base, name),
{
    reveal_with_fuel(expr::depth, 3);
    reveal_with_fuel(expr::mentions, 3);
}

proof fn lemma_deepest_shrinks(a: Seq<Expr>, b: Seq<Expr>, n: nat)
    requires
        n <= a.len() == b.len(),
        forall|i: int| 0 <= i < a.len() ==> expr::depth(#[trigger] a[i]) <= expr::depth(b[i]),
    ensures
        expr::deepest(a, n) <= expr::deepest(b, n),
    decreases n,
{
    if n > 0 {
        lemma_deepest_shrinks(a, b, (n - 1) as nat);
        assert(expr::depth(a[n - 1]) <= expr::depth(b[n - 1]));
    }
}

/// A simplified expression is no higher than the expression, and holds none but its variables.
pub proof fn law_simplification_shrinks(e: Expr, name: Seq<char>)
    ensures
        expr::depth(simplified(e)) <= expr::depth(e),
        expr::mentions(simplified(e), name) ==> expr::mentions(e, name),
    decreases e,
{
    match e {
        Expr::BinOp { op, lhs, rhs } => {
            law_simplification_shrinks(*lhs, name);
            law_simplification_shrinks(*rhs, name);
            lemma_binop_shrinks(op, simplified(*lhs), simplified(*rhs), name);
        },
        Expr::UnaryOp { op, operand } => {
            law_simplification_shrinks(*operand, name);
            lemma_unary_shrinks(op, simplified(*operand), name);
        },
        Expr::Load { width, base, offset } => {
            law_simplification_shrinks(*base, name);
            lemma_base_shrinks(simplified(*base), offset, name);
        },
        Expr::Store { width, base, offset, value } => {
            law_simplification_shrinks(*base, name);
            law_simplification_shrinks(*value, name);
            lemma_base_shrinks(simplified(*base), offset, name);
        },
        Expr::Call { name: callee, args } => {
            let out = simplified(e)->Call_args;
            assert forall|i: int| 0 <= i < out.len() implies expr::depth(#[trigger] out[i])
                <= expr::depth(args[i]) && (expr::mentions(out[i], name) ==> expr::mentions(
                args[i],
                name,
            )) by {
                law_simplification_shrinks(args[i], name);
                assert(out[i] == simplified(args[i]));
            }
            lemma_deepest_shrinks(out, args, args.len());
        },
        _ => {},
    }
}

} // verus!
