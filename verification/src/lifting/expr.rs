//! Expression trees.
//!
//! `Expr` is the mathematical counterpart of `Expression`: names are sequences of
//! characters and argument lists are sequences. Everything that is said of an
//! expression is said of its view.

use crate::instruction::{BinOp, MemWidth, UnaryOp};
use crate::names;
use crate::names::{holds_slot, NameMap, Slot, SlotMap};
use crate::ordered;
use crate::text;
use crate::text::{has_prefix, same_text};
use vstd::prelude::*;

verus! {

/// An expression tree representing a computation.
#[derive(Debug)]
#[allow(inconsistent_fields)]
pub enum Expression {
    Const(i64),
    Var(String),
    BinOp { op: BinOp, lhs: Box<Expression>, rhs: Box<Expression> },
    UnaryOp { op: UnaryOp, operand: Box<Expression> },
    Load { width: MemWidth, base: Box<Expression>, offset: i32 },
    Store { width: MemWidth, base: Box<Expression>, offset: i32, value: Box<Expression> },
    Call { name: String, args: Vec<Expression> },
    /// A branch/jump/trap that doesn't produce a value - kept as raw text.
    Raw(String),
}

/// What an expression is, apart from how it is stored.
#[allow(inconsistent_fields)]
pub enum Expr {
    Const(i64),
    Var(Seq<char>),
    BinOp { op: BinOp, lhs: Box<Expr>, rhs: Box<Expr> },
    UnaryOp { op: UnaryOp, operand: Box<Expr> },
    Load { width: MemWidth, base: Box<Expr>, offset: i32 },
    Store { width: MemWidth, base: Box<Expr>, offset: i32, value: Box<Expr> },
    Call { name: Seq<char>, args: Seq<Expr> },
    Raw(Seq<char>),
}

pub open spec fn expr_of(e: Expression) -> Expr
    decreases e,
{
    match e {
        Expression::Const(v) => Expr::Const(v),
        Expression::Var(n) => Expr::Var(n@),
        Expression::BinOp { op, lhs, rhs } => Expr::BinOp {
            op,
            lhs: Box::new(expr_of(*lhs)),
            rhs: Box::new(expr_of(*rhs)),
        },
        Expression::UnaryOp { op, operand } => Expr::UnaryOp {
            op,
            operand: Box::new(expr_of(*operand)),
        },
        Expression::Load { width, base, offset } => Expr::Load {
            width,
            base: Box::new(expr_of(*base)),
            offset,
        },
        Expression::Store { width, base, offset, value } => Expr::Store {
            width,
            base: Box::new(expr_of(*base)),
            offset,
            value: Box::new(expr_of(*value)),
        },
        Expression::Call { name, args } => Expr::Call {
            name: name@,
            args: Seq::new(
                args@.len(),
                |i: int|
                    if 0 <= i < args@.len() {
                        expr_of(args@[i])
                    } else {
                        Expr::Const(0)
                    },
            ),
        },
        Expression::Raw(s) => Expr::Raw(s@),
    }
}

impl View for Expression {
    type V = Expr;

    open spec fn view(&self) -> Expr {
        expr_of(*self)
    }
}

/// The views of a list of expressions.
pub open spec fn exprs_of(s: Seq<Expression>) -> Seq<Expr> {
    s.map_values(|e: Expression| e@)
}

impl Clone for Expression {
    fn clone(&self) -> (r: Self)
        ensures
            r@ == self@,
        decreases self,
    {
        match self {
            Expression::Const(v) => Expression::Const(*v),
            Expression::Var(n) => Expression::Var(n.as_str().to_owned()),
            Expression::BinOp { op, lhs, rhs } => Expression::BinOp {
                op: *op,
                lhs: Box::new((**lhs).clone()),
                rhs: Box::new((**rhs).clone()),
            },
            Expression::UnaryOp { op, operand } => Expression::UnaryOp {
                op: *op,
                operand: Box::new((**operand).clone()),
            },
            Expression::Load { width, base, offset } => Expression::Load {
                width: *width,
                base: Box::new((**base).clone()),
                offset: *offset,
            },
            Expression::Store { width, base, offset, value } => Expression::Store {
                width: *width,
                base: Box::new((**base).clone()),
                offset: *offset,
                value: Box::new((**value).clone()),
            },
            Expression::Call { name, args } => {
                let mut copies: Vec<Expression> = Vec::new();
                let mut i: usize = 0;
                while i < args.len()
                    invariant
                        i <= args@.len(),
                        copies@.len() == i,
                        *self matches Expression::Call { args: a, .. } && a == args,
                        forall|k: int| 0 <= k < i ==> (#[trigger] copies@[k])@ == args@[k]@,
                    decreases args@.len() - i,
                {
                    copies.push(args[i].clone());
                    i = i + 1;
                }
                let r = Expression::Call { name: name.as_str().to_owned(), args: copies };
                assert(expr_of(r)->Call_args =~= expr_of(*self)->Call_args);
                r
            },
            Expression::Raw(s) => Expression::Raw(s.as_str().to_owned()),
        }
    }
}

/// A call's view has the views of its arguments.
pub proof fn lemma_call_view(name: String, args: Vec<Expression>)
    ensures
        (Expression::Call { name, args })@ == (Expr::Call {
            name: name@,
            args: exprs_of(args@),
        }),
{
    assert((Expression::Call { name, args })@->Call_args =~= exprs_of(args@));
}

/// The number that an expression is, where it is a constant.
pub open spec fn const_value(e: Expr) -> Option<i64> {
    match e {
        Expr::Const(v) => Some(v),
        _ => None,
    }
}

pub fn constant(expr: &Expression) -> (r: Option<i64>)
    ensures
        r == const_value(expr@),
{
    match expr {
        Expression::Const(v) => Some(*v),
        _ => None,
    }
}

/// Whether the variable `name` occurs in an expression.
pub open spec fn mentions(e: Expr, name: Seq<char>) -> bool
    decreases e,
{
    match e {
        Expr::Var(n) => n == name,
        Expr::Const(_) => false,
        Expr::Raw(_) => false,
        Expr::BinOp { op, lhs, rhs } => mentions(*lhs, name) || mentions(*rhs, name),
        Expr::UnaryOp { op, operand } => mentions(*operand, name),
        Expr::Load { width, base, offset } => mentions(*base, name),
        Expr::Store { width, base, offset, value } => mentions(*base, name) || mentions(
            *value,
            name,
        ),
        Expr::Call { name: callee, args } => exists|i: int|
            0 <= i < args.len() && mentions(#[trigger] args[i], name),
    }
}

pub fn uses_name(expr: &Expression, name: &str) -> (r: bool)
    ensures
        r == mentions(expr@, name@),
    decreases expr,
{
    match expr {
        Expression::Var(n) => same_text(n.as_str(), name),
        Expression::Const(_) => false,
        Expression::Raw(_) => false,
        Expression::BinOp { lhs, rhs, .. } => uses_name(lhs, name) || uses_name(rhs, name),
        Expression::UnaryOp { operand, .. } => uses_name(operand, name),
        Expression::Load { base, .. } => uses_name(base, name),
        Expression::Store { base, value, .. } => uses_name(base, name) || uses_name(value, name),
        Expression::Call { name: callee, args } => {
            proof {
                lemma_call_view(*callee, *args);
            }
            let mut i: usize = 0;
            while i < args.len()
                invariant
                    i <= args@.len(),
                    *expr matches Expression::Call { args: a, .. } && a == args,
                    expr@ == (Expr::Call { name: callee@, args: exprs_of(args@) }),
                    forall|k: int| 0 <= k < i ==> !mentions(#[trigger] exprs_of(args@)[k], name@),
                decreases args@.len() - i,
            {
                assert(exprs_of(args@)[i as int] == args@[i as int]@);
                if uses_name(&args[i], name) {
                    assert(mentions(expr@->Call_args[i as int], name@));
                    return true;
                }
                i = i + 1;
            }
            false
        },
    }
}

/// The expression with `by` in place of each occurrence of the variable `name`.
pub open spec fn substituted(e: Expr, name: Seq<char>, by: Expr) -> Expr
    decreases e,
{
    match e {
        Expr::Var(n) => if n == name {
            by
        } else {
            e
        },
        Expr::Const(_) => e,
        Expr::Raw(_) => e,
        Expr::BinOp { op, lhs, rhs } => Expr::BinOp {
            op,
            lhs: Box::new(substituted(*lhs, name, by)),
            rhs: Box::new(substituted(*rhs, name, by)),
        },
        Expr::UnaryOp { op, operand } => Expr::UnaryOp {
            op,
            operand: Box::new(substituted(*operand, name, by)),
        },
        Expr::Load { width, base, offset } => Expr::Load {
            width,
            base: Box::new(substituted(*base, name, by)),
            offset,
        },
        Expr::Store { width, base, offset, value } => Expr::Store {
            width,
            base: Box::new(substituted(*base, name, by)),
            offset,
            value: Box::new(substituted(*value, name, by)),
        },
        Expr::Call { name: callee, args } => Expr::Call {
            name: callee,
            args: Seq::new(
                args.len(),
                |i: int|
                    if 0 <= i < args.len() {
                        substituted(args[i], name, by)
                    } else {
                        Expr::Const(0)
                    },
            ),
        },
    }
}

/// Replace all `Var(name)` nodes.
pub fn substitute_var(expr: &Expression, name: &str, by: &Expression) -> (r: Expression)
    ensures
        r@ == substituted(expr@, name@, by@),
    decreases expr,
{
    match expr {
        Expression::Var(n) => if same_text(n.as_str(), name) {
            by.clone()
        } else {
            Expression::Var(n.as_str().to_owned())
        },
        Expression::Const(v) => Expression::Const(*v),
        Expression::Raw(s) => Expression::Raw(s.as_str().to_owned()),
        Expression::BinOp { op, lhs, rhs } => Expression::BinOp {
            op: *op,
            lhs: Box::new(substitute_var(lhs, name, by)),
            rhs: Box::new(substitute_var(rhs, name, by)),
        },
        Expression::UnaryOp { op, operand } => Expression::UnaryOp {
            op: *op,
            operand: Box::new(substitute_var(operand, name, by)),
        },
        Expression::Load { width, base, offset } => Expression::Load {
            width: *width,
            base: Box::new(substitute_var(base, name, by)),
            offset: *offset,
        },
        Expression::Store { width, base, offset, value } => Expression::Store {
            width: *width,
            base: Box::new(substitute_var(base, name, by)),
            offset: *offset,
            value: Box::new(substitute_var(value, name, by)),
        },
        Expression::Call { name: callee, args } => {
            let mut out: Vec<Expression> = Vec::new();
            let mut i: usize = 0;
            while i < args.len()
                invariant
                    i <= args@.len(),
                    out@.len() == i,
                    *expr matches Expression::Call { args: a, .. } && a == args,
                    forall|k: int| 0 <= k < i ==> (#[trigger] out@[k])@ == substituted(args@[k]@, name@, by@),
                decreases args@.len() - i,
            {
                out.push(substitute_var(&args[i], name, by));
                i = i + 1;
            }
            let r = Expression::Call { name: callee.as_str().to_owned(), args: out };
            assert(r@->Call_args =~= substituted(expr@, name@, by@)->Call_args);
            r
        },
    }
}

/// The expression with its variables renamed.
pub open spec fn renamed(e: Expr, names: Map<Seq<char>, Seq<char>>) -> Expr
    decreases e,
{
    match e {
        Expr::Var(n) => if names.contains_key(n) {
            Expr::Var(names[n])
        } else {
            e
        },
        Expr::Const(_) => e,
        Expr::Raw(_) => e,
        Expr::BinOp { op, lhs, rhs } => Expr::BinOp {
            op,
            lhs: Box::new(renamed(*lhs, names)),
            rhs: Box::new(renamed(*rhs, names)),
        },
        Expr::UnaryOp { op, operand } => Expr::UnaryOp {
            op,
            operand: Box::new(renamed(*operand, names)),
        },
        Expr::Load { width, base, offset } => Expr::Load {
            width,
            base: Box::new(renamed(*base, names)),
            offset,
        },
        Expr::Store { width, base, offset, value } => Expr::Store {
            width,
            base: Box::new(renamed(*base, names)),
            offset,
            value: Box::new(renamed(*value, names)),
        },
        Expr::Call { name, args } => Expr::Call {
            name,
            args: Seq::new(
                args.len(),
                |i: int|
                    if 0 <= i < args.len() {
                        renamed(args[i], names)
                    } else {
                        Expr::Const(0)
                    },
            ),
        },
    }
}

/// Apply renames throughout an expression tree.
pub fn rename_vars(expr: &Expression, names: &NameMap<String>) -> (r: Expression)
    ensures
        r@ == renamed(expr@, names::text_values(names@)),
    decreases expr,
{
    match expr {
        Expression::Var(n) => match names.get(n.as_str()) {
            Some(t) => Expression::Var(t.as_str().to_owned()),
            None => Expression::Var(n.as_str().to_owned()),
        },
        Expression::Const(v) => Expression::Const(*v),
        Expression::Raw(s) => Expression::Raw(s.as_str().to_owned()),
        Expression::BinOp { op, lhs, rhs } => Expression::BinOp {
            op: *op,
            lhs: Box::new(rename_vars(lhs, names)),
            rhs: Box::new(rename_vars(rhs, names)),
        },
        Expression::UnaryOp { op, operand } => Expression::UnaryOp {
            op: *op,
            operand: Box::new(rename_vars(operand, names)),
        },
        Expression::Load { width, base, offset } => Expression::Load {
            width: *width,
            base: Box::new(rename_vars(base, names)),
            offset: *offset,
        },
        Expression::Store { width, base, offset, value } => Expression::Store {
            width: *width,
            base: Box::new(rename_vars(base, names)),
            offset: *offset,
            value: Box::new(rename_vars(value, names)),
        },
        Expression::Call { name: callee, args } => {
            let mut out: Vec<Expression> = Vec::new();
            let mut i: usize = 0;
            while i < args.len()
                invariant
                    i <= args@.len(),
                    out@.len() == i,
                    *expr matches Expression::Call { args: a, .. } && a == args,
                    forall|k: int| 0 <= k < i ==> (#[trigger] out@[k])@ == renamed(args@[k]@, names::text_values(names@)),
                decreases args@.len() - i,
            {
                out.push(rename_vars(&args[i], names));
                i = i + 1;
            }
            let r = Expression::Call { name: callee.as_str().to_owned(), args: out };
            assert(r@->Call_args =~= renamed(expr@, names::text_values(names@))->Call_args);
            r
        },
    }
}

/// The expression with a variable in place of each load from a named stack slot.
pub open spec fn with_slots(e: Expr, stack_vars: Map<Slot, Seq<char>>) -> Expr
    decreases e,
{
    match e {
        Expr::Var(_) => e,
        Expr::Const(_) => e,
        Expr::Raw(_) => e,
        Expr::BinOp { op, lhs, rhs } => Expr::BinOp {
            op,
            lhs: Box::new(with_slots(*lhs, stack_vars)),
            rhs: Box::new(with_slots(*rhs, stack_vars)),
        },
        Expr::UnaryOp { op, operand } => Expr::UnaryOp {
            op,
            operand: Box::new(with_slots(*operand, stack_vars)),
        },
        Expr::Load { width, base, offset } => match *base {
            Expr::Var(n) => if stack_vars.contains_key((n, offset)) {
                Expr::Var(stack_vars[(n, offset)])
            } else {
                e
            },
            _ => Expr::Load { width, base: Box::new(with_slots(*base, stack_vars)), offset },
        },
        Expr::Store { width, base, offset, value } => Expr::Store {
            width,
            base: Box::new(with_slots(*base, stack_vars)),
            offset,
            value: Box::new(with_slots(*value, stack_vars)),
        },
        Expr::Call { name, args } => Expr::Call {
            name,
            args: Seq::new(
                args.len(),
                |i: int|
                    if 0 <= i < args.len() {
                        with_slots(args[i], stack_vars)
                    } else {
                        Expr::Const(0)
                    },
            ),
        },
    }
}

/// Replace loads from named stack slots by variables; stores stay as they are.
pub fn replace_stack_loads(expr: &Expression, stack_vars: &SlotMap<String>) -> (r: Expression)
    ensures
        r@ == with_slots(expr@, names::text_values(stack_vars@)),
    decreases expr,
{
    match expr {
        Expression::Var(n) => Expression::Var(n.as_str().to_owned()),
        Expression::Const(v) => Expression::Const(*v),
        Expression::Raw(s) => Expression::Raw(s.as_str().to_owned()),
        Expression::BinOp { op, lhs, rhs } => Expression::BinOp {
            op: *op,
            lhs: Box::new(replace_stack_loads(lhs, stack_vars)),
            rhs: Box::new(replace_stack_loads(rhs, stack_vars)),
        },
        Expression::UnaryOp { op, operand } => Expression::UnaryOp {
            op: *op,
            operand: Box::new(replace_stack_loads(operand, stack_vars)),
        },
        Expression::Load { width, base, offset } => {
            if let Expression::Var(n) = &**base {
                assert(expr_of(**base) == Expr::Var(n@));
                if let Some(slot) = stack_vars.get(n.as_str(), *offset) {
                    assert(names::text_values(stack_vars@).contains_key((n@, *offset)));
                    return Expression::Var(slot.as_str().to_owned());
                }
            }
            Expression::Load {
                width: *width,
                base: Box::new(replace_stack_loads(base, stack_vars)),
                offset: *offset,
            }
        },
        Expression::Store { width, base, offset, value } => Expression::Store {
            width: *width,
            base: Box::new(replace_stack_loads(base, stack_vars)),
            offset: *offset,
            value: Box::new(replace_stack_loads(value, stack_vars)),
        },
        Expression::Call { name: callee, args } => {
            let mut out: Vec<Expression> = Vec::new();
            let mut i: usize = 0;
            while i < args.len()
                invariant
                    i <= args@.len(),
                    out@.len() == i,
                    *expr matches Expression::Call { args: a, .. } && a == args,
                    forall|k: int| 0 <= k < i ==> (#[trigger] out@[k])@ == with_slots(args@[k]@, names::text_values(stack_vars@)),
                decreases args@.len() - i,
            {
                out.push(replace_stack_loads(&args[i], stack_vars));
                i = i + 1;
            }
            let r = Expression::Call { name: callee.as_str().to_owned(), args: out };
            assert(r@->Call_args =~= with_slots(expr@, names::text_values(stack_vars@))->Call_args);
            r
        },
    }
}

pub open spec fn larger(a: nat, b: nat) -> nat {
    if a < b {
        b
    } else {
        a
    }
}

/// Height of an expression tree.
pub open spec fn depth(e: Expr) -> nat
    decreases e, 0nat,
{
    match e {
        Expr::Const(_) => 0,
        Expr::Var(_) => 0,
        Expr::Raw(_) => 0,
        Expr::BinOp { op, lhs, rhs } => 1 + larger(depth(*lhs), depth(*rhs)),
        Expr::UnaryOp { op, operand } => 1 + depth(*operand),
        Expr::Load { width, base, offset } => 1 + depth(*base),
        Expr::Store { width, base, offset, value } => 1 + larger(depth(*base), depth(*value)),
        Expr::Call { name, args } => 1 + deepest(args, args.len()),
    }
}

/// Height of the highest of the first `n` of `args`.
pub open spec fn deepest(args: Seq<Expr>, n: nat) -> nat
    decreases args, n,
{
    if n == 0 || n > args.len() {
        0
    } else {
        larger(deepest(args, (n - 1) as nat), depth(args[n - 1]))
    }
}

/// Whether an expression tree is at least `limit` high.
pub fn at_least_deep(expr: &Expression, limit: u8) -> (r: bool)
    ensures
        r == (depth(expr@) >= limit),
    decreases expr,
{
    if limit == 0 {
        return true;
    }
    let less: u8 = limit - 1;
    match expr {
        Expression::Const(_) => false,
        Expression::Var(_) => false,
        Expression::Raw(_) => false,
        Expression::BinOp { lhs, rhs, .. } => at_least_deep(lhs, less) || at_least_deep(rhs, less),
        Expression::UnaryOp { operand, .. } => at_least_deep(operand, less),
        Expression::Load { base, .. } => at_least_deep(base, less),
        Expression::Store { base, value, .. } => at_least_deep(base, less) || at_least_deep(
            value,
            less,
        ),
        Expression::Call { name: callee, args } => {
            proof {
                lemma_call_view(*callee, *args);
            }
            let ghost list = exprs_of(args@);
            let mut found: bool = less == 0;
            let mut i: usize = 0;
            while i < args.len()
                invariant
                    i <= args@.len(),
                    list == exprs_of(args@),
                    *expr matches Expression::Call { args: a, .. } && a == args,
                    found == (deepest(list, i as nat) >= less),
                decreases args@.len() - i,
            {
                assert(list[i as int] == args@[i as int]@);
                if at_least_deep(&args[i], less) {
                    found = true;
                }
                i = i + 1;
            }
            found
        },
    }
}

/// Whether an expression only computes: no load, store, call or raw text in it.
pub open spec fn only_computes(e: Expr) -> bool
    decreases e,
{
    match e {
        Expr::Const(_) => true,
        Expr::Var(_) => true,
        Expr::BinOp { op, lhs, rhs } => only_computes(*lhs) && only_computes(*rhs),
        Expr::UnaryOp { op, operand } => only_computes(*operand),
        _ => false,
    }
}

/// Whether an expression has side effects (load, store, call) that prevent
/// moving it across basic block boundaries.
pub fn has_side_effects(expr: &Expression) -> (r: bool)
    ensures
        r == !only_computes(expr@),
    decreases expr,
{
    match expr {
        Expression::Load { .. } => true,
        Expression::Store { .. } => true,
        Expression::Call { .. } => true,
        Expression::Raw(_) => true,
        Expression::Const(_) => false,
        Expression::Var(_) => false,
        Expression::BinOp { lhs, rhs, .. } => has_side_effects(lhs) || has_side_effects(rhs),
        Expression::UnaryOp { operand, .. } => has_side_effects(operand),
    }
}

/// Whether a load or store in the expression accesses `slot`, the base being a pointer
/// variable (`ptr_*`).
pub open spec fn accesses_slot(e: Expr, slot: Slot) -> bool
    decreases e,
{
    match e {
        Expr::Load { width, base, offset } => is_slot(*base, offset, slot) || accesses_slot(
            *base,
            slot,
        ),
        Expr::Store { width, base, offset, value } => is_slot(*base, offset, slot)
            || accesses_slot(*base, slot) || accesses_slot(*value, slot),
        Expr::BinOp { op, lhs, rhs } => accesses_slot(*lhs, slot) || accesses_slot(*rhs, slot),
        Expr::UnaryOp { op, operand } => accesses_slot(*operand, slot),
        Expr::Call { name, args } => exists|i: int|
            0 <= i < args.len() && accesses_slot(#[trigger] args[i], slot),
        _ => false,
    }
}

/// Whether `base` is the pointer variable of `slot` and `offset` its offset.
pub open spec fn is_slot(base: Expr, offset: i32, slot: Slot) -> bool {
    base matches Expr::Var(n) && text::begins_with(n, "ptr_"@) && slot == (n, offset)
}

/// Add the slots that an expression accesses.
pub fn collect_stack_slots(expr: &Expression, found: &mut Vec<(String, i32)>)
    ensures
        forall|slot: Slot| #[trigger]
            names::slots(final(found)@).contains(slot) <==> names::slots(old(found)@).contains(slot)
                || accesses_slot(expr@, slot),
    decreases expr,
{
    match expr {
        Expression::Load { base, offset, .. } => {
            assert(expr@->Load_base == Box::new(base@));
            collect_slot(base, *offset, found);
            let ghost held = names::slots(found@);
            collect_stack_slots(base, found);
            assert forall|slot: Slot| #[trigger]
                names::slots(found@).contains(slot) <==> names::slots(old(found)@).contains(slot)
                    || accesses_slot(expr@, slot) by {
                assert(held.contains(slot) <==> names::slots(old(found)@).contains(slot) || is_slot(
                    base@,
                    *offset,
                    slot,
                ));
            }
        },
        Expression::Store { base, offset, value, .. } => {
            assert(expr@->Store_base == Box::new(base@));
            assert(expr@->value == Box::new(value@));
            collect_slot(base, *offset, found);
            let ghost first = names::slots(found@);
            collect_stack_slots(base, found);
            let ghost second = names::slots(found@);
            collect_stack_slots(value, found);
            assert forall|slot: Slot| #[trigger]
                names::slots(found@).contains(slot) <==> names::slots(old(found)@).contains(slot)
                    || accesses_slot(expr@, slot) by {
                assert(first.contains(slot) <==> names::slots(old(found)@).contains(slot)
                    || is_slot(base@, *offset, slot));
                assert(second.contains(slot) <==> first.contains(slot) || accesses_slot(
                    base@,
                    slot,
                ));
            }
        },
        Expression::BinOp { lhs, rhs, .. } => {
            assert(expr@->lhs == Box::new(lhs@));
            assert(expr@->rhs == Box::new(rhs@));
            collect_stack_slots(lhs, found);
            let ghost held = names::slots(found@);
            collect_stack_slots(rhs, found);
            assert forall|slot: Slot| #[trigger]
                names::slots(found@).contains(slot) <==> names::slots(old(found)@).contains(slot)
                    || accesses_slot(expr@, slot) by {
                assert(held.contains(slot) <==> names::slots(old(found)@).contains(slot)
                    || accesses_slot(lhs@, slot));
            }
        },
        Expression::UnaryOp { operand, .. } => {
            assert(expr@->operand == Box::new(operand@));
            collect_stack_slots(operand, found);
            assert forall|slot: Slot| #[trigger]
                names::slots(found@).contains(slot) <==> names::slots(old(found)@).contains(slot)
                    || accesses_slot(expr@, slot) by {
            }
        },
        Expression::Call { name: callee, args } => {
            let ghost before = names::slots(found@);
            let ghost list = exprs_of(args@);
            proof {
                lemma_call_view(*callee, *args);
            }
            let mut i: usize = 0;
            while i < args.len()
                invariant
                    i <= args@.len(),
                    list == exprs_of(args@),
                    *expr matches Expression::Call { args: a, .. } && a == args,
                    forall|slot: Slot| #[trigger]
                        names::slots(found@).contains(slot) <==> before.contains(slot) || exists|
                            k: int,
                        |
                            0 <= k < i && accesses_slot(#[trigger] list[k], slot),
                decreases args@.len() - i,
            {
                assert(list[i as int] == args@[i as int]@);
                let ghost held = names::slots(found@);
                collect_stack_slots(&args[i], found);
                assert forall|slot: Slot| #[trigger]
                    names::slots(found@).contains(slot) <==> before.contains(slot) || exists|k: int|
                        0 <= k < i + 1 && accesses_slot(#[trigger] list[k], slot) by {
                    assert(names::slots(found@).contains(slot) <==> held.contains(slot)
                        || accesses_slot(list[i as int], slot));
                }
                i = i + 1;
            }
            assert(expr@->Call_args == list);
            assert forall|slot: Slot| #[trigger]
                names::slots(found@).contains(slot) <==> names::slots(old(found)@).contains(slot)
                    || accesses_slot(expr@, slot) by {
            }
        },
        Expression::Const(_) => {},
        Expression::Var(_) => {},
        Expression::Raw(_) => {},
    }
}

fn collect_slot(base: &Expression, offset: i32, found: &mut Vec<(String, i32)>)
    ensures
        forall|slot: Slot| #[trigger]
            names::slots(final(found)@).contains(slot) <==> names::slots(old(found)@).contains(slot)
                || is_slot(base@, offset, slot),
{
    if let Expression::Var(name) = base {
        if has_prefix(name.as_str(), "ptr_") && !holds_slot(found, name.as_str(), offset) {
            let ghost before = names::slots(found@);
            found.push((name.as_str().to_owned(), offset));
            proof {
                assert(names::slots(found@) =~= before.push((name@, offset)));
                assert forall|slot: Slot| #[trigger]
                    names::slots(found@).contains(slot) <==> before.contains(slot) || slot == (
                    name@,
                    offset,
                ) by {
                    ordered::lemma_push_key(before, (name@, offset), slot);
                }
            }
        }
    }
}

/// A name that is renamed, and that nothing is renamed to, does not occur afterwards.
pub proof fn lemma_renamed_away(e: Expr, by: Map<Seq<char>, Seq<char>>, name: Seq<char>)
    requires
        by.contains_key(name),
        forall|n: Seq<char>| #[trigger] by.contains_key(n) ==> by[n] != name,
    ensures
        !mentions(renamed(e, by), name),
    decreases e,
{
    match e {
        Expr::BinOp { op, lhs, rhs } => {
            lemma_renamed_away(*lhs, by, name);
            lemma_renamed_away(*rhs, by, name);
        },
        Expr::UnaryOp { op, operand } => {
            lemma_renamed_away(*operand, by, name);
        },
        Expr::Load { width, base, offset } => {
            lemma_renamed_away(*base, by, name);
        },
        Expr::Store { width, base, offset, value } => {
            lemma_renamed_away(*base, by, name);
            lemma_renamed_away(*value, by, name);
        },
        Expr::Call { name: callee, args } => {
            let out = renamed(e, by)->Call_args;
            assert forall|i: int| 0 <= i < out.len() implies !mentions(#[trigger] out[i], name) by {
                lemma_renamed_away(args[i], by, name);
            }
        },
        _ => {},
    }
}

} // verus!
