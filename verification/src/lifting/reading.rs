//! That a written expression, read as it stands, has the expression's value.

use crate::instruction::{BinOp, MemWidth, UnaryOp};
use crate::lifting::execution;
use crate::lifting::expr;
use crate::lifting::expr::Expr;
use crate::lifting::meaning;
use crate::lifting::meaning::Meaning;
use crate::lifting::render;
use crate::lifting::render::FormatContext;
use crate::lifting::simplify;
use crate::machine;
use crate::text;
use vstd::prelude::*;

verus! {

/// The number that the digits of a numeral stand for, hexadecimal behind `0x`.
pub open spec fn magnitude(t: Seq<char>) -> int {
    if t.len() >= 2 && t[1] == 'x' {
        text::number(t.skip(2), 16)
    } else {
        text::number(t, 10)
    }
}

/// The number that a numeral with a sign stands for.
pub open spec fn numeral(t: Seq<char>) -> int {
    if t.len() > 0 && t[0] == '-' {
        -magnitude(t.skip(1))
    } else {
        magnitude(t)
    }
}

proof fn lemma_decimal(n: nat)
    ensures
        magnitude(text::dec(n)) == n,
        text::dec(n).len() > 0,
        text::dec(n)[0] != '-',
{
    text::law_decimal_reads_back(n);
    text::lemma_dec_digits(n);
    assert('0' <= text::dec(n)[0]);
    if text::dec(n).len() >= 2 {
        assert(text::dec(n)[1] <= '9');
    }
}

proof fn lemma_hexadecimal(n: nat)
    ensures
        magnitude("0x"@ + text::upper_hex(n)) == n,
        ("0x"@ + text::upper_hex(n))[0] != '-',
{
    reveal_strlit("0x");
    text::law_upper_hex_reads_back(n);
    assert(("0x"@ + text::upper_hex(n)).skip(2) =~= text::upper_hex(n));
}

/// The text of a constant, read as a numeral, stands for the constant.
pub proof fn law_constant_reads_back(v: int)
    ensures
        numeral(render::const_text(v)) == v,
{
    let t = render::const_text(v);
    if v >= 0x1000 {
        lemma_hexadecimal(v as nat);
    } else if v <= -0x1000 {
        lemma_hexadecimal((-v) as nat);
        reveal_strlit("-0x");
        reveal_strlit("0x");
        assert(t.skip(1) =~= "0x"@ + text::upper_hex((-v) as nat));
    } else if v < 0 {
        lemma_decimal((-v) as nat);
        assert(t.skip(1) =~= text::dec((-v) as nat));
    } else {
        lemma_decimal(v as nat);
    }
}

/// The sign of an operator between two operands.
pub open spec fn sign(op: BinOp) -> Seq<char> {
    match op {
        BinOp::Add => "+"@,
        BinOp::Sub => "-"@,
        BinOp::Mul => "*"@,
        BinOp::DivU => "/u"@,
        BinOp::DivS => "/s"@,
        BinOp::RemU => "%u"@,
        BinOp::RemS => "%s"@,
        BinOp::And => "&"@,
        BinOp::Or => "|"@,
        BinOp::Xor => "^"@,
        BinOp::Shl => "<<"@,
        BinOp::ShrU => ">>u"@,
        BinOp::ShrS => ">>s"@,
        BinOp::LtU => "<u"@,
        BinOp::LtS => "<s"@,
        BinOp::LeU => "<=u"@,
        BinOp::LeS => "<=s"@,
        BinOp::GtU => ">u"@,
        BinOp::GtS => ">s"@,
        BinOp::GeU => ">=u"@,
        BinOp::GeS => ">=s"@,
        BinOp::AndInv => "&~"@,
        BinOp::OrInv => "|~"@,
        BinOp::Xnor => "xnor"@,
        BinOp::NegAdd => "neg+"@,
        BinOp::RotL => "rotl"@,
        BinOp::RotR => "rotr"@,
        BinOp::Max => "max"@,
        BinOp::MaxU => "maxu"@,
        BinOp::Min => "min"@,
        BinOp::MinU => "minu"@,
        BinOp::MulUpperSS => "mulhss"@,
        BinOp::MulUpperUU => "mulhuu"@,
        BinOp::MulUpperSU => "mulhsu"@,
    }
}

/// The name of an operator before its operand.
pub open spec fn unary_sign(op: UnaryOp) -> Seq<char> {
    match op {
        UnaryOp::Not => "!"@,
        UnaryOp::Sext8 => "sext8"@,
        UnaryOp::Sext16 => "sext16"@,
        UnaryOp::Zext16 => "zext16"@,
        UnaryOp::Popcnt32 => "popcnt32"@,
        UnaryOp::Popcnt64 => "popcnt64"@,
        UnaryOp::Clz32 => "clz32"@,
        UnaryOp::Clz64 => "clz64"@,
        UnaryOp::Ctz32 => "ctz32"@,
        UnaryOp::Ctz64 => "ctz64"@,
        UnaryOp::Sbrk => "sbrk"@,
        UnaryOp::Bswap => "bswap"@,
    }
}

/// How tight an operator binds: products above sums, sums above shifts, then comparisons,
/// and the bitwise operators below.
pub open spec fn tightness(op: BinOp) -> int {
    match op {
        BinOp::Mul | BinOp::DivU | BinOp::DivS | BinOp::RemU | BinOp::RemS | BinOp::MulUpperSS
        | BinOp::MulUpperUU | BinOp::MulUpperSU => 7,
        BinOp::Add | BinOp::Sub | BinOp::NegAdd => 6,
        BinOp::Shl | BinOp::ShrU | BinOp::ShrS | BinOp::RotL | BinOp::RotR => 5,
        BinOp::And | BinOp::AndInv => 3,
        BinOp::Xor | BinOp::Xnor => 2,
        BinOp::Or | BinOp::OrInv => 1,
        _ => 4,
    }
}

/// Whether the operands may change places.
pub open spec fn symmetric(op: BinOp) -> bool {
    match op {
        BinOp::Add | BinOp::Mul | BinOp::And | BinOp::Or | BinOp::Xor => true,
        _ => false,
    }
}

/// A written expression, taken apart.
pub ghost enum Tree {
    Name(Seq<char>),
    Numeral(Seq<char>),
    Parenthesized(Box<Tree>),
    Infix { op: BinOp, lhs: Box<Tree>, rhs: Box<Tree> },
    /// `x != 0`.
    NonZero(Box<Tree>),
    Applied { op: UnaryOp, operand: Box<Tree> },
    /// `pvm_addr(x)`: `x` and the memory base.
    Based(Box<Tree>),
    /// `wasm_ptr(x)`: `x` without the memory base.
    Unbased(Box<Tree>),
    /// An access to memory, a call or raw text, left whole.
    Whole(Expr),
}

impl Tree {
    pub open spec fn text(self, ctx: FormatContext) -> Seq<char>
        decreases self,
    {
        match self {
            Tree::Name(n) => n,
            Tree::Numeral(t) => t,
            Tree::Parenthesized(t) => "("@ + t.text(ctx) + ")"@,
            Tree::Infix { op, lhs, rhs } => lhs.text(ctx) + " "@ + sign(op) + " "@ + rhs.text(ctx),
            Tree::NonZero(t) => t.text(ctx) + " != 0"@,
            Tree::Applied { op, operand } => unary_sign(op) + "("@ + operand.text(ctx) + ")"@,
            Tree::Based(t) => "pvm_addr("@ + t.text(ctx) + ")"@,
            Tree::Unbased(t) => "wasm_ptr("@ + t.text(ctx) + ")"@,
            Tree::Whole(e) => render::text_of(e, ctx),
        }
    }

    /// The value, as a word of 64 bits.
    pub open spec fn value(self, m: Meaning, ctx: FormatContext) -> int
        decreases self,
    {
        match self {
            Tree::Name(n) => (m.vars)(n) as int,
            Tree::Numeral(t) => machine::cut(64, numeral(t)),
            Tree::Parenthesized(t) => t.value(m, ctx),
            Tree::Infix { op, lhs, rhs } => machine::apply(
                op,
                64,
                lhs.value(m, ctx),
                rhs.value(m, ctx),
            ),
            Tree::NonZero(t) => machine::flag(t.value(m, ctx) != 0),
            Tree::Applied { op, operand } => if op == UnaryOp::Not {
                machine::flag(operand.value(m, ctx) == 0)
            } else {
                (m.unary)(op, operand.value(m, ctx) as u64) as int
            },
            Tree::Based(t) => match ctx.memory_base {
                Some(base) => machine::cut(64, t.value(m, ctx) + base),
                None => 0,
            },
            Tree::Unbased(t) => match ctx.memory_base {
                Some(base) => machine::cut(64, t.value(m, ctx) - base),
                None => 0,
            },
            Tree::Whole(e) => meaning::value(m, e) as int,
        }
    }

    pub open spec fn level(self) -> int {
        match self {
            Tree::Infix { op, .. } => tightness(op),
            Tree::NonZero(_) => 4,
            _ => 8,
        }
    }

    /// Whether reading by tightness, from left to right, takes the text apart like this. On
    /// the right of a symmetric operator, one that binds as tight may stand bare.
    pub open spec fn reads_right(self) -> bool
        decreases self,
    {
        match self {
            Tree::Parenthesized(t) => t.reads_right(),
            Tree::Infix { op, lhs, rhs } => {
                &&& lhs.reads_right()
                &&& rhs.reads_right()
                &&& lhs.level() >= tightness(op)
                &&& rhs.level() > tightness(op) || (rhs.level() == tightness(op) && symmetric(op))
            },
            Tree::NonZero(t) => t.reads_right() && t.level() > 4,
            Tree::Applied { operand, .. } => operand.reads_right(),
            Tree::Based(t) => t.reads_right(),
            Tree::Unbased(t) => t.reads_right(),
            Tree::Whole(e) => e is Load || e is Store || e is Call || e is Raw,
            _ => true,
        }
    }
}

/// Whether no part of an address is left out in this context: it is no dereference, or no
/// offset into linear memory is known.
pub open spec fn plain(ctx: FormatContext) -> bool {
    !ctx.deref_context || ctx.linear_memory_offset is None
}

/// Whether the tree is how the text of `e` reads, and has the value of `e`, whatever the
/// variables, memory and calls stand for.
pub open spec fn reads_as(t: Tree, e: Expr, ctx: FormatContext) -> bool {
    &&& t.reads_right()
    &&& t.text(ctx) == render::text_of(e, ctx)
    &&& forall|m: Meaning| #[trigger]
        execution::faithful(m) ==> t.value(m, ctx) == meaning::value(m, e)
}

spec fn level_of(e: Expr) -> int {
    match e {
        Expr::BinOp { op, .. } => render::precedence(op),
        _ => 8,
    }
}

proof fn lemma_tables(op: BinOp)
    ensures
        sign(op) == op.symbol(),
        tightness(op) == render::precedence(op),
        symmetric(op) == render::commutes(op),
        1 <= tightness(op) <= 7,
{
}

proof fn lemma_unary_table(op: UnaryOp)
    ensures
        unary_sign(op) == op.symbol(),
{
}

proof fn lemma_constant(v: i64, ctx: FormatContext) -> (t: Tree)
    ensures
        t.reads_right(),
        t.level() == 8,
        t.text(ctx) == render::const_text(v as int),
        forall|m: Meaning| #[trigger] t.value(m, ctx) == meaning::bits(v),
{
    law_constant_reads_back(v as int);
    reveal(machine::cut);
    Tree::Numeral(render::const_text(v as int))
}

proof fn lemma_operand(e: Expr, parent: BinOp, is_left: bool, ctx: FormatContext, t: Tree) -> (r:
    Tree)
    requires
        reads_as(t, e, ctx),
        t.level() >= level_of(e),
    ensures
        r.reads_right(),
        r.text(ctx) == render::operand_text(e, parent, is_left, ctx),
        forall|m: Meaning| #[trigger]
            execution::faithful(m) ==> r.value(m, ctx) == meaning::value(m, e),
        is_left ==> r.level() >= tightness(parent),
        !is_left ==> r.level() > tightness(parent) || (r.level() == tightness(parent) && symmetric(
            parent,
        )),
{
    lemma_tables(parent);
    if let Expr::BinOp { op, .. } = e {
        lemma_tables(op);
    }
    if render::needs_parens(e, parent, is_left) {
        Tree::Parenthesized(Box::new(t))
    } else {
        t
    }
}

proof fn lemma_sum(l: u64, c: i64)
    ensures
        l.wrapping_add(meaning::bits(c)) == machine::cut(64, l as int + c as int),
        meaning::bits(c).wrapping_add(l) == machine::cut(64, l as int + c as int),
        machine::cut(64, l as int - meaning::bits(render::negated(c)) as int) == machine::cut(
            64,
            l as int + c as int,
        ),
{
    reveal(machine::cut);
}

proof fn lemma_tree(e: Expr, ctx: FormatContext) -> (t: Tree)
    requires
        plain(ctx),
    ensures
        reads_as(t, e, ctx),
        t.level() >= level_of(e),
    decreases e,
{
    reveal_with_fuel(meaning::value, 2);
    match e {
        Expr::Const(v) => lemma_constant(v, ctx),
        Expr::Var(n) => Tree::Name(n),
        Expr::UnaryOp { op, operand } => {
            lemma_unary_table(op);
            let x = lemma_tree(*operand, ctx);
            Tree::Applied { op, operand: Box::new(x) }
        },
        Expr::BinOp { op, lhs, rhs } => {
            let lt = lemma_tree(*lhs, ctx);
            let rt = lemma_tree(*rhs, ctx);
            lemma_infix(op, *lhs, *rhs, ctx, lt, rt)
        },
        _ => Tree::Whole(e),
    }
}

proof fn lemma_infix(op: BinOp, lhs: Expr, rhs: Expr, ctx: FormatContext, lt: Tree, rt: Tree) -> (t:
    Tree)
    requires
        plain(ctx),
        reads_as(lt, lhs, ctx),
        lt.level() >= level_of(lhs),
        reads_as(rt, rhs, ctx),
        rt.level() >= level_of(rhs),
    ensures
        reads_as(t, simplify::bin(op, lhs, rhs), ctx),
        t.level() >= render::precedence(op),
{
    let e = simplify::bin(op, lhs, rhs);
    let rc = expr::const_value(rhs);
    let lc = expr::const_value(lhs);
    lemma_tables(op);
    lemma_tables(BinOp::Sub);
    if op == BinOp::Add && rc is Some && rc->0 < 0 {
        if render::subtracts(rc->0, ctx.memory_base) {
            let t = Tree::Unbased(Box::new(lt));
            assert forall|m: Meaning| #[trigger] execution::faithful(m) implies t.value(m, ctx)
                == meaning::value(m, e) by {
                lemma_value(m, op, lhs, rhs);
                lemma_sum(meaning::value(m, lhs), rc->0);
            }
            t
        } else {
            let a = lemma_operand(lhs, BinOp::Sub, true, ctx, lt);
            let b = lemma_constant(render::negated(rc->0), ctx);
            let t = Tree::Infix { op: BinOp::Sub, lhs: Box::new(a), rhs: Box::new(b) };
            reveal_strlit(" - ");
            reveal_strlit(" ");
            reveal_strlit("-");
            assert(" - "@ =~= " "@ + "-"@ + " "@);
            assert(t.text(ctx) =~= render::text_of(e, ctx));
            assert forall|m: Meaning| #[trigger] execution::faithful(m) implies t.value(m, ctx)
                == meaning::value(m, e) by {
                lemma_value(m, op, lhs, rhs);
                lemma_sum(meaning::value(m, lhs), rc->0);
                assert(b.value(m, ctx) == meaning::bits(render::negated(rc->0)));
            }
            t
        }
    } else if op == BinOp::Add && rc is Some && render::adds(rc->0, ctx.memory_base) {
        let t = Tree::Based(Box::new(lt));
        assert forall|m: Meaning| #[trigger] execution::faithful(m) implies t.value(m, ctx)
            == meaning::value(m, e) by {
            lemma_value(m, op, lhs, rhs);
            lemma_sum(meaning::value(m, lhs), rc->0);
        }
        t
    } else if op == BinOp::Add && lc is Some && render::adds(lc->0, ctx.memory_base) {
        let t = Tree::Based(Box::new(rt));
        assert forall|m: Meaning| #[trigger] execution::faithful(m) implies t.value(m, ctx)
            == meaning::value(m, e) by {
            lemma_value(m, op, lhs, rhs);
            lemma_sum(meaning::value(m, rhs), lc->0);
        }
        t
    } else if op == BinOp::LtU && lc == Some(0i64) && !simplify::boolean(rhs) {
        let inner = if rhs is BinOp {
            Tree::Parenthesized(Box::new(rt))
        } else {
            rt
        };
        let t = Tree::NonZero(Box::new(inner));
        reveal_with_fuel(Tree::text, 3);
        reveal_with_fuel(Tree::value, 3);
        reveal_with_fuel(Tree::reads_right, 3);
        assert(t.text(ctx) == render::text_of(e, ctx));
        assert forall|m: Meaning| #[trigger] execution::faithful(m) implies t.value(m, ctx)
            == meaning::value(m, e) by {
            lemma_value(m, op, lhs, rhs);
            assert(inner.value(m, ctx) == meaning::value(m, rhs));
        }
        t
    } else {
        let a = lemma_operand(lhs, op, true, ctx, lt);
        let b = lemma_operand(rhs, op, false, ctx, rt);
        let t = Tree::Infix { op, lhs: Box::new(a), rhs: Box::new(b) };
        assert forall|m: Meaning| #[trigger] execution::faithful(m) implies t.value(m, ctx)
            == meaning::value(m, e) by {
            lemma_value(m, op, lhs, rhs);
            execution::law_operators_are_the_machines(
                m,
                op,
                meaning::value(m, lhs),
                meaning::value(m, rhs),
            );
        }
        t
    }
}

proof fn lemma_value(m: Meaning, op: BinOp, lhs: Expr, rhs: Expr)
    ensures
        meaning::value(m, simplify::bin(op, lhs, rhs)) == meaning::operate(
            m,
            op,
            meaning::value(m, lhs),
            meaning::value(m, rhs),
        ),
        expr::const_value(lhs) matches Some(c) ==> meaning::value(m, lhs) == meaning::bits(c),
        expr::const_value(rhs) matches Some(c) ==> meaning::value(m, rhs) == meaning::bits(c),
{
    reveal_with_fuel(meaning::value, 2);
}

/// A written expression says what the expression computes: taken apart by how tight the
/// operators bind, its text has the expression's value, whatever the variables, memory and
/// calls stand for. Within a dereference, where a known offset into linear memory is left
/// out, that is not so.
pub proof fn law_text_has_value(e: Expr, ctx: FormatContext)
    requires
        plain(ctx),
    ensures
        exists|t: Tree| #[trigger] reads_as(t, e, ctx),
{
    let t = lemma_tree(e, ctx);
    assert(reads_as(t, e, ctx));
}

/// A written access to memory, taken apart.
pub ghost enum Spot {
    /// A name for a fixed address.
    Named(Seq<char>),
    /// `ptr->field_n`
    Field { pointer: Seq<char>, n: nat },
    /// `base[index]`, of elements of so many bytes
    Element { base: Tree, index: Tree, bytes: int },
    /// `width[address]`
    At { width: MemWidth, address: Tree },
    /// `width[base + n]`, or `-`
    Beside { width: MemWidth, base: Tree, plus: bool, n: Seq<char> },
}

/// The address that a name stands for.
pub open spec fn named_address(name: Seq<char>) -> int {
    if name == "RESULT_PTR"@ {
        0x30000
    } else if name == "RESULT_LEN"@ {
        0x30004
    } else if name == "HEAP_PTR"@ {
        0x30008
    } else if name == "HEAP_PAGES"@ {
        0x3000C
    } else {
        -1
    }
}

impl Spot {
    pub open spec fn text(self, ctx: FormatContext) -> Seq<char> {
        let inner = FormatContext { deref_context: true, ..ctx };
        match self {
            Spot::Named(name) => name,
            Spot::Field { pointer, n } => pointer + "->field_"@ + text::dec(n),
            Spot::Element { base, index, .. } => base.text(ctx) + "["@ + index.text(ctx) + "]"@,
            Spot::At { width, address } => width.symbol() + "["@ + address.text(inner) + "]"@,
            Spot::Beside { width, base, plus, n } => width.symbol() + "["@ + (base.text(inner) + (
            if plus {
                " + "@
            } else {
                " - "@
            }) + n) + "]"@,
        }
    }

    pub open spec fn address(self, m: Meaning, ctx: FormatContext) -> int {
        let inner = FormatContext { deref_context: true, ..ctx };
        match self {
            Spot::Named(name) => named_address(name),
            Spot::Field { pointer, n } => machine::cut(64, (m.vars)(pointer) as int + n),
            Spot::Element { base, index, bytes } => machine::cut(
                64,
                base.value(m, ctx) + index.value(m, ctx) * bytes,
            ),
            Spot::At { address, .. } => address.value(m, inner),
            Spot::Beside { base, plus, n, .. } => machine::cut(
                64,
                if plus {
                    base.value(m, inner) + numeral(n)
                } else {
                    base.value(m, inner) - numeral(n)
                },
            ),
        }
    }

    /// Whether it reads or writes as much as `width` says, as far as the text tells.
    pub open spec fn suits(self, width: MemWidth) -> bool {
        match self {
            Spot::Element { bytes, .. } => bytes == width.bytes(),
            Spot::At { width: w, .. } => w == width,
            Spot::Beside { width: w, .. } => w == width,
            _ => true,
        }
    }
}

/// Whether the text of an access reads as `x`, at the address of base and offset.
pub open spec fn spots(x: Spot, base: Expr, offset: i32, width: MemWidth, ctx: FormatContext) -> bool {
    &&& x.text(ctx) == render::access_text(base, offset, width, ctx)
    &&& x.suits(width)
    &&& forall|m: Meaning| #[trigger]
        execution::faithful(m) ==> x.address(m, ctx) == meaning::address(
            meaning::value(m, base),
            offset as int,
        )
}

proof fn lemma_names()
    ensures
        named_address("RESULT_PTR"@) == 0x30000,
        named_address("RESULT_LEN"@) == 0x30004,
        named_address("HEAP_PTR"@) == 0x30008,
        named_address("HEAP_PAGES"@) == 0x3000C,
{
    reveal_strlit("RESULT_PTR");
    reveal_strlit("RESULT_LEN");
    reveal_strlit("HEAP_PTR");
    reveal_strlit("HEAP_PAGES");
    assert("RESULT_PTR"@[7] == 'P' && "RESULT_LEN"@[7] == 'L');
    assert("HEAP_PAGES"@[0] == 'H' && "RESULT_PTR"@[0] == 'R' && "RESULT_LEN"@[0] == 'R');
    assert("HEAP_PTR"@.len() == 8 && "HEAP_PAGES"@.len() == 10);
    assert("HEAP_PAGES"@ != "RESULT_PTR"@ && "HEAP_PAGES"@ != "RESULT_LEN"@);
    assert("HEAP_PAGES"@ != "HEAP_PTR"@);
}

proof fn lemma_scaled(m: Meaning, e: Expr, size: int)
    requires
        execution::faithful(m),
        render::scaled_index(e, size) is Some,
        size == 2 || size == 4 || size == 8,
    ensures
        meaning::value(m, e) as int == machine::cut(
            64,
            meaning::value(m, render::scaled_index(e, size)->0) as int * size,
        ),
{
    reveal_with_fuel(meaning::value, 3);
    reveal(machine::cut);
    let i = meaning::value(m, render::scaled_index(e, size)->0);
    execution::law_operators_are_the_machines(m, BinOp::Mul, i, meaning::bits(size as i64));
}

proof fn lemma_element(
    base: Expr,
    at: Expr,
    by: Expr,
    width: MemWidth,
    ctx: FormatContext,
) -> (x: Spot)
    requires
        plain(ctx),
        base == simplify::bin(BinOp::Add, at, by) || base == simplify::bin(BinOp::Add, by, at),
        width.bytes() > 1,
        render::scaled_index(by, width.bytes()) is Some,
    ensures
        x.text(ctx) == render::text_of(at, ctx) + "["@ + render::text_of(
            render::scaled_index(by, width.bytes())->0,
            ctx,
        ) + "]"@,
        x.suits(width),
        forall|m: Meaning| #[trigger]
            execution::faithful(m) ==> x.address(m, ctx) == meaning::address(
                meaning::value(m, base),
                0,
            ),
{
    let size = width.bytes();
    let index = render::scaled_index(by, size)->0;
    let b = lemma_tree(at, ctx);
    let i = lemma_tree(index, ctx);
    let x = Spot::Element { base: b, index: i, bytes: size };
    assert forall|m: Meaning| #[trigger] execution::faithful(m) implies x.address(m, ctx)
        == meaning::address(meaning::value(m, base), 0) by {
        lemma_scaled(m, by, size);
        lemma_value(m, BinOp::Add, at, by);
        lemma_value(m, BinOp::Add, by, at);
        let l = meaning::value(m, at);
        let k = meaning::value(m, index);
        assert(b.value(m, ctx) == l);
        assert(i.value(m, ctx) == k);
        reveal(machine::cut);
        assert(meaning::value(m, base) as int == (l as int + (k as int * size)
            % 0x1_0000_0000_0000_0000) % 0x1_0000_0000_0000_0000);
        vstd::arithmetic::div_mod::lemma_add_mod_noop_right(
            l as int,
            k as int * size,
            0x1_0000_0000_0000_0000,
        );
    }
    x
}

proof fn lemma_spot(base: Expr, offset: i32, width: MemWidth, ctx: FormatContext) -> (x: Spot)
    requires
        ctx.memory_base is None,
        ctx.linear_memory_offset is None,
        offset != i32::MIN,
    ensures
        spots(x, base, offset, width, ctx),
{
    let inner = FormatContext { deref_context: true, ..ctx };
    assert(inner == ctx.dereferencing());
    assert(render::linear_text(base, offset, width, ctx) is None);
    if render::global_text(base, offset, width, ctx) is Some {
        lemma_names();
        let x = Spot::Named(render::global_text(base, offset, width, ctx)->0);
        assert forall|m: Meaning| #[trigger] execution::faithful(m) implies x.address(m, ctx)
            == meaning::address(meaning::value(m, base), offset as int) by {
            reveal_with_fuel(meaning::value, 2);
        }
        x
    } else if render::field_text(base, offset, ctx) is Some {
        let pointer = render::pointer_name(base)->0;
        let x = Spot::Field { pointer, n: offset as nat };
        assert forall|m: Meaning| #[trigger] execution::faithful(m) implies x.address(m, ctx)
            == meaning::address(meaning::value(m, base), offset as int) by {
            reveal_with_fuel(meaning::value, 2);
            reveal(machine::cut);
        }
        x
    } else if render::array_text(base, offset, width, ctx) is Some {
        let lhs = *base->lhs;
        let rhs = *base->rhs;
        if render::scaled_index(rhs, width.bytes()) is Some {
            lemma_element(base, lhs, rhs, width, ctx)
        } else {
            lemma_element(base, rhs, lhs, width, ctx)
        }
    } else {
        match base {
            Expr::Const(b) => {
                let v = b.wrapping_add(offset as i64);
                let t = lemma_constant(v, inner);
                let x = Spot::At { width, address: t };
                assert forall|m: Meaning| #[trigger] execution::faithful(m) implies x.address(
                    m,
                    ctx,
                ) == meaning::address(meaning::value(m, base), offset as int) by {
                    reveal_with_fuel(meaning::value, 2);
                    assert(t.value(m, inner) == meaning::bits(v));
                }
                x
            },
            _ => {
                let t = lemma_tree(base, inner);
                if offset == 0 {
                    let x = Spot::At { width, address: t };
                    assert forall|m: Meaning| #[trigger] execution::faithful(m) implies x.address(
                        m,
                        ctx,
                    ) == meaning::address(meaning::value(m, base), offset as int) by {
                        assert(t.value(m, inner) == meaning::value(m, base));
                    }
                    x
                } else {
                    let plus = offset > 0;
                    let v = if plus {
                        offset as int
                    } else {
                        render::negated_offset(offset) as int
                    };
                    law_constant_reads_back(v);
                    let x = Spot::Beside { width, base: t, plus, n: render::const_text(v) };
                    assert forall|m: Meaning|
                        #[trigger] execution::faithful(m) implies x.address(
                        m,
                        ctx,
                    ) == meaning::address(meaning::value(m, base), offset as int) by {
                        assert(t.value(m, inner) == meaning::value(m, base));
                        reveal(machine::cut);
                    }
                    x
                }
            },
        }
    }
}

/// A written access to memory tells its address: a name, a field of a pointer, an element of
/// an array or a sum, each read as it stands, is the sum of base and offset. That is so
/// where neither the base of memory nor an offset into linear memory is known, from which
/// addresses are counted else, and but for the least offset, which has no opposite.
pub proof fn law_access_tells_address(base: Expr, offset: i32, width: MemWidth, ctx: FormatContext)
    requires
        ctx.memory_base is None,
        ctx.linear_memory_offset is None,
        offset != i32::MIN,
    ensures
        exists|x: Spot| #[trigger] spots(x, base, offset, width, ctx),
{
    let x = lemma_spot(base, offset, width, ctx);
    assert(spots(x, base, offset, width, ctx));
}

} // verus!
