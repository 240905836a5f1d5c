//! That a written condition says when its branch is taken.

use crate::cfg;
use crate::cfg::ControlFlowGraph;
use crate::instruction;
use crate::instruction::{BinOp, UnaryOp};
use crate::lifting::expr;
use crate::lifting::expr::Expr;
use crate::lifting::meaning;
use crate::lifting::meaning::Meaning;
use crate::lifting::program::Lifted;
use crate::lifting::render;
use crate::lifting::render::FormatContext;
use crate::machine;
use crate::pvm::Instruction;
use crate::structuring::analysis;
use crate::structuring::analysis::{CondOp, Condition, Operand, Region};
use crate::structuring::page;
use crate::text;
use vstd::prelude::*;

verus! {

/// One side of a written comparison.
pub ghost enum Term {
    Name(Seq<char>),
    Number(int),
}

impl Term {
    pub open spec fn text(self) -> Seq<char> {
        match self {
            Term::Name(n) => n,
            Term::Number(v) => text::dec_signed(v),
        }
    }

    /// What it stands for, as a word of 64 bits.
    pub open spec fn value(self, m: Meaning) -> int {
        match self {
            Term::Name(n) => (m.vars)(n) as int,
            Term::Number(v) => machine::cut(64, v),
        }
    }
}

/// What a written condition says.
pub ghost enum Claim {
    /// That an expression is not zero.
    Truth(Expr),
    /// That a comparison holds.
    Compared { lhs: Term, symbol: Seq<char>, rhs: Term },
}

impl Claim {
    pub open spec fn text(self, ctx: FormatContext) -> Seq<char> {
        match self {
            Claim::Truth(e) => render::text_of(e, ctx),
            Claim::Compared { lhs, symbol, rhs } => lhs.text() + " "@ + symbol + " "@ + rhs.text(),
        }
    }

    pub open spec fn holds(self, m: Meaning) -> bool {
        match self {
            Claim::Truth(e) => meaning::value(m, e) != 0,
            Claim::Compared { lhs, symbol, rhs } => machine::compares(
                symbol,
                lhs.value(m),
                rhs.value(m),
            ),
        }
    }
}

/// The value of an operand of a branch, where `r` gives the registers.
pub open spec fn operand_value(o: Operand, r: spec_fn(u8) -> u64) -> u64 {
    match o {
        Operand::Reg(reg) => r(reg),
        Operand::Imm(v) => machine::widened(v as int) as u64,
    }
}

/// Whether the variables hold what the branch at `pc` finds in the registers it compares,
/// and a variable with a definition holds the value of its definition.
pub open spec fn agrees(
    m: Meaning,
    l: Lifted,
    c: Condition,
    pc: usize,
    r: spec_fn(u8) -> u64,
) -> bool {
    forall|reg: u8|
        #![trigger l.use_name(pc, reg)]
        c.lhs == Operand::Reg(reg) || c.rhs == Operand::Reg(reg) ==> {
            &&& (m.vars)(l.use_name(pc, reg)) == r(reg)
            &&& l.definition(l.use_name(pc, reg)) matches Some(e) ==> meaning::value(m, e) == r(reg)
        }
}

proof fn lemma_holds(op: CondOp, a: u64, b: u64)
    ensures
        op.holds(a, b) == machine::compares(op.symbol(), a as int, b as int),
{
    machine::lemma_comparison_texts(a as int, b as int);
    reveal(machine::signed);
    assert(a as i64 as int == if a < 0x8000_0000_0000_0000 {
        a as int
    } else {
        a - 0x1_0000_0000_0000_0000
    }) by (bit_vector);
    assert(b as i64 as int == if b < 0x8000_0000_0000_0000 {
        b as int
    } else {
        b - 0x1_0000_0000_0000_0000
    }) by (bit_vector);
}

/// The condition that is taken from a branch holds exactly where the machine takes it.
pub proof fn law_condition_is_when_taken(
    instr: Instruction,
    c: Condition,
    r: spec_fn(u8) -> u64,
)
    requires
        analysis::condition_of(instr) == Some(c),
    ensures
        machine::taken(instr, r) == Some(
            c.op.holds(operand_value(c.lhs, r), operand_value(c.rhs, r)),
        ),
{
    machine::law_shape_branches(instr, r);
    lemma_holds(c.op, operand_value(c.lhs, r), operand_value(c.rhs, r));
    if let Operand::Imm(v) = c.rhs {
        machine::lemma_cut(v as int);
    }
}

/// The claim `k` is written as `t`, and holds exactly where the condition does, whatever
/// the variables stand for.
pub open spec fn states(
    k: Claim,
    t: Seq<char>,
    l: Lifted,
    c: Condition,
    pc: usize,
) -> bool {
    &&& k.text(l.context()) == t
    &&& forall|m: Meaning, r: spec_fn(u8) -> u64| #[trigger]
        agrees(m, l, c, pc, r) ==> k.holds(m) == c.op.holds(
            operand_value(c.lhs, r),
            operand_value(c.rhs, r),
        )
}

/// The term that an operand is written as.
proof fn lemma_term(l: Lifted, o: Operand, pc: usize) -> (t: Term)
    ensures
        t.text() == page::lifted_operand(l, o, pc),
        match o {
            Operand::Reg(reg) => t == Term::Name(l.use_name(pc, reg)),
            Operand::Imm(v) => t == Term::Number(v as int),
        },
{
    match o {
        Operand::Reg(reg) => Term::Name(l.use_name(pc, reg)),
        Operand::Imm(v) => Term::Number(v as int),
    }
}

proof fn lemma_claim(l: Lifted, c: Condition, pc: usize) -> (k: Claim)
    ensures
        states(k, page::lifted_condition(l, c, pc), l, c, pc),
{
    let t = page::lifted_condition(l, c, pc);
    let inlined = page::inlined_condition(l, c, pc);
    if inlined is Some {
        let e = page::tested_definition(l, c, pc)->0;
        let not_e = Expr::UnaryOp { op: UnaryOp::Not, operand: Box::new(e) };
        let k = if c.op == CondOp::Ne {
            Claim::Truth(e)
        } else if e is BinOp {
            Claim::Truth(not_e)
        } else {
            Claim::Truth(*e->operand)
        };
        reveal_with_fuel(render::text_of, 2);
        reveal_strlit("!(");
        reveal_strlit("!");
        reveal_strlit("(");
        assert("!("@ =~= "!"@ + "("@);
        assert(k.text(l.context()) =~= t);
        let reg = c.lhs->Reg_0;
        let name = l.use_name(pc, reg);
        assert forall|m: Meaning, r: spec_fn(u8) -> u64| #[trigger]
            agrees(m, l, c, pc, r) implies k.holds(m) == c.op.holds(
            operand_value(c.lhs, r),
            operand_value(c.rhs, r),
        ) by {
            assert((m.vars)(name) == r(reg));
            assert(meaning::value(m, e) == r(reg));
            reveal_with_fuel(meaning::value, 3);
            machine::lemma_cut(0);
            assert(operand_value(c.rhs, r) == 0);
        }
        k
    } else {
        let lhs = lemma_term(l, c.lhs, pc);
        let rhs = lemma_term(l, c.rhs, pc);
        let k = Claim::Compared { lhs, symbol: c.op.symbol(), rhs };
        assert forall|m: Meaning, r: spec_fn(u8) -> u64| #[trigger]
            agrees(m, l, c, pc, r) implies k.holds(m) == c.op.holds(
            operand_value(c.lhs, r),
            operand_value(c.rhs, r),
        ) by {
            lemma_holds(c.op, operand_value(c.lhs, r), operand_value(c.rhs, r));
            if let Operand::Reg(reg) = c.lhs {
                assert((m.vars)(l.use_name(pc, reg)) == r(reg));
            }
            if let Operand::Reg(reg) = c.rhs {
                assert((m.vars)(l.use_name(pc, reg)) == r(reg));
            }
            if let Operand::Imm(v) = c.lhs {
                machine::lemma_cut(v as int);
            }
            if let Operand::Imm(v) = c.rhs {
                machine::lemma_cut(v as int);
            }
        }
        k
    }
}

/// A written condition says when the branch is taken: its text is that of a claim which
/// holds exactly where the branch's condition does, for all values of the variables, the
/// variable that it tests standing for its definition.
pub proof fn law_condition_states_branch(l: Lifted, c: Condition, pc: usize)
    ensures
        exists|k: Claim| #[trigger] states(k, page::lifted_condition(l, c, pc), l, c, pc),
{
    let k = lemma_claim(l, c, pc);
    assert(states(k, page::lifted_condition(l, c, pc), l, c, pc));
}

/// A condition over registers says when the branch is taken, each register by its name.
pub proof fn law_raw_condition_states_branch(c: Condition, ctx: FormatContext)
    ensures
        exists|k: Claim| #[trigger] says(k, analysis::condition_text(c), c, ctx),
{
    let term = |o: Operand|
        match o {
            Operand::Reg(reg) => Term::Name(instruction::register_name(reg)),
            Operand::Imm(v) => Term::Number(v as int),
        };
    let k = Claim::Compared { lhs: term(c.lhs), symbol: c.op.symbol(), rhs: term(c.rhs) };
    assert forall|m: Meaning, r: spec_fn(u8) -> u64| #[trigger]
        named(m, r) implies k.holds(m) == c.op.holds(
        operand_value(c.lhs, r),
        operand_value(c.rhs, r),
    ) by {
        lemma_holds(c.op, operand_value(c.lhs, r), operand_value(c.rhs, r));
        if let Operand::Reg(reg) = c.lhs {
            assert((m.vars)(instruction::register_name(reg)) == r(reg));
        }
        if let Operand::Reg(reg) = c.rhs {
            assert((m.vars)(instruction::register_name(reg)) == r(reg));
        }
        if let Operand::Imm(v) = c.lhs {
            machine::lemma_cut(v as int);
        }
        if let Operand::Imm(v) = c.rhs {
            machine::lemma_cut(v as int);
        }
    }
    assert(says(k, analysis::condition_text(c), c, ctx));
}

/// Whether each register stands under its name.
pub open spec fn named(m: Meaning, r: spec_fn(u8) -> u64) -> bool {
    forall|reg: u8| (m.vars)(#[trigger] instruction::register_name(reg)) == r(reg)
}

/// The claim `k` is written as `t`, and holds exactly where the condition does, whatever
/// the registers hold.
pub open spec fn says(k: Claim, t: Seq<char>, c: Condition, ctx: FormatContext) -> bool {
    &&& k.text(ctx) == t
    &&& forall|m: Meaning, r: spec_fn(u8) -> u64| #[trigger]
        named(m, r) ==> k.holds(m) == c.op.holds(
            operand_value(c.lhs, r),
            operand_value(c.rhs, r),
        )
}

/// A condition and its opposite are never written alike.
pub proof fn law_opposite_is_written_otherwise(l: Lifted, c: Condition, pc: usize)
    ensures
        page::lifted_condition(l, c, pc) != page::lifted_condition(
            l,
            Condition { op: c.op.opposite(), ..c },
            pc,
        ),
        analysis::condition_text(c) != analysis::condition_text(
            Condition { op: c.op.opposite(), ..c },
        ),
{
    let d = Condition { op: c.op.opposite(), ..c };
    let s = page::lifted_condition(l, c, pc);
    let t = page::lifted_condition(l, d, pc);
    lemma_symbols_differ(
        page::lifted_operand(l, c.lhs, pc),
        c.op,
        page::lifted_operand(l, c.rhs, pc),
    );
    lemma_symbols_differ(
        analysis::operand_text(c.lhs),
        c.op,
        analysis::operand_text(c.rhs),
    );
    assert(page::tested_definition(l, c, pc) == page::tested_definition(l, d, pc));
    if page::inlined_condition(l, c, pc) is Some {
        let e = page::tested_definition(l, c, pc)->0;
        reveal_strlit("!(");
        reveal_strlit("!");
        reveal_strlit("(");
        reveal_strlit(")");
        reveal_with_fuel(render::text_of, 2);
        assert(s.len() != t.len());
    }
}

proof fn lemma_symbols_differ(a: Seq<char>, op: CondOp, b: Seq<char>)
    ensures
        a + " "@ + op.symbol() + " "@ + b != a + " "@ + op.opposite().symbol() + " "@ + b,
{
    reveal_strlit("==");
    reveal_strlit("!=");
    reveal_strlit("<u");
    reveal_strlit(">=u");
    reveal_strlit("<s");
    reveal_strlit(">=s");
    reveal_strlit(" ");
    let s = a + " "@ + op.symbol() + " "@ + b;
    let t = a + " "@ + op.opposite().symbol() + " "@ + b;
    assert("=="@[0] == '=' && "!="@[0] == '!');
    assert(s[a.len() as int + 1] == op.symbol()[0]);
    assert(t[a.len() as int + 1] == op.opposite().symbol()[0]);
    if op != CondOp::Eq && op != CondOp::Ne {
        assert(s.len() != t.len());
    }
}

/// In the graph of a program, an if-then-else holds in its first part what its condition
/// leads to: the branch at its end jumps to the first part, or to the join where that part
/// is empty, and control that goes on comes to the second.
pub proof fn law_then_part_is_taken(
    cfg: ControlFlowGraph,
    code: Seq<(usize, Instruction)>,
    code_len: usize,
    idom: Map<usize, usize>,
    headers: Set<usize>,
    pc: usize,
)
    requires
        cfg::is_graph_of(cfg, code, code_len),
        analysis::if_at(cfg, idom, headers, pc) is Some,
    ensures
        cfg.blocks@.contains_key(pc),
        analysis::if_at(cfg, idom, headers, pc) matches Some(
            Region::IfThenElse { header, then_blocks, else_blocks, join, condition },
        ) && {
            let last = cfg.blocks@[pc].instructions@.last();
            &&& header == pc
            &&& machine::goes_on(last.1)
            &&& if then_blocks.len() == 0 {
                join matches Some(j) && machine::jumps_to(last.0, last.1, j)
            } else {
                then_blocks.len() == 1 && machine::jumps_to(last.0, last.1, then_blocks[0])
            }
            &&& if else_blocks.len() == 0 {
                join matches Some(j) && cfg::is_next_block(cfg.blocks@, pc, j)
            } else {
                else_blocks.len() == 1 && cfg::is_next_block(cfg.blocks@, pc, else_blocks[0])
            }
            &&& condition matches Some(c) ==> forall|r: spec_fn(u8) -> u64|
                machine::taken(last.1, r) == Some(
                    #[trigger] c.op.holds(operand_value(c.lhs, r), operand_value(c.rhs, r)),
                )
        },
{
    cfg::law_taken_edge_comes_first(cfg, code, code_len, pc);
    let last = cfg.blocks@[pc].instructions@.last();
    if let Some(c) = analysis::block_condition(cfg, pc) {
        assert forall|r: spec_fn(u8) -> u64|
            machine::taken(last.1, r) == Some(
                #[trigger] c.op.holds(operand_value(c.lhs, r), operand_value(c.rhs, r)),
            ) by {
            law_condition_is_when_taken(last.1, c, r);
        }
    }
}

/// The condition of a branch is known exactly for the branches on equality, inequality and
/// `>=s` with a constant, and on `>=u` and `<u` of two registers.
pub proof fn law_conditions_are_known(instr: Instruction)
    ensures
        analysis::condition_of(instr) is Some <==> {
            ||| instr is BranchEqImm
            ||| instr is BranchNeImm
            ||| instr is BranchGeSImm
            ||| instr is BranchGeU
            ||| instr is BranchLtU
        },
{
}

/// A condition that tests a comparison or a negation for zero is written as an expression
/// that holds exactly where the test does, without the variable tested.
pub proof fn law_comparison_is_written_out(l: Lifted, c: Condition, pc: usize, reg: u8, e: Expr) -> (
    shown: Expr)
    requires
        c.lhs == Operand::Reg(reg),
        c.rhs == Operand::Imm(0),
        c.op == CondOp::Eq || c.op == CondOp::Ne,
        l.var_at_use.contains_key((pc, reg)),
        l.definition(l.var_at_use[(pc, reg)]) == Some(e),
        match e {
            Expr::BinOp { op, .. } => op == BinOp::LtU || op == BinOp::LtS,
            Expr::UnaryOp { op, .. } => op == UnaryOp::Not,
            _ => false,
        },
    ensures
        page::lifted_condition(l, c, pc) == render::text_of(shown, l.context()),
        forall|m: Meaning|
            (#[trigger] meaning::value(m, shown) != 0) == c.op.holds(meaning::value(m, e), 0),
        forall|name: Seq<char>| #[trigger]
            expr::mentions(shown, name) ==> expr::mentions(e, name),
{
    let shown = if c.op == CondOp::Ne {
        e
    } else if e is BinOp {
        Expr::UnaryOp { op: UnaryOp::Not, operand: Box::new(e) }
    } else {
        *e->operand
    };
    reveal_with_fuel(render::text_of, 2);
    reveal_strlit("!(");
    reveal_strlit("!");
    reveal_strlit("(");
    assert("!("@ =~= "!"@ + "("@);
    assert(page::lifted_condition(l, c, pc) =~= render::text_of(shown, l.context()));
    reveal_with_fuel(meaning::value, 3);
    reveal_with_fuel(expr::mentions, 3);
    shown
}

} // verus!
