//! Stores and loads: forwarding of stored values, dead stores, named stack slots.

use crate::cfg::ControlFlowGraph;
use crate::instruction::BinOp;
use crate::lifting::expr;
use crate::lifting::expr::{collect_stack_slots, Expr, Expression};
use crate::lifting::program;
use crate::lifting::program::{rewrite_all, Lifted, LiftedProgram, Rewrite};
use crate::lifting::render;
use crate::lifting::render::{format_expression, FormatContext};
use crate::names;
use crate::names::{holds_name, Slot, SlotMap};
use crate::ordered;
use crate::ordered::keys_of;
use crate::pvm::Instruction;
use crate::text;
use crate::text::push_dec_signed;
use vstd::prelude::*;

verus! {

broadcast use vstd::laws_cmp::group_laws_cmp;

/// The program and the values stored in the block so far, by address.
#[verifier::ext_equal]
pub struct Forwarding {
    pub l: Lifted,
    pub stored: Map<Slot, Expr>,
}

/// The effect of the instruction at `pc`: a store is noted, and a load from where
/// something was stored becomes that value.
pub open spec fn forward_step(s: Forwarding, pc: usize) -> Forwarding {
    if s.l.eliminated.contains(pc) || !s.l.expressions.contains_key(pc) {
        s
    } else {
        match s.l.expressions[pc] {
            Expr::Store { width, base, offset, value } => Forwarding {
                stored: s.stored.insert(
                    (render::text_of(*base, s.l.context()), offset),
                    *value,
                ),
                ..s
            },
            Expr::Load { width, base, offset } => {
                let key = (render::text_of(*base, s.l.context()), offset);
                if s.stored.contains_key(key) {
                    Forwarding {
                        l: Lifted {
                            expressions: s.l.expressions.insert(pc, s.stored[key]),
                            ..s.l
                        },
                        ..s
                    }
                } else {
                    s
                }
            },
            _ => s,
        }
    }
}

pub open spec fn forward_code(l: Lifted, code: Seq<(usize, Instruction)>, n: nat) -> Forwarding
    decreases n,
{
    if n == 0 {
        Forwarding { l, stored: Map::empty() }
    } else {
        forward_step(forward_code(l, code, (n - 1) as nat), code[n - 1].0)
    }
}

pub open spec fn forward_blocks(
    l: Lifted,
    cfg: ControlFlowGraph,
    keys: Seq<usize>,
    n: nat,
) -> Lifted
    decreases n,
{
    if n == 0 {
        l
    } else {
        let code = cfg.blocks@[keys[n - 1]].instructions@;
        forward_code(forward_blocks(l, cfg, keys, (n - 1) as nat), code, code.len()).l
    }
}

/// The program with stored values forwarded to loads within each block.
pub open spec fn stores_forwarded(l: Lifted, cfg: ControlFlowGraph) -> Lifted {
    let keys = ordered::ascending(cfg.blocks@.dom());
    forward_blocks(l, cfg, keys, keys.len())
}

spec fn stored_exprs(m: Map<Slot, Expression>) -> Map<Slot, Expr> {
    m.map_values(|e: Expression| e@)
}

impl LiftedProgram {
    fn forward_at(&mut self, pc: usize, stored: &mut SlotMap<Expression>)
        ensures
            (Forwarding { l: final(self)@, stored: stored_exprs(final(stored)@) }) == forward_step(
                Forwarding { l: old(self)@, stored: stored_exprs(old(stored)@) },
                pc,
            ),
    {
        proof {
            reveal_with_fuel(expr::expr_of, 2);
        }
        let ghost l = self@;
        let ghost s = stored_exprs(stored@);
        let ghost want = forward_step(Forwarding { l, stored: s }, pc);
        if self.eliminated_pcs.contains(&pc) {
            return;
        }
        let ctx = self.format_context();
        assert(l.expressions.contains_key(pc) == self.expressions@.contains_key(pc));
        let replacement: Option<Expression> = match self.expressions.get(&pc) {
            Some(Expression::Store { base, offset, value, .. }) => {
                let at = format_expression(base, &ctx);
                stored.insert(at, *offset, (**value).clone());
                assert(stored_exprs(stored@) =~= s.insert((at@, *offset), value@));
                None
            },
            Some(Expression::Load { base, offset, .. }) => {
                let at = format_expression(base, &ctx);
                assert(s.contains_key((at@, *offset)) == stored@.contains_key((at@, *offset)));
                match stored.get(at.as_str(), *offset) {
                    Some(v) => Some(v.clone()),
                    None => None,
                }
            },
            _ => None,
        };
        if let Some(e) = replacement {
            let ghost held = self.expressions@;
            self.expressions.insert(pc, e);
            assert(program::expr_map(self.expressions@) =~= program::expr_map(held).insert(pc, e@));
            assert(self@ =~= want.l);
        }
        assert((Forwarding { l: self@, stored: stored_exprs(stored@) }) =~= want);
    }

    /// Store-load forwarding: within each basic block, when a store is followed
    /// by a load from the same address, replace the load with the stored value.
    pub fn forward_store_loads(&mut self, cfg: &ControlFlowGraph)
        ensures
            final(self)@ == stores_forwarded(old(self)@, *cfg),
    {
        let ghost l = self@;
        let keys = keys_of(&cfg.blocks);
        let mut n: usize = 0;
        while n < keys.len()
            invariant
                n <= keys@.len(),
                keys@.to_set() == cfg.blocks@.dom(),
                self@ == forward_blocks(l, *cfg, keys@, n as nat),
            decreases keys@.len() - n,
        {
            let key: usize = keys[n];
            assert(keys@.to_set().contains(key));
            let ghost head = self@;
            if let Some(block) = cfg.blocks.get(&key) {
                let mut stored: SlotMap<Expression> = SlotMap::new();
                assert(stored_exprs(stored@) =~= Map::<Slot, Expr>::empty());
                let mut i: usize = 0;
                while i < block.instructions.len()
                    invariant
                        i <= block.instructions@.len(),
                        (Forwarding { l: self@, stored: stored_exprs(stored@) }) == forward_code(
                            head,
                            block.instructions@,
                            i as nat,
                        ),
                    decreases block.instructions@.len() - i,
                {
                    self.forward_at(block.instructions[i].0, &mut stored);
                    i = i + 1;
                }
            }
            n = n + 1;
        }
    }
}

/// Whether the expression loads from the address with text and offset `key`.
pub open spec fn loads_from(e: Expr, ctx: FormatContext, key: Slot) -> bool
    decreases e,
{
    match e {
        Expr::Load { width, base, offset } => key == (render::text_of(*base, ctx), offset)
            || loads_from(*base, ctx, key),
        Expr::Store { width, base, offset, value } => loads_from(*base, ctx, key) || loads_from(
            *value,
            ctx,
            key,
        ),
        Expr::BinOp { op, lhs, rhs } => loads_from(*lhs, ctx, key) || loads_from(*rhs, ctx, key),
        Expr::UnaryOp { op, operand } => loads_from(*operand, ctx, key),
        Expr::Call { name, args } => exists|i: int|
            0 <= i < args.len() && loads_from(#[trigger] args[i], ctx, key),
        _ => false,
    }
}

/// Whether the expression loads from the address with this text and offset.
fn reads(e: &Expression, ctx: &FormatContext, at: &str, offset: i32) -> (r: bool)
    ensures
        r == loads_from(e@, *ctx, (at@, offset)),
    decreases e,
{
    match e {
        Expression::Load { base, offset: o, .. } => {
            assert(e@->Load_base == Box::new(base@));
            if *o == offset && text::same_text(format_expression(base, ctx).as_str(), at) {
                return true;
            }
            reads(base, ctx, at, offset)
        },
        Expression::Store { base, value, .. } => reads(base, ctx, at, offset) || reads(
            value,
            ctx,
            at,
            offset,
        ),
        Expression::BinOp { lhs, rhs, .. } => reads(lhs, ctx, at, offset) || reads(
            rhs,
            ctx,
            at,
            offset,
        ),
        Expression::UnaryOp { operand, .. } => reads(operand, ctx, at, offset),
        Expression::Call { name: callee, args } => {
            proof {
                expr::lemma_call_view(*callee, *args);
            }
            let ghost list = expr::exprs_of(args@);
            let mut i: usize = 0;
            while i < args.len()
                invariant
                    i <= args@.len(),
                    list == expr::exprs_of(args@),
                    e@ == (Expr::Call { name: callee@, args: list }),
                    *e matches Expression::Call { args: a, .. } && a == args,
                    forall|k: int|
                        0 <= k < i ==> !loads_from(#[trigger] list[k], *ctx, (at@, offset)),
                decreases args@.len() - i,
            {
                assert(list[i as int] == args@[i as int]@);
                if reads(&args[i], ctx, at, offset) {
                    assert(loads_from(e@->Call_args[i as int], *ctx, (at@, offset)));
                    return true;
                }
                i = i + 1;
            }
            false
        },
        Expression::Const(_) => false,
        Expression::Var(_) => false,
        Expression::Raw(_) => false,
    }
}

/// Whether a remaining expression loads from `key`.
pub open spec fn live_load(l: Lifted, key: Slot) -> bool {
    exists|pc: usize|
        #![trigger l.expressions.contains_key(pc)]
        l.expressions.contains_key(pc) && !l.eliminated.contains(pc) && loads_from(
            l.expressions[pc],
            l.context(),
            key,
        )
}

/// Whether an expression is made of constants, with definitions followed; `visiting`
/// holds the variables on the way, and the search ends twenty steps down.
pub open spec fn constant_like(l: Lifted, e: Expr, visiting: Set<Seq<char>>, depth: nat) -> bool
    decreases 22 - depth,
{
    depth <= 20 && match e {
        Expr::Const(_) => true,
        Expr::UnaryOp { op, operand } => constant_like(l, *operand, visiting, depth + 1),
        Expr::BinOp { op, lhs, rhs } => constant_like(l, *lhs, visiting, depth + 1)
            && constant_like(l, *rhs, visiting, depth + 1),
        Expr::Var(name) => !visiting.contains(name) && l.definition(name) is Some && constant_like(
            l,
            l.definition(name)->0,
            visiting.insert(name),
            depth + 1,
        ),
        _ => false,
    }
}

/// Whether an address comes from the stack pointer by adding and subtracting
/// constants. The stack pointer is register 1.
pub open spec fn stack_based(l: Lifted, e: Expr, visiting: Set<Seq<char>>, depth: nat) -> bool
    decreases 24 - depth,
{
    depth <= 20 && match e {
        Expr::Var(name) => {
            &&& !visiting.contains(name)
            &&& l.def_pcs.contains_key(name)
            &&& {
                ||| l.variables.contains_key((l.def_pcs[name], 1))
                    && l.variables[(l.def_pcs[name], 1)].name == name
                ||| l.definition(name) is Some && stack_based(
                    l,
                    l.definition(name)->0,
                    visiting.insert(name),
                    depth + 2,
                )
            }
        },
        Expr::BinOp { op, lhs, rhs } => {
            ||| (op == BinOp::Add || op == BinOp::Sub) && stack_based(l, *lhs, visiting, depth + 1)
                && constant_like(l, *rhs, visiting, depth + 1)
            ||| op == BinOp::Add && stack_based(l, *rhs, visiting, depth + 1) && constant_like(
                l,
                *lhs,
                visiting,
                depth + 1,
            )
        },
        _ => false,
    }
}

/// Whether the expression at `pc` stores to a stack slot that nothing loads.
pub open spec fn dead_store(l: Lifted, pc: usize) -> bool {
    &&& l.expressions.contains_key(pc)
    &&& !l.eliminated.contains(pc)
    &&& l.expressions[pc] matches Expr::Store { base, offset, .. } && {
        &&& stack_based(l, *base, Set::empty(), 0)
        &&& 0 <= offset < 0x10000
        &&& !live_load(l, (render::text_of(*base, l.context()), offset))
    }
}

/// The program without dead stores.
pub open spec fn dead_stores_eliminated(l: Lifted) -> Lifted {
    Lifted {
        eliminated: Set::new(|pc: usize| l.eliminated.contains(pc) || dead_store(l, pc)),
        ..l
    }
}

impl LiftedProgram {
    fn is_live_load(&self, ctx: &FormatContext, at: &str, offset: i32) -> (r: bool)
        requires
            *ctx == self@.context(),
        ensures
            r == live_load(self@, (at@, offset)),
    {
        let ghost l = self@;
        let keys = keys_of(&self.expressions);
        let mut i: usize = 0;
        while i < keys.len()
            invariant
                i <= keys@.len(),
                l == self@,
                *ctx == l.context(),
                keys@.to_set() == self.expressions@.dom(),
                forall|k: int|
                    0 <= k < i ==> l.eliminated.contains(#[trigger] keys@[k]) || !loads_from(
                        l.expressions[keys@[k]],
                        *ctx,
                        (at@, offset),
                    ),
            decreases keys@.len() - i,
        {
            let pc: usize = keys[i];
            assert(keys@.to_set().contains(pc));
            assert(l.expressions.contains_key(pc));
            if !self.eliminated_pcs.contains(&pc) {
                if let Some(e) = self.expressions.get(&pc) {
                    assert(l.expressions[pc] == e@);
                    if reads(e, ctx, at, offset) {
                        return true;
                    }
                }
            }
            i = i + 1;
        }
        proof {
            assert forall|pc: usize| #[trigger] l.expressions.contains_key(pc) && !l.eliminated.contains(
                pc,
            ) implies !loads_from(l.expressions[pc], l.context(), (at@, offset)) by {
                assert(keys@.to_set().contains(pc));
                let k = choose|k: int| 0 <= k < keys@.len() && keys@[k] == pc;
                assert(keys@[k] == pc);
            }
        }
        false
    }

    fn expression_is_constant_like(&self, e: &Expression, visiting: &mut Vec<String>, depth: u8) -> (r:
        bool)
        requires
            depth <= 22,
        ensures
            r == constant_like(self@, e@, names::texts(old(visiting)@).to_set(), depth as nat),
            final(visiting)@ == old(visiting)@,
        decreases 22 - depth,
    {
        if depth > 20 {
            return false;
        }
        match e {
            Expression::Const(_) => true,
            Expression::UnaryOp { operand, .. } => self.expression_is_constant_like(
                operand,
                visiting,
                depth + 1,
            ),
            Expression::BinOp { lhs, rhs, .. } => {
                let left: bool = self.expression_is_constant_like(lhs, visiting, depth + 1);
                left && self.expression_is_constant_like(rhs, visiting, depth + 1)
            },
            Expression::Var(name) => {
                if holds_name(visiting, name.as_str()) {
                    return false;
                }
                let ghost before = visiting@;
                match self.expression_for_var(name.as_str()) {
                    Some(def) => {
                        visiting.push(name.as_str().to_owned());
                        proof {
                            assert(names::texts(visiting@) =~= names::texts(before).push(name@));
                            ordered::lemma_push_to_set(names::texts(before), name@);
                        }
                        let r: bool = self.expression_is_constant_like(def, visiting, depth + 1);
                        visiting.pop();
                        assert(visiting@ =~= before);
                        r
                    },
                    None => false,
                }
            },
            _ => false,
        }
    }

    fn expression_has_stack_slot_provenance(
        &self,
        e: &Expression,
        visiting: &mut Vec<String>,
        depth: u8,
    ) -> (r: bool)
        requires
            depth <= 22,
        ensures
            r == stack_based(self@, e@, names::texts(old(visiting)@).to_set(), depth as nat),
            final(visiting)@ == old(visiting)@,
        decreases 24 - depth,
    {
        if depth > 20 {
            return false;
        }
        match e {
            Expression::Var(name) => {
                if holds_name(visiting, name.as_str()) {
                    return false;
                }
                let def_pc: usize = match self.var_name_to_def_pc.get(name.as_str()) {
                    Some(pc) => *pc,
                    None => {
                        return false;
                    },
                };
                assert(self@.variables.contains_key((def_pc, 1)) == self.variables@.contains_key(
                    (def_pc, 1),
                ));
                if let Some(v) = self.variables.get(&(def_pc, 1)) {
                    if text::same_text(v.name.as_str(), name.as_str()) {
                        return true;
                    }
                }
                let ghost before = visiting@;
                match self.expression_for_var(name.as_str()) {
                    Some(def) => {
                        visiting.push(name.as_str().to_owned());
                        proof {
                            assert(names::texts(visiting@) =~= names::texts(before).push(name@));
                            ordered::lemma_push_to_set(names::texts(before), name@);
                        }
                        let r: bool = self.expression_has_stack_slot_provenance(
                            def,
                            visiting,
                            depth + 2,
                        );
                        visiting.pop();
                        assert(visiting@ =~= before);
                        r
                    },
                    None => false,
                }
            },
            Expression::BinOp { op, lhs, rhs } => {
                if *op == BinOp::Add || *op == BinOp::Sub {
                    if self.expression_has_stack_slot_provenance(lhs, visiting, depth + 1) {
                        if self.expression_is_constant_like(rhs, visiting, depth + 1) {
                            return true;
                        }
                    }
                }
                if *op == BinOp::Add {
                    if self.expression_has_stack_slot_provenance(rhs, visiting, depth + 1) {
                        return self.expression_is_constant_like(lhs, visiting, depth + 1);
                    }
                }
                false
            },
            _ => false,
        }
    }

    fn is_dead_store(&self, ctx: &FormatContext, pc: usize) -> (r: bool)
        requires
            *ctx == self@.context(),
        ensures
            r == dead_store(self@, pc),
    {
        proof {
            reveal_with_fuel(expr::expr_of, 2);
        }
        assert(self@.expressions.contains_key(pc) == self.expressions@.contains_key(pc));
        if self.eliminated_pcs.contains(&pc) {
            return false;
        }
        match self.expressions.get(&pc) {
            Some(Expression::Store { base, offset, .. }) => {
                if *offset < 0 || *offset >= 0x10000 {
                    return false;
                }
                let mut visiting: Vec<String> = Vec::new();
                assert(names::texts(visiting@).to_set() =~= Set::empty());
                if !self.expression_has_stack_slot_provenance(base, &mut visiting, 0) {
                    return false;
                }
                let at = format_expression(base, ctx);
                !self.is_live_load(ctx, at.as_str(), *offset)
            },
            _ => false,
        }
    }

    /// Dead store elimination: remove stores to stack locations that are never
    /// read by any remaining load in the program.
    pub fn eliminate_dead_stores(&mut self)
        ensures
            final(self)@ == dead_stores_eliminated(old(self)@),
    {
        let ghost l = self@;
        let ctx = self.format_context();
        let keys = keys_of(&self.expressions);
        let mut dead: Vec<usize> = Vec::new();
        let mut i: usize = 0;
        while i < keys.len()
            invariant
                i <= keys@.len(),
                l == self@,
                ctx == l.context(),
                forall|pc: usize| #[trigger]
                    dead@.contains(pc) <==> keys@.take(i as int).contains(pc) && dead_store(l, pc),
            decreases keys@.len() - i,
        {
            let pc: usize = keys[i];
            let ghost before = dead@;
            if self.is_dead_store(&ctx, pc) {
                dead.push(pc);
            }
            assert(keys@.take(i + 1) =~= keys@.take(i as int).push(pc));
            assert forall|p: usize| #[trigger] dead@.contains(p) <==> keys@.take(i + 1).contains(p)
                && dead_store(l, p) by {
                ordered::lemma_push_key(before, pc, p);
                ordered::lemma_push_key(keys@.take(i as int), pc, p);
                assert(before.contains(p) <==> keys@.take(i as int).contains(p) && dead_store(l, p));
            }
            i = i + 1;
        }
        assert(keys@.take(i as int) =~= keys@);
        let ghost held = self.eliminated_pcs@;
        let mut n: usize = 0;
        while n < dead.len()
            invariant
                n <= dead@.len(),
                self@ == (Lifted { eliminated: self.eliminated_pcs@, ..l }),
                forall|pc: usize| #[trigger]
                    self.eliminated_pcs@.contains(pc) <==> held.contains(pc) || dead@.take(
                        n as int,
                    ).contains(pc),
            decreases dead@.len() - n,
        {
            let pc: usize = dead[n];
            let ghost before = self.eliminated_pcs@;
            self.eliminated_pcs.insert(pc);
            assert(dead@.take(n + 1) =~= dead@.take(n as int).push(pc));
            assert forall|p: usize| #[trigger] self.eliminated_pcs@.contains(p) <==> held.contains(p)
                || dead@.take(n + 1).contains(p) by {
                ordered::lemma_push_key(dead@.take(n as int), pc, p);
                assert(before.contains(p) <==> held.contains(p) || dead@.take(n as int).contains(
                    p,
                ));
            }
            n = n + 1;
        }
        proof {
            assert(dead@.take(n as int) =~= dead@);
            let want = dead_stores_eliminated(l);
            assert forall|pc: usize| self.eliminated_pcs@.contains(pc) == want.eliminated.contains(
                pc,
            ) by {
                if dead_store(l, pc) {
                    assert(program::expr_map(self.expressions@).contains_key(pc));
                    assert(keys@.to_set().contains(pc));
                    assert(dead@.contains(pc));
                }
            }
            assert(self.eliminated_pcs@ =~= want.eliminated);
            assert(self@ =~= want);
        }
    }
}

/// Name of the variable for a stack slot.
pub open spec fn slot_name(slot: Slot) -> Seq<char> {
    slot.0 + "_"@ + text::dec_signed(slot.1 as int)
}

/// Whether an expression of the program accesses `slot`.
pub open spec fn slot_in_use(l: Lifted, slot: Slot) -> bool {
    exists|pc: usize|
        #![trigger l.expressions.contains_key(pc)]
        l.expressions.contains_key(pc) && expr::accesses_slot(l.expressions[pc], slot)
}

/// The names of the stack slots: those known before and those in use.
pub open spec fn named_slots(l: Lifted) -> Map<Slot, Seq<char>> {
    Map::new(
        |slot: Slot| l.stack_vars.contains_key(slot) || slot_in_use(l, slot),
        |slot: Slot|
            if slot_in_use(l, slot) {
                slot_name(slot)
            } else {
                l.stack_vars[slot]
            },
    )
}

/// The program with named stack slots; loads from them are variables.
pub open spec fn stack_recovered(l: Lifted) -> Lifted {
    let named = named_slots(l);
    Lifted {
        stack_vars: named,
        expressions: l.expressions.map_values(|e: Expr| expr::with_slots(e, named)),
        ..l
    }
}

fn slot_string(base: &str, offset: i32) -> (s: String)
    ensures
        s@ == slot_name((base@, offset)),
{
    let mut s = base.to_owned();
    s.append("_");
    push_dec_signed(&mut s, offset as i64);
    s
}

impl LiftedProgram {
    fn list_slots(&self) -> (found: Vec<(String, i32)>)
        ensures
            forall|slot: Slot| #[trigger]
                names::slots(found@).contains(slot) <==> slot_in_use(self@, slot),
    {
        let ghost l = self@;
        let keys = keys_of(&self.expressions);
        let mut found: Vec<(String, i32)> = Vec::new();
        let mut i: usize = 0;
        while i < keys.len()
            invariant
                i <= keys@.len(),
                l == self@,
                keys@.to_set() == self.expressions@.dom(),
                forall|slot: Slot| #[trigger]
                    names::slots(found@).contains(slot) <==> exists|k: int|
                        0 <= k < i && expr::accesses_slot(
                            l.expressions[#[trigger] keys@[k]],
                            slot,
                        ),
            decreases keys@.len() - i,
        {
            let pc: usize = keys[i];
            assert(keys@.to_set().contains(pc));
            let ghost before = names::slots(found@);
            if let Some(e) = self.expressions.get(&pc) {
                assert(l.expressions[pc] == e@);
                collect_stack_slots(e, &mut found);
                assert forall|slot: Slot| #[trigger] names::slots(found@).contains(slot) <==> exists|
                    k: int,
                |
                    0 <= k < i + 1 && expr::accesses_slot(
                        l.expressions[#[trigger] keys@[k]],
                        slot,
                    ) by {
                    assert(names::slots(found@).contains(slot) <==> before.contains(slot)
                        || expr::accesses_slot(e@, slot));
                    assert(before.contains(slot) <==> exists|k: int|
                        0 <= k < i && expr::accesses_slot(
                            l.expressions[#[trigger] keys@[k]],
                            slot,
                        ));
                    if expr::accesses_slot(e@, slot) {
                        assert(keys@[i as int] == pc);
                    }
                }
            }
            i = i + 1;
        }
        proof {
            assert forall|slot: Slot| #[trigger] names::slots(found@).contains(slot)
                <==> slot_in_use(l, slot) by {
                if names::slots(found@).contains(slot) {
                    let k = choose|k: int|
                        0 <= k < keys@.len() && expr::accesses_slot(
                            l.expressions[#[trigger] keys@[k]],
                            slot,
                        );
                    assert(keys@.to_set().contains(keys@[k]));
                    assert(l.expressions.contains_key(keys@[k]));
                }
                if slot_in_use(l, slot) {
                    let pc = choose|pc: usize|
                        #![trigger l.expressions.contains_key(pc)]
                        l.expressions.contains_key(pc) && expr::accesses_slot(
                            l.expressions[pc],
                            slot,
                        );
                    assert(l.expressions.contains_key(pc));
                    assert(keys@.to_set().contains(pc));
                    let k = choose|k: int| 0 <= k < keys@.len() && keys@[k] == pc;
                    assert(expr::accesses_slot(l.expressions[keys@[k]], slot));
                }
            }
        }
        found
    }

    /// Recover stack variables: name stack memory slots (ptr_N + offset) as local
    /// variables, replacing Load expressions with Var references. Stores are kept
    /// but formatted as assignments by `format_pc`.
    pub fn recover_stack_variables(&mut self)
        ensures
            final(self)@ == stack_recovered(old(self)@),
    {
        let ghost l = self@;
        let found = self.list_slots();
        let ghost slots = names::slots(found@);
        let mut i: usize = 0;
        while i < found.len()
            invariant
                i <= found@.len(),
                slots == names::slots(found@),
                self@ == (Lifted { stack_vars: self@.stack_vars, ..l }),
                forall|slot: Slot| #[trigger]
                    self@.stack_vars.contains_key(slot) <==> l.stack_vars.contains_key(slot)
                        || slots.take(i as int).contains(slot),
                forall|slot: Slot| #[trigger]
                    self@.stack_vars.contains_key(slot) ==> self@.stack_vars[slot]
                        == if slots.take(i as int).contains(slot) {
                        slot_name(slot)
                    } else {
                        l.stack_vars[slot]
                    },
            decreases found@.len() - i,
        {
            let ghost before = self@.stack_vars;
            let name = slot_string(found[i].0.as_str(), found[i].1);
            self.stack_vars.insert(found[i].0.as_str().to_owned(), found[i].1, name);
            proof {
                let slot = slots[i as int];
                assert(slot == (found@[i as int].0@, found@[i as int].1));
                assert(self@.stack_vars =~= before.insert(slot, slot_name(slot)));
                assert(slots.take(i + 1) =~= slots.take(i as int).push(slot));
                assert forall|s: Slot| #[trigger]
                    self@.stack_vars.contains_key(s) <==> l.stack_vars.contains_key(s)
                        || slots.take(i + 1).contains(s) by {
                    ordered::lemma_push_key(slots.take(i as int), slot, s);
                    assert(before.contains_key(s) <==> l.stack_vars.contains_key(s) || slots.take(
                        i as int,
                    ).contains(s));
                }
                assert forall|s: Slot| #[trigger]
                    self@.stack_vars.contains_key(s) implies self@.stack_vars[s] == if slots.take(
                    i + 1,
                ).contains(s) {
                    slot_name(s)
                } else {
                    l.stack_vars[s]
                } by {
                    ordered::lemma_push_key(slots.take(i as int), slot, s);
                    if s != slot {
                        assert(before.contains_key(s));
                    }
                }
                assert(self@ =~= (Lifted { stack_vars: self@.stack_vars, ..l }));
            }
            i = i + 1;
        }
        proof {
            assert(slots.take(i as int) =~= slots);
            assert(self@.stack_vars =~= named_slots(l));
        }
        let how = Rewrite::Slots(&self.stack_vars);
        let rewritten = rewrite_all(&self.expressions, &how);
        self.expressions = rewritten;
        proof {
            let named = named_slots(l);
            assert(self@.expressions =~= l.expressions.map_values(
                |e: Expr| expr::with_slots(e, named),
            ));
            assert(self@ =~= stack_recovered(l));
        }
    }
}

/// Whether the instruction at `pc` is a store that remains, to the slot `key`.
pub open spec fn stores_to(l: Lifted, pc: usize, key: Slot) -> bool {
    &&& !l.eliminated.contains(pc)
    &&& l.expressions.contains_key(pc)
    &&& l.expressions[pc] matches Expr::Store { base, offset, .. } && key == (
        render::text_of(*base, l.context()),
        offset,
    )
}

/// Whether the instruction at `pc` is a load that remains, from the slot `key`.
pub open spec fn reads_from(l: Lifted, pc: usize, key: Slot) -> bool {
    &&& !l.eliminated.contains(pc)
    &&& l.expressions.contains_key(pc)
    &&& l.expressions[pc] matches Expr::Load { base, offset, .. } && key == (
        render::text_of(*base, l.context()),
        offset,
    )
}

/// Index of the last store to a slot among the first `n` instructions.
pub open spec fn last_store(
    l: Lifted,
    code: Seq<(usize, Instruction)>,
    key: Slot,
    n: int,
    i: int,
) -> bool {
    &&& 0 <= i < n
    &&& stores_to(l, code[i].0, key)
    &&& forall|j: int| i < j < n ==> !stores_to(l, (#[trigger] code[j]).0, key)
}

/// What holds of the first `n` instructions of a block after forwarding.
spec fn forwarded(l: Lifted, code: Seq<(usize, Instruction)>, n: nat, s: Forwarding) -> bool {
    &&& s.l.eliminated == l.eliminated
    &&& s.l.context() == l.context()
    &&& s.l.expressions.dom() == l.expressions.dom()
    &&& forall|key: Slot| #[trigger]
        s.stored.contains_key(key) ==> exists|i: int| #[trigger]
            last_store(l, code, key, n as int, i) && s.stored[key]
                == *(l.expressions[code[i].0]->Store_value)
    &&& forall|i: int, key: Slot| #[trigger]
        last_store(l, code, key, n as int, i) ==> s.stored.contains_key(key)
    &&& forall|j: int|
        n <= j < code.len() ==> l.expressions.contains_key((#[trigger] code[j]).0)
            ==> s.l.expressions[code[j].0] == l.expressions[code[j].0]
}

proof fn lemma_last_store_unique(
    l: Lifted,
    code: Seq<(usize, Instruction)>,
    key: Slot,
    n: int,
    a: int,
    b: int,
)
    requires
        last_store(l, code, key, n, a),
        last_store(l, code, key, n, b),
    ensures
        a == b,
{
    if a < b {
        assert(!stores_to(l, code[b].0, key));
    } else if b < a {
        assert(!stores_to(l, code[a].0, key));
    }
}

proof fn lemma_forwarded(l: Lifted, code: Seq<(usize, Instruction)>, n: nat)
    requires
        n <= code.len(),
        forall|i: int, j: int|
            0 <= i < j < code.len() ==> (#[trigger] code[i]).0 != (#[trigger] code[j]).0,
    ensures
        forwarded(l, code, n, forward_code(l, code, n)),
    decreases n,
{
    if n > 0 {
        let m = (n - 1) as nat;
        lemma_forwarded(l, code, m);
        let s = forward_code(l, code, m);
        let t = forward_code(l, code, n);
        let pc = code[n - 1].0;
        assert(s.l.expressions.dom().contains(pc) == l.expressions.dom().contains(pc));
        assert(t.l.expressions.dom() =~= l.expressions.dom());
        assert forall|key: Slot| #[trigger] t.stored.contains_key(key) implies exists|i: int|
            #[trigger]
            last_store(l, code, key, n as int, i) && t.stored[key]
                == *(l.expressions[code[i].0]->Store_value) by {
            if stores_to(l, pc, key) {
                assert(last_store(l, code, key, n as int, n - 1));
            } else {
                assert(s.stored.contains_key(key));
                let i = choose|i: int| #[trigger]
                    last_store(l, code, key, m as int, i) && s.stored[key]
                        == *(l.expressions[code[i].0]->Store_value);
                assert(last_store(l, code, key, n as int, i));
            }
        }
        assert forall|i: int, key: Slot| #[trigger]
            last_store(l, code, key, n as int, i) implies t.stored.contains_key(key) by {
            if i < m {
                assert(last_store(l, code, key, m as int, i));
            }
        }
        assert forall|j: int|
            n <= j < code.len() && l.expressions.contains_key(
                (#[trigger] code[j]).0,
            ) implies t.l.expressions[code[j].0] == l.expressions[code[j].0] by {
            assert(s.l.expressions[code[j].0] == l.expressions[code[j].0]);
            assert(code[n - 1].0 != code[j].0);
        }
    }
}

/// Forwarding puts in place of a load what the last store before it in its block stored to
/// the same slot, and leaves every other expression of the block.
pub proof fn law_load_gets_last_stored_value(
    l: Lifted,
    code: Seq<(usize, Instruction)>,
    j: int,
    key: Slot,
)
    requires
        forall|a: int, b: int|
            0 <= a < b < code.len() ==> (#[trigger] code[a]).0 != (#[trigger] code[b]).0,
        0 <= j < code.len(),
        l.expressions.contains_key(code[j].0),
    ensures
        ({
            let out = forward_code(l, code, code.len()).l.expressions;
            &&& out.contains_key(code[j].0)
            &&& reads_from(l, code[j].0, key) ==> forall|i: int| #[trigger]
                last_store(l, code, key, j, i) ==> out[code[j].0]
                    == *(l.expressions[code[i].0]->Store_value)
            &&& !(l.expressions[code[j].0] is Load) || l.eliminated.contains(code[j].0)
                ==> out[code[j].0] == l.expressions[code[j].0]
        }),
{
    lemma_forwarded(l, code, j as nat);
    lemma_forwarded(l, code, (j + 1) as nat);
    lemma_forwarded(l, code, code.len());
    let s = forward_code(l, code, j as nat);
    let t = forward_code(l, code, (j + 1) as nat);
    let pc = code[j].0;
    assert(s.l.expressions[pc] == l.expressions[pc]);
    assert(s.l.expressions.dom().contains(pc));
    lemma_kept(l, code, (j + 1) as nat, code.len(), j);
    if reads_from(l, pc, key) {
        assert forall|i: int| #[trigger] last_store(l, code, key, j, i) implies t.l.expressions[pc]
            == *(l.expressions[code[i].0]->Store_value) by {
            assert(s.stored.contains_key(key));
            let k = choose|k: int| #[trigger]
                last_store(l, code, key, j, k) && s.stored[key]
                    == *(l.expressions[code[k].0]->Store_value);
            lemma_last_store_unique(l, code, key, j, i, k);
        }
    }
}

proof fn lemma_kept(l: Lifted, code: Seq<(usize, Instruction)>, m: nat, n: nat, j: int)
    requires
        0 <= j < m <= n <= code.len(),
        forall|a: int, b: int|
            0 <= a < b < code.len() ==> (#[trigger] code[a]).0 != (#[trigger] code[b]).0,
    ensures
        forward_code(l, code, n).l.expressions[code[j].0] == forward_code(
            l,
            code,
            m,
        ).l.expressions[code[j].0],
    decreases n,
{
    if m < n {
        lemma_kept(l, code, m, (n - 1) as nat, j);
        assert(code[j].0 != code[n - 1].0);
    }
}

} // verus!
