//! Folding of definitions with a single use into the expression that uses them.

use crate::cfg::ControlFlowGraph;
use crate::dominators::DominatorTree;
use crate::ir::ssa::SsaProgram;
use crate::lifting::expr;
use crate::lifting::expr::{at_least_deep, has_side_effects, substitute_var, uses_name, Expression};
use crate::lifting::program;
use crate::lifting::program::{Lifted, LiftedProgram};
use crate::loops;
use crate::loops::{collect_loop_bodies, detect_loop_headers};
use crate::ordered;
use crate::ordered::{keys_of, pair_keys_of};
use crate::pvm::Instruction;
use crate::text::same_text;
use std::collections::{BTreeMap, BTreeSet};
use vstd::prelude::*;

verus! {

broadcast use vstd::laws_cmp::group_laws_cmp;

pub open spec fn place_code(
    m: Map<usize, (usize, usize)>,
    key: usize,
    code: Seq<(usize, Instruction)>,
    n: nat,
) -> Map<usize, (usize, usize)>
    decreases n,
{
    if n == 0 {
        m
    } else {
        place_code(m, key, code, (n - 1) as nat).insert(code[n - 1].0, (key, (n - 1) as usize))
    }
}

pub open spec fn place_blocks(cfg: ControlFlowGraph, keys: Seq<usize>, n: nat) -> Map<
    usize,
    (usize, usize),
>
    decreases n,
{
    if n == 0 {
        Map::empty()
    } else {
        let code = cfg.blocks@[keys[n - 1]].instructions@;
        place_code(place_blocks(cfg, keys, (n - 1) as nat), keys[n - 1], code, code.len())
    }
}

/// Block and index of the instruction at each program counter.
pub open spec fn places(cfg: ControlFlowGraph) -> Map<usize, (usize, usize)> {
    let keys = ordered::ascending(cfg.blocks@.dom());
    place_blocks(cfg, keys, keys.len())
}

/// Whether each place lies in a block of the graph.
spec fn placed(m: Map<usize, (usize, usize)>, cfg: ControlFlowGraph) -> bool {
    forall|pc: usize| #[trigger]
        m.contains_key(pc) ==> cfg.blocks@.contains_key(m[pc].0) && m[pc].1
            < cfg.blocks@[m[pc].0].instructions@.len()
}

fn find_places(cfg: &ControlFlowGraph) -> (m: BTreeMap<usize, (usize, usize)>)
    ensures
        m@ == places(*cfg),
        placed(m@, *cfg),
{
    let keys = keys_of(&cfg.blocks);
    let mut m: BTreeMap<usize, (usize, usize)> = BTreeMap::new();
    let mut n: usize = 0;
    while n < keys.len()
        invariant
            n <= keys@.len(),
            keys@.to_set() == cfg.blocks@.dom(),
            m@ == place_blocks(*cfg, keys@, n as nat),
            placed(m@, *cfg),
        decreases keys@.len() - n,
    {
        let key: usize = keys[n];
        assert(keys@.to_set().contains(key));
        let ghost head = m@;
        if let Some(block) = cfg.blocks.get(&key) {
            let mut i: usize = 0;
            while i < block.instructions.len()
                invariant
                    i <= block.instructions@.len(),
                    cfg.blocks@.contains_key(key),
                    *block == cfg.blocks@[key],
                    m@ == place_code(head, key, block.instructions@, i as nat),
                    placed(m@, *cfg),
                decreases block.instructions@.len() - i,
            {
                m.insert(block.instructions[i].0, (key, i));
                i = i + 1;
            }
        }
        n = n + 1;
    }
    m
}

/// Whether a use of a register at `pc` goes by `name`.
pub open spec fn named_at(l: Lifted, name: Seq<char>, pc: usize) -> bool {
    exists|reg: u8| #[trigger]
        l.var_at_use.contains_key((pc, reg)) && l.var_at_use[(pc, reg)] == name
}

/// Whether the instruction at `pc` uses the variable `name`: its expression mentions
/// it or, where there is none or only text, a use at `pc` goes by it.
pub open spec fn uses_at(l: Lifted, name: Seq<char>, pc: usize) -> bool {
    !l.eliminated.contains(pc) && if l.expressions.contains_key(pc) && !(l.expressions[pc] is Raw) {
        expr::mentions(l.expressions[pc], name)
    } else {
        named_at(l, name, pc)
    }
}

/// Whether exactly one instruction other than that at `pc` uses `name`.
pub open spec fn used_by_one(l: Lifted, name: Seq<char>, pc: usize) -> bool {
    exists|p: usize|
        p != pc && #[trigger] uses_at(l, name, p) && forall|q: usize|
            q != pc && #[trigger] uses_at(l, name, q) ==> q == p
}

/// The first instruction from the `i`th on that uses `name`.
pub open spec fn next_use(
    l: Lifted,
    name: Seq<char>,
    code: Seq<(usize, Instruction)>,
    i: int,
) -> Option<usize>
    decreases code.len() - i,
{
    if i < 0 || i >= code.len() {
        None
    } else if uses_at(l, name, code[i].0) {
        Some(code[i].0)
    } else {
        next_use(l, name, code, i + 1)
    }
}

/// Where the definition `key` can be folded into: the one instruction that uses it,
/// later in its block. Stores and text are not folded, nor what is three deep.
pub open spec fn fold_target(
    l: Lifted,
    cfg: ControlFlowGraph,
    at: Map<usize, (usize, usize)>,
    key: (usize, u8),
) -> Option<usize> {
    let name = l.variables[key].name;
    if !l.eliminated.contains(key.0) && at.contains_key(key.0) && l.expressions.contains_key(key.0)
        && !(l.expressions[key.0] is Raw) && !(l.expressions[key.0] is Store) && used_by_one(
        l,
        name,
        key.0,
    ) && expr::depth(l.expressions[key.0]) < 3 {
        next_use(l, name, cfg.blocks@[at[key.0].0].instructions@, at[key.0].1 + 1)
    } else {
        None
    }
}

/// What can be folded among the first `n` of `keys`: place, name and target.
pub open spec fn fold_list(
    l: Lifted,
    cfg: ControlFlowGraph,
    at: Map<usize, (usize, usize)>,
    keys: Seq<(usize, u8)>,
    n: nat,
) -> Seq<(usize, Seq<char>, usize)>
    decreases n,
{
    if n == 0 {
        seq![]
    } else {
        let rest = fold_list(l, cfg, at, keys, (n - 1) as nat);
        match fold_target(l, cfg, at, keys[n - 1]) {
            Some(target) => rest.push((keys[n - 1].0, l.variables[keys[n - 1]].name, target)),
            None => rest,
        }
    }
}

/// The program, and whether anything was folded.
#[verifier::ext_equal]
pub struct Folding {
    pub l: Lifted,
    pub changed: bool,
}

/// Fold the first `n` of `list`.
pub open spec fn fold_each(l: Lifted, list: Seq<(usize, Seq<char>, usize)>, n: nat) -> Folding
    decreases n,
{
    if n == 0 {
        Folding { l, changed: false }
    } else {
        let f = fold_each(l, list, (n - 1) as nat);
        let (pc, name, target) = list[n - 1];
        if f.l.expressions.contains_key(pc) && f.l.expressions.contains_key(target) {
            Folding {
                l: Lifted {
                    expressions: f.l.expressions.insert(
                        target,
                        expr::substituted(f.l.expressions[target], name, f.l.expressions[pc]),
                    ),
                    eliminated: f.l.eliminated.insert(pc),
                    ..f.l
                },
                changed: true,
            }
        } else {
            f
        }
    }
}

/// Fold round by round until nothing changes.
pub open spec fn fold_rounds(l: Lifted, cfg: ControlFlowGraph, rounds: nat) -> Lifted
    decreases rounds,
{
    let keys = ordered::ascending_pairs(l.variables.dom());
    let list = fold_list(l, cfg, places(cfg), keys, keys.len());
    let f = fold_each(l, list, list.len());
    if rounds == 0 {
        l
    } else if f.changed {
        fold_rounds(f.l, cfg, (rounds - 1) as nat)
    } else {
        f.l
    }
}

/// The program with definitions folded within their blocks. A round that changes
/// something drops a definition, so there are no more such rounds than definitions.
pub open spec fn folded(l: Lifted, cfg: ControlFlowGraph) -> Lifted {
    fold_rounds(l, cfg, l.variables.dom().len())
}

spec fn fold_entries(s: Seq<(usize, String, usize)>) -> Seq<(usize, Seq<char>, usize)> {
    s.map_values(|t: (usize, String, usize)| (t.0, t.1@, t.2))
}

impl LiftedProgram {
    fn is_named_at(&self, name: &str, pc: usize) -> (r: bool)
        ensures
            r == named_at(self@, name@, pc),
    {
        let ghost m = self@.var_at_use;
        let mut reg: u16 = 0;
        while reg < 256
            invariant
                reg <= 256,
                m == self@.var_at_use,
                forall|k: u8|
                    k < reg ==> !(#[trigger] m.contains_key((pc, k)) && m[(pc, k)] == name@),
            decreases 256 - reg,
        {
            let ghost key = (pc, reg as u8);
            assert(m.contains_key(key) == self.var_at_use@.contains_key(key));
            if let Some(n) = self.var_at_use.get(&(pc, reg as u8)) {
                if same_text(n.as_str(), name) {
                    assert(m.contains_key(key) && m[key] == name@);
                    return true;
                }
            }
            reg = reg + 1;
        }
        false
    }

    fn is_used_at(&self, name: &str, pc: usize) -> (r: bool)
        ensures
            r == uses_at(self@, name@, pc),
    {
        assert(self@.expressions.contains_key(pc) == self.expressions@.contains_key(pc));
        if self.eliminated_pcs.contains(&pc) {
            return false;
        }
        match self.expressions.get(&pc) {
            Some(Expression::Raw(_)) => self.is_named_at(name, pc),
            Some(e) => uses_name(e, name),
            None => self.is_named_at(name, pc),
        }
    }

    fn has_no_expression(&self, pc: usize) -> (r: bool)
        ensures
            r == !(self@.expressions.contains_key(pc) && !(self@.expressions[pc] is Raw)),
    {
        assert(self@.expressions.contains_key(pc) == self.expressions@.contains_key(pc));
        match self.expressions.get(&pc) {
            Some(Expression::Raw(_)) => true,
            Some(_) => false,
            None => true,
        }
    }

    fn is_used_by_one(&self, name: &str, pc: usize) -> (r: bool)
        ensures
            r == used_by_one(self@, name@, pc),
    {
        let ghost l = self@;
        let keys = keys_of(&self.expressions);
        let mut found: Option<usize> = None;
        let mut i: usize = 0;
        while i < keys.len()
            invariant
                i <= keys@.len(),
                l == self@,
                found matches Some(p) ==> p != pc && uses_at(l, name@, p),
                forall|k: int|
                    0 <= k < i && #[trigger] keys@[k] != pc && l.expressions.contains_key(keys@[k])
                        && !(l.expressions[keys@[k]] is Raw) && uses_at(l, name@, keys@[k])
                        ==> found == Some(keys@[k]),
            decreases keys@.len() - i,
        {
            let p: usize = keys[i];
            if p != pc && !self.has_no_expression(p) && self.is_used_at(name, p) {
                if let Some(q) = found {
                    if q != p {
                        assert(uses_at(l, name@, p) && uses_at(l, name@, q));
                        return false;
                    }
                }
                found = Some(p);
            }
            i = i + 1;
        }
        let uses = pair_keys_of(&self.var_at_use);
        let mut n: usize = 0;
        while n < uses.len()
            invariant
                n <= uses@.len(),
                l == self@,
                uses@.to_set() == self.var_at_use@.dom(),
                found matches Some(p) ==> p != pc && uses_at(l, name@, p),
                forall|k: int|
                    0 <= k < keys@.len() && #[trigger] keys@[k] != pc && l.expressions.contains_key(
                        keys@[k],
                    ) && !(l.expressions[keys@[k]] is Raw) && uses_at(l, name@, keys@[k]) ==> found
                        == Some(keys@[k]),
                forall|k: int|
                    0 <= k < n && (#[trigger] uses@[k]).0 != pc && l.var_at_use[uses@[k]] == name@
                        && !(l.expressions.contains_key(uses@[k].0) && !(l.expressions[uses@[k].0]
                        is Raw)) && !l.eliminated.contains(uses@[k].0) ==> found == Some(uses@[k].0),
            decreases uses@.len() - n,
        {
            let key: (usize, u8) = uses[n];
            assert(uses@.to_set().contains(key));
            if let Some(t) = self.var_at_use.get(&key) {
                assert(l.var_at_use.contains_key(key) && l.var_at_use[key] == t@);
                if key.0 != pc && same_text(t.as_str(), name) && self.has_no_expression(key.0)
                    && !self.eliminated_pcs.contains(&key.0) {
                    assert(l.var_at_use.contains_key((key.0, key.1)));
                    assert(named_at(l, name@, key.0));
                    assert(uses_at(l, name@, key.0));
                    if let Some(q) = found {
                        if q != key.0 {
                            assert(uses_at(l, name@, q));
                            return false;
                        }
                    }
                    found = Some(key.0);
                }
            }
            n = n + 1;
        }
        proof {
            assert forall|q: usize| q != pc && #[trigger] uses_at(l, name@, q) implies found == Some(
                q,
            ) by {
                if l.expressions.contains_key(q) && !(l.expressions[q] is Raw) {
                    assert(self.expressions@.contains_key(q));
                    assert(keys@.to_set().contains(q));
                    let k = choose|k: int| 0 <= k < keys@.len() && keys@[k] == q;
                    assert(keys@[k] == q);
                } else {
                    let reg = choose|reg: u8| #[trigger]
                        l.var_at_use.contains_key((q, reg)) && l.var_at_use[(q, reg)] == name@;
                    assert(self.var_at_use@.contains_key((q, reg)));
                    assert(uses@.to_set().contains((q, reg)));
                    let k = choose|k: int| 0 <= k < uses@.len() && uses@[k] == (q, reg);
                    assert(uses@[k].0 == q);
                }
            }
        }
        found.is_some()
    }

    fn find_next_use(&self, name: &str, code: &Vec<(usize, Instruction)>, from: usize) -> (r: Option<
        usize,
    >)
        requires
            from <= code@.len(),
        ensures
            r == next_use(self@, name@, code@, from as int),
    {
        let mut i: usize = from;
        while i < code.len()
            invariant
                from <= i <= code@.len(),
                next_use(self@, name@, code@, from as int) == next_use(
                    self@,
                    name@,
                    code@,
                    i as int,
                ),
            decreases code@.len() - i,
        {
            if self.is_used_at(name, code[i].0) {
                return Some(code[i].0);
            }
            i = i + 1;
        }
        None
    }

    fn find_fold_target(
        &self,
        cfg: &ControlFlowGraph,
        at: &BTreeMap<usize, (usize, usize)>,
        key: (usize, u8),
    ) -> (r: Option<usize>)
        requires
            placed(at@, *cfg),
            self.variables@.contains_key(key),
        ensures
            r == fold_target(self@, *cfg, at@, key),
    {
        let name: &String = match self.variables.get(&key) {
            Some(v) => &v.name,
            None => {
                return None;
            },
        };
        assert(self@.variables[key].name == name@);
        assert(self@.expressions.contains_key(key.0) == self.expressions@.contains_key(key.0));
        if self.eliminated_pcs.contains(&key.0) {
            return None;
        }
        let (block_pc, index): (usize, usize) = match at.get(&key.0) {
            Some(p) => *p,
            None => {
                return None;
            },
        };
        match self.expressions.get(&key.0) {
            Some(Expression::Raw(_)) => {
                return None;
            },
            Some(Expression::Store { .. }) => {
                return None;
            },
            Some(e) => {
                if at_least_deep(e, 3) {
                    return None;
                }
            },
            None => {
                return None;
            },
        }
        if !self.is_used_by_one(name.as_str(), key.0) {
            return None;
        }
        match cfg.blocks.get(&block_pc) {
            Some(block) => {
                let len: usize = block.instructions.len();
                assert(index < len);
                self.find_next_use(name.as_str(), &block.instructions, index + 1)
            },
            None => None,
        }
    }

    fn apply_folds(&mut self, list: &Vec<(usize, String, usize)>) -> (changed: bool)
        ensures
            (Folding { l: final(self)@, changed }) == fold_each(
                old(self)@,
                fold_entries(list@),
                list@.len(),
            ),
    {
        let ghost l = self@;
        let ghost entries = fold_entries(list@);
        let mut changed: bool = false;
        let mut i: usize = 0;
        while i < list.len()
            invariant
                i <= list@.len(),
                entries == fold_entries(list@),
                (Folding { l: self@, changed }) == fold_each(l, entries, i as nat),
            decreases list@.len() - i,
        {
            let pc: usize = list[i].0;
            let target: usize = list[i].2;
            assert(entries[i as int] == (pc, list@[i as int].1@, target));
            assert(self@.expressions.contains_key(pc) == self.expressions@.contains_key(pc));
            assert(self@.expressions.contains_key(target) == self.expressions@.contains_key(
                target,
            ));
            let folded: Option<Expression> = match self.expressions.get(&pc) {
                Some(def) => match self.expressions.get(&target) {
                    Some(e) => Some(substitute_var(e, list[i].1.as_str(), def)),
                    None => None,
                },
                None => None,
            };
            if let Some(e) = folded {
                let ghost held = self.expressions@;
                self.expressions.insert(target, e);
                self.eliminated_pcs.insert(pc);
                changed = true;
                assert(program::expr_map(self.expressions@) =~= program::expr_map(held).insert(
                    target,
                    e@,
                ));
            }
            i = i + 1;
            assert((Folding { l: self@, changed }) =~= fold_each(l, entries, i as nat));
        }
        changed
    }

    /// Fold expressions: when a definition has exactly one use in a later
    /// instruction within the same block (skipping eliminated PCs), inline the expression.
    pub fn fold_expressions(&mut self, cfg: &ControlFlowGraph)
        ensures
            final(self)@ == folded(old(self)@, *cfg),
    {
        let ghost l = self@;
        let at = find_places(cfg);
        let mut rounds: usize = self.variables.len();
        assert(l.variables.dom() =~= self.variables@.dom());
        while rounds > 0
            invariant_except_break
                folded(l, *cfg) == fold_rounds(self@, *cfg, rounds as nat),
            invariant
                at@ == places(*cfg),
                placed(at@, *cfg),
            ensures
                self@ == folded(l, *cfg),
            decreases rounds,
        {
            let ghost now = self@;
            let keys = pair_keys_of(&self.variables);
            assert(now.variables.dom() =~= self.variables@.dom());
            let mut list: Vec<(usize, String, usize)> = Vec::new();
            let mut n: usize = 0;
            while n < keys.len()
                invariant
                    n <= keys@.len(),
                    now == self@,
                    at@ == places(*cfg),
                    placed(at@, *cfg),
                    keys@.to_set() == self.variables@.dom(),
                    fold_entries(list@) =~= fold_list(now, *cfg, at@, keys@, n as nat),
                decreases keys@.len() - n,
            {
                let key: (usize, u8) = keys[n];
                assert(keys@.to_set().contains(key));
                if let Some(target) = self.find_fold_target(cfg, &at, key) {
                    if let Some(v) = self.variables.get(&key) {
                        assert(now.variables[key] == v@);
                        list.push((key.0, v.name.as_str().to_owned(), target));
                    }
                }
                n = n + 1;
            }
            let changed: bool = self.apply_folds(&list);
            assert(fold_entries(list@).len() == list@.len());
            if !changed {
                break;
            }
            rounds = rounds - 1;
        }
    }
}

/// Start of the block that holds `pc`.
pub open spec fn block_of(
    cfg: ControlFlowGraph,
    at: Map<usize, (usize, usize)>,
    pc: usize,
) -> Option<usize> {
    if at.contains_key(pc) {
        Some(cfg.blocks@[at[pc].0].start_pc)
    } else {
        None
    }
}

/// Whether moving something from `from` to `to` would carry it round a loop: `to` is
/// the header of a loop that `from` belongs to.
pub open spec fn loop_carried(
    cfg: ControlFlowGraph,
    idom: Map<usize, usize>,
    from: usize,
    to: usize,
) -> bool {
    loops::loop_headers(cfg, idom).contains(to) && loops::loop_body(cfg, idom, to).contains(from)
}

/// Where the definition `key` can be folded into across blocks: an expression without
/// side effects, at most one deep, whose value has one use only; its definition lies
/// above the use, and no loop carries it there.
pub open spec fn cross_target(
    l: Lifted,
    cfg: ControlFlowGraph,
    idom: Map<usize, usize>,
    ssa: SsaProgram,
    key: (usize, u8),
) -> Option<usize> {
    let at = places(cfg);
    if !l.eliminated.contains(key.0) && l.expressions.contains_key(key.0) && expr::only_computes(
        l.expressions[key.0],
    ) && expr::depth(l.expressions[key.0]) < 2 && ssa.def_value_by_pc_reg@.contains_key(key) {
        let value = ssa.def_value_by_pc_reg@[key];
        match ssa.single_use(value) {
            Some(use_pc) => {
                let from = block_of(cfg, at, key.0);
                let to = block_of(cfg, at, use_pc);
                if use_pc != key.0 && !l.eliminated.contains(use_pc) && from is Some && to is Some
                    && from != to && ssa.definition_dominates(value, use_pc, idom)
                    && !loop_carried(cfg, idom, from->0, to->0) {
                    Some(use_pc)
                } else {
                    None
                }
            },
            None => None,
        }
    } else {
        None
    }
}

pub open spec fn cross_list(
    l: Lifted,
    cfg: ControlFlowGraph,
    idom: Map<usize, usize>,
    ssa: SsaProgram,
    keys: Seq<(usize, u8)>,
    n: nat,
) -> Seq<(usize, Seq<char>, usize)>
    decreases n,
{
    if n == 0 {
        seq![]
    } else {
        let rest = cross_list(l, cfg, idom, ssa, keys, (n - 1) as nat);
        match cross_target(l, cfg, idom, ssa, keys[n - 1]) {
            Some(target) => rest.push((keys[n - 1].0, l.variables[keys[n - 1]].name, target)),
            None => rest,
        }
    }
}

pub open spec fn cross_rounds(
    l: Lifted,
    cfg: ControlFlowGraph,
    idom: Map<usize, usize>,
    ssa: SsaProgram,
    rounds: nat,
) -> Lifted
    decreases rounds,
{
    let keys = ordered::ascending_pairs(l.variables.dom());
    let list = cross_list(l, cfg, idom, ssa, keys, keys.len());
    let f = fold_each(l, list, list.len());
    if rounds == 0 {
        l
    } else if f.changed {
        cross_rounds(f.l, cfg, idom, ssa, (rounds - 1) as nat)
    } else {
        f.l
    }
}

/// The program with definitions folded across blocks, where there are several.
pub open spec fn cross_folded(
    l: Lifted,
    cfg: ControlFlowGraph,
    idom: Map<usize, usize>,
    ssa: SsaProgram,
) -> Lifted {
    if cfg.blocks@.dom().len() <= 1 {
        l
    } else {
        cross_rounds(l, cfg, idom, ssa, l.variables.dom().len())
    }
}

/// What holds of the tables that cross-block folding works with.
spec fn tables_ok(
    cfg: ControlFlowGraph,
    idom: Map<usize, usize>,
    at: Map<usize, (usize, usize)>,
    bodies: Map<usize, BTreeSet<usize>>,
) -> bool {
    &&& at == places(cfg)
    &&& placed(at, cfg)
    &&& bodies.dom() == loops::loop_headers(cfg, idom)
    &&& forall|h: usize| #[trigger]
        bodies.contains_key(h) ==> bodies[h]@ == loops::loop_body(cfg, idom, h)
}

fn find_block(
    cfg: &ControlFlowGraph,
    at: &BTreeMap<usize, (usize, usize)>,
    pc: usize,
) -> (r: Option<usize>)
    requires
        placed(at@, *cfg),
    ensures
        r == block_of(*cfg, at@, pc),
{
    match at.get(&pc) {
        Some(p) => match cfg.blocks.get(&p.0) {
            Some(block) => Some(block.start_pc),
            None => None,
        },
        None => None,
    }
}

impl LiftedProgram {
    fn find_cross_target(
        &self,
        cfg: &ControlFlowGraph,
        dom_tree: &DominatorTree,
        ssa: &SsaProgram,
        at: &BTreeMap<usize, (usize, usize)>,
        bodies: &BTreeMap<usize, BTreeSet<usize>>,
        key: (usize, u8),
    ) -> (r: Option<usize>)
        requires
            dom_tree.wf(),
            tables_ok(*cfg, dom_tree.idom@, at@, bodies@),
        ensures
            r == cross_target(self@, *cfg, dom_tree.idom@, *ssa, key),
    {
        assert(self@.expressions.contains_key(key.0) == self.expressions@.contains_key(key.0));
        if self.eliminated_pcs.contains(&key.0) {
            return None;
        }
        match self.expressions.get(&key.0) {
            Some(e) => {
                if has_side_effects(e) || at_least_deep(e, 2) {
                    return None;
                }
            },
            None => {
                return None;
            },
        }
        let value: usize = match ssa.value_for_def_pc_reg(key.0, key.1) {
            Some(v) => v,
            None => {
                return None;
            },
        };
        let use_pc: usize = match ssa.single_instruction_use_pc(value) {
            Some(pc) => pc,
            None => {
                return None;
            },
        };
        if use_pc == key.0 || self.eliminated_pcs.contains(&use_pc) {
            return None;
        }
        let from: usize = match find_block(cfg, at, key.0) {
            Some(b) => b,
            None => {
                return None;
            },
        };
        let to: usize = match find_block(cfg, at, use_pc) {
            Some(b) => b,
            None => {
                return None;
            },
        };
        if from == to || !ssa.value_definition_dominates_use_pc(value, use_pc, dom_tree) {
            return None;
        }
        assert(bodies@.dom().contains(to) == loops::loop_headers(*cfg, dom_tree.idom@).contains(to));
        if let Some(body) = bodies.get(&to) {
            if body.contains(&from) {
                return None;
            }
        }
        Some(use_pc)
    }

    /// Cross-block expression folding: inline SDSU (single-def, single-use) values
    /// across basic block boundaries when safe.
    ///
    /// Safety conditions:
    /// 1. The definition's block must dominate the use's block.
    /// 2. The definition must not be in a loop body if the use is in the loop header
    ///    (prevents circular expressions from loop-carried dependencies).
    /// 3. The expression must not have side effects (no Load/Store - these can't be
    ///    safely moved across blocks).
    pub fn fold_expressions_cross_block(
        &mut self,
        cfg: &ControlFlowGraph,
        dom_tree: &DominatorTree,
        ssa: &SsaProgram,
    )
        requires
            dom_tree.wf(),
        ensures
            final(self)@ == cross_folded(old(self)@, *cfg, dom_tree.idom@, *ssa),
    {
        let ghost l = self@;
        let ghost idom = dom_tree.idom@;
        let ghost goal = cross_folded(l, *cfg, idom, *ssa);
        if cfg.blocks.len() <= 1 {
            return;
        }
        let at = find_places(cfg);
        let headers = detect_loop_headers(cfg, dom_tree);
        let bodies = collect_loop_bodies(cfg, dom_tree, &headers);
        let mut rounds: usize = self.variables.len();
        assert(l.variables.dom() =~= self.variables@.dom());
        while rounds > 0
            invariant_except_break
                goal == cross_rounds(self@, *cfg, idom, *ssa, rounds as nat),
            invariant
                dom_tree.wf(),
                idom == dom_tree.idom@,
                tables_ok(*cfg, idom, at@, bodies@),
            ensures
                self@ == goal,
            decreases rounds,
        {
            let ghost now = self@;
            let keys = pair_keys_of(&self.variables);
            assert(now.variables.dom() =~= self.variables@.dom());
            let mut list: Vec<(usize, String, usize)> = Vec::new();
            let mut n: usize = 0;
            while n < keys.len()
                invariant
                    n <= keys@.len(),
                    now == self@,
                    dom_tree.wf(),
                    idom == dom_tree.idom@,
                    tables_ok(*cfg, idom, at@, bodies@),
                    keys@.to_set() == self.variables@.dom(),
                    fold_entries(list@) =~= cross_list(now, *cfg, idom, *ssa, keys@, n as nat),
                decreases keys@.len() - n,
            {
                let key: (usize, u8) = keys[n];
                assert(keys@.to_set().contains(key));
                if let Some(target) = self.find_cross_target(
                    cfg,
                    dom_tree,
                    ssa,
                    &at,
                    &bodies,
                    key,
                ) {
                    if let Some(v) = self.variables.get(&key) {
                        assert(now.variables[key] == v@);
                        list.push((key.0, v.name.as_str().to_owned(), target));
                    }
                }
                n = n + 1;
            }
            let changed: bool = self.apply_folds(&list);
            assert(fold_entries(list@).len() == list@.len());
            if !changed {
                break;
            }
            rounds = rounds - 1;
        }
    }
}

} // verus!
