//! A value graph over register definitions and uses.
//!
//! - a value for each definition by an instruction
//! - merges by phi values at join blocks
//! - the value that each use of a register sees

use crate::cfg;
use crate::cfg::ControlFlowGraph;
use crate::dataflow;
use crate::dataflow::{extract_def_use, holds_pc};
use crate::dominators;
use crate::dominators::DominatorTree;
use crate::instruction;
use crate::ordered;
use crate::ordered::{keys_of, members_of};
use crate::pvm::Instruction;
use std::collections::{BTreeMap, BTreeSet};
use vstd::prelude::*;

verus! {

broadcast use vstd::laws_cmp::group_laws_cmp;

pub type SsaValueId = usize;

#[derive(Debug, Clone, Copy, PartialEq, Eq, Structural)]
#[allow(inconsistent_fields)]
pub enum SsaValueKind {
    Param { reg: u8 },
    Undef { reg: u8 },
    Instr { pc: usize, reg: u8, block_pc: usize },
    Phi { block_pc: usize, reg: u8 },
}

impl SsaValueKind {
    /// The register that the value belongs to.
    pub open spec fn register(self) -> u8 {
        match self {
            SsaValueKind::Param { reg } => reg,
            SsaValueKind::Undef { reg } => reg,
            SsaValueKind::Instr { reg, .. } => reg,
            SsaValueKind::Phi { reg, .. } => reg,
        }
    }
}

#[derive(Debug, Clone)]
pub struct SsaValue {
    pub kind: SsaValueKind,
    pub operands: Vec<SsaValueId>,
}

#[derive(Debug, Clone, Copy, PartialEq, Eq, Hash, PartialOrd, Ord, Structural)]
#[allow(inconsistent_fields)]
pub enum SsaUseSite {
    Instr { pc: usize, reg: u8 },
    PhiOperand { block_pc: usize, reg: u8 },
}

#[derive(Debug)]
pub struct SsaProgram {
    pub values: Vec<SsaValue>,
    pub def_value_by_pc_reg: BTreeMap<(usize, u8), SsaValueId>,
    pub use_value_by_pc_reg: BTreeMap<(usize, u8), SsaValueId>,
    pub uses_by_value: BTreeMap<SsaValueId, Vec<SsaUseSite>>,
    pub phi_value_by_block_reg: BTreeMap<(usize, u8), SsaValueId>,
    pub pc_to_block: BTreeMap<usize, usize>,
}

/// Number of general purpose registers (r0..r12); a block's state holds each of them.
pub const STATE_REGS: u8 = 13;

/// Value of register `reg` on entry to the function.
pub open spec fn param_id(reg: u8) -> usize {
    (2 * reg) as usize
}

/// Value of a register of which nothing is known.
pub open spec fn undef_id(reg: u8) -> usize {
    (2 * reg + 1) as usize
}

/// Entry and undefined values of the first `n` registers.
pub open spec fn base_kinds(n: nat) -> Seq<SsaValueKind>
    decreases n,
{
    if n == 0 {
        seq![]
    } else {
        let reg = (n - 1) as u8;
        base_kinds((n - 1) as nat).push(SsaValueKind::Param { reg }).push(
            SsaValueKind::Undef { reg },
        )
    }
}

/// Values numbered so far: their kinds, and the value of each definition.
#[verifier::ext_equal]
pub struct Numbering {
    pub kinds: Seq<SsaValueKind>,
    pub defs: Map<(usize, u8), usize>,
}

/// Number the definitions of the first `n` of `regs` at `pc`.
pub open spec fn number_regs(
    s: Numbering,
    pc: usize,
    block_pc: usize,
    regs: Seq<u8>,
    n: nat,
) -> Numbering
    decreases n,
{
    if n == 0 {
        s
    } else {
        let t = number_regs(s, pc, block_pc, regs, (n - 1) as nat);
        let reg = regs[n - 1];
        Numbering {
            kinds: t.kinds.push(SsaValueKind::Instr { pc, reg, block_pc }),
            defs: t.defs.insert((pc, reg), t.kinds.len() as usize),
        }
    }
}

/// Number the definitions of the first `n` instructions of a block.
pub open spec fn number_code(
    s: Numbering,
    code: Seq<(usize, Instruction)>,
    block_pc: usize,
    n: nat,
) -> Numbering
    decreases n,
{
    if n == 0 {
        s
    } else {
        let regs = instruction::classified(code[n - 1].1).defs();
        number_regs(
            number_code(s, code, block_pc, (n - 1) as nat),
            code[n - 1].0,
            block_pc,
            regs,
            regs.len(),
        )
    }
}

/// Number the definitions of the first `n` of the blocks at `keys`.
pub open spec fn number_blocks(cfg: ControlFlowGraph, keys: Seq<usize>, n: nat) -> Numbering
    decreases n,
{
    if n == 0 {
        Numbering { kinds: base_kinds(STATE_REGS as nat), defs: Map::empty() }
    } else {
        let pc = keys[n - 1];
        let code = cfg.blocks@[pc].instructions@;
        number_code(number_blocks(cfg, keys, (n - 1) as nat), code, pc, code.len())
    }
}

/// The numbering of all definitions of a graph.
pub open spec fn numbering(cfg: ControlFlowGraph) -> Numbering {
    let keys = ordered::ascending(cfg.blocks@.dom());
    number_blocks(cfg, keys, keys.len())
}

/// What is known of the values that registers hold: the kinds of all values, the phi
/// values made so far, and the registers at the start and the end of each block.
#[verifier::ext_equal]
pub struct Flow {
    pub kinds: Seq<SsaValueKind>,
    pub phis: Map<(usize, u8), usize>,
    pub ins: Map<usize, Seq<Option<usize>>>,
    pub outs: Map<usize, Seq<Option<usize>>>,
}

/// Values that `reg` can hold at the end of one of `preds`.
pub open spec fn incoming(
    outs: Map<usize, Seq<Option<usize>>>,
    preds: Seq<usize>,
    reg: u8,
) -> Set<usize> {
    Set::new(
        |v: usize|
            exists|k: int|
                0 <= k < preds.len() && outs.contains_key(#[trigger] preds[k])
                    && outs[preds[k]][reg as int] == Some(v),
    )
}

/// Value of `reg` at the start of the block at `pc`: nothing known, the one value that
/// comes in, or the block's phi value.
pub open spec fn merge(f: Flow, cfg: ControlFlowGraph, pc: usize, reg: u8) -> (Flow, usize) {
    let vals = ordered::ascending(incoming(f.outs, cfg.blocks@[pc].predecessors@, reg));
    if vals.len() == 0 {
        (f, undef_id(reg))
    } else if vals.len() == 1 {
        (f, vals[0])
    } else if f.phis.contains_key((pc, reg)) {
        (f, f.phis[(pc, reg)])
    } else {
        let id = f.kinds.len() as usize;
        (
            Flow {
                kinds: f.kinds.push(SsaValueKind::Phi { block_pc: pc, reg }),
                phis: f.phis.insert((pc, reg), id),
                ..f
            },
            id,
        )
    }
}

pub open spec fn no_values() -> Seq<Option<usize>> {
    Seq::new(256, |i: int| None)
}

/// The first `n` registers at the start of the block at `pc`.
pub open spec fn merge_all(f: Flow, cfg: ControlFlowGraph, pc: usize, n: nat) -> (
    Flow,
    Seq<Option<usize>>,
)
    decreases n,
{
    if n == 0 {
        (f, no_values())
    } else {
        let (g, state) = merge_all(f, cfg, pc, (n - 1) as nat);
        let (h, v) = merge(g, cfg, pc, (n - 1) as u8);
        (h, state.update(n - 1, Some(v)))
    }
}

/// Registers at the start of a block without predecessors.
pub open spec fn first_state(cfg: ControlFlowGraph, pc: usize) -> Seq<Option<usize>> {
    Seq::new(
        256,
        |i: int|
            if i >= STATE_REGS {
                None
            } else if pc == cfg.entry_pc {
                Some(param_id(i as u8))
            } else {
                Some(undef_id(i as u8))
            },
    )
}

pub open spec fn enter(f: Flow, cfg: ControlFlowGraph, pc: usize) -> (Flow, Seq<Option<usize>>) {
    if cfg.blocks@[pc].predecessors@.len() == 0 {
        (f, first_state(cfg, pc))
    } else {
        merge_all(f, cfg, pc, STATE_REGS as nat)
    }
}

/// The state behind the definitions of the first `n` of `regs` at `pc`.
pub open spec fn after_defs(
    state: Seq<Option<usize>>,
    defs: Map<(usize, u8), usize>,
    pc: usize,
    regs: Seq<u8>,
    n: nat,
) -> Seq<Option<usize>>
    decreases n,
{
    if n == 0 {
        state
    } else {
        let s = after_defs(state, defs, pc, regs, (n - 1) as nat);
        let reg = regs[n - 1];
        if defs.contains_key((pc, reg)) {
            s.update(reg as int, Some(defs[(pc, reg)]))
        } else {
            s
        }
    }
}

/// The state behind the first `n` instructions.
pub open spec fn after_code(
    state: Seq<Option<usize>>,
    defs: Map<(usize, u8), usize>,
    code: Seq<(usize, Instruction)>,
    n: nat,
) -> Seq<Option<usize>>
    decreases n,
{
    if n == 0 {
        state
    } else {
        let regs = instruction::classified(code[n - 1].1).defs();
        after_defs(
            after_code(state, defs, code, (n - 1) as nat),
            defs,
            code[n - 1].0,
            regs,
            regs.len(),
        )
    }
}

/// Look at one block again; whether its registers changed.
pub open spec fn flow_block(
    f: Flow,
    cfg: ControlFlowGraph,
    defs: Map<(usize, u8), usize>,
    pc: usize,
) -> (Flow, bool) {
    if !cfg.blocks@.contains_key(pc) {
        (f, false)
    } else {
        let (g, state) = enter(f, cfg, pc);
        let code = cfg.blocks@[pc].instructions@;
        let out = after_code(state, defs, code, code.len());
        let same = g.ins.contains_key(pc) && g.ins[pc] == state && g.outs.contains_key(pc)
            && g.outs[pc] == out;
        (Flow { ins: g.ins.insert(pc, state), outs: g.outs.insert(pc, out), ..g }, !same)
    }
}

/// Look at the first `n` of the blocks in `order`.
pub open spec fn flow_round(
    f: Flow,
    cfg: ControlFlowGraph,
    defs: Map<(usize, u8), usize>,
    order: Seq<usize>,
    n: nat,
) -> (Flow, bool)
    decreases n,
{
    if n == 0 {
        (f, false)
    } else {
        let (g, changed) = flow_round(f, cfg, defs, order, (n - 1) as nat);
        let (h, here) = flow_block(g, cfg, defs, order[n - 1]);
        (h, changed || here)
    }
}

/// Rounds until nothing changes, at most `fuel`.
pub open spec fn flow_rounds(
    f: Flow,
    cfg: ControlFlowGraph,
    defs: Map<(usize, u8), usize>,
    order: Seq<usize>,
    fuel: nat,
) -> Flow
    decreases fuel,
{
    if fuel == 0 {
        f
    } else {
        let (g, changed) = flow_round(f, cfg, defs, order, order.len());
        if changed {
            flow_rounds(g, cfg, defs, order, (fuel - 1) as nat)
        } else {
            g
        }
    }
}

/// Order in which blocks are looked at: those of `rpo`, then all others.
pub open spec fn flow_order(cfg: ControlFlowGraph, rpo: Seq<usize>) -> Seq<usize> {
    let keys = ordered::ascending(cfg.blocks@.dom());
    dataflow::push_missing(rpo, keys, keys.len())
}

pub open spec fn round_limit(cfg: ControlFlowGraph) -> nat {
    if cfg.blocks@.dom().len() == 0 {
        20
    } else {
        20 * cfg.blocks@.dom().len()
    }
}

/// What the iteration finds.
pub open spec fn flow(cfg: ControlFlowGraph, rpo: Seq<usize>) -> Flow {
    let start = Flow {
        kinds: numbering(cfg).kinds,
        phis: Map::empty(),
        ins: Map::empty(),
        outs: Map::empty(),
    };
    flow_rounds(start, cfg, numbering(cfg).defs, flow_order(cfg, rpo), round_limit(cfg))
}

/// Operands of the phi value of `reg` at the block at `pc`: the values that come in,
/// if there are several.
pub open spec fn phi_operands(cfg: ControlFlowGraph, f: Flow, pc: usize, reg: u8) -> Seq<usize> {
    let vals = ordered::ascending(incoming(f.outs, cfg.blocks@[pc].predecessors@, reg));
    if cfg.blocks@.contains_key(pc) && vals.len() > 1 {
        vals
    } else {
        seq![]
    }
}

/// Value that the use of `reg` by the `i`th instruction of the block at `pc` sees.
pub open spec fn value_at(cfg: ControlFlowGraph, f: Flow, pc: usize, i: int, reg: u8) -> Option<
    usize,
> {
    let start = if f.ins.contains_key(pc) {
        f.ins[pc]
    } else {
        Seq::new(
            256,
            |k: int|
                if k >= STATE_REGS {
                    None
                } else {
                    Some(undef_id(k as u8))
                },
        )
    };
    let state = after_code(start, numbering(cfg).defs, cfg.blocks@[pc].instructions@, i as nat);
    match state[reg as int] {
        Some(v) => Some(v),
        None => if reg < STATE_REGS {
            Some(undef_id(reg))
        } else {
            None
        },
    }
}

/// Whether the `i`th instruction of the block at `b`, at `pc`, uses `reg` and sees `v`.
pub open spec fn sees(
    cfg: ControlFlowGraph,
    f: Flow,
    b: usize,
    i: int,
    pc: usize,
    reg: u8,
    v: usize,
) -> bool {
    &&& cfg.blocks@.contains_key(b)
    &&& 0 <= i < cfg.blocks@[b].instructions@.len()
    &&& cfg.blocks@[b].instructions@[i].0 == pc
    &&& instruction::classified(cfg.blocks@[b].instructions@[i].1).uses().contains(reg)
    &&& value_at(cfg, f, b, i, reg) == Some(v)
}

/// Whether an instruction at `pc` uses `reg` and sees `v`.
pub open spec fn use_sees(
    cfg: ControlFlowGraph,
    f: Flow,
    pc: usize,
    reg: u8,
    v: usize,
) -> bool {
    exists|b: usize, i: int| sees(cfg, f, b, i, pc, reg, v)
}

/// Whether `v` is used at `site`.
pub open spec fn used_at(cfg: ControlFlowGraph, f: Flow, v: usize, site: SsaUseSite) -> bool {
    match site {
        SsaUseSite::Instr { pc, reg } => use_sees(cfg, f, pc, reg, v),
        SsaUseSite::PhiOperand { block_pc, reg } => f.phis.contains_key((block_pc, reg))
            && phi_operands(cfg, f, block_pc, reg).contains(v),
    }
}

pub open spec fn kinds_of(values: Seq<SsaValue>) -> Seq<SsaValueKind> {
    values.map_values(|v: SsaValue| v.kind)
}

pub open spec fn states_are(
    m: Map<usize, Vec<Option<usize>>>,
    s: Map<usize, Seq<Option<usize>>>,
) -> bool {
    &&& m.dom() == s.dom()
    &&& forall|pc: usize| #[trigger] m.contains_key(pc) ==> m[pc]@ == s[pc] && s[pc].len() == 256
}

fn new_value(values: &mut Vec<SsaValue>, kind: SsaValueKind) -> (id: SsaValueId)
    ensures
        id == old(values)@.len(),
        final(values)@.len() == old(values)@.len() + 1,
        kinds_of(final(values)@) == kinds_of(old(values)@).push(kind),
        forall|i: int| 0 <= i < old(values)@.len() ==> #[trigger] final(values)@[i] == old(values)@[i],
        final(values)@.last().operands@.len() == 0,
{
    let id: usize = values.len();
    values.push(SsaValue { kind, operands: Vec::new() });
    assert(kinds_of(values@) =~= kinds_of(old(values)@).push(kind));
    id
}

/// Number the definitions of all instructions.
fn number_values(cfg: &ControlFlowGraph, keys: &Vec<usize>) -> (r: (
    Vec<SsaValue>,
    BTreeMap<(usize, u8), SsaValueId>,
))
    requires
        keys@ == ordered::ascending(cfg.blocks@.dom()),
        keys@.to_set() == cfg.blocks@.dom(),
    ensures
        kinds_of(r.0@) == numbering(*cfg).kinds,
        r.1@ == numbering(*cfg).defs,
        forall|i: int| 0 <= i < r.0@.len() ==> (#[trigger] r.0@[i]).operands@.len() == 0,
{
    let mut values: Vec<SsaValue> = Vec::new();
    let mut defs: BTreeMap<(usize, u8), SsaValueId> = BTreeMap::new();
    let mut reg: u8 = 0;
    assert(kinds_of(values@) =~= base_kinds(0));
    while reg < STATE_REGS
        invariant
            reg <= STATE_REGS,
            kinds_of(values@) == base_kinds(reg as nat),
            forall|i: int| 0 <= i < values@.len() ==> (#[trigger] values@[i]).operands@.len() == 0,
        decreases STATE_REGS - reg,
    {
        new_value(&mut values, SsaValueKind::Param { reg });
        new_value(&mut values, SsaValueKind::Undef { reg });
        reg = reg + 1;
    }
    let mut n: usize = 0;
    while n < keys.len()
        invariant
            n <= keys@.len(),
            keys@.to_set() == cfg.blocks@.dom(),
            kinds_of(values@) == number_blocks(*cfg, keys@, n as nat).kinds,
            defs@ == number_blocks(*cfg, keys@, n as nat).defs,
            forall|i: int| 0 <= i < values@.len() ==> (#[trigger] values@[i]).operands@.len() == 0,
        decreases keys@.len() - n,
    {
        let block_pc: usize = keys[n];
        assert(keys@.to_set().contains(block_pc));
        if let Some(block) = cfg.blocks.get(&block_pc) {
            let ghost s = number_blocks(*cfg, keys@, n as nat);
            let ghost code = block.instructions@;
            let mut k: usize = 0;
            while k < block.instructions.len()
                invariant
                    k <= code.len(),
                    code == block.instructions@,
                    kinds_of(values@) == number_code(s, code, block_pc, k as nat).kinds,
                    defs@ == number_code(s, code, block_pc, k as nat).defs,
                    forall|i: int|
                        0 <= i < values@.len() ==> (#[trigger] values@[i]).operands@.len() == 0,
                decreases code.len() - k,
            {
                let pc: usize = block.instructions[k].0;
                let (regs, _uses) = extract_def_use(&block.instructions[k].1);
                let ghost t = number_code(s, code, block_pc, k as nat);
                let mut j: usize = 0;
                while j < regs.len()
                    invariant
                        j <= regs@.len(),
                        kinds_of(values@) == number_regs(t, pc, block_pc, regs@, j as nat).kinds,
                        defs@ == number_regs(t, pc, block_pc, regs@, j as nat).defs,
                        forall|i: int|
                            0 <= i < values@.len() ==> (#[trigger] values@[i]).operands@.len() == 0,
                    decreases regs@.len() - j,
                {
                    let r: u8 = regs[j];
                    let id: usize = new_value(
                        &mut values,
                        SsaValueKind::Instr { pc, reg: r, block_pc },
                    );
                    defs.insert((pc, r), id);
                    j = j + 1;
                }
                k = k + 1;
            }
        }
        n = n + 1;
    }
    (values, defs)
}

/// The distinct values that come in, in ascending order.
fn incoming_values(
    outs: &BTreeMap<usize, Vec<Option<usize>>>,
    preds: &Vec<usize>,
    reg: u8,
    model: Ghost<Map<usize, Seq<Option<usize>>>>,
) -> (r: Vec<usize>)
    requires
        states_are(outs@, model@),
    ensures
        r@ == ordered::ascending(incoming(model@, preds@, reg)),
{
    let mut set: BTreeSet<usize> = BTreeSet::new();
    let mut k: usize = 0;
    while k < preds.len()
        invariant
            k <= preds@.len(),
            states_are(outs@, model@),
            forall|v: usize| #[trigger]
                set@.contains(v) <==> exists|j: int|
                    0 <= j < k && model@.contains_key(#[trigger] preds@[j])
                        && model@[preds@[j]][reg as int] == Some(v),
        decreases preds@.len() - k,
    {
        let p: usize = preds[k];
        let ghost before = set@;
        assert(outs@.contains_key(p) == model@.contains_key(p));
        if let Some(state) = outs.get(&p) {
            if let Some(v) = state[reg as usize] {
                set.insert(v);
                assert(model@[preds@[k as int]][reg as int] == Some(v));
                assert forall|x: usize| #[trigger] set@.contains(x) implies exists|j: int|
                    0 <= j < k + 1 && model@.contains_key(#[trigger] preds@[j])
                        && model@[preds@[j]][reg as int] == Some(x) by {
                    if x != v {
                        assert(before.contains(x));
                    }
                }
            }
        }
        assert forall|x: usize|
            (exists|j: int|
                0 <= j < k + 1 && model@.contains_key(#[trigger] preds@[j])
                    && model@[preds@[j]][reg as int] == Some(x)) implies #[trigger] set@.contains(
            x,
        ) by {
            let j = choose|j: int|
                0 <= j < k + 1 && model@.contains_key(#[trigger] preds@[j])
                    && model@[preds@[j]][reg as int] == Some(x);
            if j < k {
                assert(before.contains(x));
            }
        }
        k = k + 1;
    }
    assert(set@ =~= incoming(model@, preds@, reg));
    members_of(&set)
}

fn empty_state() -> (state: Vec<Option<usize>>)
    ensures
        state@ == no_values(),
{
    let mut state: Vec<Option<usize>> = Vec::new();
    let mut i: usize = 0;
    while i < 256
        invariant
            i <= 256,
            state@.len() == i,
            forall|k: int| 0 <= k < i ==> state@[k] == None::<usize>,
        decreases 256 - i,
    {
        state.push(None);
        i = i + 1;
    }
    assert(state@ =~= no_values());
    state
}

/// The state in which each register has its entry value, or is undefined.
fn uniform_state(entry: bool) -> (state: Vec<Option<usize>>)
    ensures
        state@ == Seq::new(
            256,
            |i: int|
                if i >= STATE_REGS {
                    None
                } else if entry {
                    Some(param_id(i as u8))
                } else {
                    Some(undef_id(i as u8))
                },
        ),
{
    let mut state = empty_state();
    let mut reg: u8 = 0;
    while reg < STATE_REGS
        invariant
            reg <= STATE_REGS,
            state@.len() == 256,
            forall|i: int|
                0 <= i < 256 ==> #[trigger] state@[i] == if i >= reg {
                    None
                } else if entry {
                    Some(param_id(i as u8))
                } else {
                    Some(undef_id(i as u8))
                },
        decreases STATE_REGS - reg,
    {
        let id: usize = if entry {
            2 * (reg as usize)
        } else {
            2 * (reg as usize) + 1
        };
        state.set(reg as usize, Some(id));
        reg = reg + 1;
    }
    assert(state@ =~= Seq::new(
        256,
        |i: int|
            if i >= STATE_REGS {
                None
            } else if entry {
                Some(param_id(i as u8))
            } else {
                Some(undef_id(i as u8))
            },
    ));
    state
}

fn copy_state(state: &Vec<Option<usize>>) -> (r: Vec<Option<usize>>)
    ensures
        r@ == state@,
{
    let mut r: Vec<Option<usize>> = Vec::new();
    let mut i: usize = 0;
    while i < state.len()
        invariant
            i <= state@.len(),
            r@ =~= state@.take(i as int),
        decreases state@.len() - i,
    {
        r.push(state[i]);
        i = i + 1;
    }
    assert(state@.take(i as int) =~= state@);
    r
}

fn same_state(a: &Vec<Option<usize>>, b: &Vec<Option<usize>>) -> (r: bool)
    ensures
        r == (a@ == b@),
{
    if a.len() != b.len() {
        return false;
    }
    let mut i: usize = 0;
    while i < a.len()
        invariant
            i <= a@.len(),
            a@.len() == b@.len(),
            forall|k: int| 0 <= k < i ==> a@[k] == b@[k],
        decreases a@.len() - i,
    {
        let same: bool = match (a[i], b[i]) {
            (Some(x), Some(y)) => x == y,
            (None, None) => true,
            _ => false,
        };
        if !same {
            assert(a@[i as int] != b@[i as int]);
            return false;
        }
        i = i + 1;
    }
    assert(a@ =~= b@);
    true
}

/// Apply the definitions of the instruction at `pc`.
fn apply_defs(
    state: &mut Vec<Option<usize>>,
    defs: &BTreeMap<(usize, u8), SsaValueId>,
    pc: usize,
    regs: &Vec<u8>,
)
    requires
        old(state)@.len() == 256,
    ensures
        final(state)@ == after_defs(old(state)@, defs@, pc, regs@, regs@.len()),
        final(state)@.len() == 256,
{
    let ghost start = state@;
    let mut j: usize = 0;
    while j < regs.len()
        invariant
            j <= regs@.len(),
            state@.len() == 256,
            state@ == after_defs(start, defs@, pc, regs@, j as nat),
        decreases regs@.len() - j,
    {
        if let Some(id) = defs.get(&(pc, regs[j])) {
            state.set(regs[j] as usize, Some(*id));
        }
        j = j + 1;
    }
}

/// The state behind a block.
fn run_block(
    state: &Vec<Option<usize>>,
    defs: &BTreeMap<(usize, u8), SsaValueId>,
    code: &Vec<(usize, Instruction)>,
) -> (r: Vec<Option<usize>>)
    requires
        state@.len() == 256,
    ensures
        r@ == after_code(state@, defs@, code@, code@.len()),
        r@.len() == 256,
{
    let mut r = copy_state(state);
    let mut k: usize = 0;
    while k < code.len()
        invariant
            k <= code@.len(),
            r@.len() == 256,
            r@ == after_code(state@, defs@, code@, k as nat),
        decreases code@.len() - k,
    {
        let (regs, _uses) = extract_def_use(&code[k].1);
        apply_defs(&mut r, defs, code[k].0, &regs);
        k = k + 1;
    }
    r
}

/// Executable counterpart of `Flow`.
struct FlowState {
    values: Vec<SsaValue>,
    phis: BTreeMap<(usize, u8), SsaValueId>,
    ins: BTreeMap<usize, Vec<Option<usize>>>,
    outs: BTreeMap<usize, Vec<Option<usize>>>,
}

impl FlowState {
    spec fn models(self, f: Flow) -> bool {
        &&& kinds_of(self.values@) == f.kinds
        &&& self.phis@ == f.phis
        &&& states_are(self.ins@, f.ins)
        &&& states_are(self.outs@, f.outs)
        &&& forall|i: int|
            0 <= i < self.values@.len() ==> (#[trigger] self.values@[i]).operands@.len() == 0
    }

    /// Registers at the start of the block.
    fn enter_block(&mut self, cfg: &ControlFlowGraph, pc: usize, f: Ghost<Flow>) -> (state: Vec<
        Option<usize>,
    >)
        requires
            old(self).models(f@),
            cfg.blocks@.contains_key(pc),
        ensures
            final(self).models(enter(f@, *cfg, pc).0),
            state@ == enter(f@, *cfg, pc).1,
            state@.len() == 256,
    {
        let mut state = empty_state();
        if let Some(block) = cfg.blocks.get(&pc) {
            if block.predecessors.len() == 0 {
                state = uniform_state(pc == cfg.entry_pc);
                assert(state@ =~= first_state(*cfg, pc));
            } else {
                let mut reg: u8 = 0;
                while reg < STATE_REGS
                    invariant
                        reg <= STATE_REGS,
                        cfg.blocks@.contains_key(pc),
                        *block == cfg.blocks@[pc],
                        self.models(merge_all(f@, *cfg, pc, reg as nat).0),
                        state@ == merge_all(f@, *cfg, pc, reg as nat).1,
                        state@.len() == 256,
                    decreases STATE_REGS - reg,
                {
                    let ghost g = merge_all(f@, *cfg, pc, reg as nat).0;
                    let vals = incoming_values(
                        &self.outs,
                        &block.predecessors,
                        reg,
                        Ghost(g.outs),
                    );
                    let v: usize = if vals.len() == 0 {
                        2 * (reg as usize) + 1
                    } else if vals.len() == 1 {
                        vals[0]
                    } else {
                        match self.phis.get(&(pc, reg)) {
                            Some(id) => *id,
                            None => {
                                let id: usize = new_value(
                                    &mut self.values,
                                    SsaValueKind::Phi { block_pc: pc, reg },
                                );
                                self.phis.insert((pc, reg), id);
                                id
                            },
                        }
                    };
                    state.set(reg as usize, Some(v));
                    reg = reg + 1;
                }
            }
        }
        state
    }

    /// Look at one block again.
    fn visit_block(
        &mut self,
        cfg: &ControlFlowGraph,
        defs: &BTreeMap<(usize, u8), SsaValueId>,
        pc: usize,
        f: Ghost<Flow>,
    ) -> (changed: bool)
        requires
            old(self).models(f@),
        ensures
            final(self).models(flow_block(f@, *cfg, defs@, pc).0),
            changed == flow_block(f@, *cfg, defs@, pc).1,
    {
        if let Some(block) = cfg.blocks.get(&pc) {
            let ghost target = flow_block(f@, *cfg, defs@, pc).0;
            let state = self.enter_block(cfg, pc, f);
            let out = run_block(&state, defs, &block.instructions);
            let ghost g = enter(f@, *cfg, pc).0;
            assert(self.ins@.contains_key(pc) == g.ins.contains_key(pc));
            assert(self.outs@.contains_key(pc) == g.outs.contains_key(pc));
            let same_in: bool = match self.ins.get(&pc) {
                Some(old_state) => same_state(old_state, &state),
                None => false,
            };
            let same_out: bool = match self.outs.get(&pc) {
                Some(old_state) => same_state(old_state, &out),
                None => false,
            };
            self.ins.insert(pc, state);
            self.outs.insert(pc, out);
            proof {
                assert(self.ins@.dom() =~= target.ins.dom());
                assert(self.outs@.dom() =~= target.outs.dom());
            }
            !(same_in && same_out)
        } else {
            false
        }
    }
}

/// Order in which blocks are looked at.
fn block_order(cfg: &ControlFlowGraph, keys: &Vec<usize>, rpo: &Vec<usize>) -> (order: Vec<usize>)
    requires
        keys@ == ordered::ascending(cfg.blocks@.dom()),
    ensures
        order@ == flow_order(*cfg, rpo@),
{
    let mut order = cfg::copy_pcs(rpo);
    let mut k: usize = 0;
    while k < keys.len()
        invariant
            k <= keys@.len(),
            order@ == dataflow::push_missing(rpo@, keys@, k as nat),
        decreases keys@.len() - k,
    {
        if !holds_pc(&order, keys[k]) {
            order.push(keys[k]);
        }
        k = k + 1;
    }
    order
}

/// Iterate to a fixed point, which resolves loop-carried phi dependencies.
fn solve(
    cfg: &ControlFlowGraph,
    keys: &Vec<usize>,
    rpo: &Vec<usize>,
    values: Vec<SsaValue>,
    defs: &BTreeMap<(usize, u8), SsaValueId>,
) -> (r: FlowState)
    requires
        keys@ == ordered::ascending(cfg.blocks@.dom()),
        keys@.len() == cfg.blocks@.dom().len(),
        kinds_of(values@) == numbering(*cfg).kinds,
        defs@ == numbering(*cfg).defs,
        forall|i: int| 0 <= i < values@.len() ==> (#[trigger] values@[i]).operands@.len() == 0,
    ensures
        r.models(flow(*cfg, rpo@)),
{
    let order = block_order(cfg, keys, rpo);
    let mut state = FlowState {
        values,
        phis: BTreeMap::new(),
        ins: BTreeMap::new(),
        outs: BTreeMap::new(),
    };
    let ghost mut f = Flow {
        kinds: numbering(*cfg).kinds,
        phis: Map::empty(),
        ins: Map::empty(),
        outs: Map::empty(),
    };
    let mut left: u128 = if keys.len() == 0 {
        20
    } else {
        20 * (keys.len() as u128)
    };
    let mut changed: bool = true;
    while changed && left > 0
        invariant
            defs@ == numbering(*cfg).defs,
            order@ == flow_order(*cfg, rpo@),
            state.models(f),
            changed ==> flow(*cfg, rpo@) == flow_rounds(f, *cfg, defs@, order@, left as nat),
            !changed ==> flow(*cfg, rpo@) == f,
        decreases left,
    {
        changed = false;
        let ghost start = f;
        let mut n: usize = 0;
        while n < order.len()
            invariant
                n <= order@.len(),
                f == flow_round(start, *cfg, defs@, order@, n as nat).0,
                changed == flow_round(start, *cfg, defs@, order@, n as nat).1,
                state.models(f),
            decreases order@.len() - n,
        {
            let here: bool = state.visit_block(cfg, defs, order[n], Ghost(f));
            proof {
                f = flow_block(f, *cfg, defs@, order@[n as int]).0;
            }
            if here {
                changed = true;
            }
            n = n + 1;
        }
        left = left - 1;
    }
    state
}

proof fn lemma_base_kinds(n: nat)
    requires
        n <= 128,
    ensures
        base_kinds(n).len() == 2 * n,
        forall|k: u8|
            k < n ==> #[trigger] base_kinds(n)[param_id(k) as int] == (SsaValueKind::Param {
                reg: k,
            }),
        forall|k: u8|
            k < n ==> #[trigger] base_kinds(n)[undef_id(k) as int] == (SsaValueKind::Undef {
                reg: k,
            }),
    decreases n,
{
    if n > 0 {
        lemma_base_kinds((n - 1) as nat);
    }
}

/// Whether every definition has a value of its own kind.
pub open spec fn numbering_ok(s: Numbering) -> bool {
    &&& s.kinds.len() >= 2 * STATE_REGS
    &&& forall|k: u8|
        k < STATE_REGS ==> #[trigger] s.kinds[param_id(k) as int] == (SsaValueKind::Param { reg: k })
    &&& forall|k: u8|
        k < STATE_REGS ==> #[trigger] s.kinds[undef_id(k) as int] == (SsaValueKind::Undef { reg: k })
    &&& forall|pc: usize, reg: u8| #[trigger]
        s.defs.contains_key((pc, reg)) ==> s.defs[(pc, reg)] < s.kinds.len() && (
        s.kinds[s.defs[(pc, reg)] as int] matches SsaValueKind::Instr { pc: p, reg: r, .. } && p
            == pc && r == reg)
    &&& forall|i: int| 0 <= i < s.kinds.len() ==> !(#[trigger] s.kinds[i] is Phi)
}

proof fn lemma_number_regs(s: Numbering, pc: usize, block_pc: usize, regs: Seq<u8>, n: nat)
    requires
        n <= regs.len(),
    ensures
        number_regs(s, pc, block_pc, regs, n).kinds.len() == s.kinds.len() + n,
        numbering_ok(s) && s.kinds.len() + n <= usize::MAX ==> numbering_ok(
            number_regs(s, pc, block_pc, regs, n),
        ),
        forall|j: int|
            0 <= j < n ==> number_regs(s, pc, block_pc, regs, n).defs.contains_key(
                (pc, #[trigger] regs[j]),
            ),
        forall|p: usize, r: u8| #[trigger]
            s.defs.contains_key((p, r)) ==> number_regs(
                s,
                pc,
                block_pc,
                regs,
                n,
            ).defs.contains_key((p, r)),
    decreases n,
{
    if n > 0 {
        lemma_number_regs(s, pc, block_pc, regs, (n - 1) as nat);
        let t = number_regs(s, pc, block_pc, regs, (n - 1) as nat);
        let u = number_regs(s, pc, block_pc, regs, n);
        if numbering_ok(s) && s.kinds.len() + n <= usize::MAX {
            assert forall|p: usize, r: u8| #[trigger] u.defs.contains_key((p, r)) implies u.defs[(
                p,
                r,
            )] < u.kinds.len() && (u.kinds[u.defs[(p, r)] as int] matches SsaValueKind::Instr {
                pc: q,
                reg: x,
                ..
            } && q == p && x == r) by {
                if (p, r) != (pc, regs[n - 1]) {
                    assert(t.defs.contains_key((p, r)));
                }
            }
            assert forall|k: u8| k < STATE_REGS implies #[trigger] u.kinds[param_id(k) as int] == (
            SsaValueKind::Param { reg: k }) by {
                assert(t.kinds[param_id(k) as int] == (SsaValueKind::Param { reg: k }));
            }
            assert forall|k: u8| k < STATE_REGS implies #[trigger] u.kinds[undef_id(k) as int] == (
            SsaValueKind::Undef { reg: k }) by {
                assert(t.kinds[undef_id(k) as int] == (SsaValueKind::Undef { reg: k }));
            }
        }
    }
}

proof fn lemma_number_code(s: Numbering, code: Seq<(usize, Instruction)>, block_pc: usize, n: nat)
    requires
        n <= code.len(),
    ensures
        s.kinds.len() <= number_code(s, code, block_pc, n).kinds.len(),
        numbering_ok(s) && number_code(s, code, block_pc, n).kinds.len() <= usize::MAX
            ==> numbering_ok(number_code(s, code, block_pc, n)),
    decreases n,
{
    if n > 0 {
        lemma_number_code(s, code, block_pc, (n - 1) as nat);
        let regs = instruction::classified(code[n - 1].1).defs();
        lemma_number_regs(
            number_code(s, code, block_pc, (n - 1) as nat),
            code[n - 1].0,
            block_pc,
            regs,
            regs.len(),
        );
    }
}

proof fn lemma_number_blocks(cfg: ControlFlowGraph, keys: Seq<usize>, n: nat)
    ensures
        number_blocks(cfg, keys, n).kinds.len() >= 2 * STATE_REGS,
        number_blocks(cfg, keys, n).kinds.len() <= usize::MAX ==> numbering_ok(
            number_blocks(cfg, keys, n),
        ),
    decreases n,
{
    if n == 0 {
        lemma_base_kinds(STATE_REGS as nat);
        let s = number_blocks(cfg, keys, 0);
        assert forall|i: int| 0 <= i < s.kinds.len() implies !(#[trigger] s.kinds[i] is Phi) by {
            let k = (i / 2) as u8;
            if i % 2 == 0 {
                assert(i == param_id(k));
            } else {
                assert(i == undef_id(k));
            }
        }
    } else {
        lemma_number_blocks(cfg, keys, (n - 1) as nat);
        let pc = keys[n - 1];
        let code = cfg.blocks@[pc].instructions@;
        lemma_number_code(number_blocks(cfg, keys, (n - 1) as nat), code, pc, code.len());
    }
}

/// Whether register states hold values of their own registers.
pub open spec fn state_ok(kinds: Seq<SsaValueKind>, state: Seq<Option<usize>>) -> bool {
    &&& state.len() == 256
    &&& forall|reg: u8|
        (#[trigger] state[reg as int]) is Some ==> state[reg as int]->0 < kinds.len()
            && kinds[state[reg as int]->0 as int].register() == reg
}

/// What holds throughout the iteration: values keep their kinds, each phi value is of
/// its block and register, and registers hold values of their own.
pub open spec fn flow_ok(cfg: ControlFlowGraph, f: Flow) -> bool {
    &&& numbering(cfg).kinds.is_prefix_of(f.kinds)
    &&& forall|pc: usize, reg: u8| #[trigger]
        f.phis.contains_key((pc, reg)) ==> cfg.blocks@.contains_key(pc) && reg < STATE_REGS
            && f.phis[(pc, reg)] < f.kinds.len() && f.kinds[f.phis[(pc, reg)] as int] == (
        SsaValueKind::Phi { block_pc: pc, reg })
    &&& forall|pc: usize| #[trigger] f.ins.contains_key(pc) ==> state_ok(f.kinds, f.ins[pc])
    &&& forall|pc: usize| #[trigger] f.outs.contains_key(pc) ==> state_ok(f.kinds, f.outs[pc])
    &&& forall|i: int|
        0 <= i < f.kinds.len() ==> ((#[trigger] f.kinds[i]) matches SsaValueKind::Phi {
            block_pc,
            reg,
        } ==> f.phis.contains_key((block_pc, reg)) && f.phis[(block_pc, reg)] == i)
}

proof fn lemma_incoming_finite(outs: Map<usize, Seq<Option<usize>>>, preds: Seq<usize>, reg: u8)
    ensures
        incoming(outs, preds, reg).finite(),
{
    let vals = preds.map_values(
        |p: usize|
            match outs[p][reg as int] {
                Some(v) => v,
                None => 0,
            },
    );
    assert forall|v: usize| incoming(outs, preds, reg).contains(v) implies vals.to_set().contains(
        v,
    ) by {
        let k = choose|k: int|
            0 <= k < preds.len() && outs.contains_key(#[trigger] preds[k])
                && outs[preds[k]][reg as int] == Some(v);
        assert(vals[k] == v);
    }
    vstd::set_lib::lemma_len_subset(incoming(outs, preds, reg), vals.to_set());
}

proof fn lemma_merge(f: Flow, cfg: ControlFlowGraph, pc: usize, reg: u8)
    requires
        reg < STATE_REGS,
    ensures
        f.kinds.len() <= merge(f, cfg, pc, reg).0.kinds.len(),
        ({
            let (g, v) = merge(f, cfg, pc, reg);
            flow_ok(cfg, f) && cfg.blocks@.contains_key(pc) && g.kinds.len() <= usize::MAX ==> {
                &&& flow_ok(cfg, g)
                &&& f.kinds.is_prefix_of(g.kinds)
                &&& v < g.kinds.len()
                &&& g.kinds[v as int].register() == reg
                &&& g.ins == f.ins
                &&& g.outs == f.outs
            }
        }),
{
    let (g, v) = merge(f, cfg, pc, reg);
    if flow_ok(cfg, f) && cfg.blocks@.contains_key(pc) && g.kinds.len() <= usize::MAX {
        let preds = cfg.blocks@[pc].predecessors@;
        let set = incoming(f.outs, preds, reg);
        let vals = ordered::ascending(set);
        lemma_incoming_finite(f.outs, preds, reg);
        ordered::lemma_ascending_exists(set);
        let keys = ordered::ascending(cfg.blocks@.dom());
        lemma_number_blocks(cfg, keys, keys.len());
        let base = numbering(cfg).kinds;
        if vals.len() == 0 {
            assert(base[undef_id(reg) as int] == (SsaValueKind::Undef { reg }));
            assert(f.kinds[undef_id(reg) as int] == base[undef_id(reg) as int]);
        } else if vals.len() == 1 {
            assert(vals.to_set().contains(vals[0]));
            let k = choose|k: int|
                0 <= k < preds.len() && f.outs.contains_key(#[trigger] preds[k])
                    && f.outs[preds[k]][reg as int] == Some(vals[0]);
            assert(state_ok(f.kinds, f.outs[preds[k]]));
        } else if !f.phis.contains_key((pc, reg)) {
            assert forall|p: usize, r: u8| #[trigger] g.phis.contains_key(
                (p, r),
            ) implies cfg.blocks@.contains_key(p) && r < STATE_REGS && g.phis[(p, r)]
                < g.kinds.len() && g.kinds[g.phis[(p, r)] as int] == (SsaValueKind::Phi {
                block_pc: p,
                reg: r,
            }) by {
                if (p, r) != (pc, reg) {
                    assert(f.phis.contains_key((p, r)));
                }
            }
            assert forall|p: usize| #[trigger] g.ins.contains_key(p) implies state_ok(
                g.kinds,
                g.ins[p],
            ) by {
                assert(state_ok(f.kinds, f.ins[p]));
            }
            assert forall|p: usize| #[trigger] g.outs.contains_key(p) implies state_ok(
                g.kinds,
                g.outs[p],
            ) by {
                assert(state_ok(f.kinds, f.outs[p]));
            }
            assert forall|i: int| 0 <= i < g.kinds.len() implies ((
            #[trigger] g.kinds[i]) matches SsaValueKind::Phi { block_pc, reg: r }
                ==> g.phis.contains_key((block_pc, r)) && g.phis[(block_pc, r)] == i) by {
                if i < f.kinds.len() {
                    assert(g.kinds[i] == f.kinds[i]);
                }
            }
            assert(base.is_prefix_of(g.kinds));
        }
    }
}

proof fn lemma_merge_all(f: Flow, cfg: ControlFlowGraph, pc: usize, n: nat)
    requires
        n <= STATE_REGS,
    ensures
        f.kinds.len() <= merge_all(f, cfg, pc, n).0.kinds.len(),
        ({
            let (g, state) = merge_all(f, cfg, pc, n);
            flow_ok(cfg, f) && cfg.blocks@.contains_key(pc) && g.kinds.len() <= usize::MAX ==> {
                &&& flow_ok(cfg, g)
                &&& f.kinds.is_prefix_of(g.kinds)
                &&& state_ok(g.kinds, state)
                &&& g.ins == f.ins
                &&& g.outs == f.outs
            }
        }),
    decreases n,
{
    if n > 0 {
        lemma_merge_all(f, cfg, pc, (n - 1) as nat);
        let (g, state) = merge_all(f, cfg, pc, (n - 1) as nat);
        lemma_merge(g, cfg, pc, (n - 1) as u8);
        let (h, v) = merge(g, cfg, pc, (n - 1) as u8);
        let after = state.update(n - 1, Some(v));
        if flow_ok(cfg, f) && cfg.blocks@.contains_key(pc) && h.kinds.len() <= usize::MAX {
            assert forall|reg: u8|
                (#[trigger] after[reg as int]) is Some implies after[reg as int]->0 < h.kinds.len() && h.kinds[after[reg as int]->0 as int].register() == reg by {
                if reg != n - 1 {
                    assert(state[reg as int] == after[reg as int]);
                }
            }
        }
    }
}

proof fn lemma_enter(f: Flow, cfg: ControlFlowGraph, pc: usize)
    ensures
        f.kinds.len() <= enter(f, cfg, pc).0.kinds.len(),
        ({
            let (g, state) = enter(f, cfg, pc);
            flow_ok(cfg, f) && cfg.blocks@.contains_key(pc) && g.kinds.len() <= usize::MAX ==> {
                &&& flow_ok(cfg, g)
                &&& f.kinds.is_prefix_of(g.kinds)
                &&& state_ok(g.kinds, state)
                &&& g.ins == f.ins
                &&& g.outs == f.outs
            }
        }),
{
    if cfg.blocks@[pc].predecessors@.len() == 0 {
        let keys = ordered::ascending(cfg.blocks@.dom());
        lemma_number_blocks(cfg, keys, keys.len());
        let base = numbering(cfg).kinds;
        let state = first_state(cfg, pc);
        if flow_ok(cfg, f) && f.kinds.len() <= usize::MAX {
            assert forall|reg: u8|
                (#[trigger] state[reg as int]) is Some implies state[reg as int]->0 < f.kinds.len() && f.kinds[state[reg as int]->0 as int].register() == reg by {
                if reg < STATE_REGS {
                    assert(base[param_id(reg) as int] == (SsaValueKind::Param { reg }));
                    assert(base[undef_id(reg) as int] == (SsaValueKind::Undef { reg }));
                    assert(f.kinds[param_id(reg) as int] == base[param_id(reg) as int]);
                    assert(f.kinds[undef_id(reg) as int] == base[undef_id(reg) as int]);
                }
            }
        }
    } else {
        lemma_merge_all(f, cfg, pc, STATE_REGS as nat);
    }
}

proof fn lemma_after_defs(
    kinds: Seq<SsaValueKind>,
    state: Seq<Option<usize>>,
    defs: Map<(usize, u8), usize>,
    pc: usize,
    regs: Seq<u8>,
    n: nat,
)
    requires
        state_ok(kinds, state),
        forall|p: usize, reg: u8| #[trigger]
            defs.contains_key((p, reg)) ==> defs[(p, reg)] < kinds.len() && kinds[defs[(
                p,
                reg,
            )] as int].register() == reg,
    ensures
        state_ok(kinds, after_defs(state, defs, pc, regs, n)),
    decreases n,
{
    if n > 0 {
        lemma_after_defs(kinds, state, defs, pc, regs, (n - 1) as nat);
        let s = after_defs(state, defs, pc, regs, (n - 1) as nat);
        let t = after_defs(state, defs, pc, regs, n);
        assert forall|reg: u8|
            (#[trigger] t[reg as int]) is Some implies t[reg as int]->0 < kinds.len() && kinds[t[reg as int]->0 as int].register() == reg by {
            if reg != regs[n - 1] {
                assert(s[reg as int] == t[reg as int]);
            }
        }
    }
}

proof fn lemma_after_code(
    kinds: Seq<SsaValueKind>,
    state: Seq<Option<usize>>,
    defs: Map<(usize, u8), usize>,
    code: Seq<(usize, Instruction)>,
    n: nat,
)
    requires
        state_ok(kinds, state),
        forall|p: usize, reg: u8| #[trigger]
            defs.contains_key((p, reg)) ==> defs[(p, reg)] < kinds.len() && kinds[defs[(
                p,
                reg,
            )] as int].register() == reg,
    ensures
        state_ok(kinds, after_code(state, defs, code, n)),
    decreases n,
{
    if n > 0 {
        lemma_after_code(kinds, state, defs, code, (n - 1) as nat);
        let regs = instruction::classified(code[n - 1].1).defs();
        lemma_after_defs(
            kinds,
            after_code(state, defs, code, (n - 1) as nat),
            defs,
            code[n - 1].0,
            regs,
            regs.len(),
        );
    }
}

proof fn lemma_defs_ok(cfg: ControlFlowGraph, kinds: Seq<SsaValueKind>)
    requires
        numbering(cfg).kinds.is_prefix_of(kinds),
        kinds.len() <= usize::MAX,
    ensures
        numbering_ok(numbering(cfg)),
        forall|p: usize, reg: u8| #[trigger]
            numbering(cfg).defs.contains_key((p, reg)) ==> numbering(cfg).defs[(p, reg)]
                < kinds.len() && kinds[numbering(cfg).defs[(p, reg)] as int].register() == reg,
{
    let keys = ordered::ascending(cfg.blocks@.dom());
    lemma_number_blocks(cfg, keys, keys.len());
    let s = numbering(cfg);
    assert forall|p: usize, reg: u8| #[trigger] s.defs.contains_key((p, reg)) implies s.defs[(
        p,
        reg,
    )] < kinds.len() && kinds[s.defs[(p, reg)] as int].register() == reg by {
        assert(kinds[s.defs[(p, reg)] as int] == s.kinds[s.defs[(p, reg)] as int]);
    }
}

proof fn lemma_flow_block(f: Flow, cfg: ControlFlowGraph, pc: usize)
    ensures
        ({
            let g = flow_block(f, cfg, numbering(cfg).defs, pc).0;
            &&& f.kinds.len() <= g.kinds.len()
            &&& flow_ok(cfg, f) && g.kinds.len() <= usize::MAX ==> flow_ok(cfg, g)
        }),
{
    if cfg.blocks@.contains_key(pc) {
        lemma_enter(f, cfg, pc);
        let (g, state) = enter(f, cfg, pc);
        let h = flow_block(f, cfg, numbering(cfg).defs, pc).0;
        if flow_ok(cfg, f) && h.kinds.len() <= usize::MAX {
            let code = cfg.blocks@[pc].instructions@;
            lemma_defs_ok(cfg, g.kinds);
            lemma_after_code(g.kinds, state, numbering(cfg).defs, code, code.len());
            assert forall|p: usize| #[trigger] h.ins.contains_key(p) implies state_ok(
                h.kinds,
                h.ins[p],
            ) by {
                if p != pc {
                    assert(g.ins.contains_key(p));
                }
            }
            assert forall|p: usize| #[trigger] h.outs.contains_key(p) implies state_ok(
                h.kinds,
                h.outs[p],
            ) by {
                if p != pc {
                    assert(g.outs.contains_key(p));
                }
            }
        }
    }
}

proof fn lemma_flow_round(f: Flow, cfg: ControlFlowGraph, order: Seq<usize>, n: nat)
    ensures
        ({
            let g = flow_round(f, cfg, numbering(cfg).defs, order, n).0;
            &&& f.kinds.len() <= g.kinds.len()
            &&& flow_ok(cfg, f) && g.kinds.len() <= usize::MAX ==> flow_ok(cfg, g)
        }),
    decreases n,
{
    if n > 0 {
        lemma_flow_round(f, cfg, order, (n - 1) as nat);
        let g = flow_round(f, cfg, numbering(cfg).defs, order, (n - 1) as nat).0;
        lemma_flow_block(g, cfg, order[n - 1]);
    }
}

proof fn lemma_flow_rounds(f: Flow, cfg: ControlFlowGraph, order: Seq<usize>, fuel: nat)
    ensures
        ({
            let g = flow_rounds(f, cfg, numbering(cfg).defs, order, fuel);
            &&& f.kinds.len() <= g.kinds.len()
            &&& flow_ok(cfg, f) && g.kinds.len() <= usize::MAX ==> flow_ok(cfg, g)
        }),
    decreases fuel,
{
    if fuel > 0 {
        lemma_flow_round(f, cfg, order, order.len());
        let (g, changed) = flow_round(f, cfg, numbering(cfg).defs, order, order.len());
        if changed {
            lemma_flow_rounds(g, cfg, order, (fuel - 1) as nat);
        }
    }
}

proof fn lemma_flow(cfg: ControlFlowGraph, rpo: Seq<usize>)
    requires
        flow(cfg, rpo).kinds.len() <= usize::MAX,
    ensures
        flow_ok(cfg, flow(cfg, rpo)),
        numbering_ok(numbering(cfg)),
{
    let start = Flow {
        kinds: numbering(cfg).kinds,
        phis: Map::empty(),
        ins: Map::empty(),
        outs: Map::empty(),
    };
    lemma_flow_rounds(start, cfg, flow_order(cfg, rpo), round_limit(cfg));
    let keys = ordered::ascending(cfg.blocks@.dom());
    lemma_number_blocks(cfg, keys, keys.len());
    assert(flow_ok(cfg, start));
}

/// Sites at which `v` is used according to `m`.
pub open spec fn sites(m: Map<usize, Vec<SsaUseSite>>, v: usize) -> Set<SsaUseSite> {
    if m.contains_key(v) {
        m[v]@.to_set()
    } else {
        Set::empty()
    }
}

/// Whether each list of uses holds a site once, and is not empty.
pub open spec fn lists_ok(m: Map<usize, Vec<SsaUseSite>>) -> bool {
    forall|v: usize| #[trigger] m.contains_key(v) ==> m[v]@.no_duplicates() && m[v]@.len() > 0
}

fn add_use(m: &mut BTreeMap<usize, Vec<SsaUseSite>>, v: usize, site: SsaUseSite)
    requires
        lists_ok(old(m)@),
    ensures
        lists_ok(final(m)@),
        sites(final(m)@, v) == sites(old(m)@, v).insert(site),
        forall|w: usize| w != v ==> sites(final(m)@, w) == #[trigger] sites(old(m)@, w),
{
    let ghost before = m@;
    let mut list: Vec<SsaUseSite> = match m.remove(&v) {
        Some(list) => list,
        None => Vec::new(),
    };
    let ghost had = list@;
    assert(sites(before, v) =~= had.to_set());
    let mut found: bool = false;
    let mut i: usize = 0;
    while i < list.len()
        invariant
            i <= list@.len(),
            list@ == had,
            found == exists|k: int| 0 <= k < i && had[k] == site,
        decreases list@.len() - i,
    {
        if list[i] == site {
            found = true;
            assert(had[i as int] == site);
        }
        i = i + 1;
    }
    if !found {
        list.push(site);
    }
    proof {
        assert forall|x: SsaUseSite| list@.to_set().contains(x) <==> had.to_set().insert(
            site,
        ).contains(x) by {
            if had.to_set().contains(x) {
                let k = choose|k: int| 0 <= k < had.len() && had[k] == x;
                assert(list@[k] == x);
            }
            if !found {
                assert(list@[had.len() as int] == site);
            }
            if list@.to_set().contains(x) && x != site {
                let k = choose|k: int| 0 <= k < list@.len() && list@[k] == x;
                assert(had[k] == x);
            }
        }
        assert(list@.to_set() =~= had.to_set().insert(site));
    }
    m.insert(v, list);
    assert forall|w: usize| w != v implies sites(m@, w) == #[trigger] sites(before, w) by {
        assert(m@.contains_key(w) == before.contains_key(w));
    }
}

/// Whether `values` hold the operands of the phi values under the first `n` of `keys`.
spec fn operands_so_far(
    values: Seq<SsaValue>,
    cfg: ControlFlowGraph,
    f: Flow,
    keys: Seq<(usize, u8)>,
    n: int,
) -> bool {
    &&& kinds_of(values) == f.kinds
    &&& forall|k: int|
        0 <= k < keys.len() ==> values[f.phis[#[trigger] keys[k]] as int].operands@ == if k < n {
            phi_operands(cfg, f, keys[k].0, keys[k].1)
        } else {
            seq![]
        }
    &&& forall|i: int|
        0 <= i < values.len() && !(f.kinds[i] is Phi) ==> (#[trigger] values[i]).operands@.len() == 0
}

/// Whether `m` holds the uses by the phi values under the first `n` of `keys`, and for
/// the one behind them those of its first `j` operands.
spec fn phi_uses_so_far(
    m: Map<usize, Vec<SsaUseSite>>,
    cfg: ControlFlowGraph,
    f: Flow,
    keys: Seq<(usize, u8)>,
    n: int,
    j: int,
) -> bool {
    &&& lists_ok(m)
    &&& forall|v: usize, site: SsaUseSite| #[trigger]
        sites(m, v).contains(site) <==> (site matches SsaUseSite::PhiOperand { block_pc, reg } && (
        exists|k: int|
            0 <= k < keys.len() && (#[trigger] keys[k]) == (block_pc, reg) && ((k < n
                && phi_operands(cfg, f, block_pc, reg).contains(v)) || (k == n && phi_operands(
                cfg,
                f,
                block_pc,
                reg,
            ).take(j).contains(v)))))
}

/// Fill in the operands of the phi values, and note their uses.
fn add_phi_operands(
    cfg: &ControlFlowGraph,
    values: Vec<SsaValue>,
    phis: &BTreeMap<(usize, u8), SsaValueId>,
    outs: &BTreeMap<usize, Vec<Option<usize>>>,
    f: Ghost<Flow>,
) -> (r: (Vec<SsaValue>, BTreeMap<usize, Vec<SsaUseSite>>))
    requires
        flow_ok(*cfg, f@),
        kinds_of(values@) == f@.kinds,
        phis@ == f@.phis,
        states_are(outs@, f@.outs),
        forall|i: int| 0 <= i < values@.len() ==> (#[trigger] values@[i]).operands@.len() == 0,
    ensures
        kinds_of(r.0@) == f@.kinds,
        forall|pc: usize, reg: u8| #[trigger]
            phis@.contains_key((pc, reg)) ==> r.0@[phis@[(pc, reg)] as int].operands@
                == phi_operands(*cfg, f@, pc, reg),
        forall|i: int|
            0 <= i < r.0@.len() && !(f@.kinds[i] is Phi) ==> (#[trigger] r.0@[i]).operands@.len()
                == 0,
        lists_ok(r.1@),
        forall|v: usize, site: SsaUseSite| #[trigger]
            sites(r.1@, v).contains(site) <==> site is PhiOperand && used_at(*cfg, f@, v, site),
{
    let keys: Vec<(usize, u8)> = ordered::pair_keys_of(phis);
    let mut values: Vec<SsaValue> = values;
    let mut uses: BTreeMap<usize, Vec<SsaUseSite>> = BTreeMap::new();
    proof {
        assert forall|k: int| 0 <= k < keys@.len() implies f@.phis.contains_key(
            #[trigger] keys@[k],
        ) by {
            assert(keys@.to_set().contains(keys@[k]));
        }
        assert forall|k: int| 0 <= k < keys@.len() implies values@[f@.phis[
        #[trigger] keys@[k]] as int].operands@ == Seq::<usize>::empty() by {
            let (p, r) = keys@[k];
            assert(f@.phis.contains_key((p, r)));
            assert(f@.kinds.len() == values@.len());
            assert(values@[f@.phis[keys@[k]] as int].operands@ =~= seq![]);
        }
    }
    let mut n: usize = 0;
    while n < keys.len()
        invariant
            n <= keys@.len(),
            keys@.no_duplicates(),
            forall|k: int|
                0 <= k < keys@.len() ==> f@.phis.contains_key(#[trigger] keys@[k]),
            flow_ok(*cfg, f@),
            phis@ == f@.phis,
            states_are(outs@, f@.outs),
            operands_so_far(values@, *cfg, f@, keys@, n as int),
            phi_uses_so_far(uses@, *cfg, f@, keys@, n as int, 0),
        decreases keys@.len() - n,
    {
        let (pc, reg): (usize, u8) = keys[n];
        assert(f@.phis.contains_key(keys@[n as int]));
        assert(phis@.contains_key((pc, reg)));
        let ghost list = phi_operands(*cfg, f@, pc, reg);
        let ghost v0 = values@;
        let mut vals: Vec<usize> = Vec::new();
        let mut id: usize = 0;
        if let Some(block) = cfg.blocks.get(&pc) {
            let found = incoming_values(outs, &block.predecessors, reg, Ghost(f@.outs));
            if found.len() > 1 {
                vals = found;
            }
        }
        assert(vals@ =~= list);
        if let Some(phi) = phis.get(&(pc, reg)) {
            id = *phi;
        }
        assert(kinds_of(values@).len() == values@.len());
        let operands = cfg::copy_pcs(&vals);
        values[id].operands = operands;
        proof {
            assert(kinds_of(values@) =~= kinds_of(v0));
            assert forall|k: int| 0 <= k < keys@.len() implies values@[f@.phis[
            #[trigger] keys@[k]] as int].operands@ == if k < n + 1 {
                phi_operands(*cfg, f@, keys@[k].0, keys@[k].1)
            } else {
                seq![]
            } by {
                let (p, r) = keys@[k];
                assert(f@.phis.contains_key((p, r)));
                assert(f@.kinds[f@.phis[(p, r)] as int] == (SsaValueKind::Phi {
                    block_pc: p,
                    reg: r,
                }));
                assert(f@.kinds[id as int] == (SsaValueKind::Phi { block_pc: pc, reg }));
                if k != n {
                    assert(keys@[k] != keys@[n as int]);
                    assert(f@.phis[keys@[k]] != id);
                    assert(values@[f@.phis[keys@[k]] as int] == v0[f@.phis[keys@[k]] as int]);
                }
            }
            assert forall|i: int| 0 <= i < values@.len() && !(f@.kinds[i] is Phi) implies (
            #[trigger] values@[i]).operands@.len() == 0 by {
                assert(f@.kinds[id as int] is Phi);
                assert(values@[i] == v0[i]);
            }
        }
        let mut j: usize = 0;
        let site = SsaUseSite::PhiOperand { block_pc: pc, reg };
        while j < vals.len()
            invariant
                n < keys@.len(),
                j <= vals@.len(),
                keys@.no_duplicates(),
                keys@[n as int] == (pc, reg),
                vals@ == list,
                list == phi_operands(*cfg, f@, pc, reg),
                site == (SsaUseSite::PhiOperand { block_pc: pc, reg }),
                phi_uses_so_far(uses@, *cfg, f@, keys@, n as int, j as int),
            decreases vals@.len() - j,
        {
            let ghost m0 = uses@;
            let op: usize = vals[j];
            add_use(&mut uses, op, site);
            proof {
                assert(list.take(j + 1) =~= list.take(j as int).push(op));
                assert forall|v: usize, s: SsaUseSite| #[trigger]
                    sites(uses@, v).contains(s) <==> (s matches SsaUseSite::PhiOperand {
                    block_pc,
                    reg: r,
                } && (exists|k: int|
                    0 <= k < keys@.len() && (#[trigger] keys@[k]) == (block_pc, r) && ((k < n
                        && phi_operands(*cfg, f@, block_pc, r).contains(v)) || (k == n
                        && phi_operands(*cfg, f@, block_pc, r).take(j + 1).contains(v))))) by {
                    ordered::lemma_push_key(list.take(j as int), op, v);
                    assert(sites(m0, v).contains(s) || (v == op && s == site)
                        <==> sites(uses@, v).contains(s)) by {
                        if v != op {
                            assert(sites(uses@, v) == sites(m0, v));
                        }
                    }
                    if s == site && v == op {
                        assert(keys@[n as int] == (pc, reg));
                    }
                }
            }
            j = j + 1;
        }
        proof {
            assert(list.take(j as int) =~= list);
            assert forall|v: usize, s: SsaUseSite| #[trigger] sites(uses@, v).contains(s) <==> (
            s matches SsaUseSite::PhiOperand { block_pc, reg: r } && (exists|k: int|
                0 <= k < keys@.len() && (#[trigger] keys@[k]) == (block_pc, r) && ((k < n + 1
                    && phi_operands(*cfg, f@, block_pc, r).contains(v)) || (k == n + 1
                    && phi_operands(*cfg, f@, block_pc, r).take(0).contains(v))))) by {}
        }
        n = n + 1;
    }
    proof {
        assert forall|pc: usize, reg: u8| #[trigger] phis@.contains_key(
            (pc, reg),
        ) implies values@[phis@[(pc, reg)] as int].operands@ == phi_operands(*cfg, f@, pc, reg) by {
            assert(keys@.to_set().contains((pc, reg)));
            let k = choose|k: int| 0 <= k < keys@.len() && keys@[k] == (pc, reg);
            assert(f@.phis.contains_key(keys@[k]));
        }
        assert forall|v: usize, site: SsaUseSite| #[trigger] sites(uses@, v).contains(site) <==> (
        site is PhiOperand && used_at(*cfg, f@, v, site)) by {
            if let SsaUseSite::PhiOperand { block_pc, reg } = site {
                if f@.phis.contains_key((block_pc, reg)) {
                    assert(keys@.to_set().contains((block_pc, reg)));
                    let k = choose|k: int| 0 <= k < keys@.len() && keys@[k] == (block_pc, reg);
                    assert(keys@[k] == (block_pc, reg));
                }
            }
        }
    }
    (values, uses)
}

/// Whether the use by the `i`th instruction of the block at `b` of `reg` comes before the
/// point at instruction `k` of the `n`th block of `order`, of whose uses the first `j`
/// are done.
spec fn comes_before(
    cfg: ControlFlowGraph,
    order: Seq<usize>,
    n: int,
    k: int,
    j: int,
    b: usize,
    i: int,
    reg: u8,
) -> bool {
    ||| exists|m: int| 0 <= m < n && m < order.len() && #[trigger] order[m] == b
    ||| n < order.len() && order[n] == b && (i < k || (i == k && instruction::classified(
        cfg.blocks@[b].instructions@[i].1,
    ).uses().take(j).contains(reg)))
}

/// What the maps of uses hold at that point.
spec fn uses_so_far(
    map: Map<(usize, u8), usize>,
    m: Map<usize, Vec<SsaUseSite>>,
    cfg: ControlFlowGraph,
    f: Flow,
    order: Seq<usize>,
    n: int,
    k: int,
    j: int,
) -> bool {
    &&& lists_ok(m)
    &&& forall|b: usize, i: int, pc: usize, reg: u8, v: usize|
        #![trigger sees(cfg, f, b, i, pc, reg, v)]
        sees(cfg, f, b, i, pc, reg, v) && comes_before(cfg, order, n, k, j, b, i, reg)
            ==> map.contains_key((pc, reg)) && sites(m, v).contains(SsaUseSite::Instr { pc, reg })
    &&& forall|pc: usize, reg: u8| #[trigger]
        map.contains_key((pc, reg)) ==> use_sees(cfg, f, pc, reg, map[(pc, reg)])
    &&& forall|v: usize, site: SsaUseSite| #[trigger]
        sites(m, v).contains(site) ==> used_at(cfg, f, v, site)
    &&& forall|v: usize, site: SsaUseSite|
        site is PhiOperand && #[trigger] used_at(cfg, f, v, site) ==> sites(m, v).contains(site)
}

/// Note the value that each use sees.
fn map_uses(
    cfg: &ControlFlowGraph,
    order: &Vec<usize>,
    defs: &BTreeMap<(usize, u8), SsaValueId>,
    ins: &BTreeMap<usize, Vec<Option<usize>>>,
    uses: BTreeMap<usize, Vec<SsaUseSite>>,
    f: Ghost<Flow>,
) -> (r: (BTreeMap<(usize, u8), SsaValueId>, BTreeMap<usize, Vec<SsaUseSite>>))
    requires
        states_are(ins@, f@.ins),
        defs@ == numbering(*cfg).defs,
        forall|b: usize| #[trigger] cfg.blocks@.contains_key(b) ==> order@.contains(b),
        lists_ok(uses@),
        forall|v: usize, site: SsaUseSite| #[trigger]
            sites(uses@, v).contains(site) <==> site is PhiOperand && used_at(*cfg, f@, v, site),
    ensures
        forall|b: usize, i: int, pc: usize, reg: u8, v: usize|
            #![trigger sees(*cfg, f@, b, i, pc, reg, v)]
            sees(*cfg, f@, b, i, pc, reg, v) ==> r.0@.contains_key((pc, reg)),
        forall|pc: usize, reg: u8| #[trigger]
            r.0@.contains_key((pc, reg)) ==> use_sees(*cfg, f@, pc, reg, r.0@[(pc, reg)]),
        lists_ok(r.1@),
        forall|v: usize, site: SsaUseSite| #[trigger]
            sites(r.1@, v).contains(site) <==> used_at(*cfg, f@, v, site),
{
    let mut uses: BTreeMap<usize, Vec<SsaUseSite>> = uses;
    let mut map: BTreeMap<(usize, u8), SsaValueId> = BTreeMap::new();
    let mut n: usize = 0;
    while n < order.len()
        invariant
            n <= order@.len(),
            states_are(ins@, f@.ins),
            defs@ == numbering(*cfg).defs,
            uses_so_far(map@, uses@, *cfg, f@, order@, n as int, 0, 0),
        decreases order@.len() - n,
    {
        let b: usize = order[n];
        if let Some(block) = cfg.blocks.get(&b) {
            let ghost code = block.instructions@;
            assert(ins@.contains_key(b) == f@.ins.contains_key(b));
            let mut state = match ins.get(&b) {
                Some(s) => copy_state(s),
                None => uniform_state(false),
            };
            let ghost start = state@;
            proof {
                if !f@.ins.contains_key(b) {
                    assert(start =~= Seq::new(
                        256,
                        |k: int|
                            if k >= STATE_REGS {
                                None
                            } else {
                                Some(undef_id(k as u8))
                            },
                    ));
                }
            }
            let mut k: usize = 0;
            while k < block.instructions.len()
                invariant
                    n < order@.len(),
                    order@[n as int] == b,
                    cfg.blocks@.contains_key(b),
                    *block == cfg.blocks@[b],
                    code == block.instructions@,
                    k <= code.len(),
                    defs@ == numbering(*cfg).defs,
                    state@.len() == 256,
                    start == if f@.ins.contains_key(b) {
                        f@.ins[b]
                    } else {
                        Seq::new(
                            256,
                            |k: int|
                                if k >= STATE_REGS {
                                    None
                                } else {
                                    Some(undef_id(k as u8))
                                },
                        )
                    },
                    state@ == after_code(start, defs@, code, k as nat),
                    uses_so_far(map@, uses@, *cfg, f@, order@, n as int, k as int, 0),
                decreases code.len() - k,
            {
                let pc: usize = block.instructions[k].0;
                let (regs, used) = extract_def_use(&block.instructions[k].1);
                let mut j: usize = 0;
                while j < used.len()
                    invariant
                        n < order@.len(),
                        order@[n as int] == b,
                        cfg.blocks@.contains_key(b),
                        *block == cfg.blocks@[b],
                        code == block.instructions@,
                        k < code.len(),
                        pc == code[k as int].0,
                        used@ == instruction::classified(code[k as int].1).uses(),
                        j <= used@.len(),
                        state@.len() == 256,
                        forall|reg: u8|
                            #![trigger value_at(*cfg, f@, b, k as int, reg)]
                            value_at(*cfg, f@, b, k as int, reg) == match state@[reg as int] {
                                Some(v) => Some(v),
                                None => if reg < STATE_REGS {
                                    Some(undef_id(reg))
                                } else {
                                    None
                                },
                            },
                        uses_so_far(map@, uses@, *cfg, f@, order@, n as int, k as int, j as int),
                    decreases used@.len() - j,
                {
                    let reg: u8 = used[j];
                    let value: Option<usize> = match state[reg as usize] {
                        Some(v) => Some(v),
                        None => if reg < STATE_REGS {
                            Some(2 * (reg as usize) + 1)
                        } else {
                            None
                        },
                    };
                    assert(value == value_at(*cfg, f@, b, k as int, reg));
                    let ghost map0 = map@;
                    let ghost uses0 = uses@;
                    if let Some(v) = value {
                        let site = SsaUseSite::Instr { pc, reg };
                        map.insert((pc, reg), v);
                        add_use(&mut uses, v, site);
                        proof {
                            assert(used@[j as int] == reg);
                            assert(sees(*cfg, f@, b, k as int, pc, reg, v));
                            lemma_sees_used(*cfg, f@, b, k as int, pc, reg, v);
                            assert forall|w: usize, s: SsaUseSite| #[trigger]
                                sites(uses@, w).contains(s) <==> sites(uses0, w).contains(s) || (w
                                == v && s == site) by {
                                if w != v {
                                    assert(sites(uses@, w) == sites(uses0, w));
                                }
                            }
                            assert forall|p: usize, r: u8| #[trigger] map@.contains_key(
                                (p, r),
                            ) implies use_sees(*cfg, f@, p, r, map@[(p, r)]) by {
                                if (p, r) == (pc, reg) {
                                    assert(map@[(p, r)] == v);
                                } else {
                                    assert(map0.contains_key((p, r)));
                                }
                            }
                        }
                    }
                    assert forall|c: usize, i: int, p: usize, r: u8, v: usize|
                        #![trigger sees(*cfg, f@, c, i, p, r, v)]
                        sees(*cfg, f@, c, i, p, r, v) && comes_before(
                            *cfg,
                            order@,
                            n as int,
                            k as int,
                            j + 1,
                            c,
                            i,
                            r,
                        ) implies map@.contains_key((p, r)) && sites(uses@, v).contains(
                        SsaUseSite::Instr { pc: p, reg: r },
                    ) by {
                        if comes_before(*cfg, order@, n as int, k as int, j as int, c, i, r) {
                        } else {
                            assert(c == b && i == k);
                            assert(used@.take(j + 1) =~= used@.take(j as int).push(reg));
                            ordered::lemma_push_key(used@.take(j as int), reg, r);
                        }
                    }
                    j = j + 1;
                }
                proof {
                    assert(used@.take(j as int) =~= used@);
                    assert forall|c: usize, i: int, p: usize, r: u8, v: usize|
                        #![trigger sees(*cfg, f@, c, i, p, r, v)]
                        sees(*cfg, f@, c, i, p, r, v) && comes_before(
                            *cfg,
                            order@,
                            n as int,
                            k + 1,
                            0,
                            c,
                            i,
                            r,
                        ) implies comes_before(
                        *cfg,
                        order@,
                        n as int,
                        k as int,
                        j as int,
                        c,
                        i,
                        r,
                    ) by {}
                }
                apply_defs(&mut state, defs, pc, &regs);
                k = k + 1;
            }
        }
        proof {
            assert forall|c: usize, i: int, p: usize, r: u8, v: usize|
                #![trigger sees(*cfg, f@, c, i, p, r, v)]
                sees(*cfg, f@, c, i, p, r, v) && comes_before(
                    *cfg,
                    order@,
                    n + 1,
                    0,
                    0,
                    c,
                    i,
                    r,
                ) implies map@.contains_key((p, r)) && sites(uses@, v).contains(
                SsaUseSite::Instr { pc: p, reg: r },
            ) by {
                if exists|m: int| 0 <= m < n + 1 && m < order@.len() && #[trigger] order@[m] == c {
                    let m = choose|m: int|
                        0 <= m < n + 1 && m < order@.len() && #[trigger] order@[m] == c;
                    if m < n {
                        assert(comes_before(*cfg, order@, n as int, 0, 0, c, i, r));
                    } else {
                        assert(c == b);
                    }
                }
            }
        }
        n = n + 1;
    }
    proof {
        assert forall|b: usize, i: int, pc: usize, reg: u8, v: usize|
            #![trigger sees(*cfg, f@, b, i, pc, reg, v)]
            sees(*cfg, f@, b, i, pc, reg, v) implies map@.contains_key((pc, reg)) && sites(
            uses@,
            v,
        ).contains(SsaUseSite::Instr { pc, reg }) by {
            assert(order@.contains(b));
            let m = choose|m: int| 0 <= m < order@.len() && order@[m] == b;
            assert(order@[m] == b);
            assert(comes_before(*cfg, order@, n as int, 0, 0, b, i, reg));
        }
        assert forall|v: usize, site: SsaUseSite| used_at(
            *cfg,
            f@,
            v,
            site,
        ) implies #[trigger] sites(uses@, v).contains(site) by {
            if let SsaUseSite::Instr { pc, reg } = site {
                let (b, i) = choose|b: usize, i: int| sees(*cfg, f@, b, i, pc, reg, v);
                assert(sees(*cfg, f@, b, i, pc, reg, v));
            }
        }
    }
    (map, uses)
}

proof fn lemma_sees_used(
    cfg: ControlFlowGraph,
    f: Flow,
    b: usize,
    i: int,
    pc: usize,
    reg: u8,
    v: usize,
)
    requires
        sees(cfg, f, b, i, pc, reg, v),
    ensures
        use_sees(cfg, f, pc, reg, v),
{
}

/// Whether `m` gives for each program counter of an instruction a block that holds it.
pub open spec fn blocks_of_pcs(m: Map<usize, usize>, cfg: ControlFlowGraph) -> bool {
    &&& forall|b: usize, i: int|
        cfg.blocks@.contains_key(b) && 0 <= i < cfg.blocks@[b].instructions@.len()
            ==> m.contains_key((#[trigger] cfg.blocks@[b].instructions@[i]).0)
    &&& forall|pc: usize| #[trigger]
        m.contains_key(pc) ==> exists|b: usize, i: int|
            cfg.blocks@.contains_key(b) && 0 <= i < cfg.blocks@[b].instructions@.len() && (
            #[trigger] cfg.blocks@[b].instructions@[i]).0 == pc && m[pc] == cfg.blocks@[b].start_pc
}

fn map_blocks(cfg: &ControlFlowGraph, keys: &Vec<usize>) -> (m: BTreeMap<usize, usize>)
    requires
        keys@.to_set() == cfg.blocks@.dom(),
    ensures
        blocks_of_pcs(m@, *cfg),
{
    let mut m: BTreeMap<usize, usize> = BTreeMap::new();
    let mut n: usize = 0;
    while n < keys.len()
        invariant
            n <= keys@.len(),
            keys@.to_set() == cfg.blocks@.dom(),
            forall|j: int, i: int|
                0 <= j < n && 0 <= i < cfg.blocks@[keys@[j]].instructions@.len()
                    ==> m@.contains_key((#[trigger] cfg.blocks@[keys@[j]].instructions@[i]).0),
            forall|pc: usize| #[trigger]
                m@.contains_key(pc) ==> exists|b: usize, i: int|
                    cfg.blocks@.contains_key(b) && 0 <= i < cfg.blocks@[b].instructions@.len() && (
                    #[trigger] cfg.blocks@[b].instructions@[i]).0 == pc && m@[pc]
                        == cfg.blocks@[b].start_pc,
        decreases keys@.len() - n,
    {
        let key: usize = keys[n];
        assert(keys@.to_set().contains(key));
        if let Some(block) = cfg.blocks.get(&key) {
            let mut k: usize = 0;
            while k < block.instructions.len()
                invariant
                    n < keys@.len(),
                    key == keys@[n as int],
                    cfg.blocks@.contains_key(key),
                    *block == cfg.blocks@[key],
                    k <= block.instructions@.len(),
                    forall|j: int, i: int|
                        0 <= j < n && 0 <= i < cfg.blocks@[keys@[j]].instructions@.len()
                            ==> m@.contains_key(
                            (#[trigger] cfg.blocks@[keys@[j]].instructions@[i]).0,
                        ),
                    forall|i: int|
                        0 <= i < k ==> m@.contains_key((#[trigger] block.instructions@[i]).0),
                    forall|pc: usize| #[trigger]
                        m@.contains_key(pc) ==> exists|b: usize, i: int|
                            cfg.blocks@.contains_key(b) && 0 <= i
                                < cfg.blocks@[b].instructions@.len() && (
                            #[trigger] cfg.blocks@[b].instructions@[i]).0 == pc && m@[pc]
                                == cfg.blocks@[b].start_pc,
                decreases block.instructions@.len() - k,
            {
                let pc: usize = block.instructions[k].0;
                let ghost before = m@;
                m.insert(pc, block.start_pc);
                assert forall|p: usize| #[trigger] m@.contains_key(p) implies exists|
                    b: usize,
                    i: int,
                |
                    cfg.blocks@.contains_key(b) && 0 <= i < cfg.blocks@[b].instructions@.len() && (
                    #[trigger] cfg.blocks@[b].instructions@[i]).0 == p && m@[p]
                        == cfg.blocks@[b].start_pc by {
                    if p == pc {
                        assert(cfg.blocks@[key].instructions@[k as int].0 == p);
                    } else {
                        assert(before.contains_key(p));
                    }
                }
                k = k + 1;
            }
        }
        n = n + 1;
    }
    assert forall|b: usize, i: int|
        cfg.blocks@.contains_key(b) && 0 <= i
            < cfg.blocks@[b].instructions@.len() implies m@.contains_key(
        (#[trigger] cfg.blocks@[b].instructions@[i]).0,
    ) by {
        assert(keys@.to_set().contains(b));
        let j = choose|j: int| 0 <= j < keys@.len() && keys@[j] == b;
        assert(cfg.blocks@[keys@[j]].instructions@[i] == cfg.blocks@[b].instructions@[i]);
    }
    m
}

impl SsaProgram {
    /// Whether this is the value graph of `cfg` for the block order `rpo`.
    pub open spec fn is_ssa_of(self, cfg: ControlFlowGraph, rpo: Seq<usize>) -> bool {
        let f = flow(cfg, rpo);
        &&& kinds_of(self.values@) == f.kinds
        &&& self.def_value_by_pc_reg@ == numbering(cfg).defs
        &&& self.phi_value_by_block_reg@ == f.phis
        &&& forall|pc: usize, reg: u8| #[trigger]
            f.phis.contains_key((pc, reg)) ==> self.values@[f.phis[(pc, reg)] as int].operands@
                == phi_operands(cfg, f, pc, reg)
        &&& forall|i: int|
            0 <= i < self.values@.len() && !(f.kinds[i] is Phi) ==> (
            #[trigger] self.values@[i]).operands@.len() == 0
        &&& forall|b: usize, i: int, pc: usize, reg: u8, v: usize|
            #![trigger sees(cfg, f, b, i, pc, reg, v)]
            sees(cfg, f, b, i, pc, reg, v) ==> self.use_value_by_pc_reg@.contains_key((pc, reg))
        &&& forall|pc: usize, reg: u8| #[trigger]
            self.use_value_by_pc_reg@.contains_key((pc, reg)) ==> use_sees(cfg, f, pc, reg, self.use_value_by_pc_reg@[(pc, reg)])
        &&& lists_ok(self.uses_by_value@)
        &&& forall|v: usize, site: SsaUseSite| #[trigger]
            sites(self.uses_by_value@, v).contains(site) <==> used_at(cfg, f, v, site)
        &&& blocks_of_pcs(self.pc_to_block@, cfg)
    }

    /// Build the value graph.
    ///
    /// A use of a register beyond the general purpose ones that nothing before it in
    /// its block defines has no value.
    pub fn build(cfg: &ControlFlowGraph, dom_tree: &DominatorTree) -> (ssa: Self)
        ensures
            ssa.is_ssa_of(*cfg, dom_tree.rpo@),
    {
        let keys: Vec<usize> = keys_of(&cfg.blocks);
        let pc_to_block = map_blocks(cfg, &keys);
        let (values, defs) = number_values(cfg, &keys);
        let state = solve(cfg, &keys, &dom_tree.rpo, values, &defs);
        let ghost f = flow(*cfg, dom_tree.rpo@);
        assert(state.values.len() == f.kinds.len());
        proof {
            lemma_flow(*cfg, dom_tree.rpo@);
        }
        let FlowState { values, phis, ins, outs } = state;
        let (values, phi_uses) = add_phi_operands(cfg, values, &phis, &outs, Ghost(f));
        let order = block_order(cfg, &keys, &dom_tree.rpo);
        proof {
            assert forall|b: usize| #[trigger] cfg.blocks@.contains_key(
                b,
            ) implies order@.contains(b) by {
                dataflow::lemma_push_missing(dom_tree.rpo@, keys@, keys@.len(), b);
                assert(keys@.to_set().contains(b));
                let k = choose|k: int| 0 <= k < keys@.len() && keys@[k] == b;
                assert(order@.contains(keys@[k]));
            }
        }
        let (use_map, uses) = map_uses(cfg, &order, &defs, &ins, phi_uses, Ghost(f));
        SsaProgram {
            values,
            def_value_by_pc_reg: defs,
            use_value_by_pc_reg: use_map,
            uses_by_value: uses,
            phi_value_by_block_reg: phis,
            pc_to_block,
        }
    }

    pub fn value_for_def_pc_reg(&self, pc: usize, reg: u8) -> (r: Option<SsaValueId>)
        ensures
            r == self.def_value_by_pc_reg@.get((pc, reg)),
    {
        match self.def_value_by_pc_reg.get(&(pc, reg)) {
            Some(v) => Some(*v),
            None => None,
        }
    }

    pub fn value_for_use_pc_reg(&self, pc: usize, reg: u8) -> (r: Option<SsaValueId>)
        ensures
            r == self.use_value_by_pc_reg@.get((pc, reg)),
    {
        match self.use_value_by_pc_reg.get(&(pc, reg)) {
            Some(v) => Some(*v),
            None => None,
        }
    }

    pub fn phi_value_for_block_reg(&self, block_pc: usize, reg: u8) -> (r: Option<SsaValueId>)
        ensures
            r == self.phi_value_by_block_reg@.get((block_pc, reg)),
    {
        match self.phi_value_by_block_reg.get(&(block_pc, reg)) {
            Some(v) => Some(*v),
            None => None,
        }
    }

    pub fn use_mappings(&self) -> (m: &BTreeMap<(usize, u8), SsaValueId>)
        ensures
            *m == self.use_value_by_pc_reg,
    {
        &self.use_value_by_pc_reg
    }

    pub fn value_kind(&self, value: SsaValueId) -> (r: Option<&SsaValueKind>)
        ensures
            value < self.values@.len() ==> r == Some(&self.values@[value as int].kind),
            value >= self.values@.len() ==> r is None,
    {
        if value < self.values.len() {
            Some(&self.values[value].kind)
        } else {
            None
        }
    }

    pub fn value_operands(&self, value: SsaValueId) -> (r: Option<&[SsaValueId]>)
        ensures
            value < self.values@.len() ==> r is Some && r->0@
                == self.values@[value as int].operands@,
            value >= self.values@.len() ==> r is None,
    {
        if value < self.values.len() {
            Some(self.values[value].operands.as_slice())
        } else {
            None
        }
    }

    /// How many sites use `value`.
    pub open spec fn uses_of(self, value: SsaValueId) -> nat {
        if self.uses_by_value@.contains_key(value) {
            self.uses_by_value@[value]@.len()
        } else {
            0
        }
    }

    /// The instruction and register pairs whose use sees `value`.
    pub open spec fn instruction_uses(self, value: SsaValueId) -> Set<(usize, u8)> {
        Set::new(|site: (usize, u8)| self.use_value_by_pc_reg@.get(site) == Some(value))
    }

    /// The block and register pairs whose phi value has `value` as an operand.
    pub open spec fn phi_uses(self, value: SsaValueId) -> Set<(usize, u8)> {
        Set::new(
            |site: (usize, u8)|
                self.phi_value_by_block_reg@.contains_key(site)
                    && self.values@[self.phi_value_by_block_reg@[site] as int].operands@.contains(
                    value,
                ),
        )
    }

    pub fn use_count(&self, value: SsaValueId) -> (n: usize)
        ensures
            n == self.uses_of(value),
    {
        match self.uses_by_value.get(&value) {
            Some(uses) => uses.len(),
            None => 0,
        }
    }

    /// The one instruction that uses `value`, where nothing else does.
    pub open spec fn single_use(self, value: SsaValueId) -> Option<usize> {
        if self.uses_by_value@.contains_key(value) && self.uses_by_value@[value]@.len() == 1 {
            match self.uses_by_value@[value]@[0] {
                SsaUseSite::Instr { pc, .. } => Some(pc),
                SsaUseSite::PhiOperand { .. } => None,
            }
        } else {
            None
        }
    }

    /// Returns the PC only when the value has exactly one instruction use and
    /// no phi-operand uses.
    pub fn single_instruction_use_pc(&self, value: SsaValueId) -> (r: Option<usize>)
        ensures
            r == self.single_use(value),
    {
        match self.uses_by_value.get(&value) {
            Some(uses) => {
                if uses.len() != 1 {
                    return None;
                }
                match uses[0] {
                    SsaUseSite::Instr { pc, .. } => Some(pc),
                    SsaUseSite::PhiOperand { .. } => None,
                }
            },
            None => None,
        }
    }

    /// Whether the definition of `value` lies above the block of `use_pc` in the
    /// dominator tree. Entry values reach everywhere, undefined ones nowhere.
    pub open spec fn definition_dominates(
        self,
        value: SsaValueId,
        use_pc: usize,
        idom: Map<usize, usize>,
    ) -> bool {
        &&& self.pc_to_block@.contains_key(use_pc)
        &&& value < self.values@.len()
        &&& match self.values@[value as int].kind {
            SsaValueKind::Param { .. } => true,
            SsaValueKind::Undef { .. } => false,
            SsaValueKind::Instr { block_pc, .. } => dominators::above(
                idom,
                block_pc,
                self.pc_to_block@[use_pc],
            ),
            SsaValueKind::Phi { block_pc, .. } => dominators::above(
                idom,
                block_pc,
                self.pc_to_block@[use_pc],
            ),
        }
    }

    pub fn value_definition_dominates_use_pc(
        &self,
        value: SsaValueId,
        use_pc: usize,
        dom_tree: &DominatorTree,
    ) -> (r: bool)
        requires
            dom_tree.wf(),
        ensures
            r == self.definition_dominates(value, use_pc, dom_tree.idom@),
    {
        let use_block: usize = match self.pc_to_block.get(&use_pc) {
            Some(b) => *b,
            None => {
                return false;
            },
        };
        if value >= self.values.len() {
            return false;
        }
        match self.values[value].kind {
            SsaValueKind::Param { .. } => true,
            SsaValueKind::Undef { .. } => false,
            SsaValueKind::Instr { block_pc, .. } => dom_tree.dominates(block_pc, use_block),
            SsaValueKind::Phi { block_pc, .. } => dom_tree.dominates(block_pc, use_block),
        }
    }
}

/// A definition has a value of its own: its kind names the program counter and the
/// register of the definition.
pub proof fn law_definition_has_own_value(
    ssa: SsaProgram,
    cfg: ControlFlowGraph,
    rpo: Seq<usize>,
    pc: usize,
    reg: u8,
)
    requires
        ssa.is_ssa_of(cfg, rpo),
        ssa.def_value_by_pc_reg@.contains_key((pc, reg)),
    ensures
        ssa.def_value_by_pc_reg@[(pc, reg)] < ssa.values@.len(),
        ssa.values@[ssa.def_value_by_pc_reg@[(pc, reg)] as int].kind matches SsaValueKind::Instr {
            pc: p,
            reg: r,
            ..
        } && p == pc && r == reg,
{
    assert(ssa.values.len() == flow(cfg, rpo).kinds.len());
    lemma_flow(cfg, rpo);
    let f = flow(cfg, rpo);
    let id = ssa.def_value_by_pc_reg@[(pc, reg)];
    assert(numbering(cfg).defs.contains_key((pc, reg)));
    assert(f.kinds[id as int] == numbering(cfg).kinds[id as int]);
    assert(kinds_of(ssa.values@)[id as int] == ssa.values@[id as int].kind);
}

/// The value that a use of a register sees belongs to that register.
pub proof fn law_use_sees_own_register(
    ssa: SsaProgram,
    cfg: ControlFlowGraph,
    rpo: Seq<usize>,
    pc: usize,
    reg: u8,
)
    requires
        ssa.is_ssa_of(cfg, rpo),
        ssa.use_value_by_pc_reg@.contains_key((pc, reg)),
    ensures
        ssa.use_value_by_pc_reg@[(pc, reg)] < ssa.values@.len(),
        ssa.values@[ssa.use_value_by_pc_reg@[(pc, reg)] as int].kind.register() == reg,
{
    assert(ssa.values.len() == flow(cfg, rpo).kinds.len());
    lemma_flow(cfg, rpo);
    let f = flow(cfg, rpo);
    let v = ssa.use_value_by_pc_reg@[(pc, reg)];
    let (b, i) = choose|b: usize, i: int| sees(cfg, f, b, i, pc, reg, v);
    assert(sees(cfg, f, b, i, pc, reg, v));
    let base = numbering(cfg).kinds;
    lemma_defs_ok(cfg, f.kinds);
    let start = if f.ins.contains_key(b) {
        f.ins[b]
    } else {
        Seq::new(
            256,
            |k: int|
                if k >= STATE_REGS {
                    None
                } else {
                    Some(undef_id(k as u8))
                },
        )
    };
    assert forall|r: u8| r < STATE_REGS implies f.kinds[#[trigger] undef_id(r) as int] == (
    SsaValueKind::Undef { reg: r }) by {
        assert(base[undef_id(r) as int] == (SsaValueKind::Undef { reg: r }));
        assert(f.kinds[undef_id(r) as int] == base[undef_id(r) as int]);
    }
    if !f.ins.contains_key(b) {
        assert forall|r: u8| (#[trigger] start[r as int]) is Some implies start[r as int]->0
            < f.kinds.len() && f.kinds[start[r as int]->0 as int].register() == r by {
            assert(f.kinds[undef_id(r) as int] == (SsaValueKind::Undef { reg: r }));
        }
    }
    let code = cfg.blocks@[b].instructions@;
    lemma_after_code(f.kinds, start, numbering(cfg).defs, code, i as nat);
    assert(f.kinds[undef_id(reg) as int].register() == reg || reg >= STATE_REGS);
    assert(kinds_of(ssa.values@)[v as int] == ssa.values@[v as int].kind);
}

/// A phi value stands at its block for its register, and merges at least two distinct
/// values or has no operands.
pub proof fn law_phi_merges_distinct_values(
    ssa: SsaProgram,
    cfg: ControlFlowGraph,
    rpo: Seq<usize>,
    pc: usize,
    reg: u8,
)
    requires
        ssa.is_ssa_of(cfg, rpo),
        ssa.phi_value_by_block_reg@.contains_key((pc, reg)),
    ensures
        ({
            let id = ssa.phi_value_by_block_reg@[(pc, reg)];
            &&& id < ssa.values@.len()
            &&& ssa.values@[id as int].kind == (SsaValueKind::Phi { block_pc: pc, reg })
            &&& ordered::increasing(ssa.values@[id as int].operands@)
            &&& ssa.values@[id as int].operands@.len() != 1
        }),
{
    assert(ssa.values.len() == flow(cfg, rpo).kinds.len());
    lemma_flow(cfg, rpo);
    let f = flow(cfg, rpo);
    let id = ssa.phi_value_by_block_reg@[(pc, reg)];
    assert(f.phis.contains_key((pc, reg)));
    let set = incoming(f.outs, cfg.blocks@[pc].predecessors@, reg);
    lemma_incoming_finite(f.outs, cfg.blocks@[pc].predecessors@, reg);
    ordered::lemma_ascending_exists(set);
    assert(kinds_of(ssa.values@)[id as int] == ssa.values@[id as int].kind);
}

/// Whether no two instructions of a graph stand at the same program counter.
pub open spec fn distinct_pcs(cfg: ControlFlowGraph) -> bool {
    forall|a: usize, i: int, b: usize, j: int|
        cfg.blocks@.contains_key(a) && 0 <= i < cfg.blocks@[a].instructions@.len()
            && cfg.blocks@.contains_key(b) && 0 <= j < cfg.blocks@[b].instructions@.len() && (
        #[trigger] cfg.blocks@[a].instructions@[i]).0 == (
        #[trigger] cfg.blocks@[b].instructions@[j]).0 ==> a == b && i == j
}

proof fn lemma_use_is_mapped(
    ssa: SsaProgram,
    cfg: ControlFlowGraph,
    rpo: Seq<usize>,
    pc: usize,
    reg: u8,
    v: usize,
)
    requires
        ssa.is_ssa_of(cfg, rpo),
        distinct_pcs(cfg),
    ensures
        use_sees(cfg, flow(cfg, rpo), pc, reg, v) <==> ssa.use_value_by_pc_reg@.get((pc, reg))
            == Some(v),
{
    let f = flow(cfg, rpo);
    if use_sees(cfg, f, pc, reg, v) {
        let (b, i) = choose|b: usize, i: int| sees(cfg, f, b, i, pc, reg, v);
        assert(sees(cfg, f, b, i, pc, reg, v));
        let w = ssa.use_value_by_pc_reg@[(pc, reg)];
        assert(use_sees(cfg, f, pc, reg, w));
        let (c, j) = choose|c: usize, j: int| sees(cfg, f, c, j, pc, reg, w);
        assert(sees(cfg, f, c, j, pc, reg, w));
        assert(cfg.blocks@[b].instructions@[i].0 == cfg.blocks@[c].instructions@[j].0);
    }
}

/// Where no two instructions share a program counter, a value is counted once for each
/// instruction and register whose use sees it and once for each phi value that has it as an
/// operand.
pub proof fn law_uses_are_counted(
    ssa: SsaProgram,
    cfg: ControlFlowGraph,
    rpo: Seq<usize>,
    v: SsaValueId,
)
    requires
        ssa.is_ssa_of(cfg, rpo),
        distinct_pcs(cfg),
    ensures
        ssa.instruction_uses(v).finite(),
        ssa.phi_uses(v).finite(),
        ssa.uses_of(v) == ssa.instruction_uses(v).len() + ssa.phi_uses(v).len(),
{
    let f = flow(cfg, rpo);
    let all = sites(ssa.uses_by_value@, v);
    if ssa.uses_by_value@.contains_key(v) {
        ssa.uses_by_value@[v]@.unique_seq_to_set();
    }
    assert(all.finite() && all.len() == ssa.uses_of(v));
    let direct = all.filter(|s: SsaUseSite| s is Instr);
    let merged = all.filter(|s: SsaUseSite| s is PhiOperand);
    assert(direct + merged =~= all);
    assert(direct.disjoint(merged));
    vstd::set_lib::lemma_set_disjoint_lens(direct, merged);
    let key = |s: SsaUseSite|
        match s {
            SsaUseSite::Instr { pc, reg } => (pc, reg),
            SsaUseSite::PhiOperand { block_pc, reg } => (block_pc, reg),
        };
    let a = ssa.instruction_uses(v);
    assert forall|k: (usize, u8)| a.contains(k) <==> direct.map(key).contains(k) by {
        lemma_use_is_mapped(ssa, cfg, rpo, k.0, k.1, v);
        let site = SsaUseSite::Instr { pc: k.0, reg: k.1 };
        assert(all.contains(site) <==> used_at(cfg, f, v, site));
        if a.contains(k) {
            assert(direct.contains(site) && key(site) == k);
        }
        if direct.map(key).contains(k) {
            let s = choose|s: SsaUseSite| direct.contains(s) && key(s) == k;
            assert(s == site);
        }
    }
    assert(direct.map(key) =~= a);
    vstd::set_lib::lemma_map_size(direct, a, key);
    let b = ssa.phi_uses(v);
    assert forall|k: (usize, u8)| b.contains(k) <==> merged.map(key).contains(k) by {
        let site = SsaUseSite::PhiOperand { block_pc: k.0, reg: k.1 };
        assert(all.contains(site) <==> used_at(cfg, f, v, site));
        assert(f.phis.contains_key((k.0, k.1)) ==> ssa.values@[f.phis[(
            k.0,
            k.1,
        )] as int].operands@ == phi_operands(cfg, f, k.0, k.1));
        if b.contains(k) {
            assert(merged.contains(site) && key(site) == k);
        }
        if merged.map(key).contains(k) {
            let s = choose|s: SsaUseSite| merged.contains(s) && key(s) == k;
            assert(s == site);
        }
    }
    assert(merged.map(key) =~= b);
    vstd::set_lib::lemma_map_size(merged, b, key);
}

/// Whether an instruction of the block at `b` stands at `pc` and writes `reg`.
pub open spec fn writes(cfg: ControlFlowGraph, b: usize, pc: usize, reg: u8) -> bool {
    cfg.blocks@.contains_key(b) && exists|i: int|
        0 <= i < cfg.blocks@[b].instructions@.len() && (
        #[trigger] cfg.blocks@[b].instructions@[i]).0 == pc && instruction::classified(
            cfg.blocks@[b].instructions@[i].1,
        ).defs().contains(reg)
}

/// Whether each numbered definition has a value whose kind names it and the block that
/// holds it.
spec fn placed(s: Numbering, cfg: ControlFlowGraph) -> bool {
    forall|pc: usize, reg: u8| #[trigger]
        s.defs.contains_key((pc, reg)) ==> {
            &&& s.defs[(pc, reg)] < s.kinds.len()
            &&& s.kinds[s.defs[(pc, reg)] as int] matches SsaValueKind::Instr {
                pc: p,
                reg: r,
                block_pc,
            } && p == pc && r == reg && writes(cfg, block_pc, pc, reg)
        }
}

proof fn lemma_regs_placed(
    s: Numbering,
    cfg: ControlFlowGraph,
    pc: usize,
    b: usize,
    regs: Seq<u8>,
    n: nat,
)
    requires
        n <= regs.len(),
        s.kinds.len() + n <= usize::MAX,
        placed(s, cfg),
        forall|j: int| 0 <= j < regs.len() ==> writes(cfg, b, pc, #[trigger] regs[j]),
    ensures
        placed(number_regs(s, pc, b, regs, n), cfg),
    decreases n,
{
    if n > 0 {
        lemma_regs_placed(s, cfg, pc, b, regs, (n - 1) as nat);
        lemma_number_regs(s, pc, b, regs, (n - 1) as nat);
        let t = number_regs(s, pc, b, regs, (n - 1) as nat);
        let u = number_regs(s, pc, b, regs, n);
        assert forall|p: usize, r: u8| #[trigger] u.defs.contains_key((p, r)) implies {
            &&& u.defs[(p, r)] < u.kinds.len()
            &&& u.kinds[u.defs[(p, r)] as int] matches SsaValueKind::Instr {
                pc: q,
                reg: x,
                block_pc,
            } && q == p && x == r && writes(cfg, block_pc, p, r)
        } by {
            if (p, r) != (pc, regs[n - 1]) {
                assert(t.defs.contains_key((p, r)));
                assert(u.kinds[u.defs[(p, r)] as int] == t.kinds[t.defs[(p, r)] as int]);
            }
        }
    }
}

proof fn lemma_code_placed(s: Numbering, cfg: ControlFlowGraph, b: usize, n: nat)
    requires
        cfg.blocks@.contains_key(b),
        n <= cfg.blocks@[b].instructions@.len(),
        number_code(s, cfg.blocks@[b].instructions@, b, n).kinds.len() <= usize::MAX,
        placed(s, cfg),
    ensures
        placed(number_code(s, cfg.blocks@[b].instructions@, b, n), cfg),
        forall|pc: usize, reg: u8| #[trigger]
            s.defs.contains_key((pc, reg)) ==> number_code(
                s,
                cfg.blocks@[b].instructions@,
                b,
                n,
            ).defs.contains_key((pc, reg)),
        forall|i: int, reg: u8|
            #![trigger instruction::classified(cfg.blocks@[b].instructions@[i].1).defs().contains(
                reg)]
            0 <= i < n && instruction::classified(
                cfg.blocks@[b].instructions@[i].1,
            ).defs().contains(reg) ==> number_code(
                s,
                cfg.blocks@[b].instructions@,
                b,
                n,
            ).defs.contains_key((cfg.blocks@[b].instructions@[i].0, reg)),
    decreases n,
{
    let code = cfg.blocks@[b].instructions@;
    if n > 0 {
        let (pc, instr) = code[n - 1];
        let regs = instruction::classified(instr).defs();
        let t = number_code(s, code, b, (n - 1) as nat);
        lemma_number_regs(t, pc, b, regs, regs.len());
        lemma_code_placed(s, cfg, b, (n - 1) as nat);
        assert forall|j: int| 0 <= j < regs.len() implies writes(
            cfg,
            b,
            pc,
            #[trigger] regs[j],
        ) by {
            assert(cfg.blocks@[b].instructions@[n - 1].0 == pc);
            assert(regs.contains(regs[j]));
        }
        lemma_regs_placed(t, cfg, pc, b, regs, regs.len());
        let u = number_code(s, code, b, n);
        assert forall|i: int, reg: u8|
            #![trigger instruction::classified(cfg.blocks@[b].instructions@[i].1).defs().contains(
                reg)]
            0 <= i < n && instruction::classified(
                cfg.blocks@[b].instructions@[i].1,
            ).defs().contains(reg) implies u.defs.contains_key(
            (cfg.blocks@[b].instructions@[i].0, reg),
        ) by {
            if i == n - 1 {
                let j = choose|j: int| 0 <= j < regs.len() && regs[j] == reg;
                assert(u.defs.contains_key((pc, regs[j])));
            } else {
                assert(t.defs.contains_key((code[i].0, reg)));
            }
        }
    }
}

proof fn lemma_blocks_placed(cfg: ControlFlowGraph, keys: Seq<usize>, n: nat)
    requires
        n <= keys.len(),
        forall|k: int| 0 <= k < keys.len() ==> cfg.blocks@.contains_key(#[trigger] keys[k]),
        number_blocks(cfg, keys, n).kinds.len() <= usize::MAX,
    ensures
        placed(number_blocks(cfg, keys, n), cfg),
        forall|k: int, pc: usize, reg: u8|
            0 <= k < n && #[trigger] writes(cfg, keys[k], pc, reg) ==> number_blocks(
                cfg,
                keys,
                n,
            ).defs.contains_key((pc, reg)),
    decreases n,
{
    if n > 0 {
        let b = keys[n - 1];
        let code = cfg.blocks@[b].instructions@;
        let s = number_blocks(cfg, keys, (n - 1) as nat);
        lemma_number_code(s, code, b, code.len());
        lemma_blocks_placed(cfg, keys, (n - 1) as nat);
        lemma_code_placed(s, cfg, b, code.len());
        let t = number_blocks(cfg, keys, n);
        assert forall|k: int, pc: usize, reg: u8|
            0 <= k < n && #[trigger] writes(cfg, keys[k], pc, reg) implies t.defs.contains_key(
            (pc, reg),
        ) by {
            if k == n - 1 {
                let i = choose|i: int|
                    0 <= i < cfg.blocks@[b].instructions@.len() && (
                    #[trigger] cfg.blocks@[b].instructions@[i]).0 == pc && instruction::classified(
                        cfg.blocks@[b].instructions@[i].1,
                    ).defs().contains(reg);
                assert(instruction::classified(code[i].1).defs().contains(reg));
            } else {
                assert(s.defs.contains_key((pc, reg)));
            }
        }
    }
}

proof fn lemma_kinds_grow(cfg: ControlFlowGraph, rpo: Seq<usize>)
    requires
        flow(cfg, rpo).kinds.len() <= usize::MAX,
    ensures
        numbering(cfg).kinds.len() <= flow(cfg, rpo).kinds.len(),
        forall|i: int|
            0 <= i < numbering(cfg).kinds.len() ==> flow(cfg, rpo).kinds[i] == (
            #[trigger] numbering(cfg).kinds[i]),
{
    lemma_flow(cfg, rpo);
}

/// A register has a value defined at a program counter exactly if an instruction there writes
/// it. The value's kind then names the program counter, the register and a block that holds
/// such an instruction; where no two instructions share a program counter it is the only one.
pub proof fn law_definitions_have_values(
    ssa: SsaProgram,
    cfg: ControlFlowGraph,
    rpo: Seq<usize>,
    pc: usize,
    reg: u8,
)
    requires
        ssa.is_ssa_of(cfg, rpo),
        cfg.blocks@.dom().finite(),
    ensures
        ssa.def_value_by_pc_reg@.contains_key((pc, reg)) <==> exists|b: usize|
            writes(cfg, b, pc, reg),
        ssa.def_value_by_pc_reg@.contains_key((pc, reg)) ==> {
            let v = ssa.def_value_by_pc_reg@[(pc, reg)];
            &&& v < ssa.values@.len()
            &&& ssa.values@[v as int].kind matches SsaValueKind::Instr { pc: p, reg: r, block_pc }
                && p == pc && r == reg && writes(cfg, block_pc, pc, reg)
        },
        forall|b: usize|
            distinct_pcs(cfg) && #[trigger] writes(cfg, b, pc, reg) ==> ssa.values@[
            ssa.def_value_by_pc_reg@[(pc, reg)] as int].kind == (SsaValueKind::Instr {
                pc,
                reg,
                block_pc: b,
            }),
{
    let keys = ordered::ascending(cfg.blocks@.dom());
    ordered::lemma_ascending_exists(cfg.blocks@.dom());
    assert forall|k: int| 0 <= k < keys.len() implies cfg.blocks@.contains_key(
        #[trigger] keys[k],
    ) by {
        assert(keys.to_set().contains(keys[k]));
    }
    assert(ssa.values.len() == flow(cfg, rpo).kinds.len());
    lemma_kinds_grow(cfg, rpo);
    lemma_blocks_placed(cfg, keys, keys.len());
    let s = numbering(cfg);
    if exists|b: usize| writes(cfg, b, pc, reg) {
        let b = choose|b: usize| writes(cfg, b, pc, reg);
        assert(keys.to_set().contains(b));
        let k = choose|k: int| 0 <= k < keys.len() && keys[k] == b;
        assert(writes(cfg, keys[k], pc, reg));
    }
    if s.defs.contains_key((pc, reg)) {
        let v = s.defs[(pc, reg)];
        assert(s.kinds[v as int] == flow(cfg, rpo).kinds[v as int]);
        assert(kinds_of(ssa.values@)[v as int] == ssa.values@[v as int].kind);
    }
}

/// Two definitions never share a value.
pub proof fn law_definitions_differ(
    ssa: SsaProgram,
    cfg: ControlFlowGraph,
    rpo: Seq<usize>,
    a: (usize, u8),
    b: (usize, u8),
)
    requires
        ssa.is_ssa_of(cfg, rpo),
        ssa.def_value_by_pc_reg@.contains_key(a),
        ssa.def_value_by_pc_reg@.contains_key(b),
        ssa.def_value_by_pc_reg@[a] == ssa.def_value_by_pc_reg@[b],
    ensures
        a == b,
{
    law_definition_has_own_value(ssa, cfg, rpo, a.0, a.1);
    law_definition_has_own_value(ssa, cfg, rpo, b.0, b.1);
}

} // verus!
