//! Data flow analysis: definitions and uses of registers, liveness, def-use chains.

use crate::cfg;
use crate::cfg::{BasicBlock, ControlFlowGraph};
use crate::graph;
use crate::graph::post_order_from;
use crate::instruction;
use crate::instruction::{push_register, InstructionShape};
use crate::ordered;
use crate::ordered::keys_of;
use crate::pvm::Instruction;
use crate::text;
use crate::text::{push_dec_wide, push_hex_prefixed};
use std::collections::{BTreeMap, BTreeSet};
use vstd::prelude::*;

verus! {

broadcast use vstd::laws_cmp::group_laws_cmp;

/// Represents where a register is defined.
#[derive(Debug, Clone, Copy, PartialEq, Eq, Hash, Structural)]
pub struct Definition {
    pub pc: usize,
    pub reg: u8,
}

/// Represents where a register is used.
#[derive(Debug, Clone, Copy, PartialEq, Eq, Hash, Structural)]
pub struct Use {
    pub pc: usize,
    pub reg: u8,
}

/// Def-use chain for a single definition: one definition mapped to all its uses.
#[derive(Debug, Clone)]
pub struct DefUseChain {
    pub definition: Definition,
    pub uses: Vec<Use>,
}

/// Result of data flow analysis for the entire program.
#[derive(Debug)]
pub struct DataFlowAnalysis {
    /// All def-use chains in the program, keyed by definition PC.
    pub chains: BTreeMap<usize, Vec<DefUseChain>>,
    /// Registers defined at each PC.
    pub defs_at_pc: BTreeMap<usize, Vec<u8>>,
    /// Registers used at each PC.
    pub uses_at_pc: BTreeMap<usize, Vec<u8>>,
    /// Live-in registers for each basic block (registers needed from predecessors).
    pub live_in: BTreeMap<usize, BTreeSet<u8>>,
    /// Live-out registers for each basic block (registers needed by successors).
    pub live_out: BTreeMap<usize, BTreeSet<u8>>,
}

/// A set of registers, one flag for each.
struct RegSet {
    flags: Vec<bool>,
}

impl View for RegSet {
    type V = Set<u8>;

    closed spec fn view(&self) -> Set<u8> {
        Set::new(|r: u8| self.flags@[r as int])
    }
}

impl RegSet {
    spec fn wf(self) -> bool {
        self.flags@.len() == 256
    }

    fn empty() -> (s: Self)
        ensures
            s.wf(),
            s@ == Set::<u8>::empty(),
    {
        let mut flags: Vec<bool> = Vec::new();
        let mut i: usize = 0;
        while i < 256
            invariant
                i <= 256,
                flags@.len() == i,
                forall|k: int| 0 <= k < i ==> !flags@[k],
            decreases 256 - i,
        {
            flags.push(false);
            i = i + 1;
        }
        let s = RegSet { flags };
        assert(s@ =~= Set::<u8>::empty());
        s
    }

    fn contains(&self, r: u8) -> (b: bool)
        requires
            self.wf(),
        ensures
            b == self@.contains(r),
    {
        self.flags[r as usize]
    }

    fn insert(&mut self, r: u8)
        requires
            old(self).wf(),
        ensures
            final(self).wf(),
            final(self)@ == old(self)@.insert(r),
    {
        let ghost before = self@;
        self.flags.set(r as usize, true);
        assert(self@ =~= before.insert(r));
    }

    /// Add what `other` holds and `without` does not.
    fn add_except(&mut self, other: &RegSet, without: &RegSet)
        requires
            old(self).wf(),
            other.wf(),
            without.wf(),
        ensures
            final(self).wf(),
            final(self)@ == old(self)@.union(other@.difference(without@)),
    {
        let ghost before = self.flags@;
        let mut i: usize = 0;
        while i < 256
            invariant
                i <= 256,
                self.wf(),
                other.wf(),
                without.wf(),
                before.len() == 256,
                forall|k: int|
                    0 <= k < 256 ==> #[trigger] self.flags@[k] == (before[k] || (k < i
                        && other.flags@[k] && !without.flags@[k])),
            decreases 256 - i,
        {
            if other.flags[i] && !without.flags[i] {
                self.flags.set(i, true);
            }
            i = i + 1;
        }
        assert(self@ =~= old(self)@.union(other@.difference(without@)));
    }

    fn same(&self, other: &RegSet) -> (b: bool)
        requires
            self.wf(),
            other.wf(),
        ensures
            b == (self@ == other@),
    {
        let mut i: usize = 0;
        while i < 256
            invariant
                i <= 256,
                self.wf(),
                other.wf(),
                forall|k: int| 0 <= k < i ==> self.flags@[k] == other.flags@[k],
            decreases 256 - i,
        {
            if self.flags[i] != other.flags[i] {
                proof {
                    let r = i as u8;
                    assert(self@.contains(r) != other@.contains(r));
                }
                return false;
            }
            i = i + 1;
        }
        assert(self@ =~= other@);
        true
    }

    fn to_set(&self) -> (s: BTreeSet<u8>)
        requires
            self.wf(),
        ensures
            s@ == self@,
    {
        let mut s: BTreeSet<u8> = BTreeSet::new();
        let mut i: usize = 0;
        while i < 256
            invariant
                i <= 256,
                self.wf(),
                forall|r: u8| #[trigger] s@.contains(r) <==> (r < i && self.flags@[r as int]),
            decreases 256 - i,
        {
            if self.flags[i] {
                s.insert(i as u8);
            }
            i = i + 1;
        }
        assert(s@ =~= self@);
        s
    }
}

/// Registers defined by the first `n` instructions.
pub open spec fn code_defs(code: Seq<(usize, Instruction)>, n: nat) -> Set<u8>
    decreases n,
{
    if n == 0 {
        Set::empty()
    } else {
        code_defs(code, (n - 1) as nat).union(instruction::classified(code[n - 1].1).defs().to_set())
    }
}

/// Registers that the first `n` instructions use before any definition among them.
pub open spec fn code_uses(code: Seq<(usize, Instruction)>, n: nat) -> Set<u8>
    decreases n,
{
    if n == 0 {
        Set::empty()
    } else {
        let used = instruction::classified(code[n - 1].1).uses().to_set();
        code_uses(code, (n - 1) as nat).union(used.difference(code_defs(code, (n - 1) as nat)))
    }
}

pub open spec fn block_defs(b: BasicBlock) -> Set<u8> {
    code_defs(b.instructions@, b.instructions@.len())
}

pub open spec fn block_uses(b: BasicBlock) -> Set<u8> {
    code_uses(b.instructions@, b.instructions@.len())
}

fn add_all(set: &mut RegSet, regs: &Vec<u8>, without: &RegSet)
    requires
        old(set).wf(),
        without.wf(),
    ensures
        final(set).wf(),
        final(set)@ == old(set)@.union(regs@.to_set().difference(without@)),
{
    let ghost before = set@;
    let mut i: usize = 0;
    while i < regs.len()
        invariant
            i <= regs@.len(),
            set.wf(),
            without.wf(),
            set@ == before.union(regs@.take(i as int).to_set().difference(without@)),
        decreases regs@.len() - i,
    {
        let r: u8 = regs[i];
        let ghost taken = regs@.take(i as int);
        proof {
            assert(regs@.take(i + 1) =~= taken.push(r));
            ordered::lemma_push_to_set(taken, r);
        }
        if !without.contains(r) {
            set.insert(r);
        }
        i = i + 1;
        assert(set@ =~= before.union(regs@.take(i as int).to_set().difference(without@)));
    }
    assert(regs@.take(i as int) =~= regs@);
}

/// Compute use[B] and def[B] for a basic block.
/// - use[B] = registers used in B before any definition in B
/// - def[B] = registers defined in B
fn compute_block_use_def(block: &BasicBlock) -> (r: (RegSet, RegSet))
    ensures
        r.0.wf(),
        r.1.wf(),
        r.0@ == block_uses(*block),
        r.1@ == block_defs(*block),
{
    let ghost code = block.instructions@;
    let mut use_set = RegSet::empty();
    let mut def_set = RegSet::empty();
    let nothing = RegSet::empty();
    let mut i: usize = 0;
    while i < block.instructions.len()
        invariant
            i <= code.len(),
            code == block.instructions@,
            use_set.wf(),
            def_set.wf(),
            nothing.wf(),
            nothing@ == Set::<u8>::empty(),
            use_set@ == code_uses(code, i as nat),
            def_set@ == code_defs(code, i as nat),
        decreases code.len() - i,
    {
        let (defs, uses) = extract_def_use(&block.instructions[i].1);
        add_all(&mut use_set, &uses, &def_set);
        let ghost known = def_set@;
        add_all(&mut def_set, &defs, &nothing);
        assert(def_set@ =~= known.union(defs@.to_set()));
        i = i + 1;
    }
    (use_set, def_set)
}

/// Extract which registers are defined and used by an instruction.
/// Returns (defined_registers, used_registers).
pub fn extract_def_use(instr: &Instruction) -> (r: (Vec<u8>, Vec<u8>))
    ensures
        r.0@ == instruction::classified(*instr).defs(),
        r.1@ == instruction::classified(*instr).uses(),
{
    InstructionShape::classify(instr).def_use()
}

/// The registers live into and out of each block.
#[verifier::ext_equal]
pub struct Liveness {
    pub live_in: Map<usize, Set<u8>>,
    pub live_out: Map<usize, Set<u8>>,
}

/// Whether `reg` is live at the start of the block at `pc`: it is read, along a path
/// of at most `n` edges, before it is written.
pub open spec fn live_within(cfg: ControlFlowGraph, pc: usize, reg: u8, n: nat) -> bool
    decreases n,
{
    cfg.blocks@.contains_key(pc) && (block_uses(cfg.blocks@[pc]).contains(reg) || (n > 0
        && !block_defs(cfg.blocks@[pc]).contains(reg) && exists|k: int|
        0 <= k < cfg.blocks@[pc].successors@.len() && live_within(
            cfg,
            #[trigger] cfg.blocks@[pc].successors@[k],
            reg,
            (n - 1) as nat,
        )))
}

pub open spec fn live(cfg: ControlFlowGraph, pc: usize, reg: u8) -> bool {
    exists|n: nat| live_within(cfg, pc, reg, n)
}

/// Union of the live-in sets of the first `n` of `succs`.
pub open spec fn union_live(live_in: Map<usize, Set<u8>>, succs: Seq<usize>, n: nat) -> Set<u8>
    decreases n,
{
    if n == 0 {
        Set::empty()
    } else {
        let rest = union_live(live_in, succs, (n - 1) as nat);
        let s = succs[n - 1];
        if live_in.contains_key(s) {
            rest.union(live_in[s])
        } else {
            rest
        }
    }
}

/// live_out[B]: the union of live_in[S] over the successors S.
pub open spec fn out_of(cfg: ControlFlowGraph, live_in: Map<usize, Set<u8>>, pc: usize) -> Set<u8> {
    union_live(live_in, cfg.blocks@[pc].successors@, cfg.blocks@[pc].successors@.len())
}

/// live_in[B]: use[B], and live_out[B] without def[B].
pub open spec fn in_of(cfg: ControlFlowGraph, out: Set<u8>, pc: usize) -> Set<u8> {
    block_uses(cfg.blocks@[pc]).union(out.difference(block_defs(cfg.blocks@[pc])))
}

/// Sources of the edges into `pc` from the first `n` of `keys`.
pub open spec fn sources(cfg: ControlFlowGraph, keys: Seq<usize>, pc: usize, n: nat) -> Seq<usize>
    decreases n,
{
    if n == 0 {
        seq![]
    } else {
        let k = keys[n - 1];
        let succs = cfg.blocks@[k].successors@;
        sources(cfg, keys, pc, (n - 1) as nat) + cfg::edges_from(k, succs, pc, succs.len())
    }
}

/// Blocks with an edge to `pc`, in order.
pub open spec fn graph_sources(cfg: ControlFlowGraph, pc: usize) -> Seq<usize> {
    let keys = ordered::ascending(cfg.blocks@.dom());
    sources(cfg, keys, pc, keys.len())
}

/// `w` with those of the first `n` of `ps` at its end that it does not hold yet.
pub open spec fn push_missing(w: Seq<usize>, ps: Seq<usize>, n: nat) -> Seq<usize>
    decreases n,
{
    if n == 0 {
        w
    } else {
        let prev = push_missing(w, ps, (n - 1) as nat);
        if prev.contains(ps[n - 1]) {
            prev
        } else {
            prev.push(ps[n - 1])
        }
    }
}

/// State of the liveness iteration: blocks still to look at, last one first, and the
/// sets found so far.
#[verifier::ext_equal]
struct Iteration {
    worklist: Seq<usize>,
    live_in: Map<usize, Set<u8>>,
    live_out: Map<usize, Set<u8>>,
}

/// Look at the last block of the worklist; where its sets change, its predecessors
/// are to be looked at again.
spec fn live_step(cfg: ControlFlowGraph, s: Iteration) -> Iteration {
    let pc = s.worklist.last();
    let rest = s.worklist.drop_last();
    if !cfg.blocks@.contains_key(pc) {
        Iteration { worklist: rest, ..s }
    } else {
        let out = out_of(cfg, s.live_in, pc);
        let inn = in_of(cfg, out, pc);
        if inn == s.live_in[pc] && out == s.live_out[pc] {
            Iteration { worklist: rest, ..s }
        } else {
            let ps = graph_sources(cfg, pc);
            Iteration {
                worklist: push_missing(rest, ps, ps.len()),
                live_in: s.live_in.insert(pc, inn),
                live_out: s.live_out.insert(pc, out),
            }
        }
    }
}

/// Order in which the blocks are first looked at: post-order from the entry, then from
/// every other block.
spec fn live_order(cfg: ControlFlowGraph) -> Seq<usize> {
    graph::post_order(cfg, seq![cfg.entry_pc] + ordered::ascending(cfg.blocks@.dom()))
}

spec fn live_start(cfg: ControlFlowGraph) -> Iteration {
    let nothing = Map::new(|pc: usize| cfg.blocks@.contains_key(pc), |pc: usize| Set::<u8>::empty());
    Iteration { worklist: live_order(cfg), live_in: nothing, live_out: nothing }
}

/// What is live: into a block what is read before it is written, and out of it what is
/// live into one of its successors.
pub open spec fn liveness(cfg: ControlFlowGraph) -> Liveness {
    let live_in = Map::new(
        |pc: usize| cfg.blocks@.contains_key(pc),
        |pc: usize| Set::new(|reg: u8| live(cfg, pc, reg)),
    );
    Liveness {
        live_in,
        live_out: Map::new(
            |pc: usize| cfg.blocks@.contains_key(pc),
            |pc: usize| out_of(cfg, live_in, pc),
        ),
    }
}

/// Whether the map of register sets `m` is `s`.
pub open spec fn sets_are(m: Map<usize, BTreeSet<u8>>, s: Map<usize, Set<u8>>) -> bool {
    &&& m.dom() == s.dom()
    &&& forall|pc: usize| #[trigger] m.contains_key(pc) ==> m[pc]@ == s[pc]
}

spec fn masks_are(m: Map<usize, RegSet>, s: Map<usize, Set<u8>>) -> bool {
    &&& m.dom() == s.dom()
    &&& forall|pc: usize| #[trigger] m.contains_key(pc) ==> m[pc].wf() && m[pc]@ == s[pc]
}

fn union_of_successors(live_in: &BTreeMap<usize, RegSet>, succs: &Vec<usize>, s: Ghost<
    Map<usize, Set<u8>>,
>) -> (out: RegSet)
    requires
        masks_are(live_in@, s@),
    ensures
        out.wf(),
        out@ == union_live(s@, succs@, succs@.len()),
{
    let mut out = RegSet::empty();
    let nothing = RegSet::empty();
    let mut i: usize = 0;
    while i < succs.len()
        invariant
            i <= succs@.len(),
            masks_are(live_in@, s@),
            out.wf(),
            nothing.wf(),
            nothing@ == Set::<u8>::empty(),
            out@ == union_live(s@, succs@, i as nat),
        decreases succs@.len() - i,
    {
        let ghost before = out@;
        assert(live_in@.contains_key(succs@[i as int]) == s@.contains_key(succs@[i as int]));
        if let Some(set) = live_in.get(&succs[i]) {
            out.add_except(set, &nothing);
            assert(out@ =~= before.union(set@));
        }
        i = i + 1;
    }
    out
}

/// Whether `v` holds `x`.
pub fn holds_pc(v: &Vec<usize>, x: usize) -> (b: bool)
    ensures
        b == v@.contains(x),
{
    let mut i: usize = 0;
    while i < v.len()
        invariant
            i <= v@.len(),
            forall|k: int| 0 <= k < i ==> v@[k] != x,
        decreases v@.len() - i,
    {
        if v[i] == x {
            return true;
        }
        i = i + 1;
    }
    false
}

fn list_sources(cfg: &ControlFlowGraph, keys: &Vec<usize>, pc: usize) -> (r: Vec<usize>)
    requires
        forall|i: int| 0 <= i < keys@.len() ==> cfg.blocks@.contains_key(#[trigger] keys@[i]),
    ensures
        r@ == sources(*cfg, keys@, pc, keys@.len()),
{
    let mut r: Vec<usize> = Vec::new();
    let mut i: usize = 0;
    while i < keys.len()
        invariant
            i <= keys@.len(),
            forall|i: int| 0 <= i < keys@.len() ==> cfg.blocks@.contains_key(#[trigger] keys@[i]),
            r@ == sources(*cfg, keys@, pc, i as nat),
        decreases keys@.len() - i,
    {
        let ghost before = r@;
        let k: usize = keys[i];
        assert(cfg.blocks@.contains_key(keys@[i as int]));
        if let Some(block) = cfg.blocks.get(&k) {
            let mut j: usize = 0;
            while j < block.successors.len()
                invariant
                    cfg.blocks@.contains_key(k),
                    *block == cfg.blocks@[k],
                    j <= block.successors@.len(),
                    r@ == before + cfg::edges_from(k, block.successors@, pc, j as nat),
                decreases block.successors@.len() - j,
            {
                let ghost prev = cfg::edges_from(k, block.successors@, pc, j as nat);
                if block.successors[j] == pc {
                    r.push(k);
                    assert(before + prev.push(k) =~= (before + prev).push(k));
                }
                j = j + 1;
            }
        }
        i = i + 1;
    }
    r
}

/// Blocks with an edge to each block.
fn source_lists(cfg: &ControlFlowGraph, keys: &Vec<usize>) -> (m: BTreeMap<usize, Vec<usize>>)
    requires
        keys@ == ordered::ascending(cfg.blocks@.dom()),
        keys@.to_set() == cfg.blocks@.dom(),
    ensures
        m@.dom() == cfg.blocks@.dom(),
        forall|pc: usize| #[trigger] m@.contains_key(pc) ==> m@[pc]@ == graph_sources(*cfg, pc),
{
    assert forall|i: int| 0 <= i < keys@.len() implies cfg.blocks@.contains_key(
        #[trigger] keys@[i],
    ) by {
        assert(keys@.to_set().contains(keys@[i]));
    }
    let mut m: BTreeMap<usize, Vec<usize>> = BTreeMap::new();
    let mut i: usize = 0;
    while i < keys.len()
        invariant
            i <= keys@.len(),
            keys@ == ordered::ascending(cfg.blocks@.dom()),
            forall|i: int| 0 <= i < keys@.len() ==> cfg.blocks@.contains_key(#[trigger] keys@[i]),
            forall|pc: usize| #[trigger]
                m@.contains_key(pc) ==> m@[pc]@ == graph_sources(*cfg, pc),
            forall|pc: usize| #[trigger]
                m@.contains_key(pc) <==> exists|k: int| 0 <= k < i && #[trigger] keys@[k] == pc,
        decreases keys@.len() - i,
    {
        let k: usize = keys[i];
        let list = list_sources(cfg, keys, k);
        let ghost before = m@;
        m.insert(k, list);
        assert forall|pc: usize| #[trigger] m@.contains_key(pc) implies exists|j: int|
            0 <= j < i + 1 && #[trigger] keys@[j] == pc by {
            if pc == k {
                assert(keys@[i as int] == pc);
            } else {
                assert(before.contains_key(pc));
            }
        }
        assert forall|pc: usize|
            (exists|j: int| 0 <= j < i + 1 && #[trigger] keys@[j] == pc) implies #[trigger]
        m@.contains_key(pc) by {
            if pc != k {
                assert(before.contains_key(pc));
            }
        }
        i = i + 1;
    }
    assert forall|pc: usize| m@.contains_key(pc) <==> cfg.blocks@.contains_key(pc) by {
        if cfg.blocks@.contains_key(pc) {
            assert(keys@.to_set().contains(pc));
            let k = choose|k: int| 0 <= k < keys@.len() && keys@[k] == pc;
            assert(keys@[k] == pc);
        }
    }
    assert(m@.dom() =~= cfg.blocks@.dom());
    m
}

/// Whether register sets solve the liveness equations at every block: live out of it is what is
/// live into one of its successors, and live into it what it reads before it writes it and what
/// is live out of it without being written in it.
pub open spec fn solves_liveness(
    cfg: ControlFlowGraph,
    live_in: Map<usize, BTreeSet<u8>>,
    live_out: Map<usize, BTreeSet<u8>>,
) -> bool {
    &&& live_in.dom() == cfg.blocks@.dom()
    &&& live_out.dom() == cfg.blocks@.dom()
    &&& forall|pc: usize| #[trigger]
        cfg.blocks@.contains_key(pc) ==> {
            let b = cfg.blocks@[pc];
            &&& live_out[pc]@ == Set::new(|reg: u8| live_behind(live_in, b.successors@, reg))
            &&& live_in[pc]@ == block_uses(b).union(live_out[pc]@.difference(block_defs(b)))
        }
}

/// Whether `reg` is live into one of `succs`.
pub open spec fn live_behind(
    live_in: Map<usize, BTreeSet<u8>>,
    succs: Seq<usize>,
    reg: u8,
) -> bool {
    exists|k: int|
        0 <= k < succs.len() && live_in.contains_key(#[trigger] succs[k])
            && live_in[succs[k]]@.contains(reg)
}

proof fn lemma_solved(
    cfg: ControlFlowGraph,
    live_in: Map<usize, BTreeSet<u8>>,
    live_out: Map<usize, BTreeSet<u8>>,
)
    requires
        sets_are(live_in, liveness(cfg).live_in),
        sets_are(live_out, liveness(cfg).live_out),
    ensures
        solves_liveness(cfg, live_in, live_out),
{
    let all = liveness(cfg);
    assert(live_in.dom() =~= cfg.blocks@.dom());
    assert(live_out.dom() =~= cfg.blocks@.dom());
    assert forall|pc: usize| #[trigger] cfg.blocks@.contains_key(pc) implies {
        let b = cfg.blocks@[pc];
        &&& live_out[pc]@ == Set::new(|reg: u8| live_behind(live_in, b.successors@, reg))
        &&& live_in[pc]@ == block_uses(b).union(live_out[pc]@.difference(block_defs(b)))
    } by {
        let b = cfg.blocks@[pc];
        law_liveness_equations(cfg, pc);
        assert(live_in.contains_key(pc) && live_out.contains_key(pc));
        let want = Set::new(|reg: u8| live_behind(live_in, b.successors@, reg));
        assert forall|reg: u8| live_out[pc]@.contains(reg) == want.contains(reg) by {
            lemma_union_live(all.live_in, b.successors@, b.successors@.len(), reg);
            if live_out[pc]@.contains(reg) {
                let k = choose|k: int|
                    0 <= k < b.successors@.len() && all.live_in.contains_key(
                        #[trigger] b.successors@[k],
                    ) && all.live_in[b.successors@[k]].contains(reg);
                assert(live_in.contains_key(b.successors@[k]));
            }
            if want.contains(reg) {
                let k = choose|k: int|
                    0 <= k < b.successors@.len() && live_in.contains_key(
                        #[trigger] b.successors@[k],
                    ) && live_in[b.successors@[k]]@.contains(reg);
                assert(all.live_in.contains_key(b.successors@[k]));
            }
        }
        assert(live_out[pc]@ =~= want);
    }
}

/// The live sets of an analysis solve the liveness equations.
pub proof fn law_analysis_solves_liveness(cfg: ControlFlowGraph, df: DataFlowAnalysis)
    requires
        df.is_analysis_of(cfg),
    ensures
        solves_liveness(cfg, df.live_in@, df.live_out@),
{
    lemma_solved(cfg, df.live_in@, df.live_out@);
}

impl DataFlowAnalysis {
    /// Iterative liveness analysis using standard dataflow equations:
    /// - live_in[B] = use[B] + (live_out[B] - def[B])
    /// - live_out[B] = union of live_in[S] for all successors S of B
    pub fn compute_liveness(cfg: &ControlFlowGraph) -> (r: (
        BTreeMap<usize, BTreeSet<u8>>,
        BTreeMap<usize, BTreeSet<u8>>,
    ))
        ensures
            sets_are(r.0@, liveness(*cfg).live_in),
            sets_are(r.1@, liveness(*cfg).live_out),
            solves_liveness(*cfg, r.0@, r.1@),
    {
        let keys: Vec<usize> = keys_of(&cfg.blocks);
        let preds = source_lists(cfg, &keys);
        let mut starts: Vec<usize> = Vec::new();
        starts.push(cfg.entry_pc);
        let mut i: usize = 0;
        let mut live_in: BTreeMap<usize, RegSet> = BTreeMap::new();
        let mut live_out: BTreeMap<usize, RegSet> = BTreeMap::new();
        while i < keys.len()
            invariant
                i <= keys@.len(),
                starts@ =~= seq![cfg.entry_pc] + keys@.take(i as int),
                live_in@.dom() =~= keys@.take(i as int).to_set(),
                live_out@.dom() =~= keys@.take(i as int).to_set(),
                forall|pc: usize| #[trigger]
                    live_in@.contains_key(pc) ==> live_in@[pc].wf() && live_in@[pc]@ == Set::<
                        u8,
                    >::empty(),
                forall|pc: usize| #[trigger]
                    live_out@.contains_key(pc) ==> live_out@[pc].wf() && live_out@[pc]@ == Set::<
                        u8,
                    >::empty(),
            decreases keys@.len() - i,
        {
            proof {
                let taken = keys@.take(i as int);
                assert(keys@.take(i + 1) =~= taken.push(keys@[i as int]));
                ordered::lemma_push_to_set(taken, keys@[i as int]);
            }
            starts.push(keys[i]);
            live_in.insert(keys[i], RegSet::empty());
            live_out.insert(keys[i], RegSet::empty());
            i = i + 1;
        }
        assert(keys@.take(i as int) =~= keys@);
        let mut worklist: Vec<usize> = post_order_from(cfg, &starts);
        let ghost mut s = live_start(*cfg);
        proof {
            assert(live_in@.dom() =~= s.live_in.dom());
            assert(live_out@.dom() =~= s.live_out.dom());
        }
        proof {
            lemma_order_complete(*cfg);
            lemma_start(*cfg);
            lemma_total_bound(s, keys@, keys@.len());
        }
        while worklist.len() > 0
            invariant
                keys@ == ordered::ascending(cfg.blocks@.dom()),
                keys@.to_set() == cfg.blocks@.dom(),
                balanced_or_pending(*cfg, s),
                only_live(*cfg, s.live_in),
                growing(*cfg, s),
                total(s, keys@, keys@.len()) <= 512 * keys@.len(),
                preds@.dom() == cfg.blocks@.dom(),
                forall|pc: usize| #[trigger]
                    preds@.contains_key(pc) ==> preds@[pc]@ == graph_sources(*cfg, pc),
                s.worklist == worklist@,
                s.live_in.dom() == cfg.blocks@.dom(),
                s.live_out.dom() == cfg.blocks@.dom(),
                masks_are(live_in@, s.live_in),
                masks_are(live_out@, s.live_out),
            decreases 512 * keys@.len() - total(s, keys@, keys@.len()), worklist@.len(),
        {
            let ghost old_s = s;
            let ghost next = live_step(*cfg, s);
            if let Some(pc) = worklist.pop() {
                assert(pc == old_s.worklist.last());
                assert(worklist@ =~= old_s.worklist.drop_last());
                assert(preds@.contains_key(pc) == cfg.blocks@.contains_key(pc));
                assert(live_in@.contains_key(pc) == cfg.blocks@.contains_key(pc));
                assert(live_out@.contains_key(pc) == cfg.blocks@.contains_key(pc));
                if let Some(block) = cfg.blocks.get(&pc) {
                    let new_out = union_of_successors(
                        &live_in,
                        &block.successors,
                        Ghost(old_s.live_in),
                    );
                    let (mut new_in, defs) = compute_block_use_def(block);
                    new_in.add_except(&new_out, &defs);
                    assert(new_in@ == in_of(*cfg, out_of(*cfg, old_s.live_in, pc), pc));
                    let unchanged: bool = match (live_in.get(&pc), live_out.get(&pc)) {
                        (Some(a), Some(b)) => a.same(&new_in) && b.same(&new_out),
                        _ => false,
                    };
                    if !unchanged {
                        live_in.insert(pc, new_in);
                        live_out.insert(pc, new_out);
                        if let Some(list) = preds.get(&pc) {
                            let ghost rest = worklist@;
                            let mut j: usize = 0;
                            while j < list.len()
                                invariant
                                    j <= list@.len(),
                                    worklist@ == push_missing(rest, list@, j as nat),
                                decreases list@.len() - j,
                            {
                                if !holds_pc(&worklist, list[j]) {
                                    worklist.push(list[j]);
                                }
                                j = j + 1;
                            }
                        }
                        assert(live_in@.dom() =~= next.live_in.dom());
                        assert(live_out@.dom() =~= next.live_out.dom());
                    }
                }
            }
            proof {
                lemma_step_balanced(*cfg, old_s);
                lemma_step_only_live(*cfg, old_s);
                lemma_step_growing(*cfg, old_s);
                lemma_step_total(*cfg, old_s, keys@);
                s = next;
                lemma_total_bound(s, keys@, keys@.len());
                assert(s.live_in.dom() =~= cfg.blocks@.dom());
                assert(s.live_out.dom() =~= cfg.blocks@.dom());
            }
        }
        proof {
            lemma_settled(*cfg, s);
        }
        let a = to_sets(&keys, &live_in, Ghost(s.live_in));
        let b = to_sets(&keys, &live_out, Ghost(s.live_out));
        proof {
            lemma_solved(*cfg, a@, b@);
        }
        (a, b)
    }
}

fn to_sets(keys: &Vec<usize>, masks: &BTreeMap<usize, RegSet>, s: Ghost<Map<usize, Set<u8>>>) -> (r:
    BTreeMap<usize, BTreeSet<u8>>)
    requires
        keys@.to_set() == s@.dom(),
        masks_are(masks@, s@),
    ensures
        sets_are(r@, s@),
{
    let mut r: BTreeMap<usize, BTreeSet<u8>> = BTreeMap::new();
    let mut i: usize = 0;
    while i < keys.len()
        invariant
            i <= keys@.len(),
            keys@.to_set() == s@.dom(),
            masks_are(masks@, s@),
            r@.dom() =~= keys@.take(i as int).to_set(),
            forall|pc: usize| #[trigger] r@.contains_key(pc) ==> r@[pc]@ == s@[pc],
        decreases keys@.len() - i,
    {
        proof {
            let taken = keys@.take(i as int);
            assert(keys@.take(i + 1) =~= taken.push(keys@[i as int]));
            ordered::lemma_push_to_set(taken, keys@[i as int]);
            assert(keys@.to_set().contains(keys@[i as int]));
            assert(masks@.contains_key(keys@[i as int]));
        }
        if let Some(mask) = masks.get(&keys[i]) {
            r.insert(keys[i], mask.to_set());
        }
        i = i + 1;
    }
    assert(keys@.take(i as int) =~= keys@);
    r
}

/// Uses of `reg` from the `i`th instruction on, up to and with its next definition,
/// and whether there is one.
pub open spec fn scan_uses(code: Seq<(usize, Instruction)>, reg: u8, i: int) -> (Seq<Use>, bool)
    decreases code.len() - i,
{
    if i < 0 || i >= code.len() {
        (seq![], false)
    } else {
        let shape = instruction::classified(code[i].1);
        let here: Seq<Use> = if shape.uses().contains(reg) {
            seq![Use { pc: code[i].0, reg }]
        } else {
            seq![]
        };
        if shape.defs().contains(reg) {
            (here, true)
        } else {
            let (rest, killed) = scan_uses(code, reg, i + 1);
            (here + rest, killed)
        }
    }
}

/// The same behind the instruction at `pc`, which is looked for from `i` on unless
/// `found`; further instructions at `pc` are passed over.
pub open spec fn scan_behind(
    code: Seq<(usize, Instruction)>,
    pc: usize,
    reg: u8,
    i: int,
    found: bool,
) -> (Seq<Use>, bool)
    decreases code.len() - i,
{
    if i < 0 || i >= code.len() {
        (seq![], false)
    } else if code[i].0 == pc {
        scan_behind(code, pc, reg, i + 1, true)
    } else if !found {
        scan_behind(code, pc, reg, i + 1, false)
    } else {
        let shape = instruction::classified(code[i].1);
        let here: Seq<Use> = if shape.uses().contains(reg) {
            seq![Use { pc: code[i].0, reg }]
        } else {
            seq![]
        };
        if shape.defs().contains(reg) {
            (here, true)
        } else {
            let (rest, killed) = scan_behind(code, pc, reg, i + 1, true);
            (here + rest, killed)
        }
    }
}

/// State of the search for uses beyond the block of the definition.
#[verifier::ext_equal]
pub struct UseSearch {
    pub worklist: Seq<usize>,
    pub seen: Set<usize>,
    pub uses: Seq<Use>,
}

/// Most blocks that a search for uses looks at.
pub const MAX_BLOCKS_TO_VISIT: usize = 200;

/// `w` with those of the first `n` of `ps` at its end that are not in `seen`.
pub open spec fn push_unseen(w: Seq<usize>, ps: Seq<usize>, seen: Set<usize>, n: nat) -> Seq<usize>
    decreases n,
{
    if n == 0 {
        w
    } else {
        let prev = push_unseen(w, ps, seen, (n - 1) as nat);
        if seen.contains(ps[n - 1]) {
            prev
        } else {
            prev.push(ps[n - 1])
        }
    }
}

/// Look at the last block of the worklist; the search ends once it has seen
/// `MAX_BLOCKS_TO_VISIT` blocks.
pub open spec fn search_step(cfg: ControlFlowGraph, reg: u8, s: UseSearch) -> UseSearch {
    let pc = s.worklist.last();
    let rest = s.worklist.drop_last();
    if s.seen.contains(pc) {
        UseSearch { worklist: rest, ..s }
    } else if s.seen.len() >= MAX_BLOCKS_TO_VISIT {
        UseSearch { worklist: seq![], ..s }
    } else {
        let seen = s.seen.insert(pc);
        if !cfg.blocks@.contains_key(pc) {
            UseSearch { worklist: rest, seen, uses: s.uses }
        } else {
            let b = cfg.blocks@[pc];
            let (found, killed) = scan_uses(b.instructions@, reg, 0);
            UseSearch {
                worklist: if killed {
                    rest
                } else {
                    push_unseen(rest, b.successors@, seen, b.successors@.len())
                },
                seen,
                uses: s.uses + found,
            }
        }
    }
}

/// The search, finished.
pub open spec fn searched(cfg: ControlFlowGraph, reg: u8, s: UseSearch) -> UseSearch
    decreases MAX_BLOCKS_TO_VISIT - s.seen.len(), s.worklist.len(),
{
    if s.worklist.len() == 0 || !s.seen.finite() {
        s
    } else {
        searched(cfg, reg, search_step(cfg, reg, s))
    }
}

/// Uses that a definition in `block` reaches: behind it in the block, then in the
/// blocks behind unless the register is defined again. The block itself is one of these
/// where an edge leads back to it.
pub open spec fn uses_of(cfg: ControlFlowGraph, block: BasicBlock, def: Definition) -> Seq<Use> {
    let (own, killed) = scan_behind(block.instructions@, def.pc, def.reg, 0, false);
    if killed {
        own
    } else {
        searched(
            cfg,
            def.reg,
            UseSearch {
                worklist: block.successors@,
                seen: Set::empty(),
                uses: own,
            },
        ).uses
    }
}

fn holds_reg(v: &Vec<u8>, x: u8) -> (b: bool)
    ensures
        b == v@.contains(x),
{
    let mut i: usize = 0;
    while i < v.len()
        invariant
            i <= v@.len(),
            forall|k: int| 0 <= k < i ==> v@[k] != x,
        decreases v@.len() - i,
    {
        if v[i] == x {
            return true;
        }
        i = i + 1;
    }
    false
}

/// Append the uses of `reg` in `code`; whether it is defined again.
fn collect_uses(code: &Vec<(usize, Instruction)>, reg: u8, uses: &mut Vec<Use>) -> (killed: bool)
    ensures
        final(uses)@ == old(uses)@ + scan_uses(code@, reg, 0).0,
        killed == scan_uses(code@, reg, 0).1,
{
    let ghost start = uses@;
    let mut i: usize = 0;
    while i < code.len()
        invariant
            i <= code@.len(),
            start + scan_uses(code@, reg, 0).0 == uses@ + scan_uses(code@, reg, i as int).0,
            scan_uses(code@, reg, 0).1 == scan_uses(code@, reg, i as int).1,
            start == old(uses)@,
        decreases code@.len() - i,
    {
        let ghost before = uses@;
        let ghost rest = scan_uses(code@, reg, i + 1).0;
        let (defs, used) = extract_def_use(&code[i].1);
        if holds_reg(&used, reg) {
            uses.push(Use { pc: code[i].0, reg });
            assert(before + (seq![Use { pc: code@[i as int].0, reg }] + rest) =~= uses@ + rest);
            assert(before + seq![Use { pc: code@[i as int].0, reg }] =~= uses@);
        } else {
            assert(before + (Seq::<Use>::empty() + rest) =~= uses@ + rest);
            assert(before + Seq::<Use>::empty() =~= uses@);
        }
        if holds_reg(&defs, reg) {
            return true;
        }
        i = i + 1;
    }
    assert(uses@ + Seq::<Use>::empty() =~= uses@);
    false
}

/// The same behind the instruction at `pc`.
fn collect_uses_behind(code: &Vec<(usize, Instruction)>, pc: usize, reg: u8) -> (r: (Vec<Use>, bool))
    ensures
        r.0@ == scan_behind(code@, pc, reg, 0, false).0,
        r.1 == scan_behind(code@, pc, reg, 0, false).1,
{
    let ghost whole = scan_behind(code@, pc, reg, 0, false);
    let mut uses: Vec<Use> = Vec::new();
    let mut found: bool = false;
    let mut i: usize = 0;
    while i < code.len()
        invariant
            i <= code@.len(),
            whole == scan_behind(code@, pc, reg, 0, false),
            whole.0 =~= uses@ + scan_behind(code@, pc, reg, i as int, found).0,
            whole.1 == scan_behind(code@, pc, reg, i as int, found).1,
        decreases code@.len() - i,
    {
        let ghost before = uses@;
        let ghost rest = scan_behind(code@, pc, reg, i + 1, true).0;
        if code[i].0 == pc {
            found = true;
        } else if found {
            let (defs, used) = extract_def_use(&code[i].1);
            if holds_reg(&used, reg) {
                uses.push(Use { pc: code[i].0, reg });
                assert(before + (seq![Use { pc: code@[i as int].0, reg }] + rest) =~= uses@ + rest);
            } else {
                assert(before + (Seq::<Use>::empty() + rest) =~= uses@ + rest);
            }
            if holds_reg(&defs, reg) {
                return (uses, true);
            }
        }
        i = i + 1;
    }
    (uses, false)
}

/// Find all uses of a definition within the same block and reaching into successors.
/// Limits cross-block traversal to avoid quadratic blowup on large functions.
fn find_uses_for_def(def: Definition, block: &BasicBlock, cfg: &ControlFlowGraph) -> (r: Vec<Use>)
    ensures
        r@ == uses_of(*cfg, *block, def),
{
    let reg: u8 = def.reg;
    let (mut uses, killed) = collect_uses_behind(&block.instructions, def.pc, reg);
    if killed {
        return uses;
    }
    let mut seen: BTreeSet<usize> = BTreeSet::new();
    let mut worklist: Vec<usize> = crate::cfg::copy_pcs(&block.successors);
    let ghost s0 = UseSearch {
        worklist: block.successors@,
        seen: Set::empty(),
        uses: uses@,
    };
    let ghost mut s = s0;
    while worklist.len() > 0
        invariant
            searched(*cfg, reg, s) == searched(*cfg, reg, s0),
            s.worklist == worklist@,
            s.seen == seen@,
            s.uses == uses@,
            seen@.finite(),
            seen@.len() <= MAX_BLOCKS_TO_VISIT,
        decreases MAX_BLOCKS_TO_VISIT - seen@.len(), worklist@.len(),
    {
        let ghost old_s = s;
        proof {
            s = search_step(*cfg, reg, s);
        }
        if let Some(pc) = worklist.pop() {
            assert(worklist@ =~= old_s.worklist.drop_last());
            if !seen.contains(&pc) {
                if seen.len() >= MAX_BLOCKS_TO_VISIT {
                    worklist = Vec::new();
                    assert(worklist@ =~= s.worklist);
                } else {
                    seen.insert(pc);
                    if let Some(b) = cfg.blocks.get(&pc) {
                        let again: bool = collect_uses(&b.instructions, reg, &mut uses);
                        if !again {
                            let ghost rest = worklist@;
                            let mut j: usize = 0;
                            while j < b.successors.len()
                                invariant
                                    j <= b.successors@.len(),
                                    worklist@ == push_unseen(rest, b.successors@, seen@, j as nat),
                                decreases b.successors@.len() - j,
                            {
                                if !seen.contains(&b.successors[j]) {
                                    worklist.push(b.successors[j]);
                                }
                                j = j + 1;
                            }
                        }
                    }
                }
            }
        }
    }
    uses
}

/// Whether `code` holds the use `u` of `reg`, from the instruction at `from` on and with no
/// definition of the register in between.
pub open spec fn reads_first(code: Seq<(usize, Instruction)>, reg: u8, from: int, u: Use) -> bool {
    exists|i: int|
        from <= i < code.len() && u == (Use { pc: (#[trigger] code[i]).0, reg })
            && instruction::classified(code[i].1).uses().contains(reg) && undefined_until(
            code,
            reg,
            from,
            i,
        )
}

/// Whether none of the instructions from `from` up to the one at `to` defines `reg`.
pub open spec fn undefined_until(
    code: Seq<(usize, Instruction)>,
    reg: u8,
    from: int,
    to: int,
) -> bool {
    forall|j: int|
        from <= j < to ==> !(#[trigger] instruction::classified(code[j].1).defs().contains(reg))
}

/// Whether a path of `k` edges leads from one of `starts` to `pc`, and no block that it
/// leaves defines `reg`.
pub open spec fn arrives(
    cfg: ControlFlowGraph,
    reg: u8,
    starts: Seq<usize>,
    pc: usize,
    k: nat,
) -> bool
    decreases k,
{
    if k == 0 {
        starts.contains(pc)
    } else {
        exists|m: usize| #[trigger]
            passes(cfg, reg, m, pc) && arrives(cfg, reg, starts, m, (k - 1) as nat)
    }
}

/// Whether an edge leads from the block at `m`, which does not define `reg`, to `pc`.
pub open spec fn passes(cfg: ControlFlowGraph, reg: u8, m: usize, pc: usize) -> bool {
    cfg.blocks@.contains_key(m) && cfg.blocks@[m].successors@.contains(pc) && undefined_until(
        cfg.blocks@[m].instructions@,
        reg,
        0,
        cfg.blocks@[m].instructions@.len() as int,
    )
}

/// Where a value of `reg` arrives that leaves for `starts`.
pub open spec fn arrived(cfg: ControlFlowGraph, reg: u8, starts: Seq<usize>) -> Set<usize> {
    Set::new(|pc: usize| exists|k: nat| arrives(cfg, reg, starts, pc, k))
}

/// Whether the definition of `reg` by the instruction at `d` of `block` reaches the use
/// `u`: along edges, with no other definition in between.
pub open spec fn reaches_use(
    cfg: ControlFlowGraph,
    block: BasicBlock,
    d: int,
    reg: u8,
    u: Use,
) -> bool {
    let code = block.instructions@;
    ||| reads_first(code, reg, d + 1, u)
    ||| undefined_until(code, reg, d + 1, code.len() as int) && exists|pc: usize| #[trigger]
        arrived(cfg, reg, block.successors@).contains(pc) && cfg.blocks@.contains_key(pc)
            && reads_first(cfg.blocks@[pc].instructions@, reg, 0, u)
}

proof fn lemma_scan(code: Seq<(usize, Instruction)>, reg: u8, i: int, u: Use)
    requires
        0 <= i <= code.len(),
    ensures
        scan_uses(code, reg, i).0.contains(u) <==> reads_first(code, reg, i, u),
        scan_uses(code, reg, i).1 == !undefined_until(code, reg, i, code.len() as int),
    decreases code.len() - i,
{
    if i < code.len() {
        let shape = instruction::classified(code[i].1);
        let here: Seq<Use> = if shape.uses().contains(reg) {
            seq![Use { pc: code[i].0, reg }]
        } else {
            seq![]
        };
        lemma_scan(code, reg, i + 1, u);
        let (rest, killed) = scan_uses(code, reg, i + 1);
        let all = scan_uses(code, reg, i).0;
        if here.contains(u) {
            assert(here[0] == u);
            assert(all[0] == u);
            assert(code[i].0 == u.pc);
            assert(reads_first(code, reg, i, u));
        }
        if shape.defs().contains(reg) {
            assert(all == here);
            if reads_first(code, reg, i, u) {
                let k = choose|k: int|
                    i <= k < code.len() && u == (Use { pc: (#[trigger] code[k]).0, reg })
                        && instruction::classified(code[k].1).uses().contains(reg)
                        && undefined_until(code, reg, i, k);
                if k > i {
                    assert(instruction::classified(code[i].1).defs().contains(reg));
                }
                assert(here[0] == u);
            }
        } else {
            assert(all == here + rest);
            if rest.contains(u) {
                let k = choose|k: int| 0 <= k < rest.len() && rest[k] == u;
                assert(all[here.len() + k] == u);
                let m = choose|m: int|
                    i + 1 <= m < code.len() && u == (Use { pc: (#[trigger] code[m]).0, reg })
                        && instruction::classified(code[m].1).uses().contains(reg)
                        && undefined_until(code, reg, i + 1, m);
                assert(undefined_until(code, reg, i, m));
                assert(reads_first(code, reg, i, u));
            }
            if all.contains(u) {
                let k = choose|k: int| 0 <= k < all.len() && all[k] == u;
                if k < here.len() {
                    assert(here[k] == u);
                } else {
                    assert(rest[k - here.len()] == u);
                }
            }
            if reads_first(code, reg, i, u) {
                let k = choose|k: int|
                    i <= k < code.len() && u == (Use { pc: (#[trigger] code[k]).0, reg })
                        && instruction::classified(code[k].1).uses().contains(reg)
                        && undefined_until(code, reg, i, k);
                if k == i {
                    assert(here[0] == u);
                    assert(all[0] == u);
                } else {
                    assert(undefined_until(code, reg, i + 1, k));
                    assert(reads_first(code, reg, i + 1, u));
                }
            }
        }
    }
}

proof fn lemma_behind_is_scan(
    code: Seq<(usize, Instruction)>,
    d: int,
    reg: u8,
    i: int,
)
    requires
        0 <= i <= code.len(),
        0 <= d < code.len(),
        forall|j: int| 0 <= j < code.len() && j != d ==> (#[trigger] code[j]).0 != code[d].0,
    ensures
        i <= d ==> scan_behind(code, code[d].0, reg, i, false) == scan_uses(code, reg, d + 1),
        i > d ==> scan_behind(code, code[d].0, reg, i, true) == scan_uses(code, reg, i),
    decreases code.len() - i,
{
    if i < code.len() {
        lemma_behind_is_scan(code, d, reg, i + 1);
    }
}

proof fn lemma_push_unseen(w: Seq<usize>, ps: Seq<usize>, seen: Set<usize>, n: nat, x: usize)
    requires
        n <= ps.len(),
    ensures
        w.contains(x) ==> push_unseen(w, ps, seen, n).contains(x),
        push_unseen(w, ps, seen, n).contains(x) ==> w.contains(x) || ps.contains(x),
        forall|k: int|
            0 <= k < n && #[trigger] ps[k] == x && !seen.contains(x) ==> push_unseen(
                w,
                ps,
                seen,
                n,
            ).contains(x),
    decreases n,
{
    if n > 0 {
        lemma_push_unseen(w, ps, seen, (n - 1) as nat, x);
        let prev = push_unseen(w, ps, seen, (n - 1) as nat);
        ordered::lemma_push_key(prev, ps[n - 1], x);
    }
}

/// What holds of a search that left for `starts` with the uses `own`.
spec fn on_course(cfg: ControlFlowGraph, reg: u8, starts: Seq<usize>, own: Seq<Use>, s: UseSearch) -> bool {
    &&& s.seen.finite()
    &&& s.seen.subset_of(arrived(cfg, reg, starts))
    &&& forall|x: usize| #[trigger] s.worklist.contains(x) ==> arrived(cfg, reg, starts).contains(x)
    &&& forall|u: Use| #[trigger] own.contains(u) ==> s.uses.contains(u)
    &&& forall|u: Use| #[trigger]
        s.uses.contains(u) ==> own.contains(u) || exists|pc: usize| #[trigger]
            arrived(cfg, reg, starts).contains(pc) && cfg.blocks@.contains_key(pc) && reads_first(
                cfg.blocks@[pc].instructions@,
                reg,
                0,
                u,
            )
    &&& forall|x: usize| #[trigger]
        starts.contains(x) ==> s.seen.contains(x) || s.worklist.contains(x)
    &&& forall|m: usize, x: usize| #[trigger]
        passes(cfg, reg, m, x) && s.seen.contains(m) ==> s.seen.contains(x) || s.worklist.contains(
            x,
        )
    &&& forall|m: usize, u: Use|
        s.seen.contains(m) && cfg.blocks@.contains_key(m) && #[trigger] reads_first(
            cfg.blocks@[m].instructions@,
            reg,
            0,
            u,
        ) ==> s.uses.contains(u)
}

proof fn lemma_course_step(
    cfg: ControlFlowGraph,
    reg: u8,
    starts: Seq<usize>,
    own: Seq<Use>,
    s: UseSearch,
)
    requires
        on_course(cfg, reg, starts, own, s),
        s.worklist.len() > 0,
        s.seen.contains(s.worklist.last()) || s.seen.len() < MAX_BLOCKS_TO_VISIT,
    ensures
        on_course(cfg, reg, starts, own, search_step(cfg, reg, s)),
{
    let pc = s.worklist.last();
    let rest = s.worklist.drop_last();
    let t = search_step(cfg, reg, s);
    let all = arrived(cfg, reg, starts);
    assert(s.worklist[s.worklist.len() - 1] == pc);
    assert(s.worklist.contains(pc));
    assert forall|x: usize| s.worklist.contains(x) implies rest.contains(x) || x == pc by {
        let i = choose|i: int| 0 <= i < s.worklist.len() && s.worklist[i] == x;
        if i < rest.len() {
            assert(rest[i] == x);
        }
    }
    assert forall|x: usize| rest.contains(x) implies s.worklist.contains(x) by {
        let i = choose|i: int| 0 <= i < rest.len() && rest[i] == x;
        assert(s.worklist[i] == x);
    }
    if !s.seen.contains(pc) && cfg.blocks@.contains_key(pc) {
        let b = cfg.blocks@[pc];
        let code = b.instructions@;
        let (more, killed) = scan_uses(code, reg, 0);
        assert(t.uses == s.uses + more);
        assert forall|u: Use| #[trigger] t.uses.contains(u) <==> s.uses.contains(u) || more.contains(
            u,
        ) by {
            if s.uses.contains(u) {
                let i = choose|i: int| 0 <= i < s.uses.len() && s.uses[i] == u;
                assert(t.uses[i] == u);
            }
            if more.contains(u) {
                let i = choose|i: int| 0 <= i < more.len() && more[i] == u;
                assert(t.uses[s.uses.len() + i] == u);
            }
            if t.uses.contains(u) {
                let i = choose|i: int| 0 <= i < t.uses.len() && t.uses[i] == u;
                if i < s.uses.len() {
                    assert(s.uses[i] == u);
                } else {
                    assert(more[i - s.uses.len()] == u);
                }
            }
        }
        assert forall|u: Use| #[trigger] more.contains(u) == reads_first(code, reg, 0, u) by {
            lemma_scan(code, reg, 0, u);
        }
        lemma_scan(code, reg, 0, Use { pc: 0, reg });
        assert forall|x: usize| #[trigger] t.worklist.contains(x) implies all.contains(x) by {
            lemma_push_unseen(rest, b.successors@, t.seen, b.successors@.len(), x);
            if !rest.contains(x) {
                assert(passes(cfg, reg, pc, x));
                let k = choose|k: nat| arrives(cfg, reg, starts, pc, k);
                assert(arrives(cfg, reg, starts, x, k + 1));
            }
        }
        assert forall|x: usize| rest.contains(x) implies t.worklist.contains(x) by {
            lemma_push_unseen(rest, b.successors@, t.seen, b.successors@.len(), x);
        }
        assert forall|m: usize, x: usize| #[trigger] passes(cfg, reg, m, x) && t.seen.contains(
            m,
        ) implies t.seen.contains(x) || t.worklist.contains(x) by {
            if m == pc {
                assert(!killed);
                assert(t.worklist == push_unseen(rest, b.successors@, t.seen, b.successors@.len()));
                lemma_push_unseen(rest, b.successors@, t.seen, b.successors@.len(), x);
                let k = choose|k: int| 0 <= k < b.successors@.len() && b.successors@[k] == x;
                assert(b.successors@[k] == x);
            } else {
                assert(s.seen.contains(m));
                assert(s.seen.contains(x) || s.worklist.contains(x));
                if x != pc && s.worklist.contains(x) {
                    assert(rest.contains(x));
                }
            }
        }
        assert forall|x: usize| #[trigger] starts.contains(x) implies t.seen.contains(x)
            || t.worklist.contains(x) by {
            if x != pc && s.worklist.contains(x) {
                assert(rest.contains(x));
            }
        }
        assert forall|m: usize, u: Use|
            t.seen.contains(m) && cfg.blocks@.contains_key(m) && #[trigger] reads_first(
                cfg.blocks@[m].instructions@,
                reg,
                0,
                u,
            ) implies t.uses.contains(u) by {
            if m == pc {
                assert(more.contains(u));
            } else {
                assert(s.uses.contains(u));
            }
        }
        assert forall|u: Use| #[trigger] t.uses.contains(u) implies own.contains(u) || exists|
            q: usize,
        | #[trigger]
            all.contains(q) && cfg.blocks@.contains_key(q) && reads_first(
                cfg.blocks@[q].instructions@,
                reg,
                0,
                u,
            ) by {
            if !s.uses.contains(u) {
                assert(all.contains(pc));
            }
        }
    } else if !s.seen.contains(pc) {
        assert forall|m: usize, x: usize| #[trigger] passes(cfg, reg, m, x) && t.seen.contains(
            m,
        ) implies t.seen.contains(x) || t.worklist.contains(x) by {
            assert(m != pc);
        }
    }
}

proof fn lemma_course(
    cfg: ControlFlowGraph,
    reg: u8,
    starts: Seq<usize>,
    own: Seq<Use>,
    s: UseSearch,
)
    requires
        on_course(cfg, reg, starts, own, s),
    ensures
        forall|u: Use| #[trigger]
            searched(cfg, reg, s).uses.contains(u) ==> own.contains(u) || exists|pc: usize| #[trigger]
                arrived(cfg, reg, starts).contains(pc) && cfg.blocks@.contains_key(pc)
                    && reads_first(cfg.blocks@[pc].instructions@, reg, 0, u),
        forall|u: Use| #[trigger] own.contains(u) ==> searched(cfg, reg, s).uses.contains(u),
        arrived(cfg, reg, starts).finite() && arrived(cfg, reg, starts).len()
            <= MAX_BLOCKS_TO_VISIT ==> on_course(cfg, reg, starts, own, searched(cfg, reg, s))
            && searched(cfg, reg, s).worklist.len() == 0,
    decreases MAX_BLOCKS_TO_VISIT - s.seen.len(), s.worklist.len(),
{
    if s.worklist.len() > 0 {
        let pc = s.worklist.last();
        let t = search_step(cfg, reg, s);
        if s.seen.contains(pc) || s.seen.len() < MAX_BLOCKS_TO_VISIT {
            lemma_course_step(cfg, reg, starts, own, s);
            lemma_course(cfg, reg, starts, own, t);
            assert(searched(cfg, reg, s) == searched(cfg, reg, t));
        } else {
            let all = arrived(cfg, reg, starts);
            assert(s.worklist[s.worklist.len() - 1] == pc);
            assert(s.worklist.contains(pc));
            assert(t.worklist.len() == 0);
            assert(searched(cfg, reg, s) == searched(cfg, reg, t));
            assert(searched(cfg, reg, t) == t);
            assert(t.uses == s.uses);
            if all.finite() && all.len() <= MAX_BLOCKS_TO_VISIT {
                assert(s.seen.insert(pc).subset_of(all));
                vstd::set_lib::lemma_len_subset(s.seen.insert(pc), all);
            }
        }
    } else {
        assert(searched(cfg, reg, s) == s);
    }
}

proof fn lemma_all_seen(
    cfg: ControlFlowGraph,
    reg: u8,
    starts: Seq<usize>,
    own: Seq<Use>,
    s: UseSearch,
    pc: usize,
    k: nat,
)
    requires
        on_course(cfg, reg, starts, own, s),
        s.worklist.len() == 0,
        arrives(cfg, reg, starts, pc, k),
    ensures
        s.seen.contains(pc),
    decreases k,
{
    if k > 0 {
        let m = choose|m: usize| #[trigger]
            passes(cfg, reg, m, pc) && arrives(cfg, reg, starts, m, (k - 1) as nat);
        lemma_all_seen(cfg, reg, starts, own, s, m, (k - 1) as nat);
    }
}

/// The uses in the chain of a definition are reads that it reaches along edges with no
/// other definition in between; all of them, where its value arrives at no more blocks
/// than a search looks at.
pub proof fn law_chain_holds_reached_uses(
    cfg: ControlFlowGraph,
    block: BasicBlock,
    d: int,
    reg: u8,
    u: Use,
)
    requires
        0 <= d < block.instructions@.len(),
        forall|j: int|
            0 <= j < block.instructions@.len() && j != d ==> (
            #[trigger] block.instructions@[j]).0 != block.instructions@[d].0,
    ensures
        uses_of(cfg, block, Definition { pc: block.instructions@[d].0, reg }).contains(u)
            ==> reaches_use(cfg, block, d, reg, u),
        arrived(cfg, reg, block.successors@).finite() && arrived(cfg, reg, block.successors@).len()
            <= MAX_BLOCKS_TO_VISIT ==> (reaches_use(cfg, block, d, reg, u) ==> uses_of(
            cfg,
            block,
            Definition { pc: block.instructions@[d].0, reg },
        ).contains(u)),
{
    let code = block.instructions@;
    let starts = block.successors@;
    lemma_behind_is_scan(code, d, reg, 0);
    lemma_scan(code, reg, d + 1, u);
    let (own, killed) = scan_uses(code, reg, d + 1);
    if !killed {
        let s = UseSearch { worklist: starts, seen: Set::empty(), uses: own };
        assert forall|x: usize| #[trigger] starts.contains(x) implies arrived(
            cfg,
            reg,
            starts,
        ).contains(x) by {
            assert(arrives(cfg, reg, starts, x, 0));
        }
        assert(on_course(cfg, reg, starts, own, s));
        lemma_course(cfg, reg, starts, own, s);
        let t = searched(cfg, reg, s);
        let all = arrived(cfg, reg, starts);
        if all.finite() && all.len() <= MAX_BLOCKS_TO_VISIT && reaches_use(cfg, block, d, reg, u)
            && !own.contains(u) {
            let pc = choose|pc: usize| #[trigger]
                all.contains(pc) && cfg.blocks@.contains_key(pc) && reads_first(
                    cfg.blocks@[pc].instructions@,
                    reg,
                    0,
                    u,
                );
            let k = choose|k: nat| arrives(cfg, reg, starts, pc, k);
            lemma_all_seen(cfg, reg, starts, own, t, pc, k);
        }
    }
}

/// Whether `m` lists what `f` gives for each instruction of the graph, where that is
/// not empty.
pub open spec fn lists_at(
    m: Map<usize, Vec<u8>>,
    cfg: ControlFlowGraph,
    f: spec_fn(Instruction) -> Seq<u8>,
) -> bool {
    &&& forall|b: usize, i: int|
        cfg.blocks@.contains_key(b) && 0 <= i < cfg.blocks@[b].instructions@.len() && f(
            (#[trigger] cfg.blocks@[b].instructions@[i]).1,
        ).len() > 0 ==> m.contains_key(cfg.blocks@[b].instructions@[i].0)
    &&& forall|pc: usize| #[trigger]
        m.contains_key(pc) ==> exists|b: usize, i: int|
            cfg.blocks@.contains_key(b) && 0 <= i < cfg.blocks@[b].instructions@.len() && (
            #[trigger] cfg.blocks@[b].instructions@[i]).0 == pc && f(
                cfg.blocks@[b].instructions@[i].1,
            ).len() > 0 && m[pc]@ == f(cfg.blocks@[b].instructions@[i].1)
}

/// What `lists_at` says of the first `n` of `keys` and the first `k` instructions of
/// the block behind them.
spec fn lists_so_far(
    m: Map<usize, Vec<u8>>,
    cfg: ControlFlowGraph,
    f: spec_fn(Instruction) -> Seq<u8>,
    keys: Seq<usize>,
    n: int,
    k: int,
) -> bool {
    &&& forall|j: int, i: int|
        0 <= j < keys.len() && (j < n || (j == n && i < k)) && 0 <= i
            < cfg.blocks@[keys[j]].instructions@.len() && f(
            (#[trigger] cfg.blocks@[keys[j]].instructions@[i]).1,
        ).len() > 0 ==> m.contains_key(cfg.blocks@[keys[j]].instructions@[i].0)
    &&& forall|pc: usize| #[trigger]
        m.contains_key(pc) ==> exists|b: usize, i: int|
            cfg.blocks@.contains_key(b) && 0 <= i < cfg.blocks@[b].instructions@.len() && (
            #[trigger] cfg.blocks@[b].instructions@[i]).0 == pc && f(
                cfg.blocks@[b].instructions@[i].1,
            ).len() > 0 && m[pc]@ == f(cfg.blocks@[b].instructions@[i].1)
}

fn note_registers(m: &mut BTreeMap<usize, Vec<u8>>, pc: usize, regs: Vec<u8>)
    ensures
        final(m)@ == if regs@.len() > 0 {
            old(m)@.insert(pc, regs)
        } else {
            old(m)@
        },
{
    if regs.len() > 0 {
        m.insert(pc, regs);
    }
}

/// Registers defined and used at each program counter.
fn collect_def_use(cfg: &ControlFlowGraph, keys: &Vec<usize>) -> (r: (
    BTreeMap<usize, Vec<u8>>,
    BTreeMap<usize, Vec<u8>>,
))
    requires
        keys@.to_set() == cfg.blocks@.dom(),
    ensures
        lists_at(r.0@, *cfg, |i: Instruction| instruction::classified(i).defs()),
        lists_at(r.1@, *cfg, |i: Instruction| instruction::classified(i).uses()),
{
    let ghost fd = |i: Instruction| instruction::classified(i).defs();
    let ghost fu = |i: Instruction| instruction::classified(i).uses();
    let mut defs_at: BTreeMap<usize, Vec<u8>> = BTreeMap::new();
    let mut uses_at: BTreeMap<usize, Vec<u8>> = BTreeMap::new();
    let mut n: usize = 0;
    while n < keys.len()
        invariant
            n <= keys@.len(),
            keys@.to_set() == cfg.blocks@.dom(),
            fd == (|i: Instruction| instruction::classified(i).defs()),
            fu == (|i: Instruction| instruction::classified(i).uses()),
            lists_so_far(defs_at@, *cfg, fd, keys@, n as int, 0),
            lists_so_far(uses_at@, *cfg, fu, keys@, n as int, 0),
        decreases keys@.len() - n,
    {
        assert(keys@.to_set().contains(keys@[n as int]));
        if let Some(block) = cfg.blocks.get(&keys[n]) {
            let mut k: usize = 0;
            while k < block.instructions.len()
                invariant
                    n < keys@.len(),
                    k <= block.instructions@.len(),
                    cfg.blocks@.contains_key(keys@[n as int]),
                    *block == cfg.blocks@[keys@[n as int]],
                    fd == (|i: Instruction| instruction::classified(i).defs()),
                    fu == (|i: Instruction| instruction::classified(i).uses()),
                    lists_so_far(defs_at@, *cfg, fd, keys@, n as int, k as int),
                    lists_so_far(uses_at@, *cfg, fu, keys@, n as int, k as int),
                decreases block.instructions@.len() - k,
            {
                let (defs, uses) = extract_def_use(&block.instructions[k].1);
                let pc: usize = block.instructions[k].0;
                let ghost b = keys@[n as int];
                let ghost d0 = defs_at@;
                let ghost u0 = uses_at@;
                note_registers(&mut defs_at, pc, defs);
                note_registers(&mut uses_at, pc, uses);
                proof {
                    assert(cfg.blocks@[b].instructions@[k as int].0 == pc);
                    lemma_lists_step(d0, defs_at@, *cfg, fd, keys@, n as int, k as int, defs);
                    lemma_lists_step(u0, uses_at@, *cfg, fu, keys@, n as int, k as int, uses);
                }
                k = k + 1;
            }
        }
        n = n + 1;
    }
    proof {
        lemma_lists_done(defs_at@, *cfg, fd, keys@);
        lemma_lists_done(uses_at@, *cfg, fu, keys@);
    }
    (defs_at, uses_at)
}

proof fn lemma_lists_step(
    before: Map<usize, Vec<u8>>,
    after: Map<usize, Vec<u8>>,
    cfg: ControlFlowGraph,
    f: spec_fn(Instruction) -> Seq<u8>,
    keys: Seq<usize>,
    n: int,
    k: int,
    regs: Vec<u8>,
)
    requires
        0 <= n < keys.len(),
        cfg.blocks@.contains_key(keys[n]),
        0 <= k < cfg.blocks@[keys[n]].instructions@.len(),
        regs@ == f(cfg.blocks@[keys[n]].instructions@[k].1),
        lists_so_far(before, cfg, f, keys, n, k),
        after == if regs@.len() > 0 {
            before.insert(cfg.blocks@[keys[n]].instructions@[k].0, regs)
        } else {
            before
        },
    ensures
        lists_so_far(after, cfg, f, keys, n, k + 1),
{
    let at = cfg.blocks@[keys[n]].instructions@[k];
    assert forall|pc: usize| #[trigger] after.contains_key(pc) implies exists|b: usize, i: int|
        cfg.blocks@.contains_key(b) && 0 <= i < cfg.blocks@[b].instructions@.len() && (
        #[trigger] cfg.blocks@[b].instructions@[i]).0 == pc && f(
            cfg.blocks@[b].instructions@[i].1,
        ).len() > 0 && after[pc]@ == f(cfg.blocks@[b].instructions@[i].1) by {
        if regs@.len() > 0 && pc == at.0 {
            assert(cfg.blocks@[keys[n]].instructions@[k].0 == pc);
        } else {
            assert(before.contains_key(pc));
        }
    }
}

proof fn lemma_lists_done(
    m: Map<usize, Vec<u8>>,
    cfg: ControlFlowGraph,
    f: spec_fn(Instruction) -> Seq<u8>,
    keys: Seq<usize>,
)
    requires
        keys.to_set() == cfg.blocks@.dom(),
        lists_so_far(m, cfg, f, keys, keys.len() as int, 0),
    ensures
        lists_at(m, cfg, f),
{
    assert forall|b: usize, i: int|
        cfg.blocks@.contains_key(b) && 0 <= i < cfg.blocks@[b].instructions@.len() && f(
            (#[trigger] cfg.blocks@[b].instructions@[i]).1,
        ).len() > 0 implies m.contains_key(cfg.blocks@[b].instructions@[i].0) by {
        assert(keys.to_set().contains(b));
        let j = choose|j: int| 0 <= j < keys.len() && keys[j] == b;
        assert(cfg.blocks@[keys[j]].instructions@[i] == cfg.blocks@[b].instructions@[i]);
    }
}

/// The definitions at `pc` by the first `n` instructions, in order.
pub open spec fn definitions_at(code: Seq<(usize, Instruction)>, n: nat, pc: usize) -> Seq<
    Definition,
>
    decreases n,
{
    if n == 0 {
        seq![]
    } else {
        let rest = definitions_at(code, (n - 1) as nat, pc);
        if code[n - 1].0 == pc {
            rest + made_at(pc, instruction::classified(code[n - 1].1).defs())
        } else {
            rest
        }
    }
}

pub open spec fn made_at(pc: usize, regs: Seq<u8>) -> Seq<Definition> {
    regs.map_values(|reg: u8| Definition { pc, reg })
}

/// Definitions, each with the block that holds it.
pub open spec fn within(block: usize, defs: Seq<Definition>) -> Seq<(usize, Definition)> {
    defs.map_values(|d: Definition| (block, d))
}

/// The definitions at `pc` in the first `n` of the blocks `keys`.
pub open spec fn sites(cfg: ControlFlowGraph, keys: Seq<usize>, n: nat, pc: usize) -> Seq<
    (usize, Definition),
>
    decreases n,
{
    if n == 0 {
        seq![]
    } else {
        let code = cfg.blocks@[keys[n - 1]].instructions@;
        sites(cfg, keys, (n - 1) as nat, pc) + within(
            keys[n - 1],
            definitions_at(code, code.len(), pc),
        )
    }
}

/// The definitions at `pc` in the graph, with their blocks.
pub open spec fn all_sites(cfg: ControlFlowGraph, pc: usize) -> Seq<(usize, Definition)> {
    let keys = ordered::ascending(cfg.blocks@.dom());
    sites(cfg, keys, keys.len(), pc)
}

/// Whether `chains` are the def-use chains of definitions, in their order.
pub open spec fn chains_of(
    chains: Seq<DefUseChain>,
    cfg: ControlFlowGraph,
    defs: Seq<(usize, Definition)>,
) -> bool {
    &&& chains.len() == defs.len()
    &&& forall|i: int|
        0 <= i < defs.len() ==> (#[trigger] chains[i]).definition == defs[i].1 && chains[i].uses@
            == uses_of(cfg, cfg.blocks@[defs[i].0], defs[i].1)
}

/// Whether an instruction at `pc` writes a register.
pub open spec fn writes_at(cfg: ControlFlowGraph, pc: usize) -> bool {
    exists|b: usize, i: int|
        cfg.blocks@.contains_key(b) && 0 <= i < cfg.blocks@[b].instructions@.len() && (
        #[trigger] cfg.blocks@[b].instructions@[i]).0 == pc && instruction::classified(
            cfg.blocks@[b].instructions@[i].1,
        ).defs().len() > 0
}

/// Whether `m` holds, for each program counter where a register is written, the chains of
/// the definitions there.
pub open spec fn chains_are(m: Map<usize, Vec<DefUseChain>>, cfg: ControlFlowGraph) -> bool {
    &&& forall|pc: usize| #[trigger] m.contains_key(pc) <==> writes_at(cfg, pc)
    &&& forall|pc: usize| #[trigger]
        m.contains_key(pc) ==> chains_of(m[pc]@, cfg, all_sites(cfg, pc))
}

/// The same of the definitions that `f` gives for each program counter.
spec fn filled(
    m: Map<usize, Vec<DefUseChain>>,
    cfg: ControlFlowGraph,
    f: spec_fn(usize) -> Seq<(usize, Definition)>,
) -> bool {
    &&& forall|pc: usize| #[trigger] m.contains_key(pc) <==> f(pc).len() > 0
    &&& forall|pc: usize| #[trigger] m.contains_key(pc) ==> chains_of(m[pc]@, cfg, f(pc))
}

/// The definitions at `pc` in the first `n` of `keys` and by the first `i` instructions of
/// the block behind them.
spec fn sites_within(cfg: ControlFlowGraph, keys: Seq<usize>, n: nat, i: nat, pc: usize) -> Seq<
    (usize, Definition),
> {
    sites(cfg, keys, n, pc) + within(
        keys[n as int],
        definitions_at(cfg.blocks@[keys[n as int]].instructions@, i, pc),
    )
}

/// Add a chain to those of its program counter.
fn add_chain(m: &mut BTreeMap<usize, Vec<DefUseChain>>, chain: DefUseChain)
    ensures
        final(m)@.dom() == old(m)@.dom().insert(chain.definition.pc),
        forall|q: usize|
            q != chain.definition.pc && #[trigger] final(m)@.contains_key(q) ==> final(m)@[q]
                == old(m)@[q],
        final(m)@[chain.definition.pc]@ == (if old(m)@.contains_key(chain.definition.pc) {
            old(m)@[chain.definition.pc]@
        } else {
            seq![]
        }).push(chain),
{
    let pc: usize = chain.definition.pc;
    let mut list: Vec<DefUseChain> = match m.remove(&pc) {
        Some(list) => list,
        None => Vec::new(),
    };
    list.push(chain);
    m.insert(pc, list);
    assert(m@.dom() =~= old(m)@.dom().insert(pc));
}

/// Add the chains of the instruction at `i` of a block.
fn add_chains(
    m: &mut BTreeMap<usize, Vec<DefUseChain>>,
    cfg: &ControlFlowGraph,
    block: &BasicBlock,
    i: usize,
    keys: Ghost<Seq<usize>>,
    n: Ghost<nat>,
)
    requires
        n@ < keys@.len(),
        cfg.blocks@[keys@[n@ as int]] == *block,
        i < block.instructions@.len(),
        filled(old(m)@, *cfg, |q: usize| sites_within(*cfg, keys@, n@, i as nat, q)),
    ensures
        filled(final(m)@, *cfg, |q: usize| sites_within(*cfg, keys@, n@, (i + 1) as nat, q)),
{
    let pc: usize = block.instructions[i].0;
    let (defs, _uses) = extract_def_use(&block.instructions[i].1);
    let ghost key = keys@[n@ as int];
    let ghost code = block.instructions@;
    let ghost made = made_at(pc, defs@);
    let ghost before = |q: usize| sites_within(*cfg, keys@, n@, i as nat, q);
    let ghost after = |q: usize| sites_within(*cfg, keys@, n@, (i + 1) as nat, q);
    let ghost mut so_far = before;
    let mut j: usize = 0;
    proof {
        let f = |q: usize|
            if q == pc {
                before(q) + within(key, made.take(0))
            } else {
                before(q)
            };
        assert forall|q: usize| #[trigger] f(q) == before(q) by {
            assert(before(q) + within(key, made.take(0)) =~= before(q));
        }
        so_far = f;
        assert forall|q: usize| #[trigger] m@.contains_key(q) <==> f(q).len() > 0 by {
            assert(f(q) == before(q));
        }
        assert forall|q: usize| #[trigger] m@.contains_key(q) implies chains_of(m@[q]@, *cfg, f(q)) by {
            assert(f(q) == before(q));
        }
    }
    while j < defs.len()
        invariant
            j <= defs@.len(),
            made == made_at(pc, defs@),
            cfg.blocks@[key] == *block,
            so_far == (|q: usize|
                if q == pc {
                    before(q) + within(key, made.take(j as int))
                } else {
                    before(q)
                }),
            filled(m@, *cfg, so_far),
        decreases defs@.len() - j,
    {
        let def = Definition { pc, reg: defs[j] };
        let uses = find_uses_for_def(def, block, cfg);
        let ghost was = m@;
        add_chain(m, DefUseChain { definition: def, uses });
        proof {
            let f = so_far;
            let g = |q: usize|
                if q == pc {
                    before(q) + within(key, made.take(j + 1))
                } else {
                    before(q)
                };
            assert(made.take(j + 1) =~= made.take(j as int).push(def));
            assert(g(pc) =~= f(pc).push((key, def)));
            assert forall|q: usize| #[trigger] m@.contains_key(q) <==> g(q).len() > 0 by {
                assert(m@.dom().contains(q) == was.dom().insert(pc).contains(q));
                assert(was.contains_key(q) <==> f(q).len() > 0);
            }
            assert forall|q: usize| #[trigger] m@.contains_key(q) implies chains_of(
                m@[q]@,
                *cfg,
                g(q),
            ) by {
                assert(m@.dom().contains(q) == was.dom().insert(pc).contains(q));
                assert(was.contains_key(q) <==> f(q).len() > 0);
                if was.contains_key(q) {
                    assert(chains_of(was[q]@, *cfg, f(q)));
                }
            }
            so_far = g;
        }
        j = j + 1;
    }
    proof {
        assert(made.take(j as int) =~= made);
        assert forall|q: usize| #[trigger] after(q) == so_far(q) by {
            let d = definitions_at(code, i as nat, q);
            if q == pc {
                assert(within(key, d + made) =~= within(key, d) + within(key, made));
                assert(after(q) =~= so_far(q));
            }
        }
        assert forall|q: usize| #[trigger] m@.contains_key(q) <==> after(q).len() > 0 by {
            assert(after(q) == so_far(q));
        }
        assert forall|q: usize| #[trigger] m@.contains_key(q) implies chains_of(
            m@[q]@,
            *cfg,
            after(q),
        ) by {
            assert(after(q) == so_far(q));
        }
    }
}

/// Build def-use chains by finding, for each definition, all uses that
/// can be reached before another definition of the same register.
fn build_chains(cfg: &ControlFlowGraph, keys: &Vec<usize>) -> (m: BTreeMap<usize, Vec<DefUseChain>>)
    requires
        keys@ == ordered::ascending(cfg.blocks@.dom()),
        keys@.to_set() == cfg.blocks@.dom(),
    ensures
        chains_are(m@, *cfg),
{
    let mut m: BTreeMap<usize, Vec<DefUseChain>> = BTreeMap::new();
    let mut n: usize = 0;
    while n < keys.len()
        invariant
            n <= keys@.len(),
            keys@.to_set() == cfg.blocks@.dom(),
            filled(m@, *cfg, |q: usize| sites(*cfg, keys@, n as nat, q)),
        decreases keys@.len() - n,
    {
        let key: usize = keys[n];
        assert(keys@.to_set().contains(key));
        let ghost f = |q: usize| sites(*cfg, keys@, n as nat, q);
        if let Some(block) = cfg.blocks.get(&key) {
            let ghost code = block.instructions@;
            let mut i: usize = 0;
            proof {
                let g = |q: usize| sites_within(*cfg, keys@, n as nat, 0, q);
                assert forall|q: usize| #[trigger] g(q) == f(q) by {
                    assert(g(q) =~= f(q));
                }
                lemma_filled_same(m@, *cfg, f, g);
            }
            while i < block.instructions.len()
                invariant
                    n < keys@.len(),
                    cfg.blocks@[keys@[n as int]] == *block,
                    code == block.instructions@,
                    i <= code.len(),
                    filled(m@, *cfg, |q: usize| sites_within(*cfg, keys@, n as nat, i as nat, q)),
                decreases code.len() - i,
            {
                add_chains(&mut m, cfg, block, i, Ghost(keys@), Ghost(n as nat));
                i = i + 1;
            }
            proof {
                let g = |q: usize| sites_within(*cfg, keys@, n as nat, i as nat, q);
                let h = |q: usize| sites(*cfg, keys@, (n + 1) as nat, q);
                assert forall|q: usize| #[trigger] h(q) == g(q) by {}
                lemma_filled_same(m@, *cfg, g, h);
            }
        }
        n = n + 1;
    }
    proof {
        assert forall|pc: usize| #[trigger] m@.contains_key(pc) <==> writes_at(*cfg, pc) by {
            lemma_sites_written(*cfg, keys@, keys@.len(), pc);
        }
    }
    m
}

proof fn lemma_filled_same(
    m: Map<usize, Vec<DefUseChain>>,
    cfg: ControlFlowGraph,
    f: spec_fn(usize) -> Seq<(usize, Definition)>,
    g: spec_fn(usize) -> Seq<(usize, Definition)>,
)
    requires
        filled(m, cfg, f),
        forall|q: usize| #[trigger] g(q) == f(q),
    ensures
        filled(m, cfg, g),
{
    assert forall|q: usize| #[trigger] m.contains_key(q) <==> g(q).len() > 0 by {
        assert(g(q) == f(q));
    }
    assert forall|q: usize| #[trigger] m.contains_key(q) implies chains_of(m[q]@, cfg, g(q)) by {
        assert(g(q) == f(q));
    }
}

proof fn lemma_definitions_written(code: Seq<(usize, Instruction)>, n: nat, pc: usize)
    requires
        n <= code.len(),
    ensures
        definitions_at(code, n, pc).len() > 0 <==> exists|i: int|
            0 <= i < n && (#[trigger] code[i]).0 == pc && instruction::classified(
                code[i].1,
            ).defs().len() > 0,
    decreases n,
{
    if n > 0 {
        lemma_definitions_written(code, (n - 1) as nat, pc);
        let rest = definitions_at(code, (n - 1) as nat, pc);
        if rest.len() > 0 {
            let i = choose|i: int|
                0 <= i < n - 1 && (#[trigger] code[i]).0 == pc && instruction::classified(
                    code[i].1,
                ).defs().len() > 0;
            assert(code[i].0 == pc);
        }
    }
}

proof fn lemma_sites_in(cfg: ControlFlowGraph, keys: Seq<usize>, n: nat, pc: usize)
    requires
        n <= keys.len(),
    ensures
        sites(cfg, keys, n, pc).len() > 0 <==> exists|k: int|
            0 <= k < n && definitions_at(
                cfg.blocks@[#[trigger] keys[k]].instructions@,
                cfg.blocks@[keys[k]].instructions@.len(),
                pc,
            ).len() > 0,
    decreases n,
{
    if n > 0 {
        lemma_sites_in(cfg, keys, (n - 1) as nat, pc);
        if sites(cfg, keys, (n - 1) as nat, pc).len() > 0 {
            let k = choose|k: int|
                0 <= k < n - 1 && definitions_at(
                    cfg.blocks@[#[trigger] keys[k]].instructions@,
                    cfg.blocks@[keys[k]].instructions@.len(),
                    pc,
                ).len() > 0;
            assert(keys[k] == keys[k]);
        }
    }
}

proof fn lemma_sites_written(cfg: ControlFlowGraph, keys: Seq<usize>, n: nat, pc: usize)
    requires
        n == keys.len(),
        keys.to_set() == cfg.blocks@.dom(),
    ensures
        sites(cfg, keys, n, pc).len() > 0 <==> writes_at(cfg, pc),
{
    lemma_sites_in(cfg, keys, n, pc);
    if sites(cfg, keys, n, pc).len() > 0 {
        let k = choose|k: int|
            0 <= k < n && definitions_at(
                cfg.blocks@[#[trigger] keys[k]].instructions@,
                cfg.blocks@[keys[k]].instructions@.len(),
                pc,
            ).len() > 0;
        let code = cfg.blocks@[keys[k]].instructions@;
        lemma_definitions_written(code, code.len(), pc);
        assert(keys.to_set().contains(keys[k]));
        let i = choose|i: int|
            0 <= i < code.len() && (#[trigger] code[i]).0 == pc && instruction::classified(
                code[i].1,
            ).defs().len() > 0;
        assert(cfg.blocks@[keys[k]].instructions@[i].0 == pc);
    }
    if writes_at(cfg, pc) {
        let (b, i) = choose|b: usize, i: int|
            cfg.blocks@.contains_key(b) && 0 <= i < cfg.blocks@[b].instructions@.len() && (
            #[trigger] cfg.blocks@[b].instructions@[i]).0 == pc && instruction::classified(
                cfg.blocks@[b].instructions@[i].1,
            ).defs().len() > 0;
        let code = cfg.blocks@[b].instructions@;
        assert(code[i].0 == pc);
        lemma_definitions_written(code, code.len(), pc);
        assert(keys.to_set().contains(b));
        let k = choose|k: int| 0 <= k < keys.len() && keys[k] == b;
        assert(definitions_at(
            cfg.blocks@[keys[k]].instructions@,
            cfg.blocks@[keys[k]].instructions@.len(),
            pc,
        ).len() > 0);
    }
}

/// Total length of the lists under the first `n` of `keys`.
pub open spec fn total_listed(m: Map<usize, Vec<u8>>, keys: Seq<usize>, n: nat) -> nat
    decreases n,
{
    if n == 0 {
        0
    } else {
        total_listed(m, keys, (n - 1) as nat) + m[keys[n - 1]]@.len()
    }
}

fn count_listed(m: &BTreeMap<usize, Vec<u8>>) -> (total: u128)
    ensures
        total == total_listed(m@, ordered::ascending(m@.dom()), m@.dom().len()),
{
    let keys: Vec<usize> = keys_of(m);
    let mut total: u128 = 0;
    let mut i: usize = 0;
    while i < keys.len()
        invariant
            i <= keys@.len(),
            keys@.to_set() == m@.dom(),
            total == total_listed(m@, keys@, i as nat),
            total <= i * 0xffff_ffff_ffff_ffff,
        decreases keys@.len() - i,
    {
        assert(keys@.to_set().contains(keys@[i as int]));
        if let Some(list) = m.get(&keys[i]) {
            let len: usize = list.len();
            assert(i * 0xffff_ffff_ffff_ffff + 0xffff_ffff_ffff_ffff <= 0xffff_ffff_ffff_ffff
                * 0xffff_ffff_ffff_ffff) by (nonlinear_arith)
                requires
                    i < 0xffff_ffff_ffff_ffff,
            ;
            assert((i + 1) * 0xffff_ffff_ffff_ffff == i * 0xffff_ffff_ffff_ffff
                + 0xffff_ffff_ffff_ffff) by (nonlinear_arith);
            total = total + len as u128;
        }
        i = i + 1;
    }
    total
}

/// The chains under the first `n` of `keys`, one list after the other.
pub open spec fn all_chains(m: Map<usize, Vec<DefUseChain>>, keys: Seq<usize>, n: nat) -> Seq<
    DefUseChain,
>
    decreases n,
{
    if n == 0 {
        seq![]
    } else {
        all_chains(m, keys, (n - 1) as nat) + m[keys[n - 1]]@
    }
}

/// `c` put into the sequence `s`, which is ordered by program counter, behind those
/// that do not come after it.
pub open spec fn insert_chain(s: Seq<DefUseChain>, c: DefUseChain) -> Seq<DefUseChain>
    decreases s.len(),
{
    if s.len() == 0 || s.last().definition.pc <= c.definition.pc {
        s.push(c)
    } else {
        insert_chain(s.drop_last(), c).push(s.last())
    }
}

/// The first `n` of `s`, ordered by program counter; the order of equals stays.
pub open spec fn sorted_chains(s: Seq<DefUseChain>, n: nat) -> Seq<DefUseChain>
    decreases n,
{
    if n == 0 {
        seq![]
    } else {
        insert_chain(sorted_chains(s, (n - 1) as nat), s[n - 1])
    }
}

/// `0x0000, 0x0004, ...`: the program counters of the first `n` uses.
pub open spec fn use_list(uses: Seq<Use>, n: nat) -> Seq<char>
    decreases n,
{
    if n == 0 {
        seq![]
    } else if n == 1 {
        text::hex_prefixed(uses[0].pc as nat, 4)
    } else {
        use_list(uses, (n - 1) as nat) + ", "@ + text::hex_prefixed(uses[n - 1].pc as nat, 4)
    }
}

/// Line of the summary on one chain.
pub open spec fn chain_line(c: DefUseChain) -> Seq<char> {
    "  "@ + instruction::register_name(c.definition.reg) + " defined @ "@ + text::hex_prefixed(
        c.definition.pc as nat,
        4,
    ) + " -> used at: "@ + if c.uses@.len() == 0 {
        "(no uses - dead definition?)\n"@
    } else {
        use_list(c.uses@, c.uses@.len()) + "\n"@
    }
}

pub open spec fn chain_lines(s: Seq<DefUseChain>, n: nat) -> Seq<char>
    decreases n,
{
    if n == 0 {
        seq![]
    } else {
        chain_lines(s, (n - 1) as nat) + chain_line(s[n - 1])
    }
}

fn use_list_string(uses: &Vec<Use>) -> (s: String)
    ensures
        s@ == use_list(uses@, uses@.len()),
{
    let mut s = String::new();
    let mut i: usize = 0;
    while i < uses.len()
        invariant
            i <= uses@.len(),
            s@ == use_list(uses@, i as nat),
        decreases uses@.len() - i,
    {
        if i > 0 {
            s.append(", ");
        }
        push_hex_prefixed(&mut s, uses[i].pc as u64, 4);
        assert(s@ =~= use_list(uses@, (i + 1) as nat));
        i = i + 1;
    }
    s
}

fn chain_string(c: &DefUseChain) -> (s: String)
    ensures
        s@ == chain_line(*c),
{
    let mut s = "  ".to_owned();
    push_register(&mut s, c.definition.reg);
    s.append(" defined @ ");
    push_hex_prefixed(&mut s, c.definition.pc as u64, 4);
    s.append(" -> used at: ");
    if c.uses.len() == 0 {
        s.append("(no uses - dead definition?)\n");
    } else {
        let mut list = use_list_string(&c.uses);
        list.append("\n");
        s.append(list.as_str());
    }
    s
}

/// Put a chain into an ordered list of chains.
fn insert_sorted<'a>(v: &mut Vec<&'a DefUseChain>, c: &'a DefUseChain)
    ensures
        final(v)@.unref() == insert_chain(old(v)@.unref(), *c),
{
    let mut i: usize = v.len();
    let ghost s = v@.unref();
    proof {
        assert(s.take(i as int) =~= s);
        assert(insert_chain(s, *c) =~= insert_chain(s, *c) + s.skip(i as int));
    }
    while i > 0 && v[i - 1].definition.pc > c.definition.pc
        invariant
            i <= v@.len(),
            s == v@.unref(),
            insert_chain(s, *c) == insert_chain(s.take(i as int), *c) + s.skip(i as int),
        decreases i,
    {
        proof {
            let t = s.take(i as int);
            assert(t.last() == s[i - 1]);
            assert(t.drop_last() =~= s.take(i - 1));
            assert(insert_chain(t, *c) + s.skip(i as int) =~= insert_chain(s.take(i - 1), *c)
                + s.skip(i - 1));
        }
        i = i - 1;
    }
    proof {
        let t = s.take(i as int);
        if i > 0 {
            assert(t.last() == s[i - 1]);
        }
        assert(insert_chain(t, *c) == t.push(*c));
        assert(t.push(*c) + s.skip(i as int) =~= s.insert(i as int, *c));
    }
    v.insert(i, c);
    assert(v@.unref() =~= s.insert(i as int, *c));
}

impl DataFlowAnalysis {
    /// Whether this is the analysis of `cfg`.
    pub open spec fn is_analysis_of(self, cfg: ControlFlowGraph) -> bool {
        &&& lists_at(self.defs_at_pc@, cfg, |i: Instruction| instruction::classified(i).defs())
        &&& lists_at(self.uses_at_pc@, cfg, |i: Instruction| instruction::classified(i).uses())
        &&& sets_are(self.live_in@, liveness(cfg).live_in)
        &&& sets_are(self.live_out@, liveness(cfg).live_out)
        &&& chains_are(self.chains@, cfg)
    }

    /// Perform data flow analysis on a control flow graph.
    pub fn analyze(cfg: &ControlFlowGraph) -> (r: Self)
        ensures
            r.is_analysis_of(*cfg),
    {
        let keys: Vec<usize> = keys_of(&cfg.blocks);
        let (defs_at_pc, uses_at_pc) = collect_def_use(cfg, &keys);
        let (live_in, live_out) = Self::compute_liveness(cfg);
        let chains = build_chains(cfg, &keys);
        DataFlowAnalysis { chains, defs_at_pc, uses_at_pc, live_in, live_out }
    }

    /// Text of `summarize`.
    pub open spec fn summary(self) -> Seq<char> {
        let defs = total_listed(
            self.defs_at_pc@,
            ordered::ascending(self.defs_at_pc@.dom()),
            self.defs_at_pc@.dom().len(),
        );
        let uses = total_listed(
            self.uses_at_pc@,
            ordered::ascending(self.uses_at_pc@.dom()),
            self.uses_at_pc@.dom().len(),
        );
        let chains = all_chains(
            self.chains@,
            ordered::ascending(self.chains@.dom()),
            self.chains@.dom().len(),
        );
        "=== Data Flow Analysis ===\n\nTotal definitions: "@ + text::dec(defs) + "\nTotal uses: "@ + text::dec(
            uses,
        ) + "\n\nDef-Use Chains:\n"@ + chain_lines(
            sorted_chains(chains, chains.len()),
            chains.len(),
        )
    }

    /// Get a summary of register activity for display.
    pub fn summarize(&self) -> (text: String)
        ensures
            text@ == self.summary(),
    {
        let keys: Vec<usize> = keys_of(&self.chains);
        let mut listed: Vec<&DefUseChain> = Vec::new();
        let mut i: usize = 0;
        assert(listed@.unref() =~= seq![]);
        let ghost m = self.chains@;
        let ghost whole = all_chains(m, keys@, keys@.len());
        while i < keys.len()
            invariant
                i <= keys@.len(),
                m == self.chains@,
                keys@.to_set() == m.dom(),
                listed@.unref() == sorted_chains(
                    all_chains(m, keys@, i as nat),
                    all_chains(m, keys@, i as nat).len(),
                ),
            decreases keys@.len() - i,
        {
            assert(keys@.to_set().contains(keys@[i as int]));
            if let Some(list) = self.chains.get(&keys[i]) {
                let ghost before = all_chains(m, keys@, i as nat);
                let ghost after = before + list@;
                let mut j: usize = 0;
                proof {
                    lemma_sorted_prefix(before, after, before.len());
                }
                while j < list.len()
                    invariant
                        j <= list@.len(),
                        after == before + list@,
                        listed@.unref() == sorted_chains(after, (before.len() + j) as nat),
                    decreases list@.len() - j,
                {
                    insert_sorted(&mut listed, &list[j]);
                    assert(after[before.len() + j] == list@[j as int]);
                    j = j + 1;
                }
            }
            i = i + 1;
        }
        let mut s = "=== Data Flow Analysis ===\n\nTotal definitions: ".to_owned();
        push_dec_wide(&mut s, count_listed(&self.defs_at_pc));
        s.append("\nTotal uses: ");
        push_dec_wide(&mut s, count_listed(&self.uses_at_pc));
        s.append("\n\nDef-Use Chains:\n");
        let ghost head = s@;
        let ghost order = listed@.unref();
        proof {
            lemma_sorted_len(whole, whole.len());
        }
        let mut k: usize = 0;
        while k < listed.len()
            invariant
                k <= listed@.len(),
                order == listed@.unref(),
                s@ =~= head + chain_lines(order, k as nat),
            decreases listed@.len() - k,
        {
            let line = chain_string(listed[k]);
            s.append(line.as_str());
            assert(order[k as int] == *listed@[k as int]);
            k = k + 1;
        }
        s
    }
}

proof fn lemma_sorted_prefix(a: Seq<DefUseChain>, b: Seq<DefUseChain>, n: nat)
    requires
        n <= a.len() <= b.len(),
        forall|i: int| 0 <= i < a.len() ==> a[i] == b[i],
    ensures
        sorted_chains(a, n) == sorted_chains(b, n),
    decreases n,
{
    if n > 0 {
        lemma_sorted_prefix(a, b, (n - 1) as nat);
    }
}

proof fn lemma_insert_len(s: Seq<DefUseChain>, c: DefUseChain)
    ensures
        insert_chain(s, c).len() == s.len() + 1,
    decreases s.len(),
{
    if s.len() > 0 && s.last().definition.pc > c.definition.pc {
        lemma_insert_len(s.drop_last(), c);
    }
}

proof fn lemma_sorted_len(s: Seq<DefUseChain>, n: nat)
    ensures
        sorted_chains(s, n).len() == n,
    decreases n,
{
    if n > 0 {
        lemma_sorted_len(s, (n - 1) as nat);
        lemma_insert_len(sorted_chains(s, (n - 1) as nat), s[n - 1]);
    }
}

/// Whether everything found so far is live.
pub open spec fn only_live(cfg: ControlFlowGraph, live_in: Map<usize, Set<u8>>) -> bool {
    forall|pc: usize, reg: u8|
        live_in.contains_key(pc) && #[trigger] live_in[pc].contains(reg) ==> live(cfg, pc, reg)
}

proof fn lemma_union_live(live_in: Map<usize, Set<u8>>, succs: Seq<usize>, n: nat, reg: u8)
    requires
        n <= succs.len(),
    ensures
        union_live(live_in, succs, n).contains(reg) <==> exists|k: int|
            0 <= k < n && live_in.contains_key(#[trigger] succs[k]) && live_in[succs[k]].contains(
                reg,
            ),
    decreases n,
{
    if n > 0 {
        lemma_union_live(live_in, succs, (n - 1) as nat, reg);
    }
}

proof fn lemma_step_only_live(cfg: ControlFlowGraph, s: Iteration)
    requires
        only_live(cfg, s.live_in),
        s.worklist.len() > 0,
    ensures
        only_live(cfg, live_step(cfg, s).live_in),
{
    let pc = s.worklist.last();
    if cfg.blocks@.contains_key(pc) {
        let out = out_of(cfg, s.live_in, pc);
        let inn = in_of(cfg, out, pc);
        let succs = cfg.blocks@[pc].successors@;
        assert forall|reg: u8| inn.contains(reg) implies live(cfg, pc, reg) by {
            if block_uses(cfg.blocks@[pc]).contains(reg) {
                assert(live_within(cfg, pc, reg, 0));
            } else {
                lemma_union_live(s.live_in, succs, succs.len(), reg);
                let k = choose|k: int|
                    0 <= k < succs.len() && s.live_in.contains_key(#[trigger] succs[k])
                        && s.live_in[succs[k]].contains(reg);
                assert(live(cfg, succs[k], reg));
                let n = choose|n: nat| live_within(cfg, succs[k], reg, n);
                assert(live_within(cfg, pc, reg, n + 1));
            }
        }
        let next = live_step(cfg, s).live_in;
        assert forall|p: usize, reg: u8|
            next.contains_key(p) && #[trigger] next[p].contains(reg) implies live(cfg, p, reg) by {
            if p != pc {
                assert(s.live_in[p].contains(reg));
            } else if next != s.live_in {
                assert(inn.contains(reg));
            } else {
                assert(s.live_in[p].contains(reg));
            }
        }
    }
}

/// Whether the liveness equations hold at the block at `pc`.
pub open spec fn balanced(cfg: ControlFlowGraph, s: Liveness, pc: usize) -> bool {
    &&& s.live_out[pc] == out_of(cfg, s.live_in, pc)
    &&& s.live_in[pc] == in_of(cfg, s.live_out[pc], pc)
}

spec fn found(s: Iteration) -> Liveness {
    Liveness { live_in: s.live_in, live_out: s.live_out }
}

spec fn balanced_or_pending(cfg: ControlFlowGraph, s: Iteration) -> bool {
    &&& s.live_in.dom() == cfg.blocks@.dom()
    &&& s.live_out.dom() == cfg.blocks@.dom()
    &&& forall|pc: usize| #[trigger]
        cfg.blocks@.contains_key(pc) ==> s.worklist.contains(pc) || balanced(cfg, found(s), pc)
}

pub proof fn lemma_push_missing(w: Seq<usize>, ps: Seq<usize>, n: nat, x: usize)
    requires
        n <= ps.len(),
    ensures
        w.contains(x) ==> push_missing(w, ps, n).contains(x),
        forall|k: int| 0 <= k < n ==> push_missing(w, ps, n).contains(#[trigger] ps[k]),
    decreases n,
{
    if n > 0 {
        lemma_push_missing(w, ps, (n - 1) as nat, x);
        let prev = push_missing(w, ps, (n - 1) as nat);
        let all = push_missing(w, ps, n);
        assert forall|y: usize| prev.contains(y) implies all.contains(y) by {
            let i = choose|i: int| 0 <= i < prev.len() && prev[i] == y;
            assert(all[i] == y);
        }
        if !prev.contains(ps[n - 1]) {
            assert(all[prev.len() as int] == ps[n - 1]);
        }
    }
}

proof fn lemma_sources_hold(cfg: ControlFlowGraph, keys: Seq<usize>, pc: usize, n: nat, j: int, k: int)
    requires
        0 <= j < n <= keys.len(),
        0 <= k < cfg.blocks@[keys[j]].successors@.len(),
        cfg.blocks@[keys[j]].successors@[k] == pc,
    ensures
        sources(cfg, keys, pc, n).contains(keys[j]),
    decreases n,
{
    let succs = cfg.blocks@[keys[n - 1]].successors@;
    let before = sources(cfg, keys, pc, (n - 1) as nat);
    let new = cfg::edges_from(keys[n - 1], succs, pc, succs.len());
    if j == n - 1 {
        lemma_edges_hold(keys[j], succs, pc, succs.len(), k);
        let i = choose|i: int| 0 <= i < new.len() && new[i] == keys[j];
        assert((before + new)[before.len() + i] == keys[j]);
    } else {
        lemma_sources_hold(cfg, keys, pc, (n - 1) as nat, j, k);
        let i = choose|i: int| 0 <= i < before.len() && before[i] == keys[j];
        assert((before + new)[i] == keys[j]);
    }
}

proof fn lemma_edges_hold(from: usize, succs: Seq<usize>, pc: usize, n: nat, k: int)
    requires
        0 <= k < n <= succs.len(),
        succs[k] == pc,
    ensures
        cfg::edges_from(from, succs, pc, n).contains(from),
    decreases n,
{
    let all = cfg::edges_from(from, succs, pc, n);
    let rest = cfg::edges_from(from, succs, pc, (n - 1) as nat);
    if k == n - 1 {
        assert(all[rest.len() as int] == from);
    } else {
        lemma_edges_hold(from, succs, pc, (n - 1) as nat, k);
        let i = choose|i: int| 0 <= i < rest.len() && rest[i] == from;
        assert(all[i] == from);
    }
}

proof fn lemma_union_live_other(
    a: Map<usize, Set<u8>>,
    b: Map<usize, Set<u8>>,
    succs: Seq<usize>,
    n: nat,
    pc: usize,
)
    requires
        n <= succs.len(),
        a.dom() == b.dom(),
        forall|p: usize| p != pc && #[trigger] a.contains_key(p) ==> a[p] == b[p],
        forall|k: int| 0 <= k < n ==> #[trigger] succs[k] != pc,
    ensures
        union_live(a, succs, n) == union_live(b, succs, n),
    decreases n,
{
    if n > 0 {
        lemma_union_live_other(a, b, succs, (n - 1) as nat, pc);
        assert(succs[n - 1] != pc);
        assert(a.contains_key(succs[n - 1]) == b.contains_key(succs[n - 1]));
    }
}

proof fn lemma_step_balanced(cfg: ControlFlowGraph, s: Iteration)
    requires
        balanced_or_pending(cfg, s),
        s.worklist.len() > 0,
    ensures
        balanced_or_pending(cfg, live_step(cfg, s)),
{
    let pc = s.worklist.last();
    let rest = s.worklist.drop_last();
    let t = live_step(cfg, s);
    assert forall|p: usize| s.worklist.contains(p) && p != pc implies rest.contains(p) by {
        let i = choose|i: int| 0 <= i < s.worklist.len() && s.worklist[i] == p;
        assert(rest[i] == p);
    }
    if cfg.blocks@.contains_key(pc) {
        assert(t.live_in.dom() =~= cfg.blocks@.dom());
        assert(t.live_out.dom() =~= cfg.blocks@.dom());
        let ps = graph_sources(cfg, pc);
        let keys = ordered::ascending(cfg.blocks@.dom());
        crate::ordered::lemma_ascending_exists(cfg.blocks@.dom());
        assert forall|p: usize| #[trigger] cfg.blocks@.contains_key(p) implies t.worklist.contains(p)
            || balanced(cfg, found(t), p) by {
            let succs = cfg.blocks@[p].successors@;
            if t.live_in == s.live_in && t.live_out == s.live_out && t.worklist == rest {
                if s.worklist.contains(p) && p != pc {
                } else if p == pc {
                    let out = out_of(cfg, s.live_in, pc);
                    if !(in_of(cfg, out, pc) == s.live_in[pc] && out == s.live_out[pc]) {
                        assert(t.live_in[pc] == in_of(cfg, out, pc));
                        assert(t.live_out[pc] == out);
                    }
                }
            } else {
                lemma_push_missing(rest, ps, ps.len(), p);
                if s.worklist.contains(p) && p != pc {
                } else if exists|k: int| 0 <= k < succs.len() && #[trigger] succs[k] == pc {
                    let k = choose|k: int| 0 <= k < succs.len() && #[trigger] succs[k] == pc;
                    assert(keys.to_set().contains(p));
                    let j = choose|j: int| 0 <= j < keys.len() && keys[j] == p;
                    lemma_sources_hold(cfg, keys, pc, keys.len(), j, k);
                    let i = choose|i: int| 0 <= i < ps.len() && ps[i] == p;
                    assert(t.worklist.contains(ps[i]));
                } else {
                    lemma_union_live_other(s.live_in, t.live_in, succs, succs.len(), pc);
                }
            }
        }
    } else {
        assert forall|p: usize| #[trigger] cfg.blocks@.contains_key(p) implies t.worklist.contains(p)
            || balanced(cfg, found(t), p) by {
            assert(s.worklist.contains(p) || balanced(cfg, found(s), p));
        }
    }
}

proof fn lemma_order_complete(cfg: ControlFlowGraph)
    ensures
        forall|p: usize| #[trigger] cfg.blocks@.contains_key(p) ==> live_order(cfg).contains(p),
{
    let keys = ordered::ascending(cfg.blocks@.dom());
    let starts = seq![cfg.entry_pc] + keys;
    crate::ordered::lemma_ascending_exists(cfg.blocks@.dom());
    crate::graph::law_post_order(cfg, starts);
    assert forall|p: usize| #[trigger] cfg.blocks@.contains_key(p) implies live_order(cfg).contains(
        p,
    ) by {
        assert(keys.to_set().contains(p));
        let j = choose|j: int| 0 <= j < keys.len() && keys[j] == p;
        assert(starts[j + 1] == p);
    }
}

proof fn lemma_start(cfg: ControlFlowGraph)
    ensures
        balanced_or_pending(cfg, live_start(cfg)),
        only_live(cfg, live_start(cfg).live_in),
        growing(cfg, live_start(cfg)),
{
    let s = live_start(cfg);
    lemma_order_complete(cfg);
    assert(s.live_in.dom() =~= cfg.blocks@.dom());
    assert(s.live_out.dom() =~= cfg.blocks@.dom());
    assert forall|pc: usize| #[trigger] cfg.blocks@.contains_key(pc) implies s.live_out[pc].subset_of(
        out_of(cfg, s.live_in, pc),
    ) && s.live_in[pc].subset_of(in_of(cfg, out_of(cfg, s.live_in, pc), pc)) by {}
}

/// Whether looking at a block again takes nothing from its sets.
spec fn growing(cfg: ControlFlowGraph, s: Iteration) -> bool {
    forall|pc: usize| #[trigger]
        cfg.blocks@.contains_key(pc) ==> s.live_out[pc].subset_of(out_of(cfg, s.live_in, pc))
            && s.live_in[pc].subset_of(in_of(cfg, out_of(cfg, s.live_in, pc), pc))
}

proof fn lemma_union_live_grows(
    a: Map<usize, Set<u8>>,
    b: Map<usize, Set<u8>>,
    succs: Seq<usize>,
    n: nat,
)
    requires
        a.dom() == b.dom(),
        forall|p: usize| #[trigger] a.contains_key(p) ==> a[p].subset_of(b[p]),
    ensures
        union_live(a, succs, n).subset_of(union_live(b, succs, n)),
    decreases n,
{
    if n > 0 {
        lemma_union_live_grows(a, b, succs, (n - 1) as nat);
        assert(a.contains_key(succs[n - 1]) == b.contains_key(succs[n - 1]));
    }
}

proof fn lemma_step_growing(cfg: ControlFlowGraph, s: Iteration)
    requires
        balanced_or_pending(cfg, s),
        growing(cfg, s),
        s.worklist.len() > 0,
    ensures
        growing(cfg, live_step(cfg, s)),
{
    let pc = s.worklist.last();
    let t = live_step(cfg, s);
    if cfg.blocks@.contains_key(pc) {
        assert(s.live_in.dom().contains(pc));
        assert(t.live_in.dom() =~= s.live_in.dom());
        assert forall|p: usize| #[trigger] s.live_in.contains_key(p) implies s.live_in[p].subset_of(
            t.live_in[p],
        ) by {}
        assert forall|p: usize| #[trigger] cfg.blocks@.contains_key(p) implies t.live_out[p].subset_of(
            out_of(cfg, t.live_in, p),
        ) && t.live_in[p].subset_of(in_of(cfg, out_of(cfg, t.live_in, p), p)) by {
            let succs = cfg.blocks@[p].successors@;
            lemma_union_live_grows(s.live_in, t.live_in, succs, succs.len());
        }
    }
}

/// How many registers the sets of the first `n` of `keys` hold.
spec fn total(s: Iteration, keys: Seq<usize>, n: nat) -> nat
    decreases n,
{
    if n == 0 {
        0
    } else {
        total(s, keys, (n - 1) as nat) + s.live_in[keys[n - 1]].len()
            + s.live_out[keys[n - 1]].len()
    }
}

proof fn lemma_registers(s: Set<u8>)
    ensures
        s.finite(),
        s.len() <= 256,
{
    let all = Seq::new(256, |i: int| i as u8);
    assert forall|r: u8| s.contains(r) implies all.to_set().contains(r) by {
        assert(all[r as int] == r);
    }
    all.lemma_cardinality_of_set();
    vstd::set_lib::lemma_set_subset_finite(all.to_set(), s);
    vstd::set_lib::lemma_len_subset(s, all.to_set());
}

proof fn lemma_total_bound(s: Iteration, keys: Seq<usize>, n: nat)
    ensures
        total(s, keys, n) <= 512 * n,
    decreases n,
{
    if n > 0 {
        lemma_total_bound(s, keys, (n - 1) as nat);
        lemma_registers(s.live_in[keys[n - 1]]);
        lemma_registers(s.live_out[keys[n - 1]]);
    }
}

proof fn lemma_total_grows(s: Iteration, t: Iteration, keys: Seq<usize>, n: nat)
    requires
        forall|i: int|
            0 <= i < n ==> s.live_in[#[trigger] keys[i]].len() <= t.live_in[keys[i]].len()
                && s.live_out[keys[i]].len() <= t.live_out[keys[i]].len(),
    ensures
        total(s, keys, n) <= total(t, keys, n),
        forall|i: int|
            0 <= i < n && s.live_in[#[trigger] keys[i]].len() + s.live_out[keys[i]].len()
                < t.live_in[keys[i]].len() + t.live_out[keys[i]].len() ==> total(s, keys, n)
                < total(t, keys, n),
    decreases n,
{
    if n > 0 {
        lemma_total_grows(s, t, keys, (n - 1) as nat);
    }
}

proof fn lemma_subset_len(a: Set<u8>, b: Set<u8>)
    requires
        a.subset_of(b),
    ensures
        a.len() <= b.len(),
        a.len() == b.len() ==> a == b,
{
    lemma_registers(a);
    lemma_registers(b);
    vstd::set_lib::lemma_len_subset(a, b);
    if a.len() == b.len() {
        vstd::set_lib::lemma_subset_equality(a, b);
    }
}

/// A step that changes a set makes the sets larger; any other takes a block from the list.
proof fn lemma_step_total(cfg: ControlFlowGraph, s: Iteration, keys: Seq<usize>)
    requires
        balanced_or_pending(cfg, s),
        growing(cfg, s),
        s.worklist.len() > 0,
        keys.to_set() == cfg.blocks@.dom(),
    ensures
        ({
            let t = live_step(cfg, s);
            total(s, keys, keys.len()) < total(t, keys, keys.len()) || (total(s, keys, keys.len())
                == total(t, keys, keys.len()) && t.worklist.len() < s.worklist.len())
        }),
{
    let pc = s.worklist.last();
    let t = live_step(cfg, s);
    if cfg.blocks@.contains_key(pc) {
        let out = out_of(cfg, s.live_in, pc);
        let inn = in_of(cfg, out, pc);
        if inn == s.live_in[pc] && out == s.live_out[pc] {
            assert(t.live_in == s.live_in && t.live_out == s.live_out);
            lemma_total_same(s, t, keys, keys.len());
        } else {
            assert forall|i: int| 0 <= i < keys.len() implies s.live_in[#[trigger] keys[i]].len()
                <= t.live_in[keys[i]].len() && s.live_out[keys[i]].len()
                <= t.live_out[keys[i]].len() by {
                if keys[i] == pc {
                    lemma_subset_len(s.live_in[pc], inn);
                    lemma_subset_len(s.live_out[pc], out);
                }
            }
            lemma_total_grows(s, t, keys, keys.len());
            assert(keys.to_set().contains(pc));
            let i = choose|i: int| 0 <= i < keys.len() && keys[i] == pc;
            lemma_subset_len(s.live_in[pc], inn);
            lemma_subset_len(s.live_out[pc], out);
            assert(s.live_in[keys[i]].len() + s.live_out[keys[i]].len() < t.live_in[keys[i]].len()
                + t.live_out[keys[i]].len());
        }
    } else {
        lemma_total_same(s, t, keys, keys.len());
    }
}

proof fn lemma_total_same(s: Iteration, t: Iteration, keys: Seq<usize>, n: nat)
    requires
        s.live_in == t.live_in,
        s.live_out == t.live_out,
    ensures
        total(s, keys, n) == total(t, keys, n),
    decreases n,
{
    if n > 0 {
        lemma_total_same(s, t, keys, (n - 1) as nat);
    }
}

/// Once nothing is left to look at, just what is live has been found.
proof fn lemma_settled(cfg: ControlFlowGraph, s: Iteration)
    requires
        balanced_or_pending(cfg, s),
        only_live(cfg, s.live_in),
        s.worklist.len() == 0,
    ensures
        s.live_in == liveness(cfg).live_in,
        s.live_out == liveness(cfg).live_out,
{
    let all = liveness(cfg);
    assert forall|pc: usize| s.live_in.contains_key(pc) implies s.live_in[pc] == all.live_in[pc] by {
        assert(cfg.blocks@.dom().contains(pc));
        assert forall|reg: u8| s.live_in[pc].contains(reg) == live(cfg, pc, reg) by {
            if live(cfg, pc, reg) {
                let n = choose|n: nat| live_within(cfg, pc, reg, n);
                assert forall|b: usize| #[trigger] cfg.blocks@.contains_key(b) implies balanced(
                    cfg,
                    found(s),
                    b,
                ) by {}
                lemma_least(cfg, found(s), pc, reg, n);
            }
        }
        assert(s.live_in[pc] =~= all.live_in[pc]);
    }
    assert(s.live_in.dom() =~= all.live_in.dom());
    assert(s.live_in =~= all.live_in);
    assert forall|pc: usize| s.live_out.contains_key(pc) implies s.live_out[pc]
        == all.live_out[pc] by {
        assert(cfg.blocks@.contains_key(pc));
        assert(balanced(cfg, found(s), pc));
    }
    assert(s.live_out.dom() =~= all.live_out.dom());
    assert(s.live_out =~= all.live_out);
}

/// The liveness equations hold at every block: live out of it is what is live into one of
/// its successors, and live into it what it uses and what is live out of it without being
/// defined in it.
pub proof fn law_liveness_equations(cfg: ControlFlowGraph, pc: usize)
    requires
        cfg.blocks@.contains_key(pc),
    ensures
        balanced(cfg, liveness(cfg), pc),
{
    let all = liveness(cfg);
    let b = cfg.blocks@[pc];
    let succs = b.successors@;
    assert forall|reg: u8| live(cfg, pc, reg) == in_of(cfg, all.live_out[pc], pc).contains(reg) by {
        lemma_union_live(all.live_in, succs, succs.len(), reg);
        if live(cfg, pc, reg) && !block_uses(b).contains(reg) {
            let n = choose|n: nat| live_within(cfg, pc, reg, n);
            let k = choose|k: int|
                0 <= k < succs.len() && live_within(cfg, #[trigger] succs[k], reg, (n - 1) as nat);
            assert(live(cfg, succs[k], reg));
            assert(all.live_in.contains_key(succs[k])) by {
                assert(cfg.blocks@.contains_key(succs[k]));
            }
        }
        if block_uses(b).contains(reg) {
            assert(live_within(cfg, pc, reg, 0));
        } else if !block_defs(b).contains(reg) && out_of(cfg, all.live_in, pc).contains(reg) {
            let k = choose|k: int|
                0 <= k < succs.len() && all.live_in.contains_key(#[trigger] succs[k])
                    && all.live_in[succs[k]].contains(reg);
            let n = choose|n: nat| live_within(cfg, succs[k], reg, n);
            assert(live_within(cfg, pc, reg, n + 1));
        }
    }
    assert(all.live_in[pc] =~= in_of(cfg, all.live_out[pc], pc));
}

/// What is live is the least solution of the liveness equations.
pub proof fn law_liveness_is_least(cfg: ControlFlowGraph, s: Liveness, pc: usize, reg: u8)
    requires
        s.live_in.dom() == cfg.blocks@.dom(),
        forall|b: usize| #[trigger] cfg.blocks@.contains_key(b) ==> balanced(cfg, s, b),
        live(cfg, pc, reg),
    ensures
        s.live_in.contains_key(pc),
        s.live_in[pc].contains(reg),
{
    let n = choose|n: nat| live_within(cfg, pc, reg, n);
    lemma_least(cfg, s, pc, reg, n);
}

proof fn lemma_least(cfg: ControlFlowGraph, s: Liveness, pc: usize, reg: u8, n: nat)
    requires
        s.live_in.dom() == cfg.blocks@.dom(),
        forall|b: usize| #[trigger] cfg.blocks@.contains_key(b) ==> balanced(cfg, s, b),
        live_within(cfg, pc, reg, n),
    ensures
        s.live_in.contains_key(pc),
        s.live_in[pc].contains(reg),
    decreases n,
{
    assert(balanced(cfg, s, pc));
    assert(s.live_in.dom().contains(pc));
    let succs = cfg.blocks@[pc].successors@;
    if !block_uses(cfg.blocks@[pc]).contains(reg) {
        let k = choose|k: int|
            0 <= k < succs.len() && live_within(cfg, #[trigger] succs[k], reg, (n - 1) as nat);
        lemma_least(cfg, s, succs[k], reg, (n - 1) as nat);
        lemma_union_live(s.live_in, succs, succs.len(), reg);
    }
}

proof fn lemma_definitions_alone(code: Seq<(usize, Instruction)>, n: nat, i: int, pc: usize)
    requires
        n <= code.len(),
        forall|j: int| 0 <= j < code.len() && j != i ==> (#[trigger] code[j]).0 != pc,
        0 <= i < code.len() ==> code[i].0 == pc,
    ensures
        definitions_at(code, n, pc) == if 0 <= i < n {
            made_at(pc, instruction::classified(code[i].1).defs())
        } else {
            seq![]
        },
    decreases n,
{
    if n > 0 {
        lemma_definitions_alone(code, (n - 1) as nat, i, pc);
        if i == n - 1 {
            let made = made_at(pc, instruction::classified(code[i].1).defs());
            assert(Seq::<Definition>::empty() + made =~= made);
        }
    }
}

proof fn lemma_sites_alone(cfg: ControlFlowGraph, keys: Seq<usize>, n: nat, b: usize, i: int)
    requires
        n <= keys.len(),
        forall|x: int, y: int| 0 <= x < y < keys.len() ==> keys[x] != keys[y],
        cfg.blocks@.contains_key(b),
        0 <= i < cfg.blocks@[b].instructions@.len(),
        forall|c: usize, j: int|
            keys.contains(c) && 0 <= j < cfg.blocks@[c].instructions@.len() && (c != b || j != i)
                ==> (#[trigger] cfg.blocks@[c].instructions@[j]).0
                != cfg.blocks@[b].instructions@[i].0,
    ensures
        ({
            let (pc, instr) = cfg.blocks@[b].instructions@[i];
            sites(cfg, keys, n, pc) == if exists|k: int| 0 <= k < n && #[trigger] keys[k] == b {
                within(b, made_at(pc, instruction::classified(instr).defs()))
            } else {
                seq![]
            }
        }),
    decreases n,
{
    let (pc, instr) = cfg.blocks@[b].instructions@[i];
    if n > 0 {
        lemma_sites_alone(cfg, keys, (n - 1) as nat, b, i);
        let c = keys[n - 1];
        assert(keys.contains(c));
        let code = cfg.blocks@[c].instructions@;
        let made = made_at(pc, instruction::classified(instr).defs());
        if c == b {
            lemma_definitions_alone(code, code.len(), i, pc);
            assert(keys[n - 1] == b);
            assert(Seq::<(usize, Definition)>::empty() + within(b, made) =~= within(b, made));
        } else {
            lemma_definitions_alone(code, code.len(), -1, pc);
            assert(within(c, Seq::<Definition>::empty()) =~= Seq::<(usize, Definition)>::empty());
            if exists|k: int| 0 <= k < n && #[trigger] keys[k] == b {
                let k = choose|k: int| 0 <= k < n && #[trigger] keys[k] == b;
                assert(k < n - 1);
                assert(within(b, made) + Seq::<(usize, Definition)>::empty() =~= within(b, made));
            }
        }
    }
}

/// Where an instruction is the only one at its program counter, the chains there are those
/// of the registers that it writes, one for each.
pub proof fn law_chains_by_definition(
    cfg: ControlFlowGraph,
    df: DataFlowAnalysis,
    b: usize,
    i: int,
)
    requires
        df.is_analysis_of(cfg),
        cfg.blocks@.dom().finite(),
        cfg.blocks@.contains_key(b),
        0 <= i < cfg.blocks@[b].instructions@.len(),
        forall|c: usize, j: int|
            cfg.blocks@.contains_key(c) && 0 <= j < cfg.blocks@[c].instructions@.len() && (c != b
                || j != i) ==> (#[trigger] cfg.blocks@[c].instructions@[j]).0
                != cfg.blocks@[b].instructions@[i].0,
    ensures
        ({
            let (pc, instr) = cfg.blocks@[b].instructions@[i];
            let regs = instruction::classified(instr).defs();
            &&& df.chains@.contains_key(pc) <==> regs.len() > 0
            &&& regs.len() > 0 ==> df.chains@[pc]@.len() == regs.len() && forall|k: int|
                0 <= k < regs.len() ==> {
                    let c = #[trigger] df.chains@[pc]@[k];
                    &&& c.definition == Definition { pc, reg: regs[k] }
                    &&& c.uses@ == uses_of(cfg, cfg.blocks@[b], c.definition)
                }
        }),
{
    let (pc, instr) = cfg.blocks@[b].instructions@[i];
    let keys = ordered::ascending(cfg.blocks@.dom());
    ordered::lemma_ascending_exists(cfg.blocks@.dom());
    assert forall|c: usize, j: int|
        keys.contains(c) && 0 <= j < cfg.blocks@[c].instructions@.len() && (c != b || j
            != i) implies (#[trigger] cfg.blocks@[c].instructions@[j]).0 != pc by {
        assert(keys.to_set().contains(c));
    }
    lemma_sites_alone(cfg, keys, keys.len(), b, i);
    assert(keys.to_set().contains(b));
    let k = choose|k: int| 0 <= k < keys.len() && keys[k] == b;
    assert(keys[k] == b);
    lemma_sites_written(cfg, keys, keys.len(), pc);
    let regs = instruction::classified(instr).defs();
    let all = all_sites(cfg, pc);
    assert(all == within(b, made_at(pc, regs)));
    assert(all.len() == regs.len());
    assert(chains_are(df.chains@, cfg));
    assert(df.chains@.contains_key(pc) <==> writes_at(cfg, pc));
    if regs.len() > 0 {
        assert(chains_of(df.chains@[pc]@, cfg, all));
        assert forall|k: int| 0 <= k < regs.len() implies all[k] == (
            b,
            Definition { pc, reg: regs[k] },
        ) by {}
    }
}

} // verus!
