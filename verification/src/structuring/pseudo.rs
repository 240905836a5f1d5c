//! The pseudo-code of a function: labels, `for` loops, and the walk over its blocks.

use crate::cfg::ControlFlowGraph;
use crate::instruction;
use crate::instruction::{register_string, InstructionShape};
use crate::lifting::program;
use crate::lifting::program::{Lifted, LiftedProgram};
use crate::names;
use crate::ordered;
use crate::pvm::Instruction;
use crate::structuring::analysis;
use crate::structuring::analysis::{
    Condition, FunctionSignature, Operand, Region, StructuralAnalysis, Structure,
};
use crate::structuring::emit;
use crate::structuring::lines;
use crate::structuring::lines::{fix_blank_lines, split_lines};
use crate::structuring::page;
use crate::structuring::page::{ForLoop, ForLoopInfo, Page, Pen, Plan, Setting};
use crate::text;
use crate::text::{chars_of, empty_string, push_hex_padded, same_text, string_of};
use std::collections::{BTreeMap, BTreeSet};
use vstd::prelude::*;

verus! {

broadcast use vstd::laws_cmp::group_laws_cmp;

pub open spec fn label_text(pc: usize) -> Seq<char> {
    "block_"@ + text::hex_padded(pc as nat, 4)
}

/// Labels for the first `n` of a switch's cases.
pub open spec fn case_labels(
    m: Map<usize, Seq<char>>,
    cases: Seq<(Seq<u32>, usize)>,
    n: nat,
) -> Map<usize, Seq<char>>
    decreases n,
{
    if n == 0 {
        m
    } else {
        case_labels(m, cases, (n - 1) as nat).insert(cases[n - 1].1, label_text(cases[n - 1].1))
    }
}

/// Labels for the targets of the first `n` structures.
pub open spec fn labels_of(rs: Seq<Region>, n: nat) -> Map<usize, Seq<char>>
    decreases n,
{
    if n == 0 {
        Map::empty()
    } else {
        let m = labels_of(rs, (n - 1) as nat);
        match rs[n - 1] {
            Region::Switch { header, reg, cases } => case_labels(m, cases, cases.len()),
            _ => m,
        }
    }
}

fn label_string(pc: usize) -> (s: String)
    ensures
        s@ == label_text(pc),
{
    let mut s = "block_".to_owned();
    push_hex_padded(&mut s, pc as u64, 4);
    s
}

/// Build human-readable labels for blocks that are targets of goto/switch statements.
fn build_block_labels(structures: &Vec<Structure>) -> (m: BTreeMap<usize, String>)
    ensures
        names::text_values(m@) == labels_of(analysis::regions(structures@), structures@.len()),
{
    let ghost rs = analysis::regions(structures@);
    let mut m: BTreeMap<usize, String> = BTreeMap::new();
    assert(names::text_values(m@) =~= labels_of(rs, 0));
    let mut i: usize = 0;
    while i < structures.len()
        invariant
            i <= structures@.len(),
            rs == analysis::regions(structures@),
            names::text_values(m@) == labels_of(rs, i as nat),
        decreases structures@.len() - i,
    {
        assert(rs[i as int] == structures@[i as int]@);
        if let Structure::Switch { cases, .. } = &structures[i] {
            let ghost views = analysis::case_views(cases@);
            let ghost head = names::text_values(m@);
            let mut j: usize = 0;
            while j < cases.len()
                invariant
                    j <= cases@.len(),
                    views == analysis::case_views(cases@),
                    names::text_values(m@) == case_labels(head, views, j as nat),
                decreases cases@.len() - j,
            {
                let pc: usize = cases[j].1;
                let ghost held = names::text_values(m@);
                m.insert(pc, label_string(pc));
                assert(names::text_values(m@) =~= held.insert(pc, label_text(pc)));
                assert(views[j as int].1 == pc);
                j = j + 1;
            }
        }
        i = i + 1;
    }
    m
}

/// The loops, if-then-elses and switches among the first `n` structures, by header.
#[verifier::ext_equal]
pub struct ByHeader {
    pub loops: Map<usize, Region>,
    pub ifs: Map<usize, Region>,
    pub switches: Map<usize, Region>,
}

pub open spec fn by_header(rs: Seq<Region>, n: nat) -> ByHeader
    decreases n,
{
    if n == 0 {
        ByHeader { loops: Map::empty(), ifs: Map::empty(), switches: Map::empty() }
    } else {
        let m = by_header(rs, (n - 1) as nat);
        match rs[n - 1] {
            Region::Loop { header, .. } => ByHeader {
                loops: m.loops.insert(header, rs[n - 1]),
                ..m
            },
            Region::IfThenElse { header, .. } => ByHeader {
                ifs: m.ifs.insert(header, rs[n - 1]),
                ..m
            },
            Region::Switch { header, .. } => ByHeader {
                switches: m.switches.insert(header, rs[n - 1]),
                ..m
            },
        }
    }
}

struct Headers {
    loops: BTreeMap<usize, usize>,
    ifs: BTreeMap<usize, usize>,
    switches: BTreeMap<usize, usize>,
}

spec fn pick(m: Map<usize, usize>, s: Seq<Structure>) -> Map<usize, Region> {
    m.map_values(|i: usize| s[i as int]@)
}

impl Headers {
    spec fn view_of(self, s: Seq<Structure>) -> ByHeader {
        ByHeader {
            loops: pick(self.loops@, s),
            ifs: pick(self.ifs@, s),
            switches: pick(self.switches@, s),
        }
    }

    spec fn wf(self, s: Seq<Structure>) -> bool {
        &&& forall|h: usize| #[trigger]
            self.loops@.contains_key(h) ==> self.loops@[h] < s.len() && s[self.loops@[h] as int]
                is Loop
        &&& forall|h: usize| #[trigger]
            self.ifs@.contains_key(h) ==> self.ifs@[h] < s.len() && s[self.ifs@[h] as int]
                is IfThenElse
        &&& forall|h: usize| #[trigger]
            self.switches@.contains_key(h) ==> self.switches@[h] < s.len()
                && s[self.switches@[h] as int] is Switch
    }
}

fn index_headers(structures: &Vec<Structure>) -> (m: Headers)
    ensures
        m.view_of(structures@) == by_header(analysis::regions(structures@), structures@.len()),
        m.wf(structures@),
{
    let ghost rs = analysis::regions(structures@);
    let ghost s = structures@;
    let mut m = Headers {
        loops: BTreeMap::new(),
        ifs: BTreeMap::new(),
        switches: BTreeMap::new(),
    };
    assert(m.view_of(s) =~= by_header(rs, 0));
    let mut i: usize = 0;
    while i < structures.len()
        invariant
            i <= structures@.len(),
            s == structures@,
            rs == analysis::regions(s),
            m.view_of(s) == by_header(rs, i as nat),
            m.wf(s),
        decreases structures@.len() - i,
    {
        assert(rs[i as int] == s[i as int]@);
        let ghost before = m.view_of(s);
        match &structures[i] {
            Structure::Loop { header, .. } => {
                m.loops.insert(*header, i);
                assert(pick(m.loops@, s) =~= before.loops.insert(*header, rs[i as int]));
            },
            Structure::IfThenElse { header, .. } => {
                m.ifs.insert(*header, i);
                assert(pick(m.ifs@, s) =~= before.ifs.insert(*header, rs[i as int]));
            },
            Structure::Switch { header, .. } => {
                m.switches.insert(*header, i);
                assert(pick(m.switches@, s) =~= before.switches.insert(*header, rs[i as int]));
            },
        }
        i = i + 1;
    }
    m
}

/// Jumps and fallthroughs.
pub open spec fn quiet(instr: Instruction) -> bool {
    instr is Fallthrough || instr is Jump
}

/// The last of the first `n` instructions that is neither quiet nor left out.
pub open spec fn last_real(code: Seq<(usize, Instruction)>, n: nat, without: Set<usize>) -> Option<
    int,
>
    decreases n,
{
    if n == 0 {
        None
    } else if without.contains(code[n - 1].0) || quiet(code[n - 1].1) {
        last_real(code, (n - 1) as nat, without)
    } else {
        Some(n - 1)
    }
}

/// The last instruction of a block, where it defines `reg`.
pub open spec fn last_def(
    cfg: ControlFlowGraph,
    pc: usize,
    without: Set<usize>,
    reg: u8,
) -> Option<(usize, Instruction)> {
    if cfg.blocks@.contains_key(pc) {
        let code = cfg.blocks@[pc].instructions@;
        match last_real(code, code.len(), without) {
            Some(i) => if instruction::classified(code[i].1).defined() == Some(reg) {
                Some(code[i])
            } else {
                None
            },
            None => None,
        }
    } else {
        None
    }
}

/// The one predecessor of `header` from outside the loop.
pub open spec fn way_in(cfg: ControlFlowGraph, header: usize, body: Set<usize>) -> Option<usize> {
    if cfg.blocks@.contains_key(header) {
        let outer = cfg.blocks@[header].predecessors@.filter(|p: usize| !body.contains(p));
        if outer.len() == 1 {
            Some(outer[0])
        } else {
            None
        }
    } else {
        None
    }
}

/// The first part of a `for`: the line, with `let` where it declares its variable.
pub open spec fn init_text(l: Lifted, line: (Seq<char>, Option<Seq<char>>)) -> Seq<char> {
    if line.1 is Some && !l.declared.contains(line.1->0) {
        "let "@ + line.0
    } else {
        line.0
    }
}

/// A loop as a `for`: the condition tests a register that the block before the loop
/// sets last, and the latch steps last.
pub open spec fn for_of(
    cfg: ControlFlowGraph,
    l: Lifted,
    header: usize,
    latch: usize,
    body: Set<usize>,
    c: Option<Condition>,
) -> Option<ForLoop> {
    match c {
        Some(Condition { op, lhs: Operand::Reg(reg), rhs }) => match way_in(cfg, header, body) {
            Some(before) => {
                let init = last_def(cfg, before, Set::empty(), reg);
                let step = last_def(cfg, latch, l.eliminated, reg);
                match (init, step) {
                    (Some((init_pc, a)), Some((step_pc, b))) => match (
                        l.line(init_pc, a),
                        l.line(step_pc, b),
                    ) {
                        (Some(first), Some((step, _))) => Some(
                            ForLoop { init: init_text(l, first), step, init_pc, step_pc, reg },
                        ),
                        _ => None,
                    },
                    _ => None,
                }
            },
            None => None,
        },
        _ => None,
    }
}

fn is_quiet(instr: &Instruction) -> (r: bool)
    ensures
        r == quiet(*instr),
{
    match instr {
        Instruction::Fallthrough => true,
        Instruction::Jump { .. } => true,
        _ => false,
    }
}

/// Index of the last instruction of a block that counts, where it defines `reg`.
fn find_last_def(
    cfg: &ControlFlowGraph,
    pc: usize,
    without: Option<&BTreeSet<usize>>,
    reg: u8,
) -> (r: Option<usize>)
    ensures
        ({
            let gone = match without {
                Some(s) => s@,
                None => Set::empty(),
            };
            match r {
                Some(i) => cfg.blocks@.contains_key(pc) && i
                    < cfg.blocks@[pc].instructions@.len() && last_def(*cfg, pc, gone, reg) == Some(
                    cfg.blocks@[pc].instructions@[i as int],
                ),
                None => last_def(*cfg, pc, gone, reg) is None,
            }
        }),
{
    let ghost gone = match without {
        Some(s) => s@,
        None => Set::empty(),
    };
    let block = match cfg.blocks.get(&pc) {
        Some(b) => b,
        None => {
            return None;
        },
    };
    let ghost code = block.instructions@;
    let mut n: usize = block.instructions.len();
    while n > 0
        invariant
            n <= code.len(),
            cfg.blocks@.contains_key(pc),
            *block == cfg.blocks@[pc],
            code == block.instructions@,
            gone == match without {
                Some(s) => s@,
                None => Set::empty(),
            },
            last_real(code, code.len(), gone) == last_real(code, n as nat, gone),
        decreases n,
    {
        let at: usize = block.instructions[n - 1].0;
        let skipped: bool = match without {
            Some(s) => s.contains(&at),
            None => false,
        };
        if !skipped && !is_quiet(&block.instructions[n - 1].1) {
            let defined: Option<u8> = InstructionShape::classify(
                &block.instructions[n - 1].1,
            ).def_reg();
            return match defined {
                Some(d) => if d == reg {
                    Some(n - 1)
                } else {
                    None
                },
                None => None,
            };
        }
        n = n - 1;
    }
    None
}

fn find_way_in(cfg: &ControlFlowGraph, header: usize, body: &BTreeSet<usize>) -> (r: Option<usize>)
    ensures
        r == way_in(*cfg, header, body@),
{
    let block = match cfg.blocks.get(&header) {
        Some(b) => b,
        None => {
            return None;
        },
    };
    let ghost f = |p: usize| !body@.contains(p);
    let ghost list = block.predecessors@;
    let mut outer: Vec<usize> = Vec::new();
    let mut i: usize = 0;
    assert(list.take(0) =~= seq![]);
    assert(list.take(0).filter(f) =~= seq![]) by {
        reveal(Seq::filter);
    }
    while i < block.predecessors.len()
        invariant
            i <= list.len(),
            list == block.predecessors@,
            f == (|p: usize| !body@.contains(p)),
            outer@ == list.take(i as int).filter(f),
        decreases list.len() - i,
    {
        let p: usize = block.predecessors[i];
        proof {
            assert(list.take(i + 1) =~= list.take(i as int).push(p));
            assert(list.take(i + 1).drop_last() =~= list.take(i as int));
            reveal(Seq::filter);
        }
        if !body.contains(&p) {
            outer.push(p);
        }
        i = i + 1;
    }
    assert(list.take(i as int) =~= list);
    if outer.len() == 1 {
        Some(outer[0])
    } else {
        None
    }
}

/// Try to detect a for-loop pattern from a while loop.
///
/// A for-loop has: init before the loop, condition in the header, step in the latch.
/// The init counts even where it has been eliminated.
fn detect_for_loop_pattern(
    cfg: &ControlFlowGraph,
    l: &LiftedProgram,
    header: usize,
    latch: usize,
    body: &BTreeSet<usize>,
    c: &Option<Condition>,
) -> (r: Option<ForLoopInfo>)
    ensures
        match r {
            Some(f) => for_of(*cfg, l@, header, latch, body@, *c) == Some(f@),
            None => for_of(*cfg, l@, header, latch, body@, *c) is None,
        },
{
    let reg: u8 = match c {
        Some(Condition { lhs: Operand::Reg(r), .. }) => *r,
        _ => {
            return None;
        },
    };
    let before: usize = match find_way_in(cfg, header, body) {
        Some(p) => p,
        None => {
            return None;
        },
    };
    let init_index: usize = match find_last_def(cfg, before, None, reg) {
        Some(i) => i,
        None => {
            return None;
        },
    };
    let step_index: usize = match find_last_def(cfg, latch, Some(&l.eliminated_pcs), reg) {
        Some(i) => i,
        None => {
            return None;
        },
    };
    match (cfg.blocks.get(&before), cfg.blocks.get(&latch)) {
        (Some(a), Some(b)) => {
            let init_pc: usize = a.instructions[init_index].0;
            let step_pc: usize = b.instructions[step_index].0;
            let first = l.format_pc_raw(init_pc, &a.instructions[init_index].1);
            let step = l.format_pc_raw(step_pc, &b.instructions[step_index].1);
            match (first, step) {
                (Some((raw, declared)), Some((step_str, _))) => {
                    let fresh: bool = match &declared {
                        Some(name) => !l.declared_vars.contains(name.as_str()),
                        None => false,
                    };
                    let init_str = if fresh {
                        let mut s = "let ".to_owned();
                        s.append(raw.as_str());
                        s
                    } else {
                        raw
                    };
                    Some(ForLoopInfo { init_str, step_str, init_pc, step_pc, cond_reg: reg })
                },
                _ => None,
            }
        },
        _ => None,
    }
}

/// The lifted program and the `for` loops found so far.
#[verifier::ext_equal]
pub struct Fors {
    pub lifted: Option<Lifted>,
    pub fors: Map<usize, ForLoop>,
}

/// The first instruction of `code` at `pc`, from the `i`th on.
pub open spec fn instr_at(code: Seq<(usize, Instruction)>, pc: usize, i: int) -> Option<Instruction>
    decreases code.len() - i,
{
    if i < 0 || i >= code.len() {
        None
    } else if code[i].0 == pc {
        Some(code[i].1)
    } else {
        instr_at(code, pc, i + 1)
    }
}

/// The step at the end of the latch, written anew.
pub open spec fn step_anew(
    cfg: ControlFlowGraph,
    l: Lifted,
    latch: usize,
    f: ForLoop,
) -> Seq<char> {
    if cfg.blocks@.contains_key(latch) {
        match instr_at(cfg.blocks@[latch].instructions@, f.step_pc, 0) {
            Some(instr) => match l.line(f.step_pc, instr) {
                Some((line, _)) => line,
                None => f.step,
            },
            None => f.step,
        }
    } else {
        f.step
    }
}

/// Take a `for` over: its init is dropped from the code, and one name serves for the
/// variable that it sets and that it steps.
pub open spec fn take_for(cfg: ControlFlowGraph, l: Lifted, latch: usize, f: ForLoop) -> (
    Lifted,
    ForLoop,
) {
    let m = Lifted { eliminated: l.eliminated.insert(f.init_pc), ..l };
    if m.variables.contains_key((f.init_pc, f.reg)) && m.variables.contains_key(
        (f.step_pc, f.reg),
    ) && m.variables[(f.init_pc, f.reg)].name != m.variables[(f.step_pc, f.reg)].name {
        let k = m.coalesced(
            m.variables[(f.step_pc, f.reg)].name,
            m.variables[(f.init_pc, f.reg)].name,
        );
        (k, ForLoop { step: step_anew(cfg, k, latch, f), ..f })
    } else {
        (m, f)
    }
}

pub open spec fn for_step(cfg: ControlFlowGraph, s: Fors, r: Region) -> Fors {
    match r {
        Region::Loop { header, latch, body, condition } => match s.lifted {
            Some(l) => match for_of(cfg, l, header, latch, body, condition) {
                Some(f) => {
                    let (m, g) = take_for(cfg, l, latch, f);
                    Fors { lifted: Some(m), fors: s.fors.insert(header, g) }
                },
                None => s,
            },
            None => s,
        },
        _ => s,
    }
}

/// The `for` loops among the first `n` structures.
pub open spec fn find_fors(
    cfg: ControlFlowGraph,
    l: Option<Lifted>,
    rs: Seq<Region>,
    n: nat,
) -> Fors
    decreases n,
{
    if n == 0 {
        Fors { lifted: l, fors: Map::empty() }
    } else {
        for_step(cfg, find_fors(cfg, l, rs, (n - 1) as nat), rs[n - 1])
    }
}

fn find_instr<'a>(code: &'a Vec<(usize, Instruction)>, pc: usize) -> (r: Option<&'a Instruction>)
    ensures
        match r {
            Some(i) => instr_at(code@, pc, 0) == Some(*i),
            None => instr_at(code@, pc, 0) is None,
        },
{
    let mut i: usize = 0;
    while i < code.len()
        invariant
            i <= code@.len(),
            instr_at(code@, pc, 0) == instr_at(code@, pc, i as int),
        decreases code@.len() - i,
    {
        if code[i].0 == pc {
            return Some(&code[i].1);
        }
        i = i + 1;
    }
    None
}

fn name_of(l: &LiftedProgram, key: (usize, u8)) -> (r: Option<String>)
    ensures
        match r {
            Some(s) => l@.variables.contains_key(key) && l@.variables[key].name == s@,
            None => !l@.variables.contains_key(key),
        },
{
    assert(l@.variables.contains_key(key) == l.variables@.contains_key(key));
    match l.variables.get(&key) {
        Some(v) => Some(v.name.as_str().to_owned()),
        None => None,
    }
}

fn take_for_loop(
    cfg: &ControlFlowGraph,
    l: &mut LiftedProgram,
    latch: usize,
    f: ForLoopInfo,
) -> (r: ForLoopInfo)
    ensures
        (final(l)@, r@) == take_for(*cfg, old(l)@, latch, f@),
{
    let ghost before = l@;
    let mut f = f;
    l.eliminated_pcs.insert(f.init_pc);
    let ghost m = Lifted { eliminated: before.eliminated.insert(f.init_pc), ..before };
    assert(l@ =~= m);
    match (name_of(l, (f.init_pc, f.cond_reg)), name_of(l, (f.step_pc, f.cond_reg))) {
        (Some(init), Some(step)) => {
            if !same_text(init.as_str(), step.as_str()) {
                l.coalesce_variable(step.as_str(), init.as_str());
                if let Some(block) = cfg.blocks.get(&latch) {
                    if let Some(instr) = find_instr(&block.instructions, f.step_pc) {
                        if let Some((raw, _)) = l.format_pc_raw(f.step_pc, instr) {
                            f.step_str = raw;
                        }
                    }
                }
            }
        },
        _ => {},
    }
    f
}

fn collect_fors(
    cfg: &ControlFlowGraph,
    lifted: Option<LiftedProgram>,
    structures: &Vec<Structure>,
) -> (r: (Option<LiftedProgram>, BTreeMap<usize, ForLoopInfo>))
    ensures
        ({
            let s = find_fors(
                *cfg,
                page::lifted_view(lifted),
                analysis::regions(structures@),
                structures@.len(),
            );
            &&& page::lifted_view(r.0) == s.lifted
            &&& (r.0 is Some) == (lifted is Some)
            &&& r.1@.map_values(|f: ForLoopInfo| f@) == s.fors
        }),
{
    let ghost rs = analysis::regions(structures@);
    let ghost l0 = page::lifted_view(lifted);
    let ghost given = lifted is Some;
    let mut lifted = lifted;
    let mut fors: BTreeMap<usize, ForLoopInfo> = BTreeMap::new();
    assert(fors@.map_values(|f: ForLoopInfo| f@) =~= Map::empty());
    let mut i: usize = 0;
    while i < structures.len()
        invariant
            i <= structures@.len(),
            rs == analysis::regions(structures@),
            (lifted is Some) == given,
            (Fors {
                lifted: page::lifted_view(lifted),
                fors: fors@.map_values(|f: ForLoopInfo| f@),
            }) == find_fors(*cfg, l0, rs, i as nat),
        decreases structures@.len() - i,
    {
        assert(rs[i as int] == structures@[i as int]@);
        if let Structure::Loop { header, latch, body, condition } = &structures[i] {
            if let Some(l) = &mut lifted {
                if let Some(f) = detect_for_loop_pattern(
                    cfg,
                    l,
                    *header,
                    *latch,
                    body,
                    condition,
                ) {
                    let ghost held = fors@.map_values(|f: ForLoopInfo| f@);
                    let g = take_for_loop(cfg, l, *latch, f);
                    fors.insert(*header, g);
                    assert(fors@.map_values(|f: ForLoopInfo| f@) =~= held.insert(*header, g@));
                }
            }
        }
        i = i + 1;
    }
    (lifted, fors)
}

/// The block at `pc` with the structure that it heads, unless it is written already. An
/// epilogue is no switch.
pub open spec fn region_text(plan: Plan, heads: ByHeader, p: Page, pc: usize) -> Page {
    if p.emitted.contains(pc) {
        p
    } else {
        let p = if plan.labels.contains_key(pc) && !page::unlabeled(p.lifted, pc) {
            Page { out: p.out + plan.labels[pc] + ":\n"@, ..p }
        } else {
            p
        };
        if heads.loops.contains_key(pc) {
            emit::loop_text(
                plan,
                p,
                pc,
                heads.loops[pc]->body,
                heads.loops[pc]->latch,
                heads.loops[pc]->Loop_condition,
            )
        } else if heads.ifs.contains_key(pc) {
            page::if_text(
                plan.cfg,
                p,
                pc,
                heads.ifs[pc]->then_blocks,
                heads.ifs[pc]->else_blocks,
                heads.ifs[pc]->IfThenElse_condition,
                0,
                None,
            )
        } else if heads.switches.contains_key(pc) && page::ending(p.lifted, pc) is None {
            emit::switch_text(plan, p, pc, heads.switches[pc]->reg, heads.switches[pc]->cases)
        } else {
            let q = page::block_body(plan.cfg, p, pc, 0, false);
            Page { emitted: q.emitted.insert(pc), ..q }
        }
    }
}

pub open spec fn region_texts(
    plan: Plan,
    heads: ByHeader,
    p: Page,
    order: Seq<usize>,
    n: nat,
) -> Page
    decreases n,
{
    if n == 0 {
        p
    } else {
        region_text(
            plan,
            heads,
            region_texts(plan, heads, p, order, (n - 1) as nat),
            order[n - 1],
        )
    }
}

/// A parameter by its variable and type.
pub open spec fn param_text(l: Option<Lifted>, entry: usize, reg: u8) -> Seq<char> {
    if l is Some && l->0.var_at_use.contains_key((entry, reg)) {
        l->0.var_at_use[(entry, reg)] + ": "@ + emit::type_of(
            l->0,
            l->0.var_at_use[(entry, reg)],
        )
    } else {
        instruction::register_name(reg) + ": u64"@
    }
}

pub open spec fn params_text(l: Option<Lifted>, entry: usize, params: Seq<u8>, n: nat) -> Seq<char>
    decreases n,
{
    if n == 0 {
        seq![]
    } else if n == 1 {
        param_text(l, entry, params[0])
    } else {
        params_text(l, entry, params, (n - 1) as nat) + ", "@ + param_text(
            l,
            entry,
            params[n - 1],
        )
    }
}

/// The first line of a function.
pub open spec fn signature_text(
    l: Option<Lifted>,
    entry: usize,
    name: Seq<char>,
    params: Seq<u8>,
) -> Seq<char> {
    "fn "@ + name + "("@ + params_text(l, entry, params, params.len()) + ") {\n"@
}

/// Lines indented, blank ones left empty.
pub open spec fn indented(ls: Seq<Seq<char>>, n: nat) -> Seq<char>
    decreases n,
{
    if n == 0 {
        seq![]
    } else {
        let rest = indented(ls, (n - 1) as nat);
        if ls[n - 1].len() == 0 {
            rest + "\n"@
        } else {
            rest + "    "@ + ls[n - 1] + "\n"@
        }
    }
}

/// Name and parameters of a function.
pub open spec fn signature_of(sig: Option<&FunctionSignature>) -> Option<(Seq<char>, Seq<u8>)> {
    match sig {
        Some(s) => Some((s.name@, s.params@)),
        None => None,
    }
}

/// What is written of the blocks of a function, before the blank lines are put right.
pub open spec fn body_page(
    rs: Seq<Region>,
    order: Seq<usize>,
    cfg: ControlFlowGraph,
    lifted: Option<Lifted>,
    start: Seq<char>,
) -> Page {
    let heads = by_header(rs, rs.len());
    let found = find_fors(cfg, lifted, rs, rs.len());
    let plan = Plan {
        cfg,
        labels: labels_of(rs, rs.len()),
        ifs: heads.ifs,
        fors: found.fors,
    };
    let p = Page { out: start, emitted: Set::empty(), lifted: found.lifted };
    emit::all_targets(plan, region_texts(plan, heads, p, order, order.len()))
}

/// What stands before the blocks of a function.
pub open spec fn heading(sig: Option<(Seq<char>, Seq<u8>)>) -> Seq<char> {
    match sig {
        Some(_) => seq![],
        None => "=== Pseudo-Code ===\n\n"@,
    }
}

/// What is left of a lifted program once the pseudo-code is written: names that were declared
/// on the way are marked, and instructions that a `for` took in are eliminated.
pub open spec fn lifted_after(
    rs: Seq<Region>,
    order: Seq<usize>,
    cfg: ControlFlowGraph,
    lifted: Option<Lifted>,
    sig: Option<(Seq<char>, Seq<u8>)>,
) -> Option<Lifted> {
    body_page(rs, order, cfg, lifted, heading(sig)).lifted
}

/// The pseudo-code of a function, inside its declaration where a signature is given.
pub open spec fn pseudo_text(
    rs: Seq<Region>,
    order: Seq<usize>,
    cfg: ControlFlowGraph,
    lifted: Option<Lifted>,
    sig: Option<(Seq<char>, Seq<u8>)>,
) -> Seq<char> {
    let body = body_page(rs, order, cfg, lifted, heading(sig)).out;
    match sig {
        Some((name, params)) => {
            let ls = lines::lines_from(body, 0);
            lines::tidy(
                signature_text(lifted, cfg.entry_pc, name, params) + indented(ls, ls.len())
                    + "}\n"@,
            )
        },
        None => lines::tidy(body),
    }
}

fn format_param(l: &Option<LiftedProgram>, entry: usize, reg: u8) -> (s: String)
    ensures
        s@ == param_text(page::lifted_view(*l), entry, reg),
{
    if let Some(p) = l {
        assert(p@.var_at_use.contains_key((entry, reg)) == p.var_at_use@.contains_key(
            (entry, reg),
        ));
        if let Some(name) = p.var_at_use.get(&(entry, reg)) {
            let mut s = name.as_str().to_owned();
            s.append(": ");
            s.append(emit::find_type(p, name.as_str()));
            return s;
        }
    }
    let mut s = register_string(reg);
    s.append(": u64");
    s
}

fn format_signature(l: &Option<LiftedProgram>, entry: usize, sig: &FunctionSignature) -> (s: String)
    ensures
        s@ == signature_text(page::lifted_view(*l), entry, sig.name@, sig.params@),
{
    let ghost m = page::lifted_view(*l);
    let mut list = empty_string();
    let mut i: usize = 0;
    while i < sig.params.len()
        invariant
            i <= sig.params@.len(),
            m == page::lifted_view(*l),
            list@ =~= params_text(m, entry, sig.params@, i as nat),
        decreases sig.params@.len() - i,
    {
        if i > 0 {
            list.append(", ");
        }
        list.append(format_param(l, entry, sig.params[i]).as_str());
        i = i + 1;
    }
    let mut s = "fn ".to_owned();
    s.append(sig.name.as_str());
    s.append("(");
    s.append(list.as_str());
    s.append(") {\n");
    s
}

fn indent_lines(output: &str) -> (s: String)
    ensures
        s@ == indented(lines::lines_from(output@, 0), lines::lines_from(output@, 0).len()),
{
    let chars = chars_of(output);
    let ls = split_lines(&chars);
    let ghost all = lines::line_views(ls@);
    let mut s = empty_string();
    let mut i: usize = 0;
    while i < ls.len()
        invariant
            i <= ls@.len(),
            all == lines::line_views(ls@),
            all.len() == ls@.len(),
            s@ == indented(all, i as nat),
        decreases ls@.len() - i,
    {
        assert(all[i as int] == ls@[i as int]@);
        if ls[i].len() == 0 {
            s.append("\n");
        } else {
            s.append("    ");
            s.append(string_of(&ls[i]).as_str());
            s.append("\n");
        }
        i = i + 1;
    }
    s
}

fn emit_region(pen: &mut Pen, set: &Setting<'_>, heads: &Headers, pc: usize)
    requires
        set.wf(),
        heads.wf(set.structures@),
        heads.ifs@ == set.ifs@,
    ensures
        (final(pen).lifted is Some) == (old(pen).lifted is Some),
        final(pen)@ == region_text(
            set.plan(),
            heads.view_of(set.structures@),
            old(pen)@,
            pc,
        ),
{
    let ghost plan = set.plan();
    let ghost p0 = pen@;
    let ghost h = heads.view_of(set.structures@);
    if pen.emitted.contains(&pc) {
        return;
    }
    assert(plan.labels.contains_key(pc) == set.labels@.contains_key(pc));
    assert(h.loops.contains_key(pc) == heads.loops@.contains_key(pc));
    assert(h.ifs.contains_key(pc) == heads.ifs@.contains_key(pc));
    assert(h.switches.contains_key(pc) == heads.switches@.contains_key(pc));
    if let Some(label) = set.labels.get(&pc) {
        if pen.labels(pc) {
            pen.output.append(label.as_str());
            pen.output.append(":\n");
            assert(pen@ =~= (Page { out: p0.out + plan.labels[pc] + ":\n"@, ..p0 }));
        }
    }
    if let Some(i) = heads.loops.get(&pc) {
        if let Structure::Loop { latch, body, condition, .. } = &set.structures[*i] {
            pen.emit_loop(set, pc, body, *latch, condition);
        }
        return;
    }
    if let Some(i) = heads.ifs.get(&pc) {
        assert(set.ifs@.contains_key(pc));
        pen.emit_if_at(set, *i, pc);
        return;
    }
    if !pen.ends(pc) {
        if let Some(i) = heads.switches.get(&pc) {
            if let Structure::Switch { reg, cases, .. } = &set.structures[*i] {
                pen.emit_switch(set, pc, *reg, cases);
            }
            return;
        }
    }
    pen.emit_block_body(set.cfg, pc, 0, false);
    let ghost q = pen@;
    pen.emitted.insert(pc);
    assert(pen@ =~= (Page { emitted: q.emitted.insert(pc), ..q }));
}

impl StructuralAnalysis {
    #[verifier::spinoff_prover]
    #[verifier::rlimit(60)]
    fn write_body(
        &self,
        cfg: &ControlFlowGraph,
        lifted: Option<LiftedProgram>,
        start: String,
    ) -> (pen: Pen)
        ensures
            pen@ == body_page(
                analysis::regions(self.structures@),
                self.dom_tree.rpo@,
                *cfg,
                page::lifted_view(lifted),
                start@,
            ),
            (pen.lifted is Some) == (lifted is Some),
    {
        let ghost rs = analysis::regions(self.structures@);
        let ghost l0 = page::lifted_view(lifted);
        let labels = build_block_labels(&self.structures);
        let heads = index_headers(&self.structures);
        let (l, fors) = collect_fors(cfg, lifted, &self.structures);
        let ifs = copy_index(&heads.ifs);
        let set = Setting { cfg, structures: &self.structures, labels, ifs, fors };
        let mut pen = Pen { output: start, emitted: BTreeSet::new(), lifted: l };
        let ghost found = find_fors(*cfg, l0, rs, rs.len());
        let ghost plan = Plan {
            cfg: *cfg,
            labels: labels_of(rs, rs.len()),
            ifs: by_header(rs, rs.len()).ifs,
            fors: found.fors,
        };
        let ghost p0 = Page { out: start@, emitted: Set::empty(), lifted: found.lifted };
        let ghost h = by_header(rs, rs.len());
        assert(rs.len() == self.structures@.len());
        assert(set.plan() =~= plan);
        assert(pen@ =~= p0);
        let mut i: usize = 0;
        while i < self.dom_tree.rpo.len()
            invariant
                i <= self.dom_tree.rpo@.len(),
                set.wf(),
                set.structures@ == self.structures@,
                heads.wf(self.structures@),
                heads.ifs@ == set.ifs@,
                heads.view_of(self.structures@) == h,
                set.plan() == plan,
                pen@ == region_texts(plan, h, p0, self.dom_tree.rpo@, i as nat),
                (pen.lifted is Some) == (lifted is Some),
            decreases self.dom_tree.rpo@.len() - i,
        {
            emit_region(&mut pen, &set, &heads, self.dom_tree.rpo[i]);
            i = i + 1;
        }
        pen.emit_switch_targets(&set);
        pen
    }

    fn write_pseudo_code(
        &self,
        cfg: &ControlFlowGraph,
        lifted: Option<LiftedProgram>,
        sig: Option<&FunctionSignature>,
    ) -> (r: (String, Option<LiftedProgram>))
        ensures
            r.0@ == pseudo_text(
                analysis::regions(self.structures@),
                self.dom_tree.rpo@,
                *cfg,
                page::lifted_view(lifted),
                signature_of(sig),
            ),
            page::lifted_view(r.1) == lifted_after(
                analysis::regions(self.structures@),
                self.dom_tree.rpo@,
                *cfg,
                page::lifted_view(lifted),
                signature_of(sig),
            ),
            (r.1 is Some) == (lifted is Some),
    {
        match sig {
            Some(sig) => {
                let mut whole = format_signature(&lifted, cfg.entry_pc, sig);
                let pen = self.write_body(cfg, lifted, empty_string());
                whole.append(indent_lines(pen.output.as_str()).as_str());
                whole.append("}\n");
                (fix_blank_lines(whole.as_str()), pen.lifted)
            },
            None => {
                let pen = self.write_body(cfg, lifted, "=== Pseudo-Code ===\n\n".to_owned());
                (fix_blank_lines(pen.output.as_str()), pen.lifted)
            },
        }
    }

    /// Generate pseudo-code representation of the program.
    /// When `lifted` is provided, uses variable names and folded expressions, and leaves in it
    /// what was declared and eliminated on the way.
    /// When `sig` is provided, wraps the output in a function declaration.
    pub fn pseudo_code(
        &self,
        cfg: &ControlFlowGraph,
        lifted: Option<&mut LiftedProgram>,
        sig: Option<&FunctionSignature>,
    ) -> (s: String)
        ensures
            s@ == pseudo_text(
                analysis::regions(self.structures@),
                self.dom_tree.rpo@,
                *cfg,
                match lifted {
                    Some(l) => Some((*l)@),
                    None => None,
                },
                signature_of(sig),
            ),
            match lifted {
                Some(l) => Some((*final(l))@) == lifted_after(
                    analysis::regions(self.structures@),
                    self.dom_tree.rpo@,
                    *cfg,
                    Some((*l)@),
                    signature_of(sig),
                ),
                None => true,
            },
    {
        match lifted {
            Some(l) => {
                let mut taken = LiftedProgram::new();
                std::mem::swap(l, &mut taken);
                let (s, left) = self.write_pseudo_code(cfg, Some(taken), sig);
                if let Some(p) = left {
                    *l = p;
                }
                s
            },
            None => self.write_pseudo_code(cfg, None, sig).0,
        }
    }
}

fn copy_index(m: &BTreeMap<usize, usize>) -> (r: BTreeMap<usize, usize>)
    ensures
        r@ == m@,
{
    let keys = crate::ordered::keys_of(m);
    let mut r: BTreeMap<usize, usize> = BTreeMap::new();
    let mut i: usize = 0;
    while i < keys.len()
        invariant
            i <= keys@.len(),
            keys@.to_set() == m@.dom(),
            forall|k: usize| #[trigger] r@.contains_key(k) <==> keys@.take(i as int).contains(k),
            forall|k: usize| #[trigger]
                r@.contains_key(k) ==> m@.contains_key(k) && r@[k] == m@[k],
        decreases keys@.len() - i,
    {
        let k: usize = keys[i];
        assert(keys@.to_set().contains(k));
        assert(keys@.take(i + 1) =~= keys@.take(i as int).push(k));
        let ghost before = r@;
        if let Some(v) = m.get(&k) {
            r.insert(k, *v);
        }
        assert forall|j: usize| #[trigger] r@.contains_key(j) <==> keys@.take(i + 1).contains(j) by {
            ordered::lemma_push_key(keys@.take(i as int), k, j);
            assert(before.contains_key(j) <==> keys@.take(i as int).contains(j));
        }
        i = i + 1;
    }
    proof {
        assert(keys@.take(i as int) =~= keys@);
        assert forall|k: usize| r@.contains_key(k) == m@.contains_key(k) by {
            assert(r@.contains_key(k) <==> keys@.contains(k));
            assert(keys@.to_set().contains(k) == m@.contains_key(k));
        }
        assert(r@ =~= m@);
    }
    r
}

} // verus!
