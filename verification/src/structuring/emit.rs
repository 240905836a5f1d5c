//! Pseudo-code of whole functions.

use crate::cfg::ControlFlowGraph;
use crate::graph;
use crate::instruction;
use crate::instruction::register_string;
use crate::lifting::program;
use crate::lifting::program::{Lifted, LiftedProgram};
use crate::names;
use crate::ordered;
use crate::ordered::{keys_of, members_of, pair_keys_of};
use crate::structuring::analysis;
use crate::structuring::analysis::{find_continue_condition, Condition, Structure};
use crate::structuring::page;
use crate::structuring::page::{last_instruction_pc, Page, Pen, Plan, Setting};
use crate::text;
use crate::text::{empty_string, push_dec, same_text};
use std::collections::{BTreeMap, BTreeSet};
use vstd::prelude::*;

verus! {

broadcast use vstd::laws_cmp::group_laws_cmp;

/// One block of a loop. In the latch of a `for` the step is left out.
pub open spec fn loop_block(
    plan: Plan,
    p: Page,
    header: usize,
    body: Set<usize>,
    latch: usize,
    pc: usize,
) -> Page {
    if pc == header || p.emitted.contains(pc) {
        p
    } else {
        let around = Some((body, header));
        let is_latch = pc == latch && plan.fors.contains_key(header);
        let p = if is_latch && p.lifted is Some {
            Page {
                lifted: Some(
                    Lifted {
                        eliminated: p.lifted->0.eliminated.insert(plan.fors[header].step_pc),
                        ..p.lifted->0
                    },
                ),
                ..p
            }
        } else {
            p
        };
        if plan.ifs.contains_key(pc) && plan.ifs[pc] is IfThenElse {
            page::if_text(
                plan.cfg,
                p,
                pc,
                plan.ifs[pc]->then_blocks,
                plan.ifs[pc]->else_blocks,
                plan.ifs[pc]->IfThenElse_condition,
                1,
                around,
            )
        } else {
            let q = if is_latch {
                page::block_body(plan.cfg, p, pc, 1, true)
            } else {
                page::inner_block(plan.cfg, p, pc, 1, around)
            };
            Page { emitted: q.emitted.insert(pc), ..q }
        }
    }
}

pub open spec fn loop_blocks(
    plan: Plan,
    p: Page,
    header: usize,
    body: Set<usize>,
    latch: usize,
    list: Seq<usize>,
    n: nat,
) -> Page
    decreases n,
{
    if n == 0 {
        p
    } else {
        loop_block(
            plan,
            loop_blocks(plan, p, header, body, latch, list, (n - 1) as nat),
            header,
            body,
            latch,
            list[n - 1],
        )
    }
}

/// The first line of a loop.
pub open spec fn loop_head(plan: Plan, header: usize, cond: Seq<char>) -> Seq<char> {
    if plan.fors.contains_key(header) {
        "for ("@ + plan.fors[header].init + "; "@ + cond + "; "@ + plan.fors[header].step
            + ") {\n"@
    } else {
        "while ("@ + cond + ") {\n"@
    }
}

/// A loop: its head, the header block, and the other blocks in ascending order; nothing
/// where the header is left out.
pub open spec fn loop_text(
    plan: Plan,
    p: Page,
    header: usize,
    body: Set<usize>,
    latch: usize,
    c: Option<Condition>,
) -> Page {
    if page::suppressed(p.lifted, header) {
        Page { emitted: p.emitted.insert(header), ..p }
    } else {
        shown_loop(plan, p, header, body, latch, c)
    }
}

/// A loop whose header is shown. Its head states the condition on which the loop goes on.
pub open spec fn shown_loop(
    plan: Plan,
    p: Page,
    header: usize,
    body: Set<usize>,
    latch: usize,
    c: Option<Condition>,
) -> Page {
    let c = analysis::continue_condition(plan.cfg, header, body, c);
    let head = loop_head(plan, header, page::condition_at(p.lifted, plan.cfg, header, c));
    let p = Page { out: p.out + head, ..p };
    let p = page::block_body(plan.cfg, p, header, 1, true);
    let list = ordered::ascending(body);
    let p = loop_blocks(plan, p, header, body, latch, list, list.len());
    Page { out: p.out + "}\n"@, emitted: p.emitted.union(body), ..p }
}

/// The type of the first variable called `name`, `u64` where there is none.
pub open spec fn first_type(l: Lifted, name: Seq<char>, keys: Seq<(usize, u8)>, i: int) -> Seq<char>
    decreases keys.len() - i,
{
    if i < 0 || i >= keys.len() {
        "u64"@
    } else if l.variables[keys[i]].name == name {
        l.variables[keys[i]].var_type.symbol()
    } else {
        first_type(l, name, keys, i + 1)
    }
}

pub open spec fn type_of(l: Lifted, name: Seq<char>) -> Seq<char> {
    first_type(l, name, ordered::ascending_pairs(l.variables.dom()), 0)
}

pub fn find_type(l: &LiftedProgram, name: &str) -> (s: &'static str)
    ensures
        s@ == type_of(l@, name@),
{
    let ghost m = l@;
    let keys = pair_keys_of(&l.variables);
    assert(m.variables.dom() =~= l.variables@.dom());
    let mut i: usize = 0;
    while i < keys.len()
        invariant
            i <= keys@.len(),
            m == l@,
            keys@.to_set() == l.variables@.dom(),
            first_type(m, name@, keys@, 0) == first_type(m, name@, keys@, i as int),
            keys@ == ordered::ascending_pairs(m.variables.dom()),
        decreases keys@.len() - i,
    {
        let key: (usize, u8) = keys[i];
        assert(keys@.to_set().contains(key));
        if let Some(v) = l.variables.get(&key) {
            assert(m.variables[key] == v@);
            if same_text(v.name.as_str(), name) {
                return v.var_type.as_str();
            }
        }
        i = i + 1;
    }
    "u64"
}

impl Pen {
    fn emit_loop_block(
        &mut self,
        set: &Setting<'_>,
        header: usize,
        body: &BTreeSet<usize>,
        latch: usize,
        pc: usize,
    )
        requires
            set.wf(),
        ensures
            (final(self).lifted is Some) == (old(self).lifted is Some),
            final(self)@ == loop_block(set.plan(), old(self)@, header, body@, latch, pc),
    {
        let ghost plan = set.plan();
        if pc == header || self.emitted.contains(&pc) {
            return;
        }
        assert(plan.fors.contains_key(header) == set.fors@.contains_key(header));
        assert(plan.ifs.contains_key(pc) == set.ifs@.contains_key(pc));
        let ghost p0 = self@;
        let mut is_latch: bool = false;
        if pc == latch {
            if let Some(info) = set.fors.get(&header) {
                is_latch = true;
                if let Some(l) = &mut self.lifted {
                    l.eliminated_pcs.insert(info.step_pc);
                }
            }
        }
        proof {
            let want = if is_latch && p0.lifted is Some {
                Page {
                    lifted: Some(
                        Lifted {
                            eliminated: p0.lifted->0.eliminated.insert(plan.fors[header].step_pc),
                            ..p0.lifted->0
                        },
                    ),
                    ..p0
                }
            } else {
                p0
            };
            assert(self@ =~= want);
        }
        if let Some(index) = set.ifs.get(&pc) {
            if let Structure::IfThenElse { then_blocks, else_blocks, condition, .. } =
                &set.structures[*index] {
                self.emit_if(
                    set.cfg,
                    pc,
                    then_blocks,
                    else_blocks,
                    condition,
                    1,
                    Some((body, header)),
                );
            }
            return;
        }
        if is_latch {
            self.emit_block_body(set.cfg, pc, 1, true);
        } else {
            self.emit_block_with_loop_control(set.cfg, pc, 1, Some((body, header)));
        }
        let ghost q = self@;
        self.emitted.insert(pc);
        assert(self@ =~= (Page { emitted: q.emitted.insert(pc), ..q }));
    }

    /// Emit a loop structure (while or for).
    pub fn emit_loop(
        &mut self,
        set: &Setting<'_>,
        header: usize,
        body: &BTreeSet<usize>,
        latch: usize,
        c: &Option<Condition>,
    )
        requires
            set.wf(),
        ensures
            (final(self).lifted is Some) == (old(self).lifted is Some),
            final(self)@ == loop_text(set.plan(), old(self)@, header, body@, latch, *c),
    {
        let ghost plan = set.plan();
        let ghost p0 = self@;
        if self.suppresses(header) {
            self.emitted.insert(header);
            assert(self@ =~= (Page { emitted: p0.emitted.insert(header), ..p0 }));
            return;
        }
        let on = find_continue_condition(set.cfg, header, body, c);
        let cond = self.condition_string(set.cfg, header, &on);
        assert(plan.fors.contains_key(header) == set.fors@.contains_key(header));
        let mut head: String;
        match set.fors.get(&header) {
            Some(info) => {
                head = "for (".to_owned();
                head.append(info.init_str.as_str());
                head.append("; ");
                head.append(cond.as_str());
                head.append("; ");
                head.append(info.step_str.as_str());
                head.append(") {\n");
            },
            None => {
                head = "while (".to_owned();
                head.append(cond.as_str());
                head.append(") {\n");
            },
        }
        assert(head@ == loop_head(plan, header, cond@));
        self.output.append(head.as_str());
        assert(self@ =~= (Page { out: p0.out + head@, ..p0 }));
        self.emit_block_body(set.cfg, header, 1, true);
        let ghost p1 = self@;
        let list = members_of(body);
        let mut i: usize = 0;
        while i < list.len()
            invariant
                (self.lifted is Some) == (old(self).lifted is Some),
                i <= list@.len(),
                set.wf(),
                plan == set.plan(),
                self@ == loop_blocks(plan, p1, header, body@, latch, list@, i as nat),
            decreases list@.len() - i,
        {
            self.emit_loop_block(set, header, body, latch, list[i]);
            i = i + 1;
        }
        let ghost p2 = self@;
        self.output.append("}\n");
        let mut n: usize = 0;
        assert(list@.take(0).to_set() =~= Set::empty());
        assert(self.emitted@ =~= p2.emitted.union(list@.take(0).to_set()));
        while n < list.len()
            invariant
                (self.lifted is Some) == (old(self).lifted is Some),
                n <= list@.len(),
                self.output@ == p2.out + "}\n"@,
                page::lifted_view(self.lifted) == p2.lifted,
                self.emitted@ == p2.emitted.union(list@.take(n as int).to_set()),
            decreases list@.len() - n,
        {
            self.emitted.insert(list[n]);
            proof {
                let pc = list@[n as int];
                assert(list@.take(n + 1) =~= list@.take(n as int).push(pc));
                ordered::lemma_push_to_set(list@.take(n as int), pc);
                assert(self.emitted@ =~= p2.emitted.union(list@.take(n + 1).to_set()));
            }
            n = n + 1;
        }
        assert(list@.take(n as int) =~= list@);
        assert(self@ =~= loop_text(plan, p0, header, body@, latch, *c));
    }
}

/// Numbers separated by commas.
pub open spec fn number_list(v: Seq<u32>, n: nat) -> Seq<char>
    decreases n,
{
    if n == 0 {
        seq![]
    } else if n == 1 {
        text::dec(v[0] as nat)
    } else {
        number_list(v, (n - 1) as nat) + ", "@ + text::dec(v[n - 1] as nat)
    }
}

fn format_numbers(v: &Vec<u32>) -> (s: String)
    ensures
        s@ == number_list(v@, v@.len()),
{
    let mut s = empty_string();
    let mut i: usize = 0;
    while i < v.len()
        invariant
            i <= v@.len(),
            s@ =~= number_list(v@, i as nat),
        decreases v@.len() - i,
    {
        if i > 0 {
            s.append(", ");
        }
        push_dec(&mut s, v[i] as u64);
        i = i + 1;
    }
    s
}

/// A goto target by its label, or its address.
pub open spec fn target_text(labels: Map<usize, Seq<char>>, target: usize) -> Seq<char> {
    if labels.contains_key(target) {
        labels[target]
    } else {
        text::hex_prefixed(target as nat, 4)
    }
}

/// Format a goto target using a label if available, otherwise as a hex address.
fn format_goto_target(target: usize, labels: &BTreeMap<usize, String>) -> (s: String)
    ensures
        s@ == target_text(names::text_values(labels@), target),
{
    assert(names::text_values(labels@).contains_key(target) == labels@.contains_key(target));
    match labels.get(&target) {
        Some(s) => s.as_str().to_owned(),
        None => text::hex_prefixed_string(target as u64, 4),
    }
}

pub open spec fn case_lines(
    labels: Map<usize, Seq<char>>,
    cases: Seq<(Seq<u32>, usize)>,
    n: nat,
) -> Seq<char>
    decreases n,
{
    if n == 0 {
        seq![]
    } else {
        let (values, target) = cases[n - 1];
        case_lines(labels, cases, (n - 1) as nat) + ("    case "@ + number_list(
            values,
            values.len(),
        ) + ": goto "@ + target_text(labels, target) + ";\n"@)
    }
}

/// The variable that a switch at the end of block `pc` goes by, with the declaration
/// that it needs and the lifted program after it.
pub open spec fn switch_var(
    cfg: ControlFlowGraph,
    l: Option<Lifted>,
    pc: usize,
    reg: u8,
) -> (Seq<char>, Seq<char>, Option<Lifted>) {
    let plain = (instruction::register_name(reg), Seq::<char>::empty(), l);
    if l is Some && page::last_pc(cfg, pc) is Some {
        let at = (page::last_pc(cfg, pc)->0, reg);
        let p = l->0;
        if p.var_at_use.contains_key(at) {
            let name = p.var_at_use[at];
            if p.declared.contains(name) {
                (name, Seq::empty(), l)
            } else {
                (
                    name,
                    "let "@ + name + ": "@ + type_of(p, name) + ";\n"@,
                    Some(Lifted { declared: p.declared.insert(name), ..p }),
                )
            }
        } else {
            plain
        }
    } else {
        plain
    }
}

/// A switch; nothing where its block is left out.
pub open spec fn switch_text(
    plan: Plan,
    p: Page,
    pc: usize,
    reg: u8,
    cases: Seq<(Seq<u32>, usize)>,
) -> Page {
    if page::suppressed(p.lifted, pc) {
        Page { emitted: p.emitted.insert(pc), ..p }
    } else {
        shown_switch(plan, p, pc, reg, cases)
    }
}

/// A switch whose block is shown.
pub open spec fn shown_switch(
    plan: Plan,
    p: Page,
    pc: usize,
    reg: u8,
    cases: Seq<(Seq<u32>, usize)>,
) -> Page {
    let p = page::block_body(plan.cfg, p, pc, 0, true);
    let (name, declaration, l) = switch_var(plan.cfg, p.lifted, pc, reg);
    Page {
        out: p.out + declaration + "switch ("@ + name + ") {\n"@ + case_lines(
            plan.labels,
            cases,
            cases.len(),
        ) + "}\n"@,
        emitted: p.emitted.insert(pc),
        lifted: l,
    }
}

fn case_line(values: &Vec<u32>, target: usize, labels: &BTreeMap<usize, String>) -> (s: String)
    ensures
        s@ == "    case "@ + number_list(values@, values@.len()) + ": goto "@ + target_text(
            names::text_values(labels@),
            target,
        ) + ";\n"@,
{
    let mut s = "    case ".to_owned();
    s.append(format_numbers(values).as_str());
    s.append(": goto ");
    s.append(format_goto_target(target, labels).as_str());
    s.append(";\n");
    s
}

fn format_cases(cases: &Vec<(Vec<u32>, usize)>, labels: &BTreeMap<usize, String>) -> (s: String)
    ensures
        s@ == case_lines(
            names::text_values(labels@),
            analysis::case_views(cases@),
            cases@.len(),
        ),
{
    let ghost views = analysis::case_views(cases@);
    let mut s = empty_string();
    let mut i: usize = 0;
    while i < cases.len()
        invariant
            i <= cases@.len(),
            views == analysis::case_views(cases@),
            s@ == case_lines(names::text_values(labels@), views, i as nat),
        decreases cases@.len() - i,
    {
        assert(views[i as int] == (cases@[i as int].0@, cases@[i as int].1));
        let line = case_line(&cases[i].0, cases[i].1, labels);
        s.append(line.as_str());
        i = i + 1;
    }
    s
}

impl Pen {
    /// Name the variable of a switch, declaring it where that is due.
    fn name_switch(&mut self, cfg: &ControlFlowGraph, pc: usize, reg: u8) -> (r: (String, String))
        ensures
            (final(self).lifted is Some) == (old(self).lifted is Some),
            (r.0@, r.1@, page::lifted_view(final(self).lifted)) == switch_var(
                *cfg,
                page::lifted_view(old(self).lifted),
                pc,
                reg,
            ),
            final(self).output == old(self).output,
            final(self).emitted == old(self).emitted,
    {
        let at: Option<usize> = last_instruction_pc(cfg, pc);
        match &mut self.lifted {
            Some(l) => {
                if let Some(last) = at {
                    let ghost was = l@;
                    assert(was.var_at_use.contains_key((last, reg)) == l.var_at_use@.contains_key(
                        (last, reg),
                    ));
                    let name: Option<String> = match l.var_at_use.get(&(last, reg)) {
                        Some(n) => Some(n.as_str().to_owned()),
                        None => None,
                    };
                    if let Some(name) = name {
                        let kind: &'static str = find_type(l, name.as_str());
                        let added: bool = l.declared_vars.insert(name.as_str().to_owned());
                        if added {
                            let mut s = "let ".to_owned();
                            s.append(name.as_str());
                            s.append(": ");
                            s.append(kind);
                            s.append(";\n");
                            assert(l@ =~= (Lifted {
                                declared: was.declared.insert(name@),
                                ..was
                            }));
                            return (name, s);
                        }
                        assert(l@ =~= was);
                        return (name, empty_string());
                    }
                }
                (register_string(reg), empty_string())
            },
            None => (register_string(reg), empty_string()),
        }
    }

    /// Emit a switch/case structure.
    pub fn emit_switch(
        &mut self,
        set: &Setting<'_>,
        pc: usize,
        reg: u8,
        cases: &Vec<(Vec<u32>, usize)>,
    )
        ensures
            (final(self).lifted is Some) == (old(self).lifted is Some),
            final(self)@ == switch_text(
                set.plan(),
                old(self)@,
                pc,
                reg,
                analysis::case_views(cases@),
            ),
    {
        let ghost p0 = self@;
        if self.suppresses(pc) {
            self.emitted.insert(pc);
            assert(self@ =~= (Page { emitted: p0.emitted.insert(pc), ..p0 }));
            return;
        }
        self.emit_block_body(set.cfg, pc, 0, true);
        let (name, declaration) = self.name_switch(set.cfg, pc, reg);
        self.output.append(declaration.as_str());
        self.output.append("switch (");
        self.output.append(name.as_str());
        self.output.append(") {\n");
        self.output.append(format_cases(cases, &set.labels).as_str());
        self.output.append("}\n");
        self.emitted.insert(pc);
        assert(analysis::case_views(cases@).len() == cases@.len());
        assert(self@ =~= switch_text(set.plan(), p0, pc, reg, analysis::case_views(cases@)));
    }
}

/// A breadth-first walk over blocks that are not written yet.
#[verifier::ext_equal]
pub struct Sweep {
    pub queue: Seq<usize>,
    pub emitted: Set<usize>,
    pub list: Seq<usize>,
}

pub open spec fn enqueue(q: Seq<usize>, emitted: Set<usize>, succs: Seq<usize>, n: nat) -> Seq<
    usize,
>
    decreases n,
{
    if n == 0 {
        q
    } else {
        let rest = enqueue(q, emitted, succs, (n - 1) as nat);
        if emitted.contains(succs[n - 1]) {
            rest
        } else {
            rest.push(succs[n - 1])
        }
    }
}

pub open spec fn sweep_step(cfg: ControlFlowGraph, s: Sweep) -> Sweep {
    if s.queue.len() == 0 {
        s
    } else {
        let node = s.queue[0];
        let rest = s.queue.subrange(1, s.queue.len() as int);
        if s.emitted.contains(node) {
            Sweep { queue: rest, ..s }
        } else {
            let emitted = s.emitted.insert(node);
            let succs = graph::successors_at(cfg, node);
            Sweep {
                queue: enqueue(rest, emitted, succs, succs.len()),
                emitted,
                list: s.list.push(node),
            }
        }
    }
}

pub open spec fn sweep_steps(cfg: ControlFlowGraph, s: Sweep, n: nat) -> Sweep
    decreases n,
{
    if n == 0 {
        s
    } else {
        sweep_step(cfg, sweep_steps(cfg, s, (n - 1) as nat))
    }
}

pub open spec fn sweep_start(emitted: Set<usize>, start: usize) -> Sweep {
    Sweep { queue: seq![start], emitted, list: seq![] }
}

/// The end of the walk from `start`.
pub open spec fn swept(cfg: ControlFlowGraph, emitted: Set<usize>, start: usize) -> Sweep {
    let s = sweep_start(emitted, start);
    sweep_steps(cfg, s, choose|n: nat| (#[trigger] sweep_steps(cfg, s, n)).queue.len() == 0)
}

proof fn lemma_sweep_rests(cfg: ControlFlowGraph, s: Sweep, a: nat, b: nat)
    requires
        sweep_steps(cfg, s, a).queue.len() == 0,
        a <= b,
    ensures
        sweep_steps(cfg, s, b) == sweep_steps(cfg, s, a),
    decreases b,
{
    if a < b {
        lemma_sweep_rests(cfg, s, a, (b - 1) as nat);
    }
}

proof fn lemma_swept(cfg: ControlFlowGraph, emitted: Set<usize>, start: usize, a: nat)
    requires
        sweep_steps(cfg, sweep_start(emitted, start), a).queue.len() == 0,
    ensures
        swept(cfg, emitted, start) == sweep_steps(cfg, sweep_start(emitted, start), a),
{
    let s = sweep_start(emitted, start);
    let b = choose|n: nat| (#[trigger] sweep_steps(cfg, s, n)).queue.len() == 0;
    if a <= b {
        lemma_sweep_rests(cfg, s, a, b);
    } else {
        lemma_sweep_rests(cfg, s, b, a);
    }
}

impl Pen {
    /// Walk forward from `start`, marking and listing the blocks that are not written.
    fn sweep(&mut self, cfg: &ControlFlowGraph, start: usize) -> (list: Vec<usize>)
        ensures
            (final(self).lifted is Some) == (old(self).lifted is Some),
            list@ == swept(*cfg, old(self)@.emitted, start).list,
            final(self)@ == (Page {
                emitted: swept(*cfg, old(self)@.emitted, start).emitted,
                ..old(self)@
            }),
    {
        let ghost p0 = self@;
        let ghost begin = sweep_start(p0.emitted, start);
        let ghost all = graph::edge_targets(*cfg).insert(start);
        proof {
            graph::lemma_edge_targets_finite(*cfg);
        }
        let mut queue: Vec<usize> = Vec::new();
        queue.push(start);
        let mut list: Vec<usize> = Vec::new();
        let mut steps: Ghost<nat> = Ghost(0nat);
        assert(queue@ =~= seq![start]);
        assert(list@ =~= seq![]);
        while queue.len() > 0
            invariant
                (self.lifted is Some) == (old(self).lifted is Some),
                begin == sweep_start(p0.emitted, start),
                all == graph::edge_targets(*cfg).insert(start),
                all.finite(),
                self@ == (Page { emitted: self.emitted@, ..p0 }),
                forall|i: int| 0 <= i < queue@.len() ==> all.contains(#[trigger] queue@[i]),
                sweep_steps(*cfg, begin, steps@) == (Sweep {
                    queue: queue@,
                    emitted: self.emitted@,
                    list: list@,
                }),
            decreases all.difference(self.emitted@).len(), queue@.len(),
        {
            let ghost before = queue@;
            let ghost held = self.emitted@;
            let node: usize = queue.remove(0);
            let ghost rest = queue@;
            assert(rest =~= before.subrange(1, before.len() as int));
            assert(all.contains(before[0]));
            assert forall|i: int| 0 <= i < rest.len() implies all.contains(#[trigger] rest[i]) by {
                assert(rest[i] == before[i + 1]);
            }
            if !self.emitted.contains(&node) {
                self.emitted.insert(node);
                list.push(node);
                proof {
                    assert(all.difference(self.emitted@) =~= all.difference(held).remove(node));
                    assert(all.difference(held).contains(node));
                }
                let ghost succs = graph::successors_at(*cfg, node);
                if let Some(block) = cfg.blocks.get(&node) {
                    let mut j: usize = 0;
                    while j < block.successors.len()
                        invariant
                            (self.lifted is Some) == (old(self).lifted is Some),
                            j <= block.successors@.len(),
                            all == graph::edge_targets(*cfg).insert(start),
                            cfg.blocks@.contains_key(node),
                            *block == cfg.blocks@[node],
                            succs == block.successors@,
                            queue@ == enqueue(rest, self.emitted@, succs, j as nat),
                            forall|i: int|
                                0 <= i < queue@.len() ==> all.contains(#[trigger] queue@[i]),
                        decreases block.successors@.len() - j,
                    {
                        let t: usize = block.successors[j];
                        assert(graph::edge_targets(*cfg).contains(t)) by {
                            assert(cfg.blocks@.contains_key(node));
                            assert(block.successors@.contains(t));
                        }
                        if !self.emitted.contains(&t) {
                            queue.push(t);
                        }
                        j = j + 1;
                    }
                } else {
                    assert(succs =~= seq![]);
                }
            }
            proof {
                steps@ = steps@ + 1;
                assert(self@ =~= (Page { emitted: self.emitted@, ..p0 }));
            }
        }
        proof {
            lemma_swept(*cfg, p0.emitted, start, steps@);
        }
        list
    }
}

/// A block behind a switch target, with its label unless it is the target itself.
pub open spec fn target_block(plan: Plan, p: Page, first: usize, pc: usize) -> Page {
    let p = if pc != first && plan.labels.contains_key(pc) && !page::unlabeled(p.lifted, pc) {
        Page { out: p.out + plan.labels[pc] + ":\n"@, ..p }
    } else {
        p
    };
    if plan.ifs.contains_key(pc) && plan.ifs[pc] is IfThenElse {
        page::if_text(
            plan.cfg,
            p,
            pc,
            plan.ifs[pc]->then_blocks,
            plan.ifs[pc]->else_blocks,
            plan.ifs[pc]->IfThenElse_condition,
            0,
            None,
        )
    } else {
        page::block_body(plan.cfg, p, pc, 0, false)
    }
}

pub open spec fn target_blocks(plan: Plan, p: Page, first: usize, list: Seq<usize>, n: nat) -> Page
    decreases n,
{
    if n == 0 {
        p
    } else {
        target_block(
            plan,
            target_blocks(plan, p, first, list, (n - 1) as nat),
            first,
            list[n - 1],
        )
    }
}

/// A switch target and what can be reached from it, unless it is written already.
pub open spec fn one_target(plan: Plan, p: Page, pc: usize) -> Page {
    if p.emitted.contains(pc) || !plan.labels.contains_key(pc) {
        p
    } else {
        let s = swept(plan.cfg, p.emitted, pc);
        let label = if page::unlabeled(p.lifted, pc) {
            seq![]
        } else {
            plan.labels[pc] + ":\n"@
        };
        let q = Page { out: p.out + label, emitted: s.emitted, ..p };
        target_blocks(plan, q, pc, s.list, s.list.len())
    }
}

pub open spec fn some_targets(plan: Plan, p: Page, list: Seq<usize>, n: nat) -> Page
    decreases n,
{
    if n == 0 {
        p
    } else {
        one_target(plan, some_targets(plan, p, list, (n - 1) as nat), list[n - 1])
    }
}

/// The switch targets that are blocks and not written yet.
pub open spec fn open_targets(plan: Plan, emitted: Set<usize>) -> Set<usize> {
    Set::new(
        |pc: usize|
            plan.labels.contains_key(pc) && !emitted.contains(pc) && plan.cfg.blocks@.contains_key(
                pc,
            ),
    )
}

/// Switch targets in ascending order.
pub open spec fn all_targets(plan: Plan, p: Page) -> Page {
    let list = ordered::ascending(open_targets(plan, p.emitted));
    some_targets(plan, p, list, list.len())
}

impl Pen {
    pub fn emit_if_at(&mut self, set: &Setting<'_>, index: usize, pc: usize)
        requires
            set.wf(),
            set.ifs@.contains_key(pc),
            set.ifs@[pc] == index,
        ensures
            (final(self).lifted is Some) == (old(self).lifted is Some),
            final(self)@ == page::if_text(
                *set.cfg,
                old(self)@,
                pc,
                set.plan().ifs[pc]->then_blocks,
                set.plan().ifs[pc]->else_blocks,
                set.plan().ifs[pc]->IfThenElse_condition,
                0,
                None,
            ),
    {
        if let Structure::IfThenElse { then_blocks, else_blocks, condition, .. } =
            &set.structures[index] {
            self.emit_if(set.cfg, pc, then_blocks, else_blocks, condition, 0, None);
        }
    }

    fn emit_target_block(&mut self, set: &Setting<'_>, first: usize, pc: usize)
        requires
            set.wf(),
        ensures
            (final(self).lifted is Some) == (old(self).lifted is Some),
            final(self)@ == target_block(set.plan(), old(self)@, first, pc),
    {
        let ghost plan = set.plan();
        let ghost p = self@;
        assert(plan.labels.contains_key(pc) == set.labels@.contains_key(pc));
        assert(plan.ifs.contains_key(pc) == set.ifs@.contains_key(pc));
        if pc != first {
            if let Some(label) = set.labels.get(&pc) {
                if self.labels(pc) {
                    self.output.append(label.as_str());
                    self.output.append(":\n");
                    assert(self@ =~= (Page { out: p.out + plan.labels[pc] + ":\n"@, ..p }));
                }
            }
        }
        match set.ifs.get(&pc) {
            Some(index) => {
                self.emit_if_at(set, *index, pc);
            },
            None => {
                self.emit_block_body(set.cfg, pc, 0, false);
            },
        }
    }

    fn emit_target_blocks(&mut self, set: &Setting<'_>, first: usize, list: &Vec<usize>)
        requires
            set.wf(),
        ensures
            (final(self).lifted is Some) == (old(self).lifted is Some),
            final(self)@ == target_blocks(set.plan(), old(self)@, first, list@, list@.len()),
    {
        let ghost plan = set.plan();
        let ghost q = self@;
        let mut i: usize = 0;
        while i < list.len()
            invariant
                (self.lifted is Some) == (old(self).lifted is Some),
                i <= list@.len(),
                set.wf(),
                plan == set.plan(),
                self@ == target_blocks(plan, q, first, list@, i as nat),
            decreases list@.len() - i,
        {
            self.emit_target_block(set, first, list[i]);
            i = i + 1;
        }
    }

    fn emit_target(&mut self, set: &Setting<'_>, pc: usize)
        requires
            set.wf(),
        ensures
            (final(self).lifted is Some) == (old(self).lifted is Some),
            final(self)@ == one_target(set.plan(), old(self)@, pc),
    {
        let ghost plan = set.plan();
        let ghost p0 = self@;
        assert(plan.labels.contains_key(pc) == set.labels@.contains_key(pc));
        if self.emitted.contains(&pc) {
            return;
        }
        let label: &String = match set.labels.get(&pc) {
            Some(s) => s,
            None => {
                return;
            },
        };
        let ghost line = if page::unlabeled(p0.lifted, pc) {
            seq![]
        } else {
            plan.labels[pc] + ":\n"@
        };
        if self.labels(pc) {
            self.output.append(label.as_str());
            self.output.append(":\n");
        }
        assert(self.output@ =~= p0.out + line);
        let list = self.sweep(set.cfg, pc);
        let ghost s = swept(*set.cfg, p0.emitted, pc);
        assert(self@ =~= (Page { out: p0.out + line, emitted: s.emitted, ..p0 }));
        self.emit_target_blocks(set, pc, &list);
    }

    /// Emit switch target blocks that weren't reached by the walk over the function.
    pub fn emit_switch_targets(&mut self, set: &Setting<'_>)
        requires
            set.wf(),
        ensures
            (final(self).lifted is Some) == (old(self).lifted is Some),
            final(self)@ == all_targets(set.plan(), old(self)@),
    {
        let ghost plan = set.plan();
        let ghost p0 = self@;
        let labelled = keys_of(&set.labels);
        let mut open: BTreeSet<usize> = BTreeSet::new();
        let mut i: usize = 0;
        while i < labelled.len()
            invariant
                (self.lifted is Some) == (old(self).lifted is Some),
                i <= labelled@.len(),
                p0 == self@,
                labelled@.to_set() == set.labels@.dom(),
                forall|pc: usize| #[trigger]
                    open@.contains(pc) <==> labelled@.take(i as int).contains(pc)
                        && !p0.emitted.contains(pc) && set.cfg.blocks@.contains_key(pc),
            decreases labelled@.len() - i,
        {
            let pc: usize = labelled[i];
            let ghost held = open@;
            if !self.emitted.contains(&pc) && set.cfg.blocks.contains_key(&pc) {
                open.insert(pc);
            }
            assert(labelled@.take(i + 1) =~= labelled@.take(i as int).push(pc));
            assert forall|b: usize| #[trigger] open@.contains(b) <==> labelled@.take(
                i + 1,
            ).contains(b) && !p0.emitted.contains(b) && set.cfg.blocks@.contains_key(b) by {
                ordered::lemma_push_key(labelled@.take(i as int), pc, b);
                assert(held.contains(b) <==> labelled@.take(i as int).contains(b)
                    && !p0.emitted.contains(b) && set.cfg.blocks@.contains_key(b));
            }
            i = i + 1;
        }
        proof {
            assert(labelled@.take(i as int) =~= labelled@);
            assert forall|pc: usize| open@.contains(pc) == open_targets(plan, p0.emitted).contains(
                pc,
            ) by {
                assert(labelled@.to_set().contains(pc) == set.labels@.contains_key(pc));
                assert(plan.labels.contains_key(pc) == set.labels@.contains_key(pc));
            }
            assert(open@ =~= open_targets(plan, p0.emitted));
        }
        let list = members_of(&open);
        let mut n: usize = 0;
        while n < list.len()
            invariant
                (self.lifted is Some) == (old(self).lifted is Some),
                n <= list@.len(),
                set.wf(),
                plan == set.plan(),
                self@ == some_targets(plan, p0, list@, n as nat),
            decreases list@.len() - n,
        {
            self.emit_target(set, list[n]);
            n = n + 1;
        }
    }
}

} // verus!
