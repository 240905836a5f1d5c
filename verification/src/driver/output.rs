//! Decompilation of a program to pseudo-code.

use crate::cfg;
use crate::cfg::ControlFlowGraph;
use crate::dataflow;
use crate::dataflow::DataFlowAnalysis;
use crate::decoder;
use crate::decoder::{decode_blob, decode_spi, try_strip_metadata, DecodeError, DecodedProgram};
use crate::dominators::DominatorTree;
use crate::driver::setup;
use crate::driver::setup::{
    add_pcs, prune_unreachable_trivial_functions, redundant_call_setup_pcs_for_function,
    redundant_halt_setup_pcs_for_function,
};
use crate::driver::report;
use crate::driver::report::{write_overview, write_summary};
use crate::driver::suppress;
use crate::driver::suppress::{
    apply_heap_alloc_suppression, suppress_callee_blocks,
    unsuppress_blocks_with_live_incoming_edges,
};
use crate::driver::unknown;
use crate::driver::unknown::warn_unknown;
use crate::functions;
use crate::functions::{
    build_call_graph, build_function_cfg, detect_direct_call_patterns, detect_epilogues,
    detect_functions, detect_prologue, Call, CallSite, DirectCall, DirectCallPattern, Epilogue,
    EpilogueKind, Function, Unit,
};
use crate::ir::ssa::SsaProgram;
use crate::lifting::pipeline;
use crate::lifting::program;
use crate::lifting::program::{Lifted, LiftedProgram};
use crate::names;
use crate::names::NameMap;
use crate::ordered;
use crate::ordered::{keys_of, members_of};
use crate::structuring::analysis;
use crate::structuring::analysis::{FunctionSignature, StructuralAnalysis};
use crate::structuring::pseudo;
use crate::text::empty_string;
use std::collections::{BTreeMap, BTreeSet};
use vstd::prelude::*;

verus! {

broadcast use vstd::laws_cmp::group_laws_cmp;

/// Structured output of a decompilation run.
#[derive(Debug, Clone)]
pub struct DecompileOutput {
    /// The pseudo-code output as a string.
    pub pseudo_code: String,
    /// Number of functions detected in the program.
    pub function_count: usize,
    /// Detected function names and their entry addresses.
    pub functions: Vec<FunctionInfo>,
    /// Warnings emitted during decompilation.
    pub warnings: Vec<String>,
}

/// Information about a detected function.
#[derive(Debug, Clone)]
pub struct FunctionInfo {
    pub name: String,
    pub entry_pc: usize,
    pub block_count: usize,
    pub param_count: usize,
}

/// One function, written out.
#[derive(Debug, Clone)]
pub struct FunctionText {
    pub info: FunctionInfo,
    /// What was found of the function; empty unless it was asked for.
    pub summary: String,
    pub pseudo_code: String,
}

/// What is found of a whole program before its functions are written.
pub struct Survey {
    pub functions: Vec<Function>,
    /// Calls by the entry of the caller.
    pub graph: BTreeMap<usize, Vec<CallSite>>,
    pub patterns: Vec<DirectCallPattern>,
    /// Names of called functions by entry.
    pub targets: BTreeMap<usize, String>,
    /// The part of the graph of each function.
    pub parts: Vec<ControlFlowGraph>,
    pub flows: Vec<DataFlowAnalysis>,
    /// Parameter registers by the name of the function.
    pub params: NameMap<Vec<u8>>,
}

/// The names of called functions by entry, from the first `n` calls of a list.
pub open spec fn with_targets(m: Map<usize, Seq<char>>, calls: Seq<Call>, n: nat) -> Map<
    usize,
    Seq<char>,
>
    decreases n,
{
    if n == 0 {
        m
    } else {
        with_targets(m, calls, (n - 1) as nat).insert(calls[n - 1].callee, calls[n - 1].name)
    }
}

/// The names of called functions by entry, from the first `n` callers.
pub open spec fn targets_of(graph: Map<usize, Seq<Call>>, callers: Seq<usize>, n: nat) -> Map<
    usize,
    Seq<char>,
>
    decreases n,
{
    if n == 0 {
        Map::empty()
    } else {
        let calls = graph[callers[n - 1]];
        with_targets(targets_of(graph, callers, (n - 1) as nat), calls, calls.len())
    }
}

/// The names of called functions by the jump that calls, from the first `n` calls.
pub open spec fn sites_of(calls: Seq<DirectCall>, n: nat) -> Map<usize, Seq<char>>
    decreases n,
{
    if n == 0 {
        Map::empty()
    } else {
        sites_of(calls, (n - 1) as nat).insert(calls[n - 1].jump_pc, calls[n - 1].name)
    }
}

/// The registers below `n` that a set holds.
pub open spec fn regs_in(s: Set<u8>, n: nat) -> Seq<u8>
    decreases n,
{
    if n == 0 {
        seq![]
    } else if s.contains((n - 1) as u8) {
        regs_in(s, (n - 1) as nat).push((n - 1) as u8)
    } else {
        regs_in(s, (n - 1) as nat)
    }
}

/// The parameters of a function: the registers that are live where it starts.
pub open spec fn params_of(sub: ControlFlowGraph, entry: usize) -> Seq<u8> {
    let live = dataflow::liveness(sub).live_in;
    if live.contains_key(entry) {
        regs_in(live[entry], 256)
    } else {
        seq![]
    }
}

/// The parameters of the first `n` functions by name.
pub open spec fn params_by_name(fs: Seq<Unit>, subs: Seq<ControlFlowGraph>, n: nat) -> Map<
    Seq<char>,
    Seq<u8>,
>
    decreases n,
{
    if n == 0 {
        Map::empty()
    } else {
        params_by_name(fs, subs, (n - 1) as nat).insert(
            fs[n - 1].name,
            params_of(subs[n - 1], fs[n - 1].entry_pc),
        )
    }
}

/// The instructions of an epilogue.
pub open spec fn epilogue_pcs(e: Epilogue) -> Seq<usize> {
    match e {
        Epilogue::Return(pcs) => pcs,
        Epilogue::Halt(pcs) => pcs,
    }
}

/// The epilogues of a function.
pub open spec fn epilogues_in(sub: ControlFlowGraph) -> Map<usize, Epilogue> {
    Map::new(
        |pc: usize|
            sub.blocks@.contains_key(pc) && functions::epilogue_of(sub.blocks@[pc].instructions@) is Some,
        |pc: usize| functions::epilogue_of(sub.blocks@[pc].instructions@)->0,
    )
}

/// Whether an instruction belongs to an epilogue.
pub open spec fn in_epilogue(epilogues: Map<usize, Epilogue>, pc: usize) -> bool {
    exists|block: usize| #[trigger]
        epilogues.contains_key(block) && epilogue_pcs(epilogues[block]).contains(pc)
}

/// What is known of the whole program when a function is written.
pub struct Scope {
    pub table: Seq<u32>,
    pub memory_base: Option<u64>,
    pub targets: Map<usize, Seq<char>>,
    pub calls: Seq<DirectCall>,
    pub params: Map<Seq<char>, Seq<u8>>,
}

/// The instructions of a function that are not shown.
pub open spec fn unshown(start: Set<usize>, f: Unit, sub: ControlFlowGraph, s: Scope) -> Set<usize> {
    Set::new(
        |pc: usize|
            {
                ||| start.contains(pc)
                ||| in_epilogue(epilogues_in(sub), pc)
                ||| functions::prologue_of(sub, f.entry_pc).contains(pc)
                ||| exists|block: usize| #[trigger]
                    setup::idle_in_halt(sub, epilogues_in(sub), block, pc)
                ||| exists|i: int| 0 <= i < s.calls.len() && (#[trigger] s.calls[i]).load_pc == pc
                ||| setup::idle_before(
                    sub,
                    dataflow::liveness(sub).live_in,
                    s.calls,
                    s.params,
                    s.calls.len(),
                    pc,
                )
            },
    )
}

/// A lifted function with what the whole program tells of it.
pub open spec fn finished(l: Lifted, f: Unit, sub: ControlFlowGraph, s: Scope) -> Lifted {
    let stop = suppress::stops(f, sub, s.table, s.calls);
    let callee = suppress::callee_blocks(l.suppressed, f, sub, stop, s.calls, s.calls.len());
    Lifted {
        call_targets: s.targets,
        direct_call_sites: sites_of(s.calls, s.calls.len()),
        call_params: s.params,
        memory_base: s.memory_base,
        epilogues: l.epilogues.union_prefer_right(epilogues_in(sub)),
        eliminated: unshown(l.eliminated, f, sub, s),
        suppressed: suppress::still_suppressed(sub, callee, s.calls),
        ..l
    }
}

/// Whether `text` is the pseudo-code of a function.
pub open spec fn is_text_of(f: Unit, sub: ControlFlowGraph, s: Scope, text: Seq<char>) -> bool {
    exists|df: DataFlowAnalysis, tree: DominatorTree, ssa: SsaProgram|
        #![trigger df.is_analysis_of(sub), tree.is_tree_of(sub), ssa.is_ssa_of(sub, tree.rpo@)]
        df.is_analysis_of(sub) && tree.is_tree_of(sub) && ssa.is_ssa_of(sub, tree.rpo@) && text
            == pseudo::pseudo_text(
            analysis::structures_of(sub, s.table, tree.idom@, tree.rpo@),
            tree.rpo@,
            sub,
            Some(finished(pipeline::lifted(sub, df, tree.idom@, ssa), f, sub, s)),
            Some((f.name, s.params[f.name])),
        )
}

/// Whether `summary` and `text` are what is written of a function; the summary stays empty
/// unless `verbose`.
pub open spec fn is_written(
    f: Unit,
    sub: ControlFlowGraph,
    s: Scope,
    verbose: bool,
    summary: Seq<char>,
    text: Seq<char>,
) -> bool {
    exists|df: DataFlowAnalysis, tree: DominatorTree, ssa: SsaProgram|
        #![trigger df.is_analysis_of(sub), tree.is_tree_of(sub), ssa.is_ssa_of(sub, tree.rpo@)]
        {
            let regions = analysis::structures_of(sub, s.table, tree.idom@, tree.rpo@);
            let lifted = finished(pipeline::lifted(sub, df, tree.idom@, ssa), f, sub, s);
            &&& df.is_analysis_of(sub)
            &&& tree.is_tree_of(sub)
            &&& ssa.is_ssa_of(sub, tree.rpo@)
            &&& text == pseudo::pseudo_text(
                regions,
                tree.rpo@,
                sub,
                Some(lifted),
                Some((f.name, s.params[f.name])),
            )
            &&& summary == if verbose {
                report::summary_text(
                    f,
                    df.summary(),
                    lifted.summary(),
                    analysis::structure_summary(regions),
                )
            } else {
                seq![]
            }
        }
}

/// The texts of the first `n` functions, each with a line feed behind it.
pub open spec fn joined(texts: Seq<Seq<char>>, n: nat) -> Seq<char>
    decreases n,
{
    if n == 0 {
        seq![]
    } else {
        joined(texts, (n - 1) as nat) + texts[n - 1] + "\n"@
    }
}

/// The functions of a program that are shown.
pub open spec fn shown_functions(cfg: ControlFlowGraph, table: Seq<u32>) -> Seq<Unit> {
    let all = functions::detected(cfg);
    setup::pruned(cfg, table, all, all.len())
}

/// What is known of a program with the graph `cfg` and the functions `fs`, whose parts
/// of the graph are `subs`.
pub open spec fn scope_of(
    program: DecodedProgram,
    cfg: ControlFlowGraph,
    fs: Seq<Unit>,
    subs: Seq<ControlFlowGraph>,
) -> Scope {
    let table = program.jump_table@;
    let graph = functions::call_graph(cfg, fs, fs.len());
    let callers = ordered::ascending(graph.dom());
    let blocks = ordered::ascending(cfg.blocks@.dom());
    Scope {
        table,
        memory_base: program.memory_base,
        targets: targets_of(graph, callers, callers.len()),
        calls: functions::direct_calls(cfg, fs, table, blocks, blocks.len()),
        params: params_by_name(fs, subs, fs.len()),
    }
}

/// Whether `subs` are the parts of a graph that belong to functions.
pub open spec fn are_parts(cfg: ControlFlowGraph, fs: Seq<Unit>, subs: Seq<ControlFlowGraph>) -> bool {
    subs.len() == fs.len() && forall|i: int|
        0 <= i < fs.len() ==> functions::is_part(cfg, fs[i], #[trigger] subs[i])
}

/// Whether `info` tells of a function.
pub open spec fn is_info(f: Unit, params: Seq<u8>, info: FunctionInfo) -> bool {
    &&& info.name@ == f.name
    &&& info.entry_pc == f.entry_pc
    &&& info.block_count == f.blocks.len()
    &&& info.param_count == params.len()
}

/// Whether `out` is the output for a program with the graph `cfg`, whose functions have
/// the parts `subs` and the pseudo-code `texts`.
pub open spec fn is_report(
    program: DecodedProgram,
    cfg: ControlFlowGraph,
    subs: Seq<ControlFlowGraph>,
    texts: Seq<Seq<char>>,
    out: DecompileOutput,
) -> bool {
    let fs = shown_functions(cfg, program.jump_table@);
    let scope = scope_of(program, cfg, fs, subs);
    &&& are_parts(cfg, fs, subs)
    &&& texts.len() == fs.len()
    &&& forall|i: int| 0 <= i < fs.len() ==> is_text_of(fs[i], subs[i], scope, #[trigger] texts[i])
    &&& out.pseudo_code@ == joined(texts, texts.len())
    &&& out.function_count == fs.len()
    &&& out.functions@.len() == fs.len()
    &&& forall|i: int|
        0 <= i < fs.len() ==> is_info(
            fs[i],
            scope.params[fs[i].name],
            #[trigger] out.functions@[i],
        )
    &&& names::texts(out.warnings@) == unknown::unknown_warnings(program.instructions@, 256)
}

/// Whether `out` is the output for a decoded program.
pub open spec fn is_output_of(program: DecodedProgram, out: DecompileOutput) -> bool {
    exists|cfg: ControlFlowGraph, subs: Seq<ControlFlowGraph>, texts: Seq<Seq<char>>|
        cfg::is_graph_of(cfg, program.instructions@, program.code_len) && #[trigger] is_report(
            program,
            cfg,
            subs,
            texts,
            out,
        )
}

/// What the SPI format makes of `data`.
pub open spec fn spi_outcome(data: Seq<u8>, r: Result<DecodedProgram, DecodeError>) -> bool {
    match decoder::spi_code(decoder::stripped(data)) {
        None => r == Err::<DecodedProgram, DecodeError>(DecodeError::UnexpectedEof),
        Some(code) => decoder::blob_outcome(code, r),
    }
}

/// What decoding gives: the SPI format comes first, then the raw blob, both behind
/// metadata.
pub open spec fn decode_outcome(bytes: Seq<u8>, r: Result<DecodedProgram, DecodeError>) -> bool {
    let data = decoder::stripped(bytes);
    exists|first: Result<DecodedProgram, DecodeError>| #[trigger]
        spi_outcome(data, first) && if first is Ok {
            r == first
        } else {
            decoder::blob_outcome(decoder::stripped(data), r)
        }
}

/// What decompiling gives for the outcome of decoding.
pub open spec fn decompile_outcome(
    p: Result<DecodedProgram, DecodeError>,
    r: Result<DecompileOutput, String>,
) -> bool {
    match (p, r) {
        (Ok(program), Ok(out)) => is_output_of(program, out),
        (Err(e), Err(message)) => message@ == e.message_text(),
        _ => false,
    }
}

fn add_targets(m: &mut BTreeMap<usize, String>, calls: &Vec<CallSite>)
    ensures
        names::text_values(final(m)@) == with_targets(
            names::text_values(old(m)@),
            functions::calls_of(calls@),
            calls@.len(),
        ),
{
    let ghost start = names::text_values(m@);
    let ghost views = functions::calls_of(calls@);
    let mut i: usize = 0;
    while i < calls.len()
        invariant
            i <= calls@.len(),
            views == functions::calls_of(calls@),
            names::text_values(m@) == with_targets(start, views, i as nat),
        decreases calls@.len() - i,
    {
        let ghost was = names::text_values(m@);
        assert(views[i as int] == calls@[i as int]@);
        let name = calls[i].callee_name.as_str().to_owned();
        let ghost text = name@;
        m.insert(calls[i].callee_entry_pc, name);
        assert(names::text_values(m@) =~= was.insert(views[i as int].callee, text));
        i = i + 1;
    }
}

fn collect_targets(graph: &BTreeMap<usize, Vec<CallSite>>) -> (m: BTreeMap<usize, String>)
    ensures
        names::text_values(m@) == targets_of(
            functions::graph_view(graph@),
            ordered::ascending(functions::graph_view(graph@).dom()),
            ordered::ascending(functions::graph_view(graph@).dom()).len(),
        ),
{
    let ghost view = functions::graph_view(graph@);
    assert(view.dom() =~= graph@.dom());
    let keys = keys_of(graph);
    let mut m: BTreeMap<usize, String> = BTreeMap::new();
    assert(names::text_values(m@) =~= Map::empty());
    let mut i: usize = 0;
    while i < keys.len()
        invariant
            i <= keys@.len(),
            keys@.to_set() == graph@.dom(),
            view == functions::graph_view(graph@),
            names::text_values(m@) == targets_of(view, keys@, i as nat),
        decreases keys@.len() - i,
    {
        assert(keys@.to_set().contains(keys@[i as int]));
        assert(graph@.contains_key(keys@[i as int]));
        if let Some(calls) = graph.get(&keys[i]) {
            assert(view[keys@[i as int]] == functions::calls_of(calls@));
            add_targets(&mut m, calls);
        }
        i = i + 1;
    }
    m
}

fn collect_sites(patterns: &[DirectCallPattern]) -> (m: BTreeMap<usize, String>)
    ensures
        names::text_values(m@) == sites_of(
            functions::direct_calls_of(patterns@),
            patterns@.len(),
        ),
{
    let ghost calls = functions::direct_calls_of(patterns@);
    let mut m: BTreeMap<usize, String> = BTreeMap::new();
    assert(names::text_values(m@) =~= Map::empty());
    let mut i: usize = 0;
    while i < patterns.len()
        invariant
            i <= patterns@.len(),
            calls == functions::direct_calls_of(patterns@),
            names::text_values(m@) == sites_of(calls, i as nat),
        decreases patterns@.len() - i,
    {
        let ghost was = names::text_values(m@);
        assert(calls[i as int] == patterns@[i as int]@);
        let name = patterns[i].callee_name.as_str().to_owned();
        let ghost text = name@;
        m.insert(patterns[i].jump_pc, name);
        assert(names::text_values(m@) =~= was.insert(calls[i as int].jump_pc, text));
        i = i + 1;
    }
    m
}

fn copy_names(m: &BTreeMap<usize, String>) -> (r: BTreeMap<usize, String>)
    ensures
        names::text_values(r@) == names::text_values(m@),
{
    let keys = keys_of(m);
    let mut r: BTreeMap<usize, String> = BTreeMap::new();
    let mut i: usize = 0;
    while i < keys.len()
        invariant
            i <= keys@.len(),
            keys@.to_set() == m@.dom(),
            forall|k: usize| #[trigger] r@.contains_key(k) <==> keys@.take(i as int).contains(k),
            forall|k: usize| #[trigger] r@.contains_key(k) ==> r@[k]@ == m@[k]@,
        decreases keys@.len() - i,
    {
        let k: usize = keys[i];
        assert(keys@.to_set().contains(k));
        let ghost was = r@;
        if let Some(s) = m.get(&k) {
            r.insert(k, s.as_str().to_owned());
        }
        assert(keys@.take(i + 1) =~= keys@.take(i as int).push(k));
        assert forall|j: usize| #[trigger] r@.contains_key(j) <==> keys@.take(i + 1).contains(j) by {
            ordered::lemma_push_key(keys@.take(i as int), k, j);
            assert(was.contains_key(j) <==> keys@.take(i as int).contains(j));
        }
        assert forall|j: usize| #[trigger] r@.contains_key(j) implies r@[j]@ == m@[j]@ by {
            if j != k {
                assert(was.contains_key(j));
            }
        }
        i = i + 1;
    }
    proof {
        assert(keys@.take(i as int) =~= keys@);
        let got = names::text_values(r@);
        let want = names::text_values(m@);
        assert forall|k: usize| got.contains_key(k) == want.contains_key(k) by {
            assert(r@.contains_key(k) <==> keys@.contains(k));
            assert(keys@.to_set().contains(k) == m@.contains_key(k));
        }
        assert forall|k: usize| got.contains_key(k) implies got[k] == want[k] by {
            assert(r@.contains_key(k));
        }
        assert(got =~= want);
    }
    r
}

fn list_regs(set: &BTreeSet<u8>) -> (v: Vec<u8>)
    ensures
        v@ == regs_in(set@, 256),
{
    let mut v: Vec<u8> = Vec::new();
    let mut n: u16 = 0;
    while n < 256
        invariant
            n <= 256,
            v@ == regs_in(set@, n as nat),
        decreases 256 - n,
    {
        if set.contains(&(n as u8)) {
            v.push(n as u8);
        }
        n = n + 1;
    }
    v
}

fn find_params(df: &DataFlowAnalysis, entry: usize, sub: &ControlFlowGraph) -> (v: Vec<u8>)
    requires
        df.is_analysis_of(*sub),
    ensures
        v@ == params_of(*sub, entry),
{
    assert(df.live_in@.dom().contains(entry) == dataflow::liveness(*sub).live_in.dom().contains(
        entry,
    ));
    match df.live_in.get(&entry) {
        Some(set) => list_regs(set),
        None => Vec::new(),
    }
}

fn copy_epilogue(e: &EpilogueKind) -> (r: EpilogueKind)
    ensures
        r@ == e@,
{
    match e {
        EpilogueKind::Return { eliminated_pcs } => EpilogueKind::Return {
            eliminated_pcs: cfg::copy_pcs(eliminated_pcs),
        },
        EpilogueKind::Halt { eliminated_pcs } => EpilogueKind::Halt {
            eliminated_pcs: cfg::copy_pcs(eliminated_pcs),
        },
    }
}

fn add_epilogue_pcs(set: &mut BTreeSet<usize>, e: &EpilogueKind)
    ensures
        final(set)@ == old(set)@.union(epilogue_pcs(e@).to_set()),
{
    match e {
        EpilogueKind::Return { eliminated_pcs } => add_pcs(set, eliminated_pcs),
        EpilogueKind::Halt { eliminated_pcs } => add_pcs(set, eliminated_pcs),
    }
}

fn mark_epilogues(
    blocks: &mut BTreeMap<usize, EpilogueKind>,
    eliminated: &mut BTreeSet<usize>,
    epilogues: &BTreeMap<usize, EpilogueKind>,
)
    ensures
        program::epilogue_map(final(blocks)@) == program::epilogue_map(
            old(blocks)@,
        ).union_prefer_right(program::epilogue_map(epilogues@)),
        forall|pc: usize| #[trigger]
            final(eliminated)@.contains(pc) <==> old(eliminated)@.contains(pc) || in_epilogue(
                program::epilogue_map(epilogues@),
                pc,
            ),
{
    let ghost start = blocks@;
    let ghost gone = eliminated@;
    let ghost map = program::epilogue_map(epilogues@);
    let keys = keys_of(epilogues);
    let mut i: usize = 0;
    while i < keys.len()
        invariant
            i <= keys@.len(),
            keys@.to_set() == epilogues@.dom(),
            map == program::epilogue_map(epilogues@),
            forall|k: usize| #[trigger]
                blocks@.contains_key(k) <==> start.contains_key(k) || keys@.take(i as int).contains(
                    k,
                ),
            forall|k: usize| #[trigger]
                blocks@.contains_key(k) ==> blocks@[k]@ == if keys@.take(i as int).contains(k) {
                    map[k]
                } else {
                    start[k]@
                },
            forall|pc: usize| #[trigger]
                eliminated@.contains(pc) <==> gone.contains(pc) || exists|j: int|
                    0 <= j < i && epilogue_pcs(map[#[trigger] keys@[j]]).contains(pc),
        decreases keys@.len() - i,
    {
        let k: usize = keys[i];
        assert(keys@.to_set().contains(k));
        let ghost was = blocks@;
        let ghost had = eliminated@;
        assert(epilogues@.contains_key(k));
        if let Some(e) = epilogues.get(&k) {
            assert(map[k] == e@);
            add_epilogue_pcs(eliminated, e);
            let copy = copy_epilogue(e);
            blocks.insert(k, copy);
        }
        assert(keys@.take(i + 1) =~= keys@.take(i as int).push(k));
        assert forall|j: usize| #[trigger] blocks@.contains_key(j) <==> start.contains_key(j)
            || keys@.take(i + 1).contains(j) by {
            ordered::lemma_push_key(keys@.take(i as int), k, j);
            assert(was.contains_key(j) <==> start.contains_key(j) || keys@.take(i as int).contains(
                j,
            ));
        }
        assert forall|j: usize| #[trigger] blocks@.contains_key(j) implies blocks@[j]@
            == if keys@.take(i + 1).contains(j) {
            map[j]
        } else {
            start[j]@
        } by {
            ordered::lemma_push_key(keys@.take(i as int), k, j);
            if j != k {
                assert(was.contains_key(j));
            }
        }
        assert forall|pc: usize| #[trigger] eliminated@.contains(pc) <==> gone.contains(pc)
            || exists|j: int|
            0 <= j < i + 1 && epilogue_pcs(map[#[trigger] keys@[j]]).contains(pc) by {
            assert(had.contains(pc) <==> gone.contains(pc) || exists|j: int|
                0 <= j < i && epilogue_pcs(map[#[trigger] keys@[j]]).contains(pc));
            assert(eliminated@.contains(pc) <==> had.contains(pc) || epilogue_pcs(map[k]).contains(
                pc,
            ));
            if epilogue_pcs(map[k]).contains(pc) {
                assert(keys@[i as int] == k);
            }
        }
        i = i + 1;
    }
    proof {
        assert(keys@.take(i as int) =~= keys@);
        let got = program::epilogue_map(blocks@);
        let want = program::epilogue_map(start).union_prefer_right(map);
        assert forall|k: usize| got.contains_key(k) == want.contains_key(k) by {
            assert(blocks@.contains_key(k) <==> start.contains_key(k) || keys@.contains(k));
            assert(keys@.to_set().contains(k) == epilogues@.contains_key(k));
        }
        assert forall|k: usize| got.contains_key(k) implies got[k] == want[k] by {
            assert(blocks@.contains_key(k));
            assert(keys@.to_set().contains(k) == epilogues@.contains_key(k));
        }
        assert(got =~= want);
        assert forall|pc: usize| #[trigger] eliminated@.contains(pc) <==> gone.contains(pc)
            || in_epilogue(map, pc) by {
            if in_epilogue(map, pc) {
                let block = choose|block: usize| #[trigger]
                    map.contains_key(block) && epilogue_pcs(map[block]).contains(pc);
                assert(keys@.to_set().contains(block));
                let j = choose|j: int| 0 <= j < keys@.len() && keys@[j] == block;
                assert(epilogue_pcs(map[keys@[j]]).contains(pc));
            }
            if exists|j: int|
                0 <= j < keys@.len() && epilogue_pcs(map[#[trigger] keys@[j]]).contains(pc) {
                let j = choose|j: int|
                    0 <= j < keys@.len() && epilogue_pcs(map[#[trigger] keys@[j]]).contains(pc);
                assert(keys@.to_set().contains(keys@[j]));
                assert(map.contains_key(keys@[j]));
            }
        }
    }
}

fn add_load_pcs(set: &mut BTreeSet<usize>, patterns: &[DirectCallPattern])
    ensures
        forall|pc: usize| #[trigger]
            final(set)@.contains(pc) <==> old(set)@.contains(pc) || exists|i: int|
                0 <= i < patterns@.len() && (#[trigger] functions::direct_calls_of(
                    patterns@,
                )[i]).load_pc == pc,
{
    let ghost start = set@;
    let ghost calls = functions::direct_calls_of(patterns@);
    let mut i: usize = 0;
    while i < patterns.len()
        invariant
            i <= patterns@.len(),
            calls == functions::direct_calls_of(patterns@),
            forall|pc: usize| #[trigger]
                set@.contains(pc) <==> start.contains(pc) || exists|k: int|
                    0 <= k < i && (#[trigger] calls[k]).load_pc == pc,
        decreases patterns@.len() - i,
    {
        assert(calls[i as int] == patterns@[i as int]@);
        let ghost was = set@;
        set.insert(patterns[i].load_imm_pc);
        assert forall|pc: usize| #[trigger] set@.contains(pc) <==> start.contains(pc) || exists|k: int|
            0 <= k < i + 1 && (#[trigger] calls[k]).load_pc == pc by {
            assert(was.contains(pc) <==> start.contains(pc) || exists|k: int|
                0 <= k < i && (#[trigger] calls[k]).load_pc == pc);
            if pc == calls[i as int].load_pc {
                assert(set@.contains(pc));
            }
        }
        i = i + 1;
    }
}

/// Eliminate what need not be shown of a function.
fn mark_unshown(
    lifted: &mut LiftedProgram,
    f: &Function,
    sub: &ControlFlowGraph,
    df: &DataFlowAnalysis,
    patterns: &[DirectCallPattern],
    params: &NameMap<Vec<u8>>,
    scope: Ghost<Scope>,
)
    requires
        df.is_analysis_of(*sub),
        scope@.calls == functions::direct_calls_of(patterns@),
        scope@.params == program::reg_lists(params@),
    ensures
        final(lifted)@ == (Lifted {
            epilogues: old(lifted)@.epilogues.union_prefer_right(epilogues_in(*sub)),
            eliminated: unshown(old(lifted)@.eliminated, f@, *sub, scope@),
            ..old(lifted)@
        }),
{
    let ghost before = lifted@;
    let ghost s = scope@;
    let epilogues = detect_epilogues(sub);
    let ghost map = program::epilogue_map(epilogues@);
    proof {
        assert forall|pc: usize| map.contains_key(pc) == epilogues_in(*sub).contains_key(pc) by {
            assert(map.contains_key(pc) == epilogues@.contains_key(pc));
        }
        assert forall|pc: usize| map.contains_key(pc) implies map[pc] == epilogues_in(*sub)[pc] by {
            assert(epilogues@.contains_key(pc));
        }
        assert(map =~= epilogues_in(*sub));
    }
    mark_epilogues(&mut lifted.epilogue_blocks, &mut lifted.eliminated_pcs, &epilogues);
    let prologue = detect_prologue(sub, f.entry_pc);
    add_pcs(&mut lifted.eliminated_pcs, &prologue);
    let halts = redundant_halt_setup_pcs_for_function(sub, &epilogues);
    let halt_list = members_of(&halts);
    add_pcs(&mut lifted.eliminated_pcs, &halt_list);
    add_load_pcs(&mut lifted.eliminated_pcs, patterns);
    let idle = redundant_call_setup_pcs_for_function(sub, df, patterns, params);
    let idle_list = members_of(&idle);
    add_pcs(&mut lifted.eliminated_pcs, &idle_list);
    proof {
        let live = dataflow::liveness(*sub).live_in;
        assert(setup::live_sets(df.live_in@) =~= live) by {
            assert(df.live_in@.dom() == live.dom());
            assert forall|pc: usize| live.contains_key(pc) implies setup::live_sets(df.live_in@)[pc]
                == live[pc] by {
                assert(df.live_in@.dom().contains(pc));
                assert(df.live_in@.contains_key(pc));
            }
        }
        let want = unshown(before.eliminated, f@, *sub, s);
        assert forall|pc: usize| lifted.eliminated_pcs@.contains(pc) == want.contains(pc) by {
            assert(halt_list@.to_set().contains(pc) == halts@.contains(pc));
            assert(idle_list@.to_set().contains(pc) == idle@.contains(pc));
            assert(prologue@.to_set().contains(pc) == prologue@.contains(pc));
        }
        assert(lifted.eliminated_pcs@ =~= want);
        assert(lifted@ =~= Lifted {
            epilogues: before.epilogues.union_prefer_right(epilogues_in(*sub)),
            eliminated: want,
            ..before
        });
    }
}

/// Put into a lifted function what the whole program tells of it.
fn finish(
    lifted: &mut LiftedProgram,
    f: &Function,
    sub: &ControlFlowGraph,
    df: &DataFlowAnalysis,
    program: &DecodedProgram,
    targets: &BTreeMap<usize, String>,
    patterns: &[DirectCallPattern],
    params: &NameMap<Vec<u8>>,
    scope: Ghost<Scope>,
)
    requires
        df.is_analysis_of(*sub),
        scope@ == (Scope {
            table: program.jump_table@,
            memory_base: program.memory_base,
            targets: names::text_values(targets@),
            calls: functions::direct_calls_of(patterns@),
            params: program::reg_lists(params@),
        }),
    ensures
        final(lifted)@ == finished(old(lifted)@, f@, *sub, scope@),
{
    let ghost before = lifted@;
    let ghost s = scope@;
    lifted.call_targets = copy_names(targets);
    lifted.direct_call_sites = collect_sites(patterns);
    lifted.call_param_regs = params.copied();
    lifted.memory_base = program.memory_base;
    proof {
        let got = program::reg_lists(lifted.call_param_regs@);
        assert forall|k: Seq<char>| got.contains_key(k) == s.params.contains_key(k) by {
            assert(lifted.call_param_regs@.contains_key(k) == params@.contains_key(k));
        }
        assert forall|k: Seq<char>| got.contains_key(k) implies got[k] == s.params[k] by {
            assert(lifted.call_param_regs@.contains_key(k));
        }
        assert(got =~= s.params);
    }
    let ghost first = Lifted {
        call_targets: s.targets,
        direct_call_sites: sites_of(s.calls, s.calls.len()),
        call_params: s.params,
        memory_base: s.memory_base,
        ..before
    };
    assert(lifted@ =~= first);
    mark_unshown(lifted, f, sub, df, patterns, params, scope);
    suppress_callee_blocks(
        &mut lifted.suppressed_blocks,
        f,
        sub,
        &program.jump_table,
        patterns,
    );
    unsuppress_blocks_with_live_incoming_edges(lifted, sub, patterns);
    apply_heap_alloc_suppression(lifted, None);
    assert(lifted@ =~= finished(before, f@, *sub, s));
}

proof fn lemma_params_prefix(
    fs: Seq<Unit>,
    a: Seq<ControlFlowGraph>,
    b: Seq<ControlFlowGraph>,
    n: nat,
)
    requires
        forall|k: int| 0 <= k < n ==> a[k] == b[k],
    ensures
        params_by_name(fs, a, n) == params_by_name(fs, b, n),
    decreases n,
{
    if n > 0 {
        lemma_params_prefix(fs, a, b, (n - 1) as nat);
    }
}

proof fn lemma_params_named(fs: Seq<Unit>, subs: Seq<ControlFlowGraph>, n: nat, i: int)
    requires
        0 <= i < n <= fs.len(),
    ensures
        params_by_name(fs, subs, n).contains_key(fs[i].name),
    decreases n,
{
    if i < n - 1 {
        lemma_params_named(fs, subs, (n - 1) as nat, i);
    }
}

/// The parts of a graph that belong to functions, their analyses and the parameters.
fn analyze_parts(cfg: &ControlFlowGraph, fs: &Vec<Function>) -> (r: (
    Vec<ControlFlowGraph>,
    Vec<DataFlowAnalysis>,
    NameMap<Vec<u8>>,
))
    ensures
        are_parts(*cfg, functions::units(fs@), r.0@),
        r.1@.len() == r.0@.len(),
        forall|i: int| 0 <= i < r.0@.len() ==> (#[trigger] r.1@[i]).is_analysis_of(r.0@[i]),
        program::reg_lists(r.2@) == params_by_name(
            functions::units(fs@),
            r.0@,
            functions::units(fs@).len(),
        ),
{
    let ghost units = functions::units(fs@);
    let mut subs: Vec<ControlFlowGraph> = Vec::new();
    let mut dfs: Vec<DataFlowAnalysis> = Vec::new();
    let mut params: NameMap<Vec<u8>> = NameMap::new();
    assert(program::reg_lists(params@) =~= Map::empty());
    let mut i: usize = 0;
    while i < fs.len()
        invariant
            i <= fs@.len(),
            units == functions::units(fs@),
            subs@.len() == i,
            dfs@.len() == i,
            forall|k: int| 0 <= k < i ==> functions::is_part(*cfg, units[k], #[trigger] subs@[k]),
            forall|k: int| 0 <= k < i ==> (#[trigger] dfs@[k]).is_analysis_of(subs@[k]),
            program::reg_lists(params@) == params_by_name(units, subs@, i as nat),
        decreases fs@.len() - i,
    {
        let f = &fs[i];
        assert(units[i as int] == f@);
        let ghost was = program::reg_lists(params@);
        let ghost before = subs@;
        let sub = build_function_cfg(cfg, f);
        let df = DataFlowAnalysis::analyze(&sub);
        let own = find_params(&df, f.entry_pc, &sub);
        let ghost list = own@;
        params.insert(f.name.as_str().to_owned(), own);
        assert(program::reg_lists(params@) =~= was.insert(f.name@, list));
        dfs.push(df);
        subs.push(sub);
        proof {
            lemma_params_prefix(units, before, subs@, i as nat);
        }
        i = i + 1;
    }
    (subs, dfs, params)
}

fn copy_regs(v: &Vec<u8>) -> (r: Vec<u8>)
    ensures
        r@ == v@,
{
    let r: Vec<u8> = v.clone();
    assert(r@ =~= v@);
    r
}

impl Survey {
    /// Whether each function has its part of the graph, that part's analysis and its
    /// parameters.
    pub open spec fn wf(self) -> bool {
        &&& self.parts@.len() == self.functions@.len()
        &&& self.flows@.len() == self.functions@.len()
        &&& forall|i: int|
            0 <= i < self.functions@.len() ==> (#[trigger] self.flows@[i]).is_analysis_of(
                self.parts@[i],
            )
        &&& forall|i: int|
            0 <= i < self.functions@.len() ==> self.params@.contains_key(
                (#[trigger] self.functions@[i]).name@,
            )
    }

    /// What a survey tells of the whole program.
    pub open spec fn scope(self, program: DecodedProgram) -> Scope {
        Scope {
            table: program.jump_table@,
            memory_base: program.memory_base,
            targets: names::text_values(self.targets@),
            calls: functions::direct_calls_of(self.patterns@),
            params: program::reg_lists(self.params@),
        }
    }

    /// Whether this is the survey of a program with the graph `cfg`.
    pub open spec fn is_survey_of(self, program: DecodedProgram, cfg: ControlFlowGraph) -> bool {
        let fs = functions::units(self.functions@);
        &&& self.wf()
        &&& fs == shown_functions(cfg, program.jump_table@)
        &&& functions::graph_view(self.graph@) == functions::call_graph(cfg, fs, fs.len())
        &&& are_parts(cfg, fs, self.parts@)
        &&& self.scope(program) == scope_of(program, cfg, fs, self.parts@)
    }

    /// Survey a program with the graph `cfg`.
    pub fn of(program: &DecodedProgram, cfg: &ControlFlowGraph) -> (r: Self)
        ensures
            r.is_survey_of(*program, *cfg),
    {
        let detected = detect_functions(cfg);
        let fs = prune_unreachable_trivial_functions(cfg, program, detected);
        let ghost units = functions::units(fs@);
        let graph = build_call_graph(cfg, fs.as_slice(), program);
        let targets = collect_targets(&graph);
        let patterns = detect_direct_call_patterns(cfg, fs.as_slice(), program);
        let (parts, flows, params) = analyze_parts(cfg, &fs);
        assert forall|i: int| 0 <= i < fs@.len() implies params@.contains_key(
            (#[trigger] fs@[i]).name@,
        ) by {
            assert(units[i] == fs@[i]@);
            lemma_params_named(units, parts@, units.len(), i);
            assert(program::reg_lists(params@).contains_key(fs@[i].name@));
        }
        Survey { functions: fs, graph, patterns, targets, parts, flows, params }
    }

    /// Tell what was detected.
    pub fn overview(&self) -> (s: String)
        ensures
            s@ == report::overview_text(
                functions::units(self.functions@),
                functions::graph_view(self.graph@),
                functions::direct_calls_of(self.patterns@),
            ),
    {
        write_overview(&self.functions, &self.graph, &self.patterns)
    }

    /// Write out the function at `i`.
    pub fn write(&self, program: &DecodedProgram, i: usize, verbose: bool) -> (r: FunctionText)
        requires
            self.wf(),
            i < self.functions@.len(),
        ensures
            is_written(
                self.functions@[i as int]@,
                self.parts@[i as int],
                self.scope(*program),
                verbose,
                r.summary@,
                r.pseudo_code@,
            ),
            is_info(
                self.functions@[i as int]@,
                self.scope(*program).params[self.functions@[i as int].name@],
                r.info,
            ),
    {
        let ghost scope = self.scope(*program);
        let f = &self.functions[i];
        let sub = &self.parts[i];
        let df = &self.flows[i];
        assert(scope.params.contains_key(f.name@) == self.params@.contains_key(f.name@));
        let own: Vec<u8> = match self.params.get(f.name.as_str()) {
            Some(list) => copy_regs(list),
            None => Vec::new(),
        };
        let param_count: usize = own.len();
        let tree = DominatorTree::compute(sub);
        let mut lifted = LiftedProgram::analyze_with_dom_tree(sub, df, &tree);
        let ghost ssa = choose|ssa: SsaProgram| #[trigger]
            ssa.is_ssa_of(*sub, tree.rpo@) && lifted@ == pipeline::lifted(
                *sub,
                *df,
                tree.idom@,
                ssa,
            );
        finish(
            &mut lifted,
            f,
            sub,
            df,
            program,
            &self.targets,
            self.patterns.as_slice(),
            &self.params,
            Ghost(scope),
        );
        let ghost kept = tree;
        let structural = StructuralAnalysis::analyze_with_dom_tree(sub, program, tree);
        let summary = if verbose {
            write_summary(
                f,
                df.summarize().as_str(),
                lifted.summarize().as_str(),
                structural.summarize().as_str(),
            )
        } else {
            empty_string()
        };
        let sig = FunctionSignature { name: f.name.as_str().to_owned(), params: own };
        let pseudo_code = structural.pseudo_code(sub, Some(&mut lifted), Some(&sig));
        assert(df.is_analysis_of(*sub) && kept.is_tree_of(*sub) && ssa.is_ssa_of(*sub, kept.rpo@));
        let info = FunctionInfo {
            name: f.name.as_str().to_owned(),
            entry_pc: f.entry_pc,
            block_count: f.block_pcs.len(),
            param_count,
        };
        FunctionText { info, summary, pseudo_code }
    }
}

/// Decompile a decoded program.
pub fn decompile_program(program: &DecodedProgram) -> (out: DecompileOutput)
    ensures
        is_output_of(*program, out),
{
    let warnings = warn_unknown(&program.instructions);
    let cfg = ControlFlowGraph::build(program);
    let survey = Survey::of(program, &cfg);
    let ghost units = functions::units(survey.functions@);
    let ghost subs = survey.parts@;
    let ghost scope = scope_of(*program, cfg, units, subs);
    let mut pseudo_code = empty_string();
    let mut infos: Vec<FunctionInfo> = Vec::new();
    let ghost mut texts: Seq<Seq<char>> = seq![];
    let mut i: usize = 0;
    while i < survey.functions.len()
        invariant
            i <= survey.functions@.len(),
            survey.is_survey_of(*program, cfg),
            units == functions::units(survey.functions@),
            subs == survey.parts@,
            scope == scope_of(*program, cfg, units, subs),
            texts.len() == i,
            forall|k: int|
                0 <= k < i ==> is_text_of(units[k], subs[k], scope, #[trigger] texts[k]),
            pseudo_code@ == joined(texts, i as nat),
            infos@.len() == i,
            forall|k: int|
                0 <= k < i ==> is_info(
                    units[k],
                    scope.params[units[k].name],
                    #[trigger] infos@[k],
                ),
        decreases survey.functions@.len() - i,
    {
        assert(units[i as int] == survey.functions@[i as int]@);
        let written = survey.write(program, i, false);
        infos.push(written.info);
        pseudo_code.append(written.pseudo_code.as_str());
        pseudo_code.append("\n");
        proof {
            let before = texts;
            texts = texts.push(written.pseudo_code@);
            lemma_joined_prefix(before, texts, i as nat);
        }
        i = i + 1;
    }
    let out = DecompileOutput {
        pseudo_code,
        function_count: survey.functions.len(),
        functions: infos,
        warnings,
    };
    assert(is_report(*program, cfg, subs, texts, out));
    out
}

proof fn lemma_joined_prefix(a: Seq<Seq<char>>, b: Seq<Seq<char>>, n: nat)
    requires
        forall|k: int| 0 <= k < n ==> a[k] == b[k],
    ensures
        joined(a, n) == joined(b, n),
    decreases n,
{
    if n > 0 {
        lemma_joined_prefix(a, b, (n - 1) as nat);
    }
}

/// Decompile raw PVM bytes to pseudo-code.
///
/// Accepts SPI format, raw blob, or metadata-prefixed binaries; auto-detects the format.
/// Returns structured output with pseudo-code and metadata, or an error message.
pub fn decompile_to_pseudocode(bytes: &[u8]) -> (r: Result<DecompileOutput, String>)
    ensures
        exists|p: Result<DecodedProgram, DecodeError>| #[trigger]
            decode_outcome(bytes@, p) && decompile_outcome(p, r),
{
    let data: &[u8] = match try_strip_metadata(bytes) {
        Ok(d) => d,
        Err(e) => {
            return Err(e.message());
        },
    };
    let first = decode_spi(data);
    assert(spi_outcome(data@, first));
    let outcome = match first {
        Ok(program) => Ok(program),
        Err(_) => decode_blob(data),
    };
    assert(decode_outcome(bytes@, outcome));
    match outcome {
        Ok(program) => {
            let out = decompile_program(&program);
            let r = Ok::<DecompileOutput, String>(out);
            assert(decompile_outcome(outcome, r));
            r
        },
        Err(e) => {
            let r = Err::<DecompileOutput, String>(e.message());
            assert(decompile_outcome(outcome, r));
            r
        },
    }
}

} // verus!
