//! What a verbose run tells of a program.

use crate::cfg::{BasicBlock, ControlFlowGraph};
use crate::functions;
use crate::functions::{Call, CallSite, DirectCall, DirectCallPattern, Function, Unit};
use crate::names;
use crate::ordered;
use crate::ordered::{keys_of, members_of};
use crate::pvm::Instruction;
use crate::text;
use crate::text::{empty_string, push_dec, push_dec_wide, push_hex_prefixed};
use std::collections::BTreeMap;
use vstd::prelude::*;

verus! {

broadcast use vstd::laws_cmp::group_laws_cmp;

/// The first `n` numbers, with commas between them.
pub open spec fn number_list(v: Seq<usize>, n: nat) -> Seq<char>
    decreases n,
{
    if n == 0 {
        seq![]
    } else if n == 1 {
        text::dec(v[0] as nat)
    } else {
        number_list(v, (n - 1) as nat) + ", "@ + text::dec(v[n - 1] as nat)
    }
}

/// The first `n` addresses, with commas between them.
pub open spec fn address_list(v: Seq<usize>, n: nat) -> Seq<char>
    decreases n,
{
    if n == 0 {
        seq![]
    } else if n == 1 {
        text::hex_prefixed(v[0] as nat, 4)
    } else {
        address_list(v, (n - 1) as nat) + ", "@ + text::hex_prefixed(v[n - 1] as nat, 4)
    }
}

fn write_numbers(v: &Vec<usize>) -> (s: String)
    ensures
        s@ == number_list(v@, v@.len()),
{
    let mut s = empty_string();
    let mut i: usize = 0;
    while i < v.len()
        invariant
            i <= v@.len(),
            s@ == number_list(v@, i as nat),
        decreases v@.len() - i,
    {
        if i > 0 {
            s.append(", ");
        }
        push_dec(&mut s, v[i] as u64);
        assert(s@ =~= number_list(v@, (i + 1) as nat));
        i = i + 1;
    }
    s
}

fn write_addresses(v: &Vec<usize>) -> (s: String)
    ensures
        s@ == address_list(v@, v@.len()),
{
    let mut s = empty_string();
    let mut i: usize = 0;
    while i < v.len()
        invariant
            i <= v@.len(),
            s@ == address_list(v@, i as nat),
        decreases v@.len() - i,
    {
        if i > 0 {
            s.append(", ");
        }
        push_hex_prefixed(&mut s, v[i] as u64, 4);
        assert(s@ =~= address_list(v@, (i + 1) as nat));
        i = i + 1;
    }
    s
}

/// The line of a detected function.
pub open spec fn function_line(f: Unit) -> Seq<char> {
    let blocks = ordered::ascending(f.blocks);
    "  "@ + f.name + " @ "@ + text::hex_prefixed(f.entry_pc as nat, 4) + " ("@ + text::dec(
        f.blocks.len(),
    ) + " blocks: ["@ + number_list(blocks, blocks.len()) + "])\n"@
}

pub open spec fn function_lines(fs: Seq<Unit>, n: nat) -> Seq<char>
    decreases n,
{
    if n == 0 {
        seq![]
    } else {
        function_lines(fs, (n - 1) as nat) + function_line(fs[n - 1])
    }
}

/// The line of a call out of the function `caller`.
pub open spec fn call_line(caller: Seq<char>, c: Call) -> Seq<char> {
    "  "@ + caller + " (block "@ + text::hex_prefixed(c.block as nat, 4) + ") → "@ + c.name
        + "\n"@
}

pub open spec fn call_lines(caller: Seq<char>, calls: Seq<Call>, n: nat) -> Seq<char>
    decreases n,
{
    if n == 0 {
        seq![]
    } else {
        call_lines(caller, calls, (n - 1) as nat) + call_line(caller, calls[n - 1])
    }
}

/// The lines of the calls out of the first `n` functions.
pub open spec fn graph_lines(fs: Seq<Unit>, graph: Map<usize, Seq<Call>>, n: nat) -> Seq<char>
    decreases n,
{
    if n == 0 {
        seq![]
    } else {
        let f = fs[n - 1];
        graph_lines(fs, graph, (n - 1) as nat) + if graph.contains_key(f.entry_pc) {
            let calls = graph[f.entry_pc];
            call_lines(f.name, calls, calls.len())
        } else {
            seq![]
        }
    }
}

/// The line of a direct call.
pub open spec fn direct_line(c: DirectCall) -> Seq<char> {
    "  block "@ + text::hex_prefixed(c.block as nat, 4) + ": call "@ + c.name + " (jump to "@
        + text::hex_prefixed(c.target as nat, 4) + ", return to "@ + text::hex_prefixed(
        c.back as nat,
        4,
    ) + ")\n"@
}

pub open spec fn direct_lines(calls: Seq<DirectCall>, n: nat) -> Seq<char>
    decreases n,
{
    if n == 0 {
        seq![]
    } else {
        direct_lines(calls, (n - 1) as nat) + direct_line(calls[n - 1])
    }
}

/// What was detected: the functions, and the calls between them where there are any.
pub open spec fn overview_text(
    fs: Seq<Unit>,
    graph: Map<usize, Seq<Call>>,
    calls: Seq<DirectCall>,
) -> Seq<char> {
    "\n=== Function Detection ===\nDetected "@ + text::dec(fs.len()) + " function(s):\n"@
        + function_lines(fs, fs.len()) + (if graph.dom().len() == 0 {
        seq![]
    } else {
        "\n=== Call Graph ===\n"@ + graph_lines(fs, graph, fs.len())
    }) + (if calls.len() == 0 {
        seq![]
    } else {
        "\n=== Direct Call Patterns ===\n"@ + direct_lines(calls, calls.len())
    })
}

fn write_function_line(f: &Function) -> (s: String)
    ensures
        s@ == function_line(f@),
{
    let blocks = members_of(&f.block_pcs);
    let list = write_numbers(&blocks);
    let mut s = "  ".to_owned();
    s.append(f.name.as_str());
    s.append(" @ ");
    push_hex_prefixed(&mut s, f.entry_pc as u64, 4);
    s.append(" (");
    push_dec(&mut s, f.block_pcs.len() as u64);
    s.append(" blocks: [");
    s.append(list.as_str());
    s.append("])\n");
    s
}

fn write_call_line(caller: &str, c: &CallSite) -> (s: String)
    ensures
        s@ == call_line(caller@, c@),
{
    let mut s = "  ".to_owned();
    s.append(caller);
    s.append(" (block ");
    push_hex_prefixed(&mut s, c.caller_block_pc as u64, 4);
    s.append(") → ");
    s.append(c.callee_name.as_str());
    s.append("\n");
    s
}

fn write_direct_line(c: &DirectCallPattern) -> (s: String)
    ensures
        s@ == direct_line(c@),
{
    let mut s = "  block ".to_owned();
    push_hex_prefixed(&mut s, c.caller_block_pc as u64, 4);
    s.append(": call ");
    s.append(c.callee_name.as_str());
    s.append(" (jump to ");
    push_hex_prefixed(&mut s, c.jump_target_pc as u64, 4);
    s.append(", return to ");
    push_hex_prefixed(&mut s, c.return_pc as u64, 4);
    s.append(")\n");
    s
}

fn write_function_lines(fs: &Vec<Function>) -> (s: String)
    ensures
        s@ == function_lines(functions::units(fs@), fs@.len()),
{
    let ghost units = functions::units(fs@);
    let mut s = empty_string();
    let mut i: usize = 0;
    while i < fs.len()
        invariant
            i <= fs@.len(),
            units == functions::units(fs@),
            s@ == function_lines(units, i as nat),
        decreases fs@.len() - i,
    {
        assert(units[i as int] == fs@[i as int]@);
        let line = write_function_line(&fs[i]);
        s.append(line.as_str());
        i = i + 1;
    }
    s
}

fn write_call_lines(caller: &str, calls: &Vec<CallSite>) -> (s: String)
    ensures
        s@ == call_lines(caller@, functions::calls_of(calls@), calls@.len()),
{
    let ghost views = functions::calls_of(calls@);
    let mut s = empty_string();
    let mut i: usize = 0;
    while i < calls.len()
        invariant
            i <= calls@.len(),
            views == functions::calls_of(calls@),
            s@ == call_lines(caller@, views, i as nat),
        decreases calls@.len() - i,
    {
        assert(views[i as int] == calls@[i as int]@);
        let line = write_call_line(caller, &calls[i]);
        s.append(line.as_str());
        i = i + 1;
    }
    s
}

fn write_graph_lines(fs: &Vec<Function>, graph: &BTreeMap<usize, Vec<CallSite>>) -> (s: String)
    ensures
        s@ == graph_lines(functions::units(fs@), functions::graph_view(graph@), fs@.len()),
{
    let ghost units = functions::units(fs@);
    let ghost view = functions::graph_view(graph@);
    let mut s = empty_string();
    let mut i: usize = 0;
    while i < fs.len()
        invariant
            i <= fs@.len(),
            units == functions::units(fs@),
            view == functions::graph_view(graph@),
            s@ == graph_lines(units, view, i as nat),
        decreases fs@.len() - i,
    {
        assert(units[i as int] == fs@[i as int]@);
        let ghost was = s@;
        match graph.get(&fs[i].entry_pc) {
            Some(calls) => {
                assert(view[fs@[i as int].entry_pc] == functions::calls_of(calls@));
                let lines = write_call_lines(fs[i].name.as_str(), calls);
                s.append(lines.as_str());
            },
            None => {
                assert(was + seq![] =~= was);
            },
        }
        i = i + 1;
    }
    s
}

fn write_direct_lines(patterns: &Vec<DirectCallPattern>) -> (s: String)
    ensures
        s@ == direct_lines(functions::direct_calls_of(patterns@), patterns@.len()),
{
    let ghost calls = functions::direct_calls_of(patterns@);
    let mut s = empty_string();
    let mut i: usize = 0;
    while i < patterns.len()
        invariant
            i <= patterns@.len(),
            calls == functions::direct_calls_of(patterns@),
            s@ == direct_lines(calls, i as nat),
        decreases patterns@.len() - i,
    {
        assert(calls[i as int] == patterns@[i as int]@);
        let line = write_direct_line(&patterns[i]);
        s.append(line.as_str());
        i = i + 1;
    }
    s
}

/// Tell what was detected.
pub fn write_overview(
    fs: &Vec<Function>,
    graph: &BTreeMap<usize, Vec<CallSite>>,
    patterns: &Vec<DirectCallPattern>,
) -> (s: String)
    ensures
        s@ == overview_text(
            functions::units(fs@),
            functions::graph_view(graph@),
            functions::direct_calls_of(patterns@),
        ),
{
    let lines = write_function_lines(fs);
    let mut s = "\n=== Function Detection ===\nDetected ".to_owned();
    push_dec(&mut s, fs.len() as u64);
    s.append(" function(s):\n");
    s.append(lines.as_str());
    let ghost first = s@;
    assert(functions::graph_view(graph@).dom() =~= graph@.dom());
    if graph.len() > 0 {
        let calls = write_graph_lines(fs, graph);
        s.append("\n=== Call Graph ===\n");
        s.append(calls.as_str());
        assert(s@ =~= first + ("\n=== Call Graph ===\n"@ + calls@));
    } else {
        assert(first + seq![] =~= first);
    }
    let ghost second = s@;
    if patterns.len() > 0 {
        let direct = write_direct_lines(patterns);
        s.append("\n=== Direct Call Patterns ===\n");
        s.append(direct.as_str());
        assert(s@ =~= second + ("\n=== Direct Call Patterns ===\n"@ + direct@));
    } else {
        assert(second + seq![] =~= second);
    }
    s
}

/// What was found of one function, in three parts.
pub open spec fn summary_text(
    f: Unit,
    dataflow: Seq<char>,
    lifting: Seq<char>,
    structure: Seq<char>,
) -> Seq<char> {
    "\n============================================================\n=== Function: "@ + f.name
        + " (entry @ "@ + text::hex_prefixed(f.entry_pc as nat, 4) + ") ===\n\n"@ + dataflow + "\n"@
        + lifting + "\n"@ + structure + "\n"@
}

/// Tell what was found of one function.
pub fn write_summary(f: &Function, dataflow: &str, lifting: &str, structure: &str) -> (s: String)
    ensures
        s@ == summary_text(f@, dataflow@, lifting@, structure@),
{
    let mut s = "\n============================================================\n=== Function: ".to_owned();
    s.append(f.name.as_str());
    s.append(" (entry @ ");
    push_hex_prefixed(&mut s, f.entry_pc as u64, 4);
    s.append(") ===\n\n");
    s.append(dataflow);
    s.append("\n");
    s.append(lifting);
    s.append("\n");
    s.append(structure);
    s.append("\n");
    s
}

/// The line of an instruction; `shown` holds the texts of instructions.
pub open spec fn code_line(pc: usize, shown: Map<usize, Seq<char>>) -> Seq<char> {
    "    "@ + text::hex_prefixed(pc as nat, 4) + ": "@ + (if shown.contains_key(pc) {
        shown[pc]
    } else {
        seq![]
    }) + "\n"@
}

pub open spec fn code_lines(
    code: Seq<(usize, Instruction)>,
    shown: Map<usize, Seq<char>>,
    n: nat,
) -> Seq<char>
    decreases n,
{
    if n == 0 {
        seq![]
    } else {
        code_lines(code, shown, (n - 1) as nat) + code_line(code[n - 1].0, shown)
    }
}

/// A block: its code and its edges.
pub open spec fn block_text(b: BasicBlock, shown: Map<usize, Seq<char>>) -> Seq<char> {
    "\nBlock @ "@ + text::hex_prefixed(b.start_pc as nat, 4) + " - "@ + text::hex_prefixed(
        b.end_pc as nat,
        4,
    ) + ":\n"@ + code_lines(b.instructions@, shown, b.instructions@.len()) + "  Successors: "@ + (
    if b.successors@.len() == 0 {
        "(none)"@
    } else {
        address_list(b.successors@, b.successors@.len())
    }) + "\n"@ + (if b.predecessors@.len() == 0 {
        seq![]
    } else {
        "  Predecessors: "@ + address_list(b.predecessors@, b.predecessors@.len()) + "\n"@
    })
}

/// The blocks at the first `n` of `keys`.
pub open spec fn block_texts(
    blocks: Map<usize, BasicBlock>,
    keys: Seq<usize>,
    shown: Map<usize, Seq<char>>,
    n: nat,
) -> Seq<char>
    decreases n,
{
    if n == 0 {
        seq![]
    } else {
        block_texts(blocks, keys, shown, (n - 1) as nat) + block_text(blocks[keys[n - 1]], shown)
    }
}

/// A graph, block by block.
pub open spec fn graph_text(cfg: ControlFlowGraph, shown: Map<usize, Seq<char>>) -> Seq<char> {
    let keys = ordered::ascending(cfg.blocks@.dom());
    "Entry PC: "@ + text::hex_prefixed(cfg.entry_pc as nat, 4) + "\nNumber of blocks: "@ + text::dec(
        cfg.blocks@.dom().len(),
    ) + "\n"@ + block_texts(cfg.blocks@, keys, shown, keys.len())
}

fn write_code_line(pc: usize, shown: &BTreeMap<usize, String>) -> (s: String)
    ensures
        s@ == code_line(pc, names::text_values(shown@)),
{
    let mut s = "    ".to_owned();
    push_hex_prefixed(&mut s, pc as u64, 4);
    s.append(": ");
    let ghost was = s@;
    match shown.get(&pc) {
        Some(code) => {
            assert(names::text_values(shown@)[pc] == code@);
            s.append(code.as_str());
        },
        None => {
            assert(was + seq![] =~= was);
        },
    }
    s.append("\n");
    s
}

fn write_code_lines(code: &Vec<(usize, Instruction)>, shown: &BTreeMap<usize, String>) -> (s:
    String)
    ensures
        s@ == code_lines(code@, names::text_values(shown@), code@.len()),
{
    let mut s = empty_string();
    let mut i: usize = 0;
    while i < code.len()
        invariant
            i <= code@.len(),
            s@ == code_lines(code@, names::text_values(shown@), i as nat),
        decreases code@.len() - i,
    {
        let line = write_code_line(code[i].0, shown);
        s.append(line.as_str());
        i = i + 1;
    }
    s
}

fn write_block(b: &BasicBlock, shown: &BTreeMap<usize, String>) -> (s: String)
    ensures
        s@ == block_text(*b, names::text_values(shown@)),
{
    let code = write_code_lines(&b.instructions, shown);
    let mut s = "\nBlock @ ".to_owned();
    push_hex_prefixed(&mut s, b.start_pc as u64, 4);
    s.append(" - ");
    push_hex_prefixed(&mut s, b.end_pc as u64, 4);
    s.append(":\n");
    s.append(code.as_str());
    s.append("  Successors: ");
    if b.successors.len() == 0 {
        s.append("(none)");
    } else {
        let list = write_addresses(&b.successors);
        s.append(list.as_str());
    }
    s.append("\n");
    let ghost was = s@;
    if b.predecessors.len() == 0 {
        assert(was + seq![] =~= was);
    } else {
        let list = write_addresses(&b.predecessors);
        s.append("  Predecessors: ");
        s.append(list.as_str());
        s.append("\n");
        assert(s@ =~= was + ("  Predecessors: "@ + list@ + "\n"@));
    }
    s
}

/// Write a graph behind `out`; `shown` holds the texts of instructions.
pub fn write_cfg(cfg: &ControlFlowGraph, shown: &BTreeMap<usize, String>, out: &mut String)
    ensures
        final(out)@ == old(out)@ + graph_text(*cfg, names::text_values(shown@)),
{
    let ghost codes = names::text_values(shown@);
    let keys = keys_of(&cfg.blocks);
    let mut s = "Entry PC: ".to_owned();
    push_hex_prefixed(&mut s, cfg.entry_pc as u64, 4);
    s.append("\nNumber of blocks: ");
    push_dec_wide(&mut s, cfg.blocks.len() as u128);
    s.append("\n");
    let ghost head = s@;
    let mut i: usize = 0;
    assert(head + seq![] =~= head);
    while i < keys.len()
        invariant
            i <= keys@.len(),
            keys@.to_set() == cfg.blocks@.dom(),
            codes == names::text_values(shown@),
            s@ == head + block_texts(cfg.blocks@, keys@, codes, i as nat),
        decreases keys@.len() - i,
    {
        assert(keys@.to_set().contains(keys@[i as int]));
        assert(cfg.blocks@.contains_key(keys@[i as int]));
        if let Some(b) = cfg.blocks.get(&keys[i]) {
            let block = write_block(b, shown);
            s.append(block.as_str());
            assert(s@ =~= head + (block_texts(cfg.blocks@, keys@, codes, i as nat) + block@));
        }
        i = i + 1;
    }
    out.append(s.as_str());
}

} // verus!
