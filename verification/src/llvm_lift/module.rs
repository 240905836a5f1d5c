//! LLVM IR for functions and whole programs.

use crate::cfg::{BasicBlock, ControlFlowGraph};
use crate::decoder::DecodedProgram;
use crate::functions;
use crate::functions::{Function, Unit};
use crate::instruction;
use crate::instruction::InstructionShape;
use crate::llvm_lift::body;
use crate::llvm_lift::body::{emit_instruction, emit_terminator, Scene};
use crate::llvm_lift::lines;
use crate::llvm_lift::lines::{
    push_alloca, push_block, push_clear, push_define, push_enter, push_stack,
};
use crate::llvm_lift::ops::Ir;
use crate::ordered;
use crate::ordered::{keys_of, members_of};
use crate::pvm::Instruction;
use crate::text::{chars_of, string_of};
use std::collections::BTreeSet;
use vstd::prelude::*;

verus! {

broadcast use vstd::laws_cmp::group_laws_cmp;

/// PVM register count (r0..r12).
const NUM_REGS: u8 = 13;

/// What stands before the functions. The memory has 256 MB.
pub const HEADER: &'static str = "; ModuleID = 'pvm_program'\nsource_filename = \"pvm_program.pvm\"\ntarget datalayout = \"e-m:e-p:64:64-i64:64-n32:64\"\ntarget triple = \"x86_64-unknown-linux-gnu\"\n\n@pvm_memory = global [268435456 x i8] zeroinitializer, align 16\n\n; External declarations for PVM host calls\ndeclare void @pvm_ecalli(i32) ; External call interface\ndeclare void @pvm_trap() noreturn ; Trap/halt\ndeclare i64 @pvm_sbrk(i64) ; Memory allocation (sbrk)\ndeclare i32 @llvm.ctpop.i32(i32)\ndeclare i64 @llvm.ctpop.i64(i64)\ndeclare i32 @llvm.ctlz.i32(i32, i1)\ndeclare i64 @llvm.ctlz.i64(i64, i1)\ndeclare i32 @llvm.cttz.i32(i32, i1)\ndeclare i64 @llvm.cttz.i64(i64, i1)\ndeclare i32 @llvm.fshl.i32(i32, i32, i32)\ndeclare i64 @llvm.fshl.i64(i64, i64, i64)\ndeclare i32 @llvm.fshr.i32(i32, i32, i32)\ndeclare i64 @llvm.fshr.i64(i64, i64, i64)\ndeclare i16 @llvm.bswap.i16(i16)\ndeclare i32 @llvm.bswap.i32(i32)\ndeclare i64 @llvm.bswap.i64(i64)\n\n";

/// Whether a character is alphabetic or numeric in Unicode.
pub uninterp spec fn alphanumeric(c: char) -> bool;

/// `char::is_alphanumeric` tells whether a character has the Unicode property Alphabetic
/// or a numeric general category. The property is named; of it, only the letters and
/// digits of ASCII are stated.
pub assume_specification[ char::is_alphanumeric ](c: char) -> (r: bool)
    ensures
        r == alphanumeric(c),
        (c as u32) < 128 ==> r == (('0' <= c && c <= '9') || ('A' <= c && c <= 'Z') || ('a' <= c && c
            <= 'z')),
;

/// A character of an LLVM identifier.
pub open spec fn identifier_char(c: char) -> char {
    if alphanumeric(c) || c == '_' {
        c
    } else {
        '_'
    }
}

/// A name as an LLVM identifier.
pub open spec fn identifier(name: Seq<char>) -> Seq<char> {
    Seq::new(name.len(), |i: int| identifier_char(name[i]))
}

/// Sanitize a name for use as an LLVM identifier.
pub fn sanitize_name(name: &str) -> (r: String)
    ensures
        r@ == identifier(name@),
{
    let chars = chars_of(name);
    let mut v: Vec<char> = Vec::new();
    let mut i: usize = 0;
    while i < chars.len()
        invariant
            i <= chars@.len(),
            v@.len() == i,
            forall|k: int| 0 <= k < i ==> #[trigger] v@[k] == identifier_char(chars@[k]),
        decreases chars@.len() - i,
    {
        let c: char = chars[i];
        if c.is_alphanumeric() || c == '_' {
            v.push(c);
        } else {
            v.push('_');
        }
        i = i + 1;
    }
    assert(v@ =~= identifier(name@));
    string_of(&v)
}

/// Where a block that starts at `start` belongs among the first `n`: behind the last
/// that does not start later.
pub open spec fn place(cfg: ControlFlowGraph, list: Seq<usize>, start: usize, n: nat) -> nat
    decreases n,
{
    if n == 0 || cfg.blocks@[list[n - 1]].start_pc <= start {
        n
    } else {
        place(cfg, list, start, (n - 1) as nat)
    }
}

/// The blocks among the first `n` of a list, by start.
pub open spec fn by_start(cfg: ControlFlowGraph, list: Seq<usize>, n: nat) -> Seq<usize>
    decreases n,
{
    if n == 0 {
        seq![]
    } else {
        let rest = by_start(cfg, list, (n - 1) as nat);
        if cfg.blocks@.contains_key(list[n - 1]) {
            let at = place(cfg, rest, cfg.blocks@[list[n - 1]].start_pc, rest.len());
            rest.insert(at as int, list[n - 1])
        } else {
            rest
        }
    }
}

/// The first `n` instructions of a block.
pub open spec fn instructions_ir(s: Ir, code: Seq<(usize, Instruction)>, n: nat) -> Ir
    decreases n,
{
    if n == 0 {
        s
    } else {
        body::instruction_ir(
            instructions_ir(s, code, (n - 1) as nat),
            instruction::classified(code[n - 1].1),
        )
    }
}

/// A block: its label, its instructions, how it ends and a blank line.
#[verifier::opaque]
pub open spec fn block_ir(s: Scene, b: BasicBlock, table: Seq<u32>, own: Set<usize>) -> Scene {
    let start = Ir { text: lines::block_line(s.ir.text, b.start_pc), next: s.ir.next };
    let inner = Scene {
        ir: instructions_ir(start, b.instructions@, b.instructions@.len()),
        exits: s.exits,
    };
    let ended = body::terminator(inner, b, table, own);
    Scene {
        ir: Ir { text: ended.ir.text + "\n"@, next: ended.ir.next },
        exits: ended.exits,
    }
}

/// The first `n` blocks of a list.
pub open spec fn blocks_ir(
    s: Scene,
    cfg: ControlFlowGraph,
    list: Seq<usize>,
    table: Seq<u32>,
    own: Set<usize>,
    n: nat,
) -> Scene
    decreases n,
{
    if n == 0 {
        s
    } else {
        block_ir(
            blocks_ir(s, cfg, list, table, own, (n - 1) as nat),
            cfg.blocks@[list[n - 1]],
            table,
            own,
        )
    }
}

/// The first `n` registers, allocated.
pub open spec fn allocated(s: Seq<char>, n: nat) -> Seq<char>
    decreases n,
{
    if n == 0 {
        s
    } else {
        lines::alloca_line(allocated(s, (n - 1) as nat), (n - 1) as u8)
    }
}

/// The first `n` registers, set to zero.
pub open spec fn cleared(s: Seq<char>, n: nat) -> Seq<char>
    decreases n,
{
    if n == 0 {
        s
    } else {
        lines::clear_line(cleared(s, (n - 1) as nat), (n - 1) as u8)
    }
}

/// A function: registers, the stack pointer where the memory's base is known, and the
/// blocks by start. Without blocks it is nothing.
#[verifier::opaque]
pub open spec fn function_text(
    s: Seq<char>,
    f: Unit,
    cfg: ControlFlowGraph,
    table: Seq<u32>,
    memory_base: Option<u64>,
) -> Seq<char> {
    let keys = ordered::ascending(f.blocks);
    let list = by_start(cfg, keys, keys.len());
    if list.len() == 0 {
        s
    } else {
        let defined = lines::define_lines(s, identifier(f.name));
        let ready = cleared(allocated(defined, 13), 13);
        let based = match memory_base {
            Some(base) => lines::stack_line(ready, base),
            None => ready,
        };
        let entered = Scene {
            ir: Ir { text: lines::enter_lines(based, f.entry_pc), next: 0 },
            exits: Set::empty(),
        };
        blocks_ir(entered, cfg, list, table, f.blocks, list.len()).ir.text + "}\n\n"@
    }
}

/// The first `n` functions.
pub open spec fn functions_text(
    s: Seq<char>,
    fs: Seq<Unit>,
    cfg: ControlFlowGraph,
    table: Seq<u32>,
    memory_base: Option<u64>,
    n: nat,
) -> Seq<char>
    decreases n,
{
    if n == 0 {
        s
    } else {
        function_text(
            functions_text(s, fs, cfg, table, memory_base, (n - 1) as nat),
            fs[n - 1],
            cfg,
            table,
            memory_base,
        )
    }
}

/// What stands before the functions: the module, the memory and the declarations.
pub open spec fn header() -> Seq<char> {
    HEADER@
}

/// The LLVM IR of a program. Without functions, all blocks are one.
pub open spec fn program_text(program: DecodedProgram, cfg: ControlFlowGraph, fs: Seq<Unit>) -> Seq<
    char,
> {
    let table = program.jump_table@;
    if fs.len() == 0 {
        let whole = Unit { entry_pc: 0, blocks: cfg.blocks@.dom(), name: "main"@ };
        function_text(header(), whole, cfg, table, program.memory_base)
    } else {
        functions_text(header(), fs, cfg, table, program.memory_base, fs.len())
    }
}

fn sort_blocks(cfg: &ControlFlowGraph, keys: &Vec<usize>) -> (list: Vec<usize>)
    ensures
        list@ == by_start(*cfg, keys@, keys@.len()),
        forall|i: int| 0 <= i < list@.len() ==> cfg.blocks@.contains_key(#[trigger] list@[i]),
{
    let mut list: Vec<usize> = Vec::new();
    let mut i: usize = 0;
    while i < keys.len()
        invariant
            i <= keys@.len(),
            list@ == by_start(*cfg, keys@, i as nat),
            forall|j: int| 0 <= j < list@.len() ==> cfg.blocks@.contains_key(#[trigger] list@[j]),
        decreases keys@.len() - i,
    {
        if let Some(b) = cfg.blocks.get(&keys[i]) {
            let start: usize = b.start_pc;
            let mut p: usize = list.len();
            while p > 0
                invariant_except_break
                    place(*cfg, list@, start, list@.len()) == place(*cfg, list@, start, p as nat),
                invariant
                    p <= list@.len(),
                    forall|j: int|
                        0 <= j < list@.len() ==> cfg.blocks@.contains_key(#[trigger] list@[j]),
                ensures
                    p == place(*cfg, list@, start, list@.len()),
                decreases p,
            {
                let before: usize = match cfg.blocks.get(&list[p - 1]) {
                    Some(o) => o.start_pc,
                    None => 0,
                };
                if before <= start {
                    break;
                }
                p = p - 1;
            }
            list.insert(p, keys[i]);
        }
        i = i + 1;
    }
    list
}

fn emit_block(
    out: &mut String,
    block: &BasicBlock,
    program: &DecodedProgram,
    own: &BTreeSet<usize>,
    exits: &mut BTreeSet<usize>,
    tmp: &mut u64,
)
    ensures
        (Scene {
            ir: Ir { text: final(out)@, next: *final(tmp) },
            exits: final(exits)@,
        }) == block_ir(
            Scene { ir: Ir { text: old(out)@, next: *old(tmp) }, exits: old(exits)@ },
            *block,
            program.jump_table@,
            own@,
        ),
{
    proof {
        reveal(block_ir);
    }
    push_block(out, block.start_pc);
    let ghost start = Ir { text: out@, next: *tmp };
    let code = &block.instructions;
    let mut i: usize = 0;
    while i < code.len()
        invariant
            i <= code@.len(),
            (Ir { text: out@, next: *tmp }) == instructions_ir(start, code@, i as nat),
        decreases code@.len() - i,
    {
        let shape = InstructionShape::classify(&code[i].1);
        emit_instruction(out, &shape, tmp);
        i = i + 1;
    }
    emit_terminator(out, block, program, own, exits, tmp);
    out.append("\n");
}

fn emit_registers(out: &mut String)
    ensures
        final(out)@ == cleared(allocated(old(out)@, 13), 13),
{
    let ghost start = out@;
    let mut i: u8 = 0;
    while i < NUM_REGS
        invariant
            i <= NUM_REGS,
            out@ == allocated(start, i as nat),
        decreases NUM_REGS - i,
    {
        push_alloca(out, i);
        i = i + 1;
    }
    let ghost ready = out@;
    let mut j: u8 = 0;
    while j < NUM_REGS
        invariant
            j <= NUM_REGS,
            out@ == cleared(ready, j as nat),
        decreases NUM_REGS - j,
    {
        push_clear(out, j);
        j = j + 1;
    }
}

/// Emit LLVM IR for a single PVM function.
fn lift_single_function(
    out: &mut String,
    name: &str,
    program: &DecodedProgram,
    cfg: &ControlFlowGraph,
    block_pcs: &BTreeSet<usize>,
    entry_pc: usize,
)
    ensures
        final(out)@ == function_text(
            old(out)@,
            Unit { entry_pc, blocks: block_pcs@, name: name@ },
            *cfg,
            program.jump_table@,
            program.memory_base,
        ),
{
    proof {
        reveal(function_text);
    }
    let keys = members_of(block_pcs);
    let list = sort_blocks(cfg, &keys);
    if list.len() == 0 {
        return;
    }
    let id = sanitize_name(name);
    push_define(out, &id);
    emit_registers(out);
    if let Some(base) = program.memory_base {
        push_stack(out, base);
    }
    push_enter(out, entry_pc);
    let mut tmp: u64 = 0;
    let mut exits: BTreeSet<usize> = BTreeSet::new();
    let ghost entered = Scene { ir: Ir { text: out@, next: 0 }, exits: exits@ };
    let mut i: usize = 0;
    while i < list.len()
        invariant
            i <= list@.len(),
            forall|j: int| 0 <= j < list@.len() ==> cfg.blocks@.contains_key(#[trigger] list@[j]),
            (Scene { ir: Ir { text: out@, next: tmp }, exits: exits@ }) == blocks_ir(
                entered,
                *cfg,
                list@,
                program.jump_table@,
                block_pcs@,
                i as nat,
            ),
        decreases list@.len() - i,
    {
        if let Some(b) = cfg.blocks.get(&list[i]) {
            emit_block(out, b, program, block_pcs, &mut exits, &mut tmp);
        }
        i = i + 1;
    }
    out.append("}\n\n");
}

fn all_blocks(cfg: &ControlFlowGraph) -> (s: BTreeSet<usize>)
    ensures
        s@ == cfg.blocks@.dom(),
{
    let keys = keys_of(&cfg.blocks);
    let mut s: BTreeSet<usize> = BTreeSet::new();
    let mut i: usize = 0;
    assert(keys@.take(0).to_set() =~= Set::empty());
    while i < keys.len()
        invariant
            i <= keys@.len(),
            s@ == keys@.take(i as int).to_set(),
        decreases keys@.len() - i,
    {
        s.insert(keys[i]);
        proof {
            let k = keys@[i as int];
            assert(keys@.take(i + 1) =~= keys@.take(i as int).push(k));
            ordered::lemma_push_to_set(keys@.take(i as int), k);
        }
        i = i + 1;
    }
    assert(keys@.take(i as int) =~= keys@);
    s
}

/// Generate LLVM IR text for an entire PVM program.
pub fn lift_program(
    program: &DecodedProgram,
    cfg: &ControlFlowGraph,
    functions: &[Function],
) -> (out: String)
    ensures
        out@ == program_text(*program, *cfg, functions::units(functions@)),
{
    let mut out = HEADER.to_owned();
    if functions.len() == 0 {
        let own = all_blocks(cfg);
        lift_single_function(&mut out, "main", program, cfg, &own, 0);
        return out;
    }
    let mut i: usize = 0;
    while i < functions.len()
        invariant
            i <= functions@.len(),
            out@ == functions_text(
                header(),
                functions::units(functions@),
                *cfg,
                program.jump_table@,
                program.memory_base,
                i as nat,
            ),
        decreases functions@.len() - i,
    {
        let f = &functions[i];
        assert(functions::units(functions@)[i as int] == f@);
        lift_single_function(&mut out, f.name.as_str(), program, cfg, &f.block_pcs, f.entry_pc);
        i = i + 1;
    }
    out
}

} // verus!
