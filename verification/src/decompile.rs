//! Decompilation of LLVM IR to C.
//!
//! External decompilers can be chosen where they are installed; a built-in emitter is
//! always there.

use crate::scan;
use crate::scan::{
    ends, find_from, find_last_word, holds_text, is_text, part, push_chars, split, starts,
    strip_ends, strip_starts,
};
use crate::structuring::lines;
use crate::structuring::lines::{split_lines, trimmed};
use crate::text::{chars_of, same_text};
use vstd::prelude::*;

verus! {

/// Available decompiler backends.
#[derive(Debug, Clone, Copy, PartialEq, Eq, Structural)]
pub enum DecompilerBackend {
    /// RetDec (retdec-decompiler CLI)
    RetDec,
    /// Rellic (rellic-decomp CLI)
    Rellic,
    /// LLVM C Backend Emitter (llvm-cbe)
    LlvmCbe,
    /// Built-in naive C emitter (always available)
    Builtin,
}

impl DecompilerBackend {
    pub open spec fn name_text(self) -> Seq<char> {
        match self {
            DecompilerBackend::RetDec => "retdec"@,
            DecompilerBackend::Rellic => "rellic"@,
            DecompilerBackend::LlvmCbe => "llvm-cbe"@,
            DecompilerBackend::Builtin => "builtin"@,
        }
    }

    /// The name of a backend.
    pub fn name(self) -> (r: &'static str)
        ensures
            r@ == self.name_text(),
    {
        match self {
            DecompilerBackend::RetDec => "retdec",
            DecompilerBackend::Rellic => "rellic",
            DecompilerBackend::LlvmCbe => "llvm-cbe",
            DecompilerBackend::Builtin => "builtin",
        }
    }

    /// The backend of a name.
    pub fn from_name(name: &str) -> (r: Option<DecompilerBackend>)
        ensures
            match r {
                Some(b) => b.name_text() == name@,
                None => forall|b: DecompilerBackend| (#[trigger] b.name_text()) != name@,
            },
    {
        if same_text(name, "retdec") {
            Some(DecompilerBackend::RetDec)
        } else if same_text(name, "rellic") {
            Some(DecompilerBackend::Rellic)
        } else if same_text(name, "llvm-cbe") {
            Some(DecompilerBackend::LlvmCbe)
        } else if same_text(name, "builtin") {
            Some(DecompilerBackend::Builtin)
        } else {
            None
        }
    }
}

/// Result of decompilation.
pub struct DecompileResult {
    pub c_code: String,
    pub backend_used: DecompilerBackend,
    pub warnings: Vec<String>,
}

/// The backends that are there, the best first: those whose command was found, and the
/// built-in one.
pub open spec fn backends(retdec: bool, rellic: bool, llvm_cbe: bool) -> Seq<DecompilerBackend> {
    let none = Seq::<DecompilerBackend>::empty();
    let a = if retdec {
        none.push(DecompilerBackend::RetDec)
    } else {
        none
    };
    let b = if rellic {
        a.push(DecompilerBackend::Rellic)
    } else {
        a
    };
    let c = if llvm_cbe {
        b.push(DecompilerBackend::LlvmCbe)
    } else {
        b
    };
    c.push(DecompilerBackend::Builtin)
}

/// Detect which decompiler backends are available, given which commands were found.
pub fn detect_available_backends(retdec: bool, rellic: bool, llvm_cbe: bool) -> (available: Vec<
    DecompilerBackend,
>)
    ensures
        available@ == backends(retdec, rellic, llvm_cbe),
{
    let mut available: Vec<DecompilerBackend> = Vec::new();
    if retdec {
        available.push(DecompilerBackend::RetDec);
    }
    if rellic {
        available.push(DecompilerBackend::Rellic);
    }
    if llvm_cbe {
        available.push(DecompilerBackend::LlvmCbe);
    }
    available.push(DecompilerBackend::Builtin);
    available
}

/// Choose the preferred backend where it is available, else the best one.
pub fn choose_backend(
    available: &Vec<DecompilerBackend>,
    preferred: Option<DecompilerBackend>,
) -> (r: DecompilerBackend)
    requires
        available@.len() > 0,
    ensures
        r == match preferred {
            Some(b) => if available@.contains(b) {
                b
            } else {
                available@[0]
            },
            None => available@[0],
        },
{
    if let Some(b) = preferred {
        let mut i: usize = 0;
        while i < available.len()
            invariant
                i <= available@.len(),
                preferred == Some(b),
                forall|k: int| 0 <= k < i ==> available@[k] != b,
            decreases available@.len() - i,
        {
            if available[i] == b {
                assert(available@[i as int] == b);
                return b;
            }
            i = i + 1;
        }
    }
    available[0]
}

/// What stands before the functions in C.
pub const C_HEADER: &'static str = "#include <stdint.h>\n#include <stdlib.h>\n\n// PVM memory model\nstatic uint8_t pvm_memory[268435456]; // 256MB\n\n// External PVM host functions\nextern void pvm_ecalli(uint32_t index);\nextern void pvm_trap(void) __attribute__((noreturn));\nextern int64_t pvm_sbrk(int64_t size);\n\n";

/// What stands behind the name of a function in C.
pub const FUNCTION_START: &'static str = "(void) {\n    int64_t r0, r1, r2, r3, r4, r5, r6, r7, r8, r9, r10, r11, r12;\n    r0 = r1 = r2 = r3 = r4 = r5 = r6 = r7 = r8 = r9 = r10 = r11 = r12 = 0;\n";

/// A store to a register in C: `store i64 VALUE, ptr %rN`.
pub open spec fn store_in_c(line: Seq<char>) -> Option<Seq<char>> {
    if !scan::at(line, "store "@, 0) {
        None
    } else {
        let parts = scan::pieces(line.subrange(6, line.len() as int), ", ptr "@);
        if parts.len() != 2 {
            None
        } else {
            let place = scan::without_ends(parts[1], ", align 8"@);
            match (scan::at(place, "%r"@, 0), scan::last_word(parts[0])) {
                (true, Some(value)) => Some(
                    scan::without_starts(place, '%') + " = "@ + value,
                ),
                _ => None,
            }
        }
    }
}

/// A conditional branch in C: `br i1 %tN, label %THEN, label %ELSE`.
pub open spec fn branch_in_c(line: Seq<char>) -> Option<Seq<char>> {
    let parts = scan::pieces(line, ", label %"@);
    if parts.len() >= 3 {
        Some("if (...) goto "@ + parts[1] + "; else goto "@ + parts[2])
    } else {
        None
    }
}

/// The name in a line that defines a function: `define i64 @NAME() {`.
pub open spec fn defined_name(line: Seq<char>) -> Option<Seq<char>> {
    match scan::find(line, "@"@, 0) {
        Some(a) => {
            let rest = line.subrange(a + 1, line.len() as int);
            match scan::find(rest, "("@, 0) {
                Some(p) => Some(rest.subrange(0, p)),
                None => None,
            }
        },
        None => None,
    }
}

/// Whether the first parenthesis of a line is an opening one, where it has both.
pub open spec fn opens_first(line: Seq<char>) -> bool {
    match (scan::find(line, "("@, 0), scan::find(line, ")"@, 0)) {
        (Some(a), Some(b)) => a < b,
        _ => true,
    }
}

/// The last word between the parentheses of a call.
pub open spec fn call_argument(line: Seq<char>) -> Option<Seq<char>> {
    match (scan::find(line, "("@, 0), scan::find(line, ")"@, 0)) {
        (Some(a), Some(b)) => scan::last_word(line.subrange(a + 1, b)),
        _ => None,
    }
}

/// Whether a line is read as a host call.
pub open spec fn is_host_call(t: Seq<char>) -> bool {
    &&& !scan::at(t, "store"@, 0)
    &&& !scan::at(t, "br label %"@, 0)
    &&& !scan::at(t, "br i1"@, 0)
    &&& !scan::at(t, "ret i64"@, 0)
    &&& t != "unreachable"@
    &&& !scan::contains(t, "call void @pvm_trap"@)
    &&& scan::contains(t, "call void @pvm_ecalli"@)
}

/// An instruction in C, where it has a form there.
pub open spec fn in_c(t: Seq<char>) -> Option<Seq<char>> {
    if scan::at(t, "store"@, 0) {
        store_in_c(t)
    } else if scan::at(t, "br label %"@, 0) {
        Some("goto "@ + t.subrange(10, t.len() as int))
    } else if scan::at(t, "br i1"@, 0) {
        branch_in_c(t)
    } else if scan::at(t, "ret i64"@, 0) {
        Some(
            "return "@ + if scan::at(t, "ret i64 "@, 0) {
                t.subrange(8, t.len() as int)
            } else {
                "r0"@
            },
        )
    } else if t == "unreachable"@ {
        Some("__builtin_unreachable()"@)
    } else if scan::contains(t, "call void @pvm_trap"@) {
        Some("pvm_trap()"@)
    } else if is_host_call(t) && call_argument(t) is Some {
        Some("pvm_ecalli("@ + call_argument(t)->0 + ")"@)
    } else if scan::at(t, "switch"@, 0) {
        Some("/* switch statement */"@)
    } else {
        None
    }
}

/// Emitted C, and whether the next line stands in a function.
pub struct Emitted {
    pub text: Seq<char>,
    pub inside: bool,
}

/// Whether a line tells nothing that C needs.
pub open spec fn is_skipped(t: Seq<char>) -> bool {
    t.len() == 0 || scan::at(t, ";"@, 0) || scan::at(t, "source_filename"@, 0) || scan::at(
        t,
        "target"@,
        0,
    ) || scan::at(t, "@"@, 0) || scan::at(t, "declare"@, 0)
}

/// Whether a line is a label.
pub open spec fn is_label(t: Seq<char>) -> bool {
    scan::ends_with(t, ":"@) && !scan::contains(t, "="@)
}

/// Whether a line of a function is read as an instruction.
pub open spec fn is_instruction(t: Seq<char>) -> bool {
    !is_skipped(t) && !scan::at(t, "define"@, 0) && t != "}"@ && !is_label(t)
}

/// One line further.
pub open spec fn emit_line(e: Emitted, t: Seq<char>) -> Emitted {
    if is_skipped(t) {
        e
    } else if scan::at(t, "define"@, 0) {
        Emitted {
            text: match defined_name(t) {
                Some(name) => e.text + "int64_t "@ + name + FUNCTION_START@,
                None => e.text,
            },
            inside: true,
        }
    } else if t == "}"@ {
        Emitted { text: e.text + "}\n\n"@, inside: false }
    } else if !e.inside {
        e
    } else if is_label(t) {
        let label = scan::without_ends(t, ":"@);
        Emitted {
            text: if label == "entry"@ {
                e.text
            } else {
                e.text + label + ":\n"@
            },
            inside: true,
        }
    } else {
        Emitted {
            text: match in_c(t) {
                Some(c) => e.text + "    "@ + c + ";\n"@,
                None => e.text,
            },
            inside: true,
        }
    }
}

/// The first `n` lines.
pub open spec fn emit_lines(ls: Seq<Seq<char>>, n: nat) -> Emitted
    decreases n,
{
    if n == 0 {
        Emitted { text: C_HEADER@, inside: false }
    } else {
        emit_line(emit_lines(ls, (n - 1) as nat), lines::trim(ls[n - 1]))
    }
}

/// The C of a text of LLVM IR.
pub open spec fn c_text(ir: Seq<char>) -> Seq<char> {
    let ls = lines::lines_from(ir, 0);
    emit_lines(ls, ls.len()).text
}

/// Whether each host call in a text of LLVM IR can be read: its parentheses open before
/// they close.
pub open spec fn readable(ir: Seq<char>) -> bool {
    let ls = lines::lines_from(ir, 0);
    forall|i: int|
        0 <= i < ls.len() && emit_lines(ls, i as nat).inside && is_instruction(lines::trim(ls[i]))
            && is_host_call(lines::trim(#[trigger] ls[i])) ==> opens_first(lines::trim(ls[i]))
}

pub open spec fn opt_chars(r: Option<String>) -> Option<Seq<char>> {
    match r {
        Some(s) => Some(s@),
        None => None,
    }
}

/// Parse an LLVM store instruction into C.
fn parse_store(line: &Vec<char>) -> (r: Option<String>)
    ensures
        opt_chars(r) == store_in_c(line@),
{
    proof {
        reveal_strlit("store ");
        reveal_strlit(", ptr ");
        reveal_strlit(", align 8");
    }
    if !starts(line, "store ") {
        return None;
    }
    let rest = part(line, 6, line.len());
    let parts = split(&rest, ", ptr ");
    let ghost views = lines::line_views(parts@);
    if parts.len() != 2 {
        return None;
    }
    assert(views[0] == parts@[0]@ && views[1] == parts@[1]@);
    let place = strip_ends(&parts[1], ", align 8");
    if !starts(&place, "%r") {
        return None;
    }
    match find_last_word(&parts[0]) {
        Some(value) => {
            let reg = strip_starts(&place, '%');
            let mut out = crate::text::string_of(&reg);
            out.append(" = ");
            push_chars(&mut out, &value);
            Some(out)
        },
        None => None,
    }
}

/// Parse a conditional branch into C.
fn parse_conditional_branch(line: &Vec<char>) -> (r: Option<String>)
    ensures
        opt_chars(r) == branch_in_c(line@),
{
    proof {
        reveal_strlit(", label %");
    }
    let parts = split(line, ", label %");
    let ghost views = lines::line_views(parts@);
    if parts.len() < 3 {
        return None;
    }
    assert(views[1] == parts@[1]@ && views[2] == parts@[2]@);
    let mut out = "if (...) goto ".to_owned();
    push_chars(&mut out, &parts[1]);
    out.append("; else goto ");
    push_chars(&mut out, &parts[2]);
    Some(out)
}

/// Extract function name from LLVM define line.
fn extract_func_name(line: &Vec<char>) -> (r: Option<Vec<char>>)
    ensures
        match r {
            Some(name) => defined_name(line@) == Some(name@),
            None => defined_name(line@) is None,
        },
{
    proof {
        reveal_strlit("@");
        reveal_strlit("(");
    }
    match find_from(line, "@", 0) {
        Some(a) => {
            let size: usize = line.len();
            let rest = part(line, a + 1, size);
            match find_from(&rest, "(", 0) {
                Some(p) => Some(part(&rest, 0, p)),
                None => None,
            }
        },
        None => None,
    }
}

/// Extract call argument.
fn extract_call_arg(line: &Vec<char>) -> (r: Option<Vec<char>>)
    requires
        opens_first(line@),
    ensures
        match r {
            Some(arg) => call_argument(line@) == Some(arg@),
            None => call_argument(line@) is None,
        },
{
    proof {
        reveal_strlit("(");
        reveal_strlit(")");
    }
    match find_from(line, "(", 0) {
        Some(a) => match find_from(line, ")", 0) {
            Some(b) => {
                let inner = part(line, a + 1, b);
                find_last_word(&inner)
            },
            None => None,
        },
        None => None,
    }
}

fn with_chars(front: &str, v: &Vec<char>, back: &str) -> (s: String)
    ensures
        s@ == front@ + v@ + back@,
{
    let mut s = front.to_owned();
    push_chars(&mut s, v);
    s.append(back);
    s
}

/// Translate a single LLVM IR instruction to C (best effort).
fn translate_llvm_to_c(t: &Vec<char>) -> (r: Option<String>)
    requires
        is_host_call(t@) ==> opens_first(t@),
    ensures
        opt_chars(r) == in_c(t@),
{
    proof {
        reveal_strlit("br label %");
        reveal_strlit("ret i64 ");
        reveal_strlit("");
    }
    if starts(t, "store") {
        return parse_store(t);
    }
    if starts(t, "br label %") {
        let label = part(t, 10, t.len());
        let s = with_chars("goto ", &label, "");
        assert(s@ =~= "goto "@ + label@);
        return Some(s);
    }
    if starts(t, "br i1") {
        return parse_conditional_branch(t);
    }
    if starts(t, "ret i64") {
        if starts(t, "ret i64 ") {
            let value = part(t, 8, t.len());
            let s = with_chars("return ", &value, "");
            assert(s@ =~= "return "@ + value@);
            return Some(s);
        }
        let mut s = "return ".to_owned();
        s.append("r0");
        return Some(s);
    }
    if is_text(t, "unreachable") {
        return Some("__builtin_unreachable()".to_owned());
    }
    if holds_text(t, "call void @pvm_trap") {
        return Some("pvm_trap()".to_owned());
    }
    if holds_text(t, "call void @pvm_ecalli") {
        if let Some(arg) = extract_call_arg(t) {
            return Some(with_chars("pvm_ecalli(", &arg, ")"));
        }
    }
    if starts(t, "switch") {
        return Some("/* switch statement */".to_owned());
    }
    None
}

fn is_skipped_line(t: &Vec<char>) -> (r: bool)
    ensures
        r == is_skipped(t@),
{
    t.len() == 0 || starts(t, ";") || starts(t, "source_filename") || starts(t, "target") || starts(
        t,
        "@",
    ) || starts(t, "declare")
}

/// Emit one line; tells whether the next stands in a function.
fn emit(out: &mut String, inside: bool, t: &Vec<char>) -> (next: bool)
    requires
        inside && is_instruction(t@) && is_host_call(t@) ==> opens_first(t@),
    ensures
        (Emitted { text: final(out)@, inside: next }) == emit_line(
            Emitted { text: old(out)@, inside },
            t@,
        ),
{
    proof {
        reveal_strlit(":");
    }
    if is_skipped_line(t) {
        return inside;
    }
    if starts(t, "define") {
        if let Some(name) = extract_func_name(t) {
            out.append("int64_t ");
            push_chars(out, &name);
            out.append(FUNCTION_START);
        }
        return true;
    }
    if is_text(t, "}") {
        out.append("}\n\n");
        return false;
    }
    if !inside {
        return false;
    }
    if ends(t, ":") && !holds_text(t, "=") {
        let label = strip_ends(t, ":");
        if !is_text(&label, "entry") {
            push_chars(out, &label);
            out.append(":\n");
        }
        return true;
    }
    if let Some(c) = translate_llvm_to_c(t) {
        out.append("    ");
        out.append(c.as_str());
        out.append(";\n");
    }
    true
}

/// Built-in naive C emitter that translates LLVM IR text to readable C.
/// This is a best-effort fallback when no external decompiler is available.
pub fn decompile_builtin(llvm_ir: &str) -> (r: DecompileResult)
    requires
        readable(llvm_ir@),
    ensures
        r.c_code@ == c_text(llvm_ir@),
        r.backend_used == DecompilerBackend::Builtin,
        r.warnings@.len() == 1,
        r.warnings@[0]@
            == "Used built-in naive C emitter (install retdec or rellic for better results)"@,
{
    let chars = chars_of(llvm_ir);
    let list = split_lines(&chars);
    let ghost ls = lines::lines_from(llvm_ir@, 0);
    let mut c_code = C_HEADER.to_owned();
    let mut inside = false;
    let mut i: usize = 0;
    while i < list.len()
        invariant
            i <= list@.len(),
            ls == lines::lines_from(llvm_ir@, 0),
            ls == lines::line_views(list@),
            readable(llvm_ir@),
            (Emitted { text: c_code@, inside }) == emit_lines(ls, i as nat),
        decreases list@.len() - i,
    {
        assert(ls[i as int] == list@[i as int]@);
        let t = trimmed(&list[i]);
        inside = emit(&mut c_code, inside, &t);
        i = i + 1;
    }
    let mut warnings: Vec<String> = Vec::new();
    warnings.push(
        "Used built-in naive C emitter (install retdec or rellic for better results)".to_owned(),
    );
    DecompileResult { c_code, backend_used: DecompilerBackend::Builtin, warnings }
}

fn call_opens_first(t: &Vec<char>) -> (r: bool)
    ensures
        r == opens_first(t@),
{
    match (find_from(t, "(", 0), find_from(t, ")", 0)) {
        (Some(a), Some(b)) => a < b,
        _ => true,
    }
}

fn reads_as_host_call(t: &Vec<char>) -> (r: bool)
    ensures
        r == is_host_call(t@),
{
    !starts(t, "store") && !starts(t, "br label %") && !starts(t, "br i1") && !starts(t, "ret i64")
        && !is_text(t, "unreachable") && !holds_text(t, "call void @pvm_trap") && holds_text(
        t,
        "call void @pvm_ecalli",
    )
}

fn reads_as_instruction(t: &Vec<char>) -> (r: bool)
    ensures
        r == is_instruction(t@),
{
    !is_skipped_line(t) && !starts(t, "define") && !is_text(t, "}") && !(ends(t, ":")
        && !holds_text(t, "="))
}

/// Whether the built-in emitter can read a text of LLVM IR.
pub fn is_readable(llvm_ir: &str) -> (r: bool)
    ensures
        r == readable(llvm_ir@),
{
    let chars = chars_of(llvm_ir);
    let list = split_lines(&chars);
    let ghost ls = lines::lines_from(llvm_ir@, 0);
    let mut c_code = C_HEADER.to_owned();
    let mut inside = false;
    let mut i: usize = 0;
    while i < list.len()
        invariant
            i <= list@.len(),
            ls == lines::lines_from(llvm_ir@, 0),
            ls == lines::line_views(list@),
            (Emitted { text: c_code@, inside }) == emit_lines(ls, i as nat),
            forall|k: int|
                0 <= k < i && emit_lines(ls, k as nat).inside && is_instruction(lines::trim(ls[k]))
                    && is_host_call(lines::trim(#[trigger] ls[k])) ==> opens_first(
                    lines::trim(ls[k]),
                ),
        decreases list@.len() - i,
    {
        assert(ls[i as int] == list@[i as int]@);
        let t = trimmed(&list[i]);
        if inside && reads_as_instruction(&t) && reads_as_host_call(&t) && !call_opens_first(&t) {
            return false;
        }
        inside = emit(&mut c_code, inside, &t);
        i = i + 1;
    }
    true
}

/// The names to try for an LLVM tool, the newest version first and the plain name last.
pub open spec fn tool_names(name: Seq<char>) -> Seq<Seq<char>> {
    seq![name + "-19"@, name + "-18"@, name + "-17"@, name + "-16"@, name + "-15"@, name + "-14"@, name]
}

fn with_suffix(name: &str, suffix: &str) -> (s: String)
    ensures
        s@ == name@ + suffix@,
{
    let mut s = name.to_owned();
    s.append(suffix);
    s
}

/// Names to look for when an LLVM tool is needed, versioned ones first.
pub fn llvm_tool_names(name: &str) -> (list: Vec<String>)
    ensures
        crate::names::texts(list@) == tool_names(name@),
{
    let mut list: Vec<String> = Vec::new();
    list.push(with_suffix(name, "-19"));
    list.push(with_suffix(name, "-18"));
    list.push(with_suffix(name, "-17"));
    list.push(with_suffix(name, "-16"));
    list.push(with_suffix(name, "-15"));
    list.push(with_suffix(name, "-14"));
    list.push(name.to_owned());
    assert(crate::names::texts(list@) =~= tool_names(name@));
    list
}

} // verus!
