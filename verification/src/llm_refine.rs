//! Requests to a language model, and what is made of its replies.
//!
//! Three roles cooperate to improve decompiled C:
//!   - the referee evaluates code quality and identifies issues
//!   - the advisor suggests specific improvements (naming, comments, structure)
//!   - the operator applies improvements while preserving semantics
//!
//! Sending a request and receiving its reply is left to the caller.

use crate::names;
use crate::scan;
use crate::scan::{find_from, holds_text, part, push_chars, starts};
use crate::structuring::lines;
use crate::structuring::lines::{split_lines, trimmed};
use crate::text;
use crate::text::{chars_of, empty_string, is_empty_text, push_dec, string_of};
use vstd::prelude::*;

verus! {

/// Maximum refinement rounds.
pub const MAX_ROUNDS: u64 = 3;

pub const REFEREE_1: &'static str = "You are a code quality referee for decompiled PVM (Polkadot Virtual Machine) bytecode.\n\nContext: ";

pub const REFEREE_2: &'static str = "\n\nEvaluate this decompiled C code for:\n1. Variable naming quality (are names meaningful or still register-like?)\n2. Comment coverage (are complex operations explained?)\n3. Control flow clarity (are loops/conditions readable?)\n4. Type accuracy (are types appropriate for the operations?)\n5. Overall readability\n\nIf the code is already high quality, respond with exactly \"QUALITY: EXCELLENT\" and \"NO_ISSUES_FOUND\".\nOtherwise, list specific issues, one per line, prefixed with [NAMING], [COMMENT], [FLOW], [TYPE], or [READABILITY].\n\nCode to evaluate:\n```c\n";

pub const REFEREE_3: &'static str = "\n```";

pub const ADVISOR_1: &'static str = "You are a code improvement advisor for decompiled PVM (Polkadot Virtual Machine) bytecode.\n\nContext: ";

pub const ADVISOR_2: &'static str = "\n\nA referee has identified these issues in the decompiled code:\n";

pub const ADVISOR_3: &'static str = "\n\nFor each issue, suggest a specific fix. Be concrete:\n- For naming: suggest the exact new name and why\n- For comments: write the exact comment to add\n- For flow: describe the structural change\n- For types: specify the correct type\n\nKeep suggestions that preserve the code's EXACT semantics. Do not change logic.\n\nCode:\n```c\n";

pub const ADVISOR_4: &'static str = "\n```\n\nRespond with numbered suggestions, one per line.";

pub const OPERATOR_1: &'static str = "You are a code operator. Apply the following improvements to this decompiled PVM code.\n\nContext: ";

pub const OPERATOR_2: &'static str = "\n\nCRITICAL RULES:\n1. Preserve EXACT semantics - do not change any logic, control flow, or computation\n2. Only improve naming, comments, types, and formatting\n3. Keep all memory accesses, arithmetic, and control flow identical\n4. Output ONLY the improved C code, no explanations\n\nImprovements to apply:\n";

pub const OPERATOR_3: &'static str = "\n\nOriginal code:\n```c\n";

pub const OPERATOR_4: &'static str = "\n```\n\nOutput the improved C code only, wrapped in ```c ... ```.";

pub const PSEUDO_1: &'static str = "You are enhancing decompiled PVM (Polkadot Virtual Machine) pseudo-code.\n\nContext: ";

pub const PSEUDO_2: &'static str = "\nFunction: ";

pub const PSEUDO_3: &'static str = "\n\nRULES:\n1. Add short explanatory comments for non-obvious operations (memory accesses, bitwise ops, constants)\n2. Rename variables to meaningful names based on their usage patterns (e.g. ptr_0_56 \u{2192} counter, var_1 \u{2192} switch_index)\n3. Do NOT change any logic, control flow, operators, or expressions\n4. Keep the exact same syntax \u{2014} this is pseudo-code, not C or Rust\n5. Preserve function signature exactly\n6. Output ONLY the improved pseudo-code in a fenced code block\n\nPseudo-code to enhance:\n```\n";

pub const PSEUDO_4: &'static str = "\n```";

/// The referee evaluates code quality.
pub open spec fn referee_prompt_text(context: Seq<char>, code: Seq<char>) -> Seq<char> {
    REFEREE_1@ + context + REFEREE_2@ + code + REFEREE_3@
}

/// The referee evaluates code quality.
pub fn referee_prompt(context: &str, code: &str) -> (s: String)
    ensures
        s@ == referee_prompt_text(context@, code@),
{
    let mut s = REFEREE_1.to_owned();
    s.append(context);
    s.append(REFEREE_2);
    s.append(code);
    s.append(REFEREE_3);
    s
}

/// The advisor suggests specific improvements.
pub open spec fn advisor_prompt_text(context: Seq<char>, evaluation: Seq<char>, code: Seq<char>) -> Seq<char> {
    ADVISOR_1@ + context + ADVISOR_2@ + evaluation + ADVISOR_3@ + code + ADVISOR_4@
}

/// The advisor suggests specific improvements.
pub fn advisor_prompt(context: &str, evaluation: &str, code: &str) -> (s: String)
    ensures
        s@ == advisor_prompt_text(context@, evaluation@, code@),
{
    let mut s = ADVISOR_1.to_owned();
    s.append(context);
    s.append(ADVISOR_2);
    s.append(evaluation);
    s.append(ADVISOR_3);
    s.append(code);
    s.append(ADVISOR_4);
    s
}

/// The operator applies improvements to code.
pub open spec fn operator_prompt_text(context: Seq<char>, suggestions: Seq<char>, code: Seq<char>) -> Seq<char> {
    OPERATOR_1@ + context + OPERATOR_2@ + suggestions + OPERATOR_3@ + code + OPERATOR_4@
}

/// The operator applies improvements to code.
pub fn operator_prompt(context: &str, suggestions: &str, code: &str) -> (s: String)
    ensures
        s@ == operator_prompt_text(context@, suggestions@, code@),
{
    let mut s = OPERATOR_1.to_owned();
    s.append(context);
    s.append(OPERATOR_2);
    s.append(suggestions);
    s.append(OPERATOR_3);
    s.append(code);
    s.append(OPERATOR_4);
    s
}

/// Pseudo-code is enhanced in a single request.
pub open spec fn pseudo_code_prompt_text(context: Seq<char>, fn_name: Seq<char>, pseudo_code: Seq<char>) -> Seq<char> {
    PSEUDO_1@ + context + PSEUDO_2@ + fn_name + PSEUDO_3@ + pseudo_code + PSEUDO_4@
}

/// Pseudo-code is enhanced in a single request.
pub fn pseudo_code_prompt(context: &str, fn_name: &str, pseudo_code: &str) -> (s: String)
    ensures
        s@ == pseudo_code_prompt_text(context@, fn_name@, pseudo_code@),
{
    let mut s = PSEUDO_1.to_owned();
    s.append(context);
    s.append(PSEUDO_2);
    s.append(fn_name);
    s.append(PSEUDO_3);
    s.append(pseudo_code);
    s.append(PSEUDO_4);
    s
}

/// A character inside a JSON string.
pub open spec fn escaped_char(c: char) -> Seq<char> {
    if c == '\\' {
        seq!['\\', '\\']
    } else if c == '"' {
        seq!['\\', '"']
    } else if c == '\n' {
        seq!['\\', 'n']
    } else if c == '\r' {
        seq!['\\', 'r']
    } else if c == '\t' {
        seq!['\\', 't']
    } else {
        seq![c]
    }
}

/// The first `n` characters inside a JSON string.
pub open spec fn escaped(s: Seq<char>, n: nat) -> Seq<char>
    decreases n,
{
    if n == 0 {
        seq![]
    } else {
        escaped(s, (n - 1) as nat) + escaped_char(s[n - 1])
    }
}

/// What stands before the prompt in a request.
pub const REQUEST_START: &'static str = "{\"model\":\"google/gemini-3.1-flash-lite-preview\",\"messages\":[{\"role\":\"user\",\"content\":\"";

/// What stands behind the prompt in a request.
pub const REQUEST_END: &'static str = "\"}]}";

/// The body of a request.
pub open spec fn request_text(prompt: Seq<char>) -> Seq<char> {
    REQUEST_START@ + escaped(prompt, prompt.len()) + REQUEST_END@
}

fn push_escaped(out: &mut String, c: char)
    ensures
        final(out)@ == old(out)@ + escaped_char(c),
{
    let ghost start = out@;
    if c == '\\' {
        out.push('\\');
        out.push('\\');
    } else if c == '"' {
        out.push('\\');
        out.push('"');
    } else if c == '\n' {
        out.push('\\');
        out.push('n');
    } else if c == '\r' {
        out.push('\\');
        out.push('r');
    } else if c == '\t' {
        out.push('\\');
        out.push('t');
    } else {
        out.push(c);
    }
    assert(out@ =~= start + escaped_char(c));
}

/// Build the JSON body of a request, with the prompt escaped.
pub fn request_body(prompt: &str) -> (out: String)
    ensures
        out@ == request_text(prompt@),
{
    let chars = chars_of(prompt);
    let mut out = REQUEST_START.to_owned();
    let ghost start = out@;
    assert(start + seq![] =~= start);
    let mut i: usize = 0;
    while i < chars.len()
        invariant
            i <= chars@.len(),
            out@ == start + escaped(chars@, i as nat),
        decreases chars@.len() - i,
    {
        push_escaped(&mut out, chars[i]);
        assert(start + escaped(chars@, i as nat) + escaped_char(chars@[i as int]) =~= start + (
        escaped(chars@, i as nat) + escaped_char(chars@[i as int])));
        i = i + 1;
    }
    out.append(REQUEST_END);
    out
}

/// The value of a hexadecimal digit.
pub open spec fn hex_digit(c: char) -> Option<int> {
    if '0' <= c && c <= '9' {
        Some(c as int - '0' as int)
    } else if 'a' <= c && c <= 'f' {
        Some(c as int - 'a' as int + 10)
    } else if 'A' <= c && c <= 'F' {
        Some(c as int - 'A' as int + 10)
    } else {
        None
    }
}

/// The value of hexadecimal digits behind a value.
pub open spec fn hex_digits(s: Seq<char>, value: int) -> Option<int>
    decreases s.len(),
{
    if s.len() == 0 {
        Some(value)
    } else {
        match hex_digit(s[0]) {
            Some(d) => hex_digits(s.subrange(1, s.len() as int), value * 16 + d),
            None => None,
        }
    }
}

/// The value of a hexadecimal numeral, which may have a plus sign.
pub open spec fn hex_value(s: Seq<char>) -> Option<int> {
    let digits = if s.len() > 0 && s[0] == '+' {
        s.subrange(1, s.len() as int)
    } else {
        s
    };
    if digits.len() == 0 {
        None
    } else {
        hex_digits(digits, 0)
    }
}

/// Whether a number is that of a character: no surrogate and not too large.
pub open spec fn is_char_number(v: int) -> bool {
    (0 <= v < 0xd800) || (0xe000 <= v <= 0x10ffff)
}

/// What four characters behind `\u` stand for; nothing where they are no character.
pub open spec fn unicode_char(s: Seq<char>) -> Seq<char> {
    match hex_value(s) {
        Some(v) => if is_char_number(v) {
            seq![v as char]
        } else {
            seq![]
        },
        None => seq![],
    }
}

/// What an escaped character stands for.
pub open spec fn unescaped_char(c: char) -> Seq<char> {
    if c == 'n' {
        seq!['\n']
    } else if c == 'r' {
        seq!['\r']
    } else if c == 't' {
        seq!['\t']
    } else if c == '"' || c == '\\' || c == '/' {
        seq![c]
    } else {
        seq!['\\', c]
    }
}

/// What a JSON string holds behind `held`, from `i` on up to its closing quote.
pub open spec fn unescaped(s: Seq<char>, i: int, held: Seq<char>) -> Option<Seq<char>>
    decreases s.len() - i,
{
    if i < 0 || i >= s.len() {
        None
    } else if s[i] == '"' {
        Some(held)
    } else if s[i] != '\\' {
        unescaped(s, i + 1, held.push(s[i]))
    } else if i + 1 >= s.len() {
        None
    } else if s[i + 1] != 'u' {
        unescaped(s, i + 2, held + unescaped_char(s[i + 1]))
    } else if i + 6 > s.len() {
        None
    } else {
        unescaped(s, i + 6, held + unicode_char(s.subrange(i + 2, i + 6)))
    }
}

/// The content of a reply: the first string behind `"content":`.
pub open spec fn content(json: Seq<char>) -> Option<Seq<char>> {
    match scan::find(json, "\"content\":\""@, 0) {
        Some(i) => unescaped(json, i + 11, seq![]),
        None => None,
    }
}

/// `char::from_u32` gives the character of a number, and nothing where there is none.
pub assume_specification[ char::from_u32 ](i: u32) -> (r: Option<char>)
    ensures
        r is Some == is_char_number(i as int),
        r is Some ==> r->0 == i as char,
;

fn digit_of(c: char) -> (r: Option<u32>)
    ensures
        match r {
            Some(d) => hex_digit(c) == Some(d as int) && d < 16,
            None => hex_digit(c) is None,
        },
{
    if '0' <= c && c <= '9' {
        Some(c as u32 - '0' as u32)
    } else if 'a' <= c && c <= 'f' {
        Some(c as u32 - 'a' as u32 + 10)
    } else if 'A' <= c && c <= 'F' {
        Some(c as u32 - 'A' as u32 + 10)
    } else {
        None
    }
}

fn parse_hex(s: &Vec<char>) -> (r: Option<u32>)
    requires
        s@.len() == 4,
    ensures
        match r {
            Some(v) => hex_value(s@) == Some(v as int),
            None => hex_value(s@) is None,
        },
{
    let mut i: usize = 0;
    if s[0] == '+' {
        i = 1;
    }
    let mut v: u32 = 0;
    let ghost digits = s@.subrange(i as int, 4);
    assert(i == 0 ==> digits =~= s@);
    while i < 4
        invariant
            i <= 4,
            s@.len() == 4,
            hex_value(s@) == hex_digits(s@.subrange(i as int, 4), v as int),
            i == 0 ==> v == 0,
            i == 1 ==> v < 16,
            i == 2 ==> v < 256,
            i == 3 ==> v < 4096,
        decreases 4 - i,
    {
        assert(s@.subrange(i as int, 4).subrange(1, 4 - i) =~= s@.subrange(i + 1, 4));
        match digit_of(s[i]) {
            Some(d) => {
                v = v * 16 + d;
            },
            None => {
                return None;
            },
        }
        i = i + 1;
    }
    Some(v)
}

fn push_unicode(out: &mut String, s: &Vec<char>)
    requires
        s@.len() == 4,
    ensures
        final(out)@ == old(out)@ + unicode_char(s@),
{
    let ghost start = out@;
    if let Some(v) = parse_hex(s) {
        if let Some(c) = char::from_u32(v) {
            out.push(c);
        }
    }
    assert(out@ =~= start + unicode_char(s@));
}

fn push_unescaped(out: &mut String, c: char)
    ensures
        final(out)@ == old(out)@ + unescaped_char(c),
{
    let ghost start = out@;
    if c == 'n' {
        out.push('\n');
    } else if c == 'r' {
        out.push('\r');
    } else if c == 't' {
        out.push('\t');
    } else if c == '"' || c == '\\' || c == '/' {
        out.push(c);
    } else {
        out.push('\\');
        out.push(c);
    }
    assert(out@ =~= start + unescaped_char(c));
}

pub open spec fn opt_view(r: Option<String>) -> Option<Seq<char>> {
    match r {
        Some(s) => Some(s@),
        None => None,
    }
}

/// Extract the assistant message content from an OpenRouter JSON response.
pub fn extract_openrouter_content(json: &str) -> (r: Option<String>)
    ensures
        opt_view(r) == content(json@),
{
    proof {
        reveal_strlit("\"content\":\"");
    }
    let s = chars_of(json);
    let size: usize = s.len();
    let mut i: usize = match find_from(&s, "\"content\":\"", 0) {
        Some(at) => at + 11,
        None => {
            return None;
        },
    };
    let mut out = empty_string();
    while i < size
        invariant
            i <= size == s@.len(),
            s@ == json@,
            content(json@) == unescaped(s@, i as int, out@),
        decreases size - i,
    {
        let c: char = s[i];
        if c == '"' {
            return Some(out);
        }
        if c != '\\' {
            out.push(c);
            i = i + 1;
        } else {
            if size - i < 2 {
                return None;
            }
            let e: char = s[i + 1];
            if e != 'u' {
                push_unescaped(&mut out, e);
                i = i + 2;
            } else {
                if size - i < 6 {
                    return None;
                }
                let four = part(&s, i + 2, i + 6);
                push_unicode(&mut out, &four);
                i = i + 6;
            }
        }
    }
    None
}

/// The code between two positions of a text, without white space around it.
pub open spec fn code_between(s: Seq<char>, from: int, to: int) -> Seq<char> {
    lines::trim(s.subrange(from, to))
}

/// The block that starts with a fence marked as C.
pub open spec fn c_block(s: Seq<char>) -> Option<Seq<char>> {
    match scan::find(s, "```c"@, 0) {
        Some(i) => match scan::find(s, "```"@, i + 4) {
            Some(e) => Some(code_between(s, i + 4, e)),
            None => None,
        },
        None => None,
    }
}

/// Where the code behind the fence at `i` starts: on the next line, where there is one.
pub open spec fn behind_fence(s: Seq<char>, i: int) -> int {
    match scan::find(s, "\n"@, i + 3) {
        Some(n) => n + 1,
        None => i + 3,
    }
}

/// The block that starts with any fence.
pub open spec fn plain_block(s: Seq<char>) -> Option<Seq<char>> {
    match scan::find(s, "```"@, 0) {
        Some(i) => match scan::find(s, "```"@, behind_fence(s, i)) {
            Some(e) => Some(code_between(s, behind_fence(s, i), e)),
            None => None,
        },
        None => None,
    }
}

/// The first `n` lines but for the fences, with line feeds between them.
pub open spec fn unfenced(ls: Seq<Seq<char>>, n: nat) -> Option<Seq<char>>
    decreases n,
{
    if n == 0 {
        None
    } else {
        let rest = unfenced(ls, (n - 1) as nat);
        let line = ls[n - 1];
        if scan::at(lines::trim(line), "```"@, 0) {
            rest
        } else {
            match rest {
                Some(r) => Some(r + "\n"@ + line),
                None => Some(line),
            }
        }
    }
}

/// Whether a text looks like code.
pub open spec fn looks_like_code(s: Seq<char>) -> bool {
    (scan::contains(s, "int"@) || scan::contains(s, "fn "@)) && scan::contains(s, "{"@)
}

/// The code in a reply: in a fenced block, or all of it where it looks like code.
pub open spec fn code_block(s: Seq<char>) -> Option<Seq<char>> {
    let ls = lines::lines_from(s, 0);
    if c_block(s) is Some {
        c_block(s)
    } else if plain_block(s) is Some {
        plain_block(s)
    } else if looks_like_code(s) {
        match unfenced(ls, ls.len()) {
            Some(r) => Some(lines::trim(r)),
            None => Some(seq![]),
        }
    } else {
        None
    }
}

fn trimmed_part(s: &Vec<char>, from: usize, to: usize) -> (r: String)
    requires
        from <= to <= s@.len(),
    ensures
        r@ == code_between(s@, from as int, to as int),
{
    let inner = part(s, from, to);
    let v = trimmed(&inner);
    string_of(&v)
}

fn find_c_block(s: &Vec<char>) -> (r: Option<String>)
    ensures
        opt_view(r) == c_block(s@),
{
    proof {
        reveal_strlit("```c");
    }
    match find_from(s, "```c", 0) {
        Some(i) => match find_from(s, "```", i + 4) {
            Some(e) => Some(trimmed_part(s, i + 4, e)),
            None => None,
        },
        None => None,
    }
}

fn find_plain_block(s: &Vec<char>) -> (r: Option<String>)
    ensures
        opt_view(r) == plain_block(s@),
{
    proof {
        reveal_strlit("```");
        reveal_strlit("\n");
    }
    match find_from(s, "```", 0) {
        Some(i) => {
            let start: usize = match find_from(s, "\n", i + 3) {
                Some(n) => n + 1,
                None => i + 3,
            };
            match find_from(s, "```", start) {
                Some(e) => Some(trimmed_part(s, start, e)),
                None => None,
            }
        },
        None => None,
    }
}

fn drop_fences(list: &Vec<Vec<char>>) -> (r: Option<String>)
    ensures
        opt_view(r) == unfenced(lines::line_views(list@), list@.len()),
{
    let ghost ls = lines::line_views(list@);
    let mut r: Option<String> = None;
    let mut i: usize = 0;
    while i < list.len()
        invariant
            i <= list@.len(),
            ls == lines::line_views(list@),
            opt_view(r) == unfenced(ls, i as nat),
        decreases list@.len() - i,
    {
        assert(ls[i as int] == list@[i as int]@);
        let t = trimmed(&list[i]);
        if !starts(&t, "```") {
            r = match r {
                Some(mut held) => {
                    held.append("\n");
                    push_chars(&mut held, &list[i]);
                    Some(held)
                },
                None => Some(string_of(&list[i])),
            };
        }
        i = i + 1;
    }
    r
}

/// Extract a code block from an LLM response.
pub fn extract_code_block(response: &str) -> (r: Option<String>)
    ensures
        opt_view(r) == code_block(response@),
{
    let s = chars_of(response);
    let c = find_c_block(&s);
    if c.is_some() {
        return c;
    }
    let plain = find_plain_block(&s);
    if plain.is_some() {
        return plain;
    }
    if (holds_text(&s, "int") || holds_text(&s, "fn ")) && holds_text(&s, "{") {
        let list = split_lines(&s);
        match drop_fences(&list) {
            Some(text) => {
                let chars = chars_of(text.as_str());
                let v = trimmed(&chars);
                Some(string_of(&v))
            },
            None => Some(empty_string()),
        }
    } else {
        None
    }
}

/// The lines among the first `n` that are not blank.
pub open spec fn filled(ls: Seq<Seq<char>>, n: nat) -> Seq<Seq<char>>
    decreases n,
{
    if n == 0 {
        seq![]
    } else if lines::blank(ls[n - 1]) {
        filled(ls, (n - 1) as nat)
    } else {
        filled(ls, (n - 1) as nat).push(ls[n - 1])
    }
}

/// A one-line description of suggestions.
pub open spec fn summary(s: Seq<char>) -> Seq<char> {
    let all = lines::lines_from(s, 0);
    let ls = filled(all, all.len());
    if ls.len() == 0 {
        seq![]
    } else if ls.len() == 1 {
        ls[0]
    } else if ls.len() == 2 {
        ls[0] + "; "@ + ls[1]
    } else {
        text::dec(ls.len()) + " improvements applied"@
    }
}

/// Summarize suggestions to a one-line description.
pub fn summarize(suggestions: &str) -> (r: String)
    ensures
        r@ == summary(suggestions@),
{
    let chars = chars_of(suggestions);
    let list = split_lines(&chars);
    let ghost ls = lines::line_views(list@);
    let mut kept: Vec<Vec<char>> = Vec::new();
    assert(lines::line_views(kept@) =~= seq![]);
    let mut i: usize = 0;
    while i < list.len()
        invariant
            i <= list@.len(),
            ls == lines::line_views(list@),
            lines::line_views(kept@) == filled(ls, i as nat),
        decreases list@.len() - i,
    {
        assert(ls[i as int] == list@[i as int]@);
        let t = trimmed(&list[i]);
        if t.len() > 0 {
            let ghost was = lines::line_views(kept@);
            let copy = part(&list[i], 0, list[i].len());
            assert(copy@ =~= list@[i as int]@);
            let ghost view = copy@;
            kept.push(copy);
            assert(lines::line_views(kept@) =~= was.push(view));
        }
        i = i + 1;
    }
    let ghost views = lines::line_views(kept@);
    assert(views.len() == kept@.len());
    assert forall|k: int| 0 <= k < views.len() implies views[k] == kept@[k]@ by {}
    if kept.len() == 0 {
        empty_string()
    } else if kept.len() == 1 {
        string_of(&kept[0])
    } else if kept.len() == 2 {
        let mut r = string_of(&kept[0]);
        r.append("; ");
        push_chars(&mut r, &kept[1]);
        r
    } else {
        let mut r = text::dec_string(kept.len() as u64);
        r.append(" improvements applied");
        r
    }
}

/// How many bytes a character takes in UTF-8.
pub open spec fn byte_width(c: char) -> nat {
    if (c as u32) < 0x80 {
        1
    } else if (c as u32) < 0x800 {
        2
    } else if (c as u32) < 0x10000 {
        3
    } else {
        4
    }
}

/// How many bytes the first `n` characters take.
pub open spec fn byte_count(s: Seq<char>, n: nat) -> nat
    decreases n,
{
    if n == 0 {
        0
    } else {
        byte_count(s, (n - 1) as nat) + byte_width(s[n - 1])
    }
}

/// Whether improved code can be taken: it is not too short and looks like C.
pub open spec fn acceptable(code: Seq<char>) -> bool {
    byte_count(code, code.len()) > 20 && scan::contains(code, "int"@)
}

proof fn lemma_byte_count_grows(s: Seq<char>, n: nat, m: nat)
    requires
        n <= m,
    ensures
        byte_count(s, n) <= byte_count(s, m),
    decreases m,
{
    if n < m {
        lemma_byte_count_grows(s, n, (m - 1) as nat);
    }
}

fn is_acceptable(code: &str) -> (r: bool)
    ensures
        r == acceptable(code@),
{
    let s = chars_of(code);
    let mut bytes: u64 = 0;
    let mut i: usize = 0;
    while i < s.len() && bytes <= 20
        invariant
            i <= s@.len(),
            bytes == byte_count(s@, i as nat),
            bytes <= 24,
        decreases s@.len() - i,
    {
        let c: u32 = s[i] as u32;
        bytes = bytes + if c < 0x80 {
            1
        } else if c < 0x800 {
            2
        } else if c < 0x10000 {
            3
        } else {
            4
        };
        i = i + 1;
    }
    proof {
        lemma_byte_count_grows(s@, i as nat, s@.len());
    }
    bytes > 20 && holds_text(&s, "int")
}

/// Result of LLM refinement.
pub struct RefinementResult {
    pub refined_code: String,
    pub rounds_completed: usize,
    pub improvements: Vec<String>,
    pub raw_decompiler_output: String,
}

/// Whose turn it is.
#[derive(Debug, Clone, Copy, PartialEq, Eq, Structural)]
pub enum Stage {
    Referee,
    Advisor,
    Operator,
    Done,
}

/// A refinement under way.
#[derive(Debug)]
pub struct Refinement {
    /// The code as far as it was improved.
    pub code: String,
    /// What the roles are told of the code.
    pub context: String,
    /// The code that refinement started with.
    pub raw: String,
    /// What the referee said in this round.
    pub evaluation: String,
    /// What the advisor said in this round.
    pub suggestions: String,
    /// A line for each round that improved the code.
    pub improvements: Vec<String>,
    pub stage: Stage,
}

/// What a refinement under way is.
#[verifier::ext_equal]
pub struct Progress {
    pub code: Seq<char>,
    pub context: Seq<char>,
    pub raw: Seq<char>,
    pub evaluation: Seq<char>,
    pub suggestions: Seq<char>,
    pub improvements: Seq<Seq<char>>,
    pub stage: Stage,
}

impl View for Refinement {
    type V = Progress;

    open spec fn view(&self) -> Progress {
        Progress {
            code: self.code@,
            context: self.context@,
            raw: self.raw@,
            evaluation: self.evaluation@,
            suggestions: self.suggestions@,
            improvements: names::texts(self.improvements@),
            stage: self.stage,
        }
    }
}

impl Progress {
    /// Whether rounds are left while anybody has a turn.
    pub open spec fn wf(self) -> bool {
        self.improvements.len() <= 3 && (self.stage is Done || self.improvements.len() < 3)
    }

    /// The prompt of the one whose turn it is.
    pub open spec fn prompt(self) -> Option<Seq<char>> {
        match self.stage {
            Stage::Referee => Some(referee_prompt_text(self.context, self.code)),
            Stage::Advisor => Some(advisor_prompt_text(self.context, self.evaluation, self.code)),
            Stage::Operator => Some(
                operator_prompt_text(self.context, self.suggestions, self.code),
            ),
            Stage::Done => None,
        }
    }

    /// Whether a reply ends refinement with an error: the operator gave no code.
    pub open spec fn fails(self, reply: Seq<char>) -> bool {
        self.stage is Operator && code_block(reply) is None
    }

    /// The line for a round that improved the code.
    pub open spec fn round_line(self) -> Seq<char> {
        "Round "@ + text::dec(self.improvements.len() + 1) + ": "@ + summary(self.suggestions)
    }

    /// What a reply makes of a refinement.
    pub open spec fn after(self, reply: Seq<char>) -> Progress {
        match self.stage {
            Stage::Referee => Progress {
                evaluation: reply,
                stage: if scan::contains(reply, "NO_ISSUES_FOUND"@) || scan::contains(
                    reply,
                    "QUALITY: EXCELLENT"@,
                ) {
                    Stage::Done
                } else {
                    Stage::Advisor
                },
                ..self
            },
            Stage::Advisor => Progress { suggestions: reply, stage: Stage::Operator, ..self },
            Stage::Operator => match code_block(reply) {
                Some(improved) => if acceptable(improved) {
                    Progress {
                        code: improved,
                        improvements: self.improvements.push(self.round_line()),
                        stage: if self.improvements.len() + 1 < 3 {
                            Stage::Referee
                        } else {
                            Stage::Done
                        },
                        ..self
                    }
                } else {
                    Progress { stage: Stage::Done, ..self }
                },
                None => self,
            },
            Stage::Done => self,
        }
    }

    /// How many replies may still come.
    pub open spec fn replies_left(self) -> int {
        match self.stage {
            Stage::Referee => 3 * (3 - self.improvements.len()),
            Stage::Advisor => 3 * (3 - self.improvements.len()) - 1,
            Stage::Operator => 3 * (3 - self.improvements.len()) - 2,
            Stage::Done => 0,
        }
    }
}

impl Refinement {
    /// Start refining decompiled C code.
    pub fn start(c_code: &str, context: &str) -> (r: Self)
        ensures
            r@ == (Progress {
                code: c_code@,
                context: context@,
                raw: c_code@,
                evaluation: seq![],
                suggestions: seq![],
                improvements: seq![],
                stage: Stage::Referee,
            }),
            r@.wf(),
    {
        let r = Refinement {
            code: c_code.to_owned(),
            context: context.to_owned(),
            raw: c_code.to_owned(),
            evaluation: empty_string(),
            suggestions: empty_string(),
            improvements: Vec::new(),
            stage: Stage::Referee,
        };
        assert(r@ =~= Progress {
            code: c_code@,
            context: context@,
            raw: c_code@,
            evaluation: seq![],
            suggestions: seq![],
            improvements: seq![],
            stage: Stage::Referee,
        });
        r
    }

    /// The prompt to send next; none when refinement has ended.
    pub fn prompt(&self) -> (r: Option<String>)
        ensures
            opt_view(r) == self@.prompt(),
    {
        match self.stage {
            Stage::Referee => Some(referee_prompt(self.context.as_str(), self.code.as_str())),
            Stage::Advisor => Some(
                advisor_prompt(
                    self.context.as_str(),
                    self.evaluation.as_str(),
                    self.code.as_str(),
                ),
            ),
            Stage::Operator => Some(
                operator_prompt(
                    self.context.as_str(),
                    self.suggestions.as_str(),
                    self.code.as_str(),
                ),
            ),
            Stage::Done => None,
        }
    }

    /// Take a reply.
    pub fn reply(&mut self, reply: &str) -> (r: Result<(), String>)
        requires
            old(self)@.wf(),
        ensures
            final(self)@ == old(self)@.after(reply@),
            final(self)@.wf(),
            r is Err == old(self)@.fails(reply@),
            r is Err ==> r->Err_0@ == "Failed to extract code from LLM response"@,
    {
        let ghost before = self@;
        match self.stage {
            Stage::Referee => {
                let s = chars_of(reply);
                self.evaluation = reply.to_owned();
                if holds_text(&s, "NO_ISSUES_FOUND") || holds_text(&s, "QUALITY: EXCELLENT") {
                    self.stage = Stage::Done;
                } else {
                    self.stage = Stage::Advisor;
                }
                assert(self@ =~= before.after(reply@));
            },
            Stage::Advisor => {
                self.suggestions = reply.to_owned();
                self.stage = Stage::Operator;
                assert(self@ =~= before.after(reply@));
            },
            Stage::Operator => {
                let improved = match extract_code_block(reply) {
                    Some(code) => code,
                    None => {
                        return Err("Failed to extract code from LLM response".to_owned());
                    },
                };
                if is_acceptable(improved.as_str()) {
                    let count: usize = self.improvements.len();
                    let mut line = "Round ".to_owned();
                    push_dec(&mut line, count as u64 + 1);
                    line.append(": ");
                    line.append(summarize(self.suggestions.as_str()).as_str());
                    let ghost view = line@;
                    self.improvements.push(line);
                    assert(names::texts(self.improvements@) =~= before.improvements.push(view));
                    self.code = improved;
                    if count as u64 + 1 < MAX_ROUNDS {
                        self.stage = Stage::Referee;
                    } else {
                        self.stage = Stage::Done;
                    }
                } else {
                    self.stage = Stage::Done;
                }
                assert(self@ =~= before.after(reply@));
            },
            Stage::Done => {},
        }
        Ok(())
    }

    /// The result of a refinement.
    pub fn finish(self) -> (r: RefinementResult)
        ensures
            r.refined_code@ == self@.code,
            r.rounds_completed == self@.improvements.len(),
            names::texts(r.improvements@) == self@.improvements,
            r.raw_decompiler_output@ == self@.raw,
    {
        let rounds_completed: usize = self.improvements.len();
        RefinementResult {
            refined_code: self.code,
            rounds_completed,
            improvements: self.improvements,
            raw_decompiler_output: self.raw,
        }
    }
}

/// Refinement ends: each reply that is taken leaves fewer to come, and never more than
/// three rounds improve the code. The code that refinement started with stays.
pub proof fn law_refinement_ends(p: Progress, reply: Seq<char>)
    requires
        p.wf(),
        !(p.stage is Done),
        !p.fails(reply),
    ensures
        0 <= p.after(reply).replies_left() < p.replies_left() <= 9,
        p.after(reply).wf(),
        p.after(reply).raw == p.raw,
{
}

/// Code changes only together with a line that tells so.
pub proof fn law_code_changes_are_listed(p: Progress, reply: Seq<char>)
    ensures
        p.after(reply).improvements == p.improvements ==> p.after(reply).code == p.code,
        p.after(reply).improvements.len() <= p.improvements.len() + 1,
{
    assert(p.improvements.push(p.round_line()).len() == p.improvements.len() + 1);
}

/// The lines of an environment file, from `i` on: the first key that is not empty.
pub open spec fn key_from(ls: Seq<Seq<char>>, i: int) -> Option<Seq<char>>
    decreases ls.len() - i,
{
    if i < 0 || i >= ls.len() {
        None
    } else {
        match key_in_line(lines::trim(ls[i])) {
            Some(key) => Some(key),
            None => key_from(ls, i + 1),
        }
    }
}

/// `s` without any `c` at its start and at its end.
pub open spec fn unquoted(s: Seq<char>, c: char) -> Seq<char> {
    scan::without_ends(scan::without_starts(s, c), seq![c])
}

/// The key that a line sets, where it sets one.
pub open spec fn key_in_line(t: Seq<char>) -> Option<Seq<char>> {
    if scan::at(t, "OPENROUTER_API_KEY="@, 0) {
        let value = lines::trim(t.subrange(19, t.len() as int));
        let key = unquoted(unquoted(value, '"'), '\'');
        if key.len() > 0 {
            Some(key)
        } else {
            None
        }
    } else {
        None
    }
}

fn find_key_in_line(t: &Vec<char>) -> (r: Option<String>)
    ensures
        opt_view(r) == key_in_line(t@),
{
    proof {
        reveal_strlit("OPENROUTER_API_KEY=");
        reveal_strlit("\"");
        reveal_strlit("'");
        assert("\""@ =~= seq!['"']);
        assert("'"@ =~= seq!['\'']);
    }
    if !starts(t, "OPENROUTER_API_KEY=") {
        return None;
    }
    let rest = part(t, 19, t.len());
    let value = trimmed(&rest);
    let a = scan::strip_starts(&value, '"');
    let b = scan::strip_ends(&a, "\"");
    let c = scan::strip_starts(&b, '\'');
    let key = scan::strip_ends(&c, "'");
    if key.len() > 0 {
        Some(string_of(&key))
    } else {
        None
    }
}

/// Find the API key in the text of a `.env` file.
pub fn find_api_key(content: &str) -> (r: Option<String>)
    ensures
        opt_view(r) == key_from(lines::lines_from(content@, 0), 0),
{
    let chars = chars_of(content);
    let list = split_lines(&chars);
    let ghost ls = lines::line_views(list@);
    let mut i: usize = 0;
    while i < list.len()
        invariant
            i <= list@.len(),
            ls == lines::line_views(list@),
            ls == lines::lines_from(content@, 0),
            key_from(ls, 0) == key_from(ls, i as int),
        decreases list@.len() - i,
    {
        assert(ls[i as int] == list@[i as int]@);
        let t = trimmed(&list[i]);
        let key = find_key_in_line(&t);
        if key.is_some() {
            return key;
        }
        i = i + 1;
    }
    None
}

/// The first key that `.env` files set, from the `i`th file on.
pub open spec fn key_in_files(files: Seq<Seq<char>>, i: int) -> Option<Seq<char>>
    decreases files.len() - i,
{
    if i < 0 || i >= files.len() {
        None
    } else {
        match key_from(lines::lines_from(files[i], 0), 0) {
            Some(key) => Some(key),
            None => key_in_files(files, i + 1),
        }
    }
}

/// The key to use: that of the environment where it is not empty, else the first that a
/// file sets.
pub open spec fn chosen_key(variable: Option<Seq<char>>, files: Seq<Seq<char>>) -> Option<
    Seq<char>,
> {
    match variable {
        Some(key) if key.len() > 0 => Some(key),
        _ => key_in_files(files, 0),
    }
}

pub open spec fn str_view(s: Option<&str>) -> Option<Seq<char>> {
    match s {
        Some(t) => Some(t@),
        None => None,
    }
}

/// Choose the API key: `variable` is what the environment holds, and `files` are the texts
/// of the `.env` files, the nearest first.
pub fn get_api_key(variable: Option<&str>, files: &Vec<String>) -> (r: Result<String, String>)
    ensures
        match r {
            Ok(key) => chosen_key(str_view(variable), names::texts(files@)) == Some(key@),
            Err(message) => chosen_key(str_view(variable), names::texts(files@)) is None && message@
                == "OPENROUTER_API_KEY not found. Set it in environment or .env file."@,
        },
{
    if let Some(key) = variable {
        if !is_empty_text(key) {
            return Ok(key.to_owned());
        }
    }
    let ghost texts = names::texts(files@);
    let mut i: usize = 0;
    while i < files.len()
        invariant
            i <= files@.len(),
            texts == names::texts(files@),
            key_in_files(texts, 0) == key_in_files(texts, i as int),
            chosen_key(str_view(variable), texts) == key_in_files(texts, 0),
        decreases files@.len() - i,
    {
        assert(texts[i as int] == files@[i as int]@);
        if let Some(key) = find_api_key(files[i].as_str()) {
            return Ok(key);
        }
        i = i + 1;
    }
    Err("OPENROUTER_API_KEY not found. Set it in environment or .env file.".to_owned())
}

/// Check if the OpenRouter API is available (key is configured).
pub fn is_llm_available(variable: Option<&str>, files: &Vec<String>) -> (r: bool)
    ensures
        r == (chosen_key(str_view(variable), names::texts(files@)) is Some),
{
    get_api_key(variable, files).is_ok()
}

/// The message in the body of a response, or an error.
pub fn read_reply(body: &str) -> (r: Result<String, String>)
    ensures
        match r {
            Ok(reply) => content(body@) == Some(reply@),
            Err(message) => content(body@) is None && message@
                == "Failed to parse OpenRouter response: "@ + body@,
        },
{
    match extract_openrouter_content(body) {
        Some(reply) => Ok(reply),
        None => {
            let mut message = "Failed to parse OpenRouter response: ".to_owned();
            message.append(body);
            Err(message)
        },
    }
}

/// What a reply makes of pseudo-code: the code in it, or an error.
pub fn refine_pseudo_code(fn_name: &str, reply: &str) -> (r: Result<String, String>)
    ensures
        match r {
            Ok(code) => code_block(reply@) == Some(code@),
            Err(message) => code_block(reply@) is None && message@
                == "Failed to extract pseudo-code from LLM response for "@ + fn_name@,
        },
{
    match extract_code_block(reply) {
        Some(code) => Ok(code),
        None => {
            let mut message = "Failed to extract pseudo-code from LLM response for ".to_owned();
            message.append(fn_name);
            Err(message)
        },
    }
}

/// Escaping is undone by reading: an escaped text behind `"content":"` is read as the text
/// again, whatever stands behind its closing quote, and not at all without that quote.
pub proof fn law_escaping_is_undone(p: Seq<char>, t: Seq<char>)
    ensures
        content("\"content\":\""@ + escaped(p, p.len()) + "\""@ + t) == Some(p),
        content("\"content\":\""@ + escaped(p, p.len())) is None,
{
    reveal_strlit("\"");
    reveal_strlit("\"content\":\"");
    let marker = "\"content\":\""@;
    let open = marker + escaped(p, p.len());
    let whole = open + "\""@ + t;
    assert(whole.subrange(0, 11) =~= marker);
    assert(open.subrange(0, 11) =~= marker);
    assert(escaped(p, 0) =~= seq![]);
    assert(p.subrange(0, 0) =~= seq![]);
    lemma_read_back(p, whole, 11, 0);
    lemma_read_back(p, open, 11, 0);
    assert(p.subrange(0, p.len() as int) =~= p);
}

proof fn lemma_escaped_prefix(prompt: Seq<char>, n: nat, m: nat)
    requires
        n <= m <= prompt.len(),
    ensures
        escaped(prompt, n).len() <= escaped(prompt, m).len(),
        forall|k: int|
            0 <= k < escaped(prompt, n).len() ==> escaped(prompt, n)[k] == escaped(prompt, m)[k],
    decreases m,
{
    if n < m {
        lemma_escaped_prefix(prompt, n, (m - 1) as nat);
    }
}

/// The escaped text at `o` in `s` is read back from its `n`th character on.
proof fn lemma_read_back(prompt: Seq<char>, s: Seq<char>, o: int, n: nat)
    requires
        0 <= o,
        n <= prompt.len(),
        o + escaped(prompt, prompt.len()).len() <= s.len(),
        forall|k: int|
            0 <= k < escaped(prompt, prompt.len()).len() ==> s[o + k] == #[trigger] escaped(
                prompt,
                prompt.len(),
            )[k],
        o + escaped(prompt, prompt.len()).len() < s.len() ==> s[o + escaped(
            prompt,
            prompt.len(),
        ).len()] == '"',
    ensures
        unescaped(s, o + escaped(prompt, n).len(), prompt.subrange(0, n as int)) == if o + escaped(
            prompt,
            prompt.len(),
        ).len() < s.len() {
            Some(prompt.subrange(0, prompt.len() as int))
        } else {
            None
        },
    decreases prompt.len() - n,
{
    let i = o + escaped(prompt, n).len();
    if n < prompt.len() {
        let all = escaped(prompt, prompt.len());
        lemma_escaped_prefix(prompt, n + 1, prompt.len());
        lemma_read_back(prompt, s, o, n + 1);
        let c = prompt[n as int];
        let e = escaped_char(c);
        let m = escaped(prompt, n).len() as int;
        assert(escaped(prompt, n + 1) == escaped(prompt, n) + e);
        assert forall|k: int| 0 <= k < e.len() implies s[i + k] == e[k] by {
            assert(escaped(prompt, n + 1)[m + k] == e[k]);
            assert(s[o + (m + k)] == all[m + k]);
        }
        assert(s[i + 0] == e[0]);
        if e.len() == 2 {
            assert(s[i + 1] == e[1]);
        }
        let held = prompt.subrange(0, n as int);
        assert(prompt.subrange(0, n as int + 1) =~= held.push(c));
        assert(held + seq![c] =~= held.push(c));
    }
}


/// A request holds its prompt: what is read of the request is the prompt.
pub proof fn law_request_holds_prompt(prompt: Seq<char>)
    ensures
        content(request_text(prompt)) == Some(prompt),
{
    reveal_strlit("\"content\":\"");
    reveal_strlit(
        "{\"model\":\"google/gemini-3.1-flash-lite-preview\",\"messages\":[{\"role\":\"user\",\"content\":\"",
    );
    reveal_strlit("\"}]}");
    let start = REQUEST_START@;
    let marker = "\"content\":\""@;
    let s = request_text(prompt);
    assert(start.len() == 86);
    assert forall|x: int| 0 <= x < 75 implies !(#[trigger] start[x] == '"' && start[x + 1]
        == 'c') by {}
    assert forall|x: int| 0 <= x < 75 implies !scan::at(s, marker, x) by {
        if scan::at(s, marker, x) {
            assert(s.subrange(x, x + 11)[0] == marker[0]);
            assert(s.subrange(x, x + 11)[1] == marker[1]);
            assert(start[x] == s[x] && start[x + 1] == s[x + 1]);
        }
    }
    assert(s.subrange(75, 86) =~= marker);
    lemma_found_at(s, marker, 0, 75);
    assert(escaped(prompt, 0) =~= seq![]);
    assert(prompt.subrange(0, 0) =~= seq![]);
    lemma_read_back(prompt, s, 86, 0);
    assert(prompt.subrange(0, prompt.len() as int) =~= prompt);
}

proof fn lemma_found_at(s: Seq<char>, t: Seq<char>, i: int, k: int)
    requires
        0 <= i <= k,
        scan::at(s, t, k),
        forall|x: int| i <= x < k ==> !scan::at(s, t, x),
    ensures
        scan::find(s, t, i) == Some(k),
    decreases k - i,
{
    if i < k {
        lemma_found_at(s, t, i + 1, k);
    }
}

} // verus!
