//! Opcodes that are not known.

use crate::names;
use crate::pvm::Instruction;
use crate::text;
use crate::text::{empty_string, push_dec, push_hex_prefixed};
use vstd::prelude::*;

verus! {

/// How often an unknown opcode occurs among the first `n` instructions.
pub open spec fn unknown_count(code: Seq<(usize, Instruction)>, opcode: u8, n: nat) -> nat
    decreases n,
{
    if n == 0 {
        0
    } else {
        unknown_count(code, opcode, (n - 1) as nat) + match code[n - 1].1 {
            Instruction::Unknown { opcode: o, .. } => if o == opcode {
                1nat
            } else {
                0nat
            },
            _ => 0nat,
        }
    }
}

pub open spec fn warning_text(opcode: u8, count: nat) -> Seq<char> {
    "Unknown opcode "@ + text::hex_prefixed(opcode as nat, 2) + ": "@ + text::dec(count)
        + " occurrence(s)"@
}

/// A warning for each unknown opcode below `n` that occurs, by opcode.
pub open spec fn unknown_warnings(code: Seq<(usize, Instruction)>, n: nat) -> Seq<Seq<char>>
    decreases n,
{
    if n == 0 {
        seq![]
    } else {
        let rest = unknown_warnings(code, (n - 1) as nat);
        let count = unknown_count(code, (n - 1) as u8, code.len());
        if count > 0 {
            rest.push(warning_text((n - 1) as u8, count))
        } else {
            rest
        }
    }
}

fn count_unknown(code: &Vec<(usize, Instruction)>, opcode: u8) -> (r: u64)
    ensures
        r == unknown_count(code@, opcode, code@.len()),
{
    let mut r: u64 = 0;
    let mut i: usize = 0;
    while i < code.len()
        invariant
            i <= code@.len(),
            r == unknown_count(code@, opcode, i as nat),
            r <= i,
        decreases code@.len() - i,
    {
        if let Instruction::Unknown { opcode: o, .. } = &code[i].1 {
            if *o == opcode {
                r = r + 1;
            }
        }
        i = i + 1;
    }
    r
}

fn warning(opcode: u8, count: u64) -> (s: String)
    ensures
        s@ == warning_text(opcode, count as nat),
{
    let mut s = "Unknown opcode ".to_owned();
    push_hex_prefixed(&mut s, opcode as u64, 2);
    s.append(": ");
    push_dec(&mut s, count);
    s.append(" occurrence(s)");
    s
}

/// Warn of unknown opcodes.
pub(crate) fn warn_unknown(code: &Vec<(usize, Instruction)>) -> (list: Vec<String>)
    ensures
        names::texts(list@) == unknown_warnings(code@, 256),
{
    let mut list: Vec<String> = Vec::new();
    assert(names::texts(list@) =~= seq![]);
    let mut n: u16 = 0;
    while n < 256
        invariant
            n <= 256,
            names::texts(list@) == unknown_warnings(code@, n as nat),
        decreases 256 - n,
    {
        let ghost was = names::texts(list@);
        let count: u64 = count_unknown(code, n as u8);
        if count > 0 {
            let s = warning(n as u8, count);
            let ghost view = s@;
            list.push(s);
            assert(names::texts(list@) =~= was.push(view));
        }
        n = n + 1;
    }
    list
}

/// How many of the first `n` instructions are unknown.
pub open spec fn unknown_total(code: Seq<(usize, Instruction)>, n: nat) -> nat
    decreases n,
{
    if n == 0 {
        0
    } else {
        unknown_total(code, (n - 1) as nat) + if code[n - 1].1 is Unknown {
            1nat
        } else {
            0nat
        }
    }
}

pub open spec fn opcode_line(opcode: u8, count: nat) -> Seq<char> {
    "  opcode "@ + text::hex_prefixed(opcode as nat, 2) + ": "@ + text::dec(count)
        + " occurrence(s)\n"@
}

/// A line for each unknown opcode below `n` that occurs, by opcode.
pub open spec fn opcode_lines(code: Seq<(usize, Instruction)>, n: nat) -> Seq<char>
    decreases n,
{
    if n == 0 {
        seq![]
    } else {
        let count = unknown_count(code, (n - 1) as u8, code.len());
        opcode_lines(code, (n - 1) as nat) + if count > 0 {
            opcode_line((n - 1) as u8, count)
        } else {
            seq![]
        }
    }
}

/// A warning of all unknown instructions; empty where there are none.
pub open spec fn unknown_text(code: Seq<(usize, Instruction)>) -> Seq<char> {
    if unknown_total(code, code.len()) == 0 {
        seq![]
    } else {
        "Warning: "@ + text::dec(unknown_total(code, code.len()))
            + " unknown opcode(s) encountered:\n"@ + opcode_lines(code, 256) + "\n"@
    }
}

fn count_all_unknown(code: &Vec<(usize, Instruction)>) -> (r: u64)
    ensures
        r == unknown_total(code@, code@.len()),
{
    let mut r: u64 = 0;
    let mut i: usize = 0;
    while i < code.len()
        invariant
            i <= code@.len(),
            r == unknown_total(code@, i as nat),
            r <= i,
        decreases code@.len() - i,
    {
        if let Instruction::Unknown { .. } = &code[i].1 {
            r = r + 1;
        }
        i = i + 1;
    }
    r
}

fn write_opcode_line(opcode: u8, count: u64) -> (s: String)
    ensures
        s@ == opcode_line(opcode, count as nat),
{
    let mut s = "  opcode ".to_owned();
    push_hex_prefixed(&mut s, opcode as u64, 2);
    s.append(": ");
    push_dec(&mut s, count);
    s.append(" occurrence(s)\n");
    s
}

/// Warn of all unknown instructions at once.
pub fn write_unknown(code: &Vec<(usize, Instruction)>) -> (s: String)
    ensures
        s@ == unknown_text(code@),
{
    let total: u64 = count_all_unknown(code);
    if total == 0 {
        return empty_string();
    }
    let mut s = "Warning: ".to_owned();
    push_dec(&mut s, total);
    s.append(" unknown opcode(s) encountered:\n");
    let ghost head = s@;
    let mut n: u16 = 0;
    assert(head + seq![] =~= head);
    while n < 256
        invariant
            n <= 256,
            s@ == head + opcode_lines(code@, n as nat),
        decreases 256 - n,
    {
        let ghost was = opcode_lines(code@, n as nat);
        let count: u64 = count_unknown(code, n as u8);
        if count > 0 {
            let line = write_opcode_line(n as u8, count);
            s.append(line.as_str());
            assert(s@ =~= head + (was + line@));
        } else {
            assert(was + seq![] =~= was);
        }
        n = n + 1;
    }
    s.append("\n");
    s
}

} // verus!
