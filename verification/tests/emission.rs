//! Pseudo-code of epilogues, calls and blocks that are left out.

use pvm_decompiler::cfg::{build_test_cfg, ControlFlowGraph};
use pvm_decompiler::decoder::DecodedProgram;
use pvm_decompiler::decompile_program;
use pvm_decompiler::functions::EpilogueKind;
use pvm_decompiler::lifting::{Expression, LiftedProgram};
use pvm_decompiler::pvm::Instruction;
use pvm_decompiler::structuring::StructuralAnalysis;

fn program(jump_table: Vec<u32>, instructions: Vec<(usize, Instruction)>) -> DecodedProgram {
    let code_len = instructions.last().map_or(0, |(pc, _)| pc + 1);
    DecodedProgram {
        jump_table,
        instructions,
        code_len,
        memory_base: None,
    }
}

fn write(cfg: &ControlFlowGraph, jump_table: Vec<u32>, mut lifted: LiftedProgram) -> String {
    StructuralAnalysis::analyze(cfg, &program(jump_table, vec![])).pseudo_code(
        cfg,
        Some(&mut lifted),
        None,
    )
}

/// Two blocks, each with a line of its own.
fn two_blocks() -> (ControlFlowGraph, LiftedProgram) {
    let cfg = build_test_cfg(
        0,
        vec![
            (0, vec![(0, Instruction::Ecalli { index: 1 })], vec![8]),
            (8, vec![(8, Instruction::Ecalli { index: 2 })], vec![]),
        ],
    );
    let mut lifted = LiftedProgram::new();
    lifted.expressions.insert(0, Expression::Raw("first".to_string()));
    lifted.expressions.insert(8, Expression::Raw("second".to_string()));
    (cfg, lifted)
}

#[test]
fn halting_program_ends_in_halt() {
    let out = decompile_program(&program(
        vec![],
        vec![
            (0, Instruction::LoadImm { reg: 0, value: -65536 }),
            (4, Instruction::JumpInd { reg: 0, offset: 0 }),
        ],
    ));
    assert_eq!(out.pseudo_code, "fn main() {\n    halt()\n}\n\n");
}

#[test]
fn returning_function_ends_in_return() {
    let out = decompile_program(&program(
        vec![0],
        vec![
            (0, Instruction::LoadIndU64 { dst: 0, base: 1, offset: 0 }),
            (4, Instruction::AddImm64 { dst: 1, src: 1, value: 16 }),
            (8, Instruction::JumpInd { reg: 0, offset: 0 }),
        ],
    ));
    assert!(out.pseudo_code.contains("    return\n}"), "{}", out.pseudo_code);
    assert!(!out.pseudo_code.contains("switch"), "{}", out.pseudo_code);
}

#[test]
fn blocks_are_written_in_order() {
    let (cfg, lifted) = two_blocks();
    assert_eq!(
        write(&cfg, vec![], lifted),
        "=== Pseudo-Code ===\n\nfirst\n\nsecond\n\n"
    );
}

#[test]
fn suppressed_blocks_are_left_out() {
    let (cfg, mut lifted) = two_blocks();
    lifted.suppressed_blocks.insert(0);
    assert_eq!(write(&cfg, vec![], lifted), "=== Pseudo-Code ===\n\nsecond\n\n");
}

#[test]
fn epilogue_stands_behind_the_rest_of_its_block() {
    let (cfg, mut lifted) = two_blocks();
    lifted.epilogue_blocks.insert(
        8,
        EpilogueKind::Halt {
            eliminated_pcs: vec![],
        },
    );
    assert_eq!(
        write(&cfg, vec![], lifted),
        "=== Pseudo-Code ===\n\nfirst\n\nsecond\nhalt()\n\n"
    );
}

#[test]
fn calls_have_arguments() {
    let cfg = build_test_cfg(
        0,
        vec![(0, vec![(0, Instruction::Jump { offset: 0x100 })], vec![])],
    );
    let call = |direct: bool| {
        let mut lifted = LiftedProgram::new();
        lifted.call_targets.insert(0x100, "helper".to_string());
        lifted.call_param_regs.insert("helper".to_string(), vec![7, 8]);
        lifted.var_at_use.insert((0, 7), "var_3".to_string());
        if direct {
            lifted.direct_call_sites.insert(0, "exact".to_string());
        }
        write(&cfg, vec![], lifted)
    };
    assert_eq!(call(false), "=== Pseudo-Code ===\n\nhelper(var_3, r8)\n\n");
    assert_eq!(call(true), "=== Pseudo-Code ===\n\nexact()\n\n");
}

#[test]
fn hidden_labels_are_left_out() {
    let cfg = build_test_cfg(
        0,
        vec![
            (0, vec![(0, Instruction::JumpInd { reg: 3, offset: 0 })], vec![]),
            (8, vec![(8, Instruction::Ecalli { index: 2 })], vec![]),
        ],
    );
    let target = |hide: bool| {
        let mut lifted = LiftedProgram::new();
        lifted.expressions.insert(8, Expression::Raw("second".to_string()));
        if hide {
            lifted.hidden_labels.insert(8);
        }
        write(&cfg, vec![8], lifted)
    };
    assert!(target(false).ends_with("block_0008:\nsecond\n\n"), "{}", target(false));
    assert!(!target(true).contains("block_0008:"), "{}", target(true));
    assert!(target(true).ends_with("}\n\nsecond\n\n"), "{}", target(true));
}
