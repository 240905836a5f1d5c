#![allow(unused_imports, unused_mut)]

use pvm_decompiler::cfg::{build_test_cfg, BasicBlock, ControlFlowGraph};
use pvm_decompiler::decoder::DecodedProgram;
use pvm_decompiler::functions::Function;
use pvm_decompiler::llvm_lift::{emit_indirect_jump, lift_program};
use pvm_decompiler::pvm::Instruction;
use std::collections::BTreeSet;

fn test_program(memory_base: Option<u64>) -> DecodedProgram {
    DecodedProgram {
        jump_table: vec![],
        instructions: vec![],
        code_len: 0,
        memory_base,
    }
}

fn single_function(entry_pc: usize, block_pcs: &[usize]) -> Function {
    Function {
        name: "main".to_string(),
        entry_pc,
        block_pcs: block_pcs.iter().copied().collect(),
    }
}

#[test]
fn emit_indirect_jump_uses_unique_default_labels() {
    let program = DecodedProgram {
        jump_table: vec![0x10, 0x20],
        instructions: vec![],
        code_len: 0,
        memory_base: None,
    };
    let func_block_pcs: BTreeSet<usize> = [0x10usize, 0x20usize].into_iter().collect();

    let mut out = String::new();
    let mut tmp = 0;

    emit_indirect_jump(&mut out, "%r1", &program, &func_block_pcs, &mut tmp);
    emit_indirect_jump(&mut out, "%r2", &program, &func_block_pcs, &mut tmp);

    let mut labels: Vec<String> = out
        .lines()
        .filter_map(|line| line.strip_suffix(':'))
        .filter(|line| line.starts_with("sw_default_"))
        .map(|line| line.to_string())
        .collect();
    labels.sort();
    labels.dedup();

    assert_eq!(labels.len(), 2, "expected unique labels, got:\n{out}");
    for label in labels {
        assert_eq!(
            out.matches(&format!("label %{}", label)).count(),
            1,
            "switch should reference each default label once"
        );
        assert_eq!(
            out.matches(&format!("{}:", label)).count(),
            1,
            "each default label should be emitted once"
        );
    }
}

#[test]
fn lift_program_initializes_sp_in_r1() {
    let program = test_program(Some(0x50000));
    let cfg = build_test_cfg(0, vec![(0, vec![(0, Instruction::Trap)], vec![])]);
    let func = single_function(0, &[0]);

    let ir = lift_program(&program, &cfg, &[func]);

    assert!(
        ir.contains("store i64 327680, ptr %r1, align 8 ; SP = memory_base"),
        "SP must be initialized in r1: {ir}"
    );
    assert!(
        !ir.contains("ptr %r2, align 8 ; SP = memory_base"),
        "SP must not be initialized in r2: {ir}"
    );
}

#[test]
fn unknown_opcode_emits_single_terminator() {
    let program = test_program(None);
    let cfg = build_test_cfg(
        0,
        vec![(
            0,
            vec![(
                0,
                Instruction::Unknown {
                    opcode: 0xAB,
                    raw_bytes: vec![0xAB, 0x00],
                },
            )],
            vec![],
        )],
    );
    let func = single_function(0, &[0]);

    let ir = lift_program(&program, &cfg, &[func]);

    assert_eq!(
        ir.matches("call void @pvm_trap()").count(),
        1,
        "unknown opcode block should trap exactly once: {ir}"
    );
    assert_eq!(
        ir.matches("unreachable").count(),
        1,
        "unknown opcode block should emit a single unreachable terminator: {ir}"
    );
    assert!(
        !ir.contains("ret i64"),
        "unknown opcode block must not emit an additional return terminator: {ir}"
    );
}

#[test]
fn external_branch_exit_labels_are_emitted_once() {
    let program = test_program(None);
    let cfg = build_test_cfg(
        0,
        vec![
            (
                0,
                vec![(
                    0,
                    Instruction::BranchEqImm {
                        reg: 0,
                        value: 0,
                        offset: 0x200,
                    },
                )],
                vec![],
            ),
            (
                10,
                vec![(
                    10,
                    Instruction::BranchEqImm {
                        reg: 0,
                        value: 1,
                        offset: 0x1F6, // 10 + 0x1F6 = 0x200
                    },
                )],
                vec![],
            ),
        ],
    );
    let func = single_function(0, &[0, 10]);

    let ir = lift_program(&program, &cfg, &[func]);

    assert_eq!(
        ir.matches("bb_exit_0200:").count(),
        1,
        "duplicate external exit labels must be deduplicated: {ir}"
    );
}

#[test]
fn empty_block_with_external_successor_returns_r0() {
    let program = test_program(None);
    let mut cfg = ControlFlowGraph::new(0);
    cfg.add_block(BasicBlock {
        start_pc: 0,
        end_pc: 0,
        instructions: vec![],
        successors: vec![0x200],
        predecessors: vec![],
    });
    let func = single_function(0, &[0]);

    let ir = lift_program(&program, &cfg, &[func]);

    assert!(
        !ir.contains("br label %bb_0200"),
        "empty block should not branch to undefined in-function label: {ir}"
    );
    assert!(
        ir.contains("ret i64"),
        "empty block with external successor should fallback to return: {ir}"
    );
}
