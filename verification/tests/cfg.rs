#![allow(unused_imports, unused_mut)]

use pvm_decompiler::cfg::ControlFlowGraph;
use pvm_decompiler::decoder::DecodedProgram;
use pvm_decompiler::pvm::Instruction;

#[test]
fn test_build_linear_cfg() {
    // A -> B -> C (via Jump)
    let program = DecodedProgram {
        jump_table: vec![],
        instructions: vec![
            (0, Instruction::LoadImm { reg: 0, value: 1 }),
            (4, Instruction::Jump { offset: 4 }),
            (9, Instruction::LoadImm { reg: 1, value: 2 }),
            (13, Instruction::Trap),
        ],
        code_len: 14,
        memory_base: None,
    };
    let cfg = ControlFlowGraph::build(&program);

    // Should have blocks starting at: 0 (entry), 9 (after jump)
    assert!(cfg.blocks.contains_key(&0));
    assert!(cfg.blocks.contains_key(&9));
}

#[test]
fn test_build_branch_cfg() {
    // Block 0: branch -> targets at 7 and fallthrough at 7 too (or wherever)
    let program = DecodedProgram {
        jump_table: vec![],
        instructions: vec![
            (0, Instruction::LoadImm { reg: 0, value: 42 }),
            (
                4,
                Instruction::BranchNeImm {
                    reg: 0,
                    value: 0,
                    offset: 10,
                },
            ),
            (10, Instruction::LoadImm { reg: 1, value: 1 }),
            (14, Instruction::Trap),
        ],
        code_len: 15,
        memory_base: None,
    };
    let cfg = ControlFlowGraph::build(&program);

    // Entry block at 0, branch target at 14 (4+10), fallthrough at 10
    assert!(cfg.blocks.contains_key(&0));
    assert!(cfg.blocks.contains_key(&10));

    // The block at 0 should have 2 successors (branch target and fallthrough)
    let entry = cfg.blocks.get(&0).unwrap();
    assert_eq!(
        entry.successors.len(),
        2,
        "Branch should produce 2 successors, got: {:?}",
        entry.successors
    );
}

#[test]
fn test_predecessors_computed() {
    let program = DecodedProgram {
        jump_table: vec![],
        instructions: vec![
            (0, Instruction::LoadImm { reg: 0, value: 1 }),
            (
                4,
                Instruction::BranchNeImm {
                    reg: 0,
                    value: 0,
                    offset: 10,
                },
            ),
            (10, Instruction::LoadImm { reg: 1, value: 2 }),
            (14, Instruction::Trap),
        ],
        code_len: 15,
        memory_base: None,
    };
    let cfg = ControlFlowGraph::build(&program);

    // Block at 10 should have block 0 as predecessor
    let block_10 = cfg.blocks.get(&10).unwrap();
    assert!(
        block_10.predecessors.contains(&0),
        "Block 10 should have 0 as predecessor"
    );
}

#[test]
fn test_empty_program() {
    let program = DecodedProgram {
        jump_table: vec![],
        instructions: vec![],
        code_len: 0,
        memory_base: None,
    };
    let cfg = ControlFlowGraph::build(&program);
    assert!(cfg.blocks.is_empty());
}

#[test]
fn test_compute_jump_target() {
    assert_eq!(ControlFlowGraph::compute_jump_target(10, 5), 15);
    assert_eq!(ControlFlowGraph::compute_jump_target(10, -3), 7);
    assert_eq!(ControlFlowGraph::compute_jump_target(10, 0), 10);
    // Saturating: doesn't underflow
    assert_eq!(ControlFlowGraph::compute_jump_target(2, -100), 0);
}

#[test]
fn test_trap_terminates_block() {
    let program = DecodedProgram {
        jump_table: vec![],
        instructions: vec![
            (0, Instruction::LoadImm { reg: 0, value: 1 }),
            (4, Instruction::Trap),
            (5, Instruction::LoadImm { reg: 1, value: 2 }),
        ],
        code_len: 9,
        memory_base: None,
    };
    let cfg = ControlFlowGraph::build(&program);

    // Block containing trap should have no successors
    let entry = cfg.blocks.get(&0).unwrap();
    assert!(
        entry.successors.is_empty(),
        "Trap block should have no successors"
    );
}

#[test]
fn test_last_block_end_pc_uses_code_len() {
    // Instructions at PC 0 (4 bytes) and PC 4 (5 bytes) => code_len = 9
    let program = DecodedProgram {
        jump_table: vec![],
        instructions: vec![
            (0, Instruction::LoadImm { reg: 0, value: 1 }),
            (4, Instruction::Jump { offset: -4 }),
        ],
        code_len: 9,
        memory_base: None,
    };
    let cfg = ControlFlowGraph::build(&program);

    // The block containing the Jump should have end_pc = 9 (code_len), not 5 (pc + 1)
    let block = cfg.blocks.get(&0).unwrap();
    assert_eq!(block.end_pc, 9, "Last block end_pc should equal code_len");
}
