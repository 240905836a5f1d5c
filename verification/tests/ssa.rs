#![allow(unused_imports, unused_mut)]

use pvm_decompiler::cfg::build_test_cfg;
use pvm_decompiler::ir::ssa::{SsaProgram, SsaValueKind};
use pvm_decompiler::pvm::Instruction;
use pvm_decompiler::structuring::DominatorTree;

#[test]
fn test_ssa_build_creates_phi_on_merge() {
    let cfg = build_test_cfg(
        0,
        vec![
            (
                0,
                vec![(
                    0,
                    Instruction::BranchNeImm {
                        reg: 0,
                        value: 0,
                        offset: 10,
                    },
                )],
                vec![10, 20],
            ),
            (
                10,
                vec![
                    (10, Instruction::LoadImm { reg: 1, value: 1 }),
                    (14, Instruction::Jump { offset: 16 }),
                ],
                vec![30],
            ),
            (
                20,
                vec![
                    (20, Instruction::LoadImm { reg: 1, value: 2 }),
                    (24, Instruction::Jump { offset: 6 }),
                ],
                vec![30],
            ),
            (
                30,
                vec![
                    (
                        30,
                        Instruction::Add32 {
                            dst: 3,
                            src1: 1,
                            src2: 0,
                        },
                    ),
                    (34, Instruction::Trap),
                ],
                vec![],
            ),
        ],
    );

    let dom_tree = DominatorTree::compute(&cfg);
    let ssa = SsaProgram::build(&cfg, &dom_tree);

    let phi = ssa
        .phi_value_for_block_reg(30, 1)
        .expect("merge block should have phi for r1");
    assert_eq!(
        ssa.value_for_use_pc_reg(30, 1),
        Some(phi),
        "use of r1 in merge block should consume phi value"
    );

    let def_a = ssa
        .value_for_def_pc_reg(10, 1)
        .expect("def in then branch should exist");
    let def_b = ssa
        .value_for_def_pc_reg(20, 1)
        .expect("def in else branch should exist");
    let operands = &ssa.values[phi].operands;
    assert_eq!(operands.len(), 2, "phi should have two incoming operands");
    assert!(operands.contains(&def_a));
    assert!(operands.contains(&def_b));
}

#[test]
fn test_ssa_single_use_and_dominance_proof() {
    let cfg = build_test_cfg(
        0,
        vec![(
            0,
            vec![
                (0, Instruction::LoadImm { reg: 1, value: 7 }),
                (
                    4,
                    Instruction::Add32 {
                        dst: 2,
                        src1: 1,
                        src2: 0,
                    },
                ),
                (8, Instruction::Trap),
            ],
            vec![],
        )],
    );

    let dom_tree = DominatorTree::compute(&cfg);
    let ssa = SsaProgram::build(&cfg, &dom_tree);
    let value = ssa
        .value_for_def_pc_reg(0, 1)
        .expect("def at pc 0 for r1 should exist");
    assert_eq!(ssa.use_count(value), 1, "value should have one use");
    assert_eq!(
        ssa.single_instruction_use_pc(value),
        Some(4),
        "single use should be at pc 4"
    );
    assert!(
        ssa.value_definition_dominates_use_pc(value, 4, &dom_tree),
        "definition should dominate the use"
    );
}

#[test]
fn values_are_counted_by_their_uses() {
    let cfg = build_test_cfg(
        0,
        vec![
            (
                0,
                vec![
                    (0, Instruction::LoadImm { reg: 1, value: 1 }),
                    (3, Instruction::BranchNeImm { reg: 0, value: 0, offset: 7 }),
                ],
                vec![10, 20],
            ),
            (
                10,
                vec![
                    (10, Instruction::Add32 { dst: 2, src1: 1, src2: 1 }),
                    (14, Instruction::LoadImm { reg: 1, value: 2 }),
                ],
                vec![20],
            ),
            (20, vec![(20, Instruction::AddImm32 { dst: 3, src: 1, value: 1 })], vec![]),
        ],
    );
    let tree = DominatorTree::compute(&cfg);
    let ssa = SsaProgram::build(&cfg, &tree);
    let pcs = [0usize, 3, 10, 14, 20];
    let blocks = [0usize, 10, 20];
    for v in 0..ssa.values.len() {
        let mut n = 0;
        for pc in pcs {
            for r in 0..=12u8 {
                if ssa.value_for_use_pc_reg(pc, r) == Some(v) {
                    n += 1;
                }
            }
        }
        for b in blocks {
            for r in 0..=12u8 {
                if let Some(p) = ssa.phi_value_for_block_reg(b, r) {
                    if ssa.value_operands(p).unwrap().contains(&v) {
                        n += 1;
                    }
                }
            }
        }
        assert_eq!(ssa.use_count(v), n);
    }
    let first = ssa.value_for_def_pc_reg(0, 1).unwrap();
    assert_eq!(ssa.use_count(first), 2);
}

#[test]
fn definitions_have_values_of_their_own() {
    let cfg = build_test_cfg(
        0,
        vec![
            (0, vec![(0, Instruction::LoadImm { reg: 1, value: 1 })], vec![10]),
            (
                10,
                vec![
                    (10, Instruction::AddImm32 { dst: 1, src: 1, value: 1 }),
                    (14, Instruction::StoreIndU64 { base: 1, src: 2, offset: 0 }),
                ],
                vec![],
            ),
        ],
    );
    let tree = DominatorTree::compute(&cfg);
    let ssa = SsaProgram::build(&cfg, &tree);
    let a = ssa.value_for_def_pc_reg(0, 1).unwrap();
    let b = ssa.value_for_def_pc_reg(10, 1).unwrap();
    assert_ne!(a, b);
    assert_eq!(ssa.value_kind(a), Some(&SsaValueKind::Instr { pc: 0, reg: 1, block_pc: 0 }));
    assert_eq!(ssa.value_kind(b), Some(&SsaValueKind::Instr { pc: 10, reg: 1, block_pc: 10 }));
    for r in 0..=12u8 {
        assert_eq!(ssa.value_for_def_pc_reg(14, r), None);
        assert_eq!(ssa.value_for_def_pc_reg(10, r).is_some(), r == 1);
    }
}
