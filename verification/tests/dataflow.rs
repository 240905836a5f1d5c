#![allow(unused_imports, unused_mut)]

use pvm_decompiler::cfg::build_test_cfg;
use pvm_decompiler::dataflow::{extract_def_use, DataFlowAnalysis};
use pvm_decompiler::pvm::Instruction;

#[test]
fn test_extract_def_use_add32() {
    let instr = Instruction::Add32 {
        dst: 3,
        src1: 1,
        src2: 2,
    };
    let (defs, uses) = extract_def_use(&instr);
    assert_eq!(defs, vec![3]);
    assert_eq!(uses, vec![1, 2]);
}

#[test]
fn test_extract_def_use_load_imm() {
    let instr = Instruction::LoadImm { reg: 5, value: 42 };
    let (defs, uses) = extract_def_use(&instr);
    assert_eq!(defs, vec![5]);
    assert!(uses.is_empty());
}

#[test]
fn test_extract_def_use_store() {
    let instr = Instruction::StoreIndU64 {
        base: 1,
        src: 4,
        offset: 0,
    };
    let (defs, uses) = extract_def_use(&instr);
    assert!(defs.is_empty());
    assert_eq!(uses, vec![1, 4]);
}

#[test]
fn test_extract_def_use_branch() {
    let instr = Instruction::BranchNeImm {
        reg: 2,
        value: 0,
        offset: 10,
    };
    let (defs, uses) = extract_def_use(&instr);
    assert!(defs.is_empty());
    assert_eq!(uses, vec![2]);
}

#[test]
fn test_extract_def_use_ecalli() {
    let instr = Instruction::Ecalli { index: 7 };
    let (defs, uses) = extract_def_use(&instr);
    let all_regs: Vec<u8> = (0..=12).collect();
    assert_eq!(defs, all_regs);
    assert_eq!(uses, all_regs);
}

#[test]
fn chains_stand_at_their_definitions() {
    let cfg = build_test_cfg(
        0,
        vec![(
            0,
            vec![
                (0, Instruction::LoadImm { reg: 1, value: 7 }),
                (4, Instruction::AddImm32 { dst: 2, src: 1, value: 1 }),
                (8, Instruction::StoreIndU64 { base: 2, src: 1, offset: 0 }),
            ],
            vec![],
        )],
    );
    let df = DataFlowAnalysis::analyze(&cfg);
    let keys: Vec<usize> = df.chains.keys().copied().collect();
    assert_eq!(keys, vec![0, 4]);
    assert_eq!(df.chains[&0].len(), 1);
    assert_eq!(df.chains[&0][0].definition.pc, 0);
    assert_eq!(df.chains[&0][0].definition.reg, 1);
    let used: Vec<usize> = df.chains[&0][0].uses.iter().map(|u| u.pc).collect();
    assert_eq!(used, vec![4, 8]);
    let used: Vec<usize> = df.chains[&4][0].uses.iter().map(|u| u.pc).collect();
    assert_eq!(used, vec![8]);
}

#[test]
fn definition_of_two_registers_has_two_chains() {
    let cfg = build_test_cfg(0, vec![(0, vec![(0, Instruction::Ecalli { index: 1 })], vec![])]);
    let df = DataFlowAnalysis::analyze(&cfg);
    let regs: Vec<u8> = df.chains[&0].iter().map(|c| c.definition.reg).collect();
    assert_eq!(regs, (0..=12).collect::<Vec<u8>>());
}

#[test]
fn use_is_reached_round_a_self_loop() {
    // The sum at 0 is read by the comparison at 4 and, round the loop, by itself.
    let cfg = build_test_cfg(
        0,
        vec![
            (
                0,
                vec![
                    (0, Instruction::AddImm32 { dst: 1, src: 1, value: 1 }),
                    (4, Instruction::BranchNeImm { reg: 1, value: 9, offset: -4 }),
                ],
                vec![0, 8],
            ),
            (8, vec![(8, Instruction::Trap)], vec![]),
        ],
    );
    let df = DataFlowAnalysis::analyze(&cfg);
    let mut used: Vec<usize> = df.chains[&0][0].uses.iter().map(|u| u.pc).collect();
    used.sort();
    assert_eq!(used, vec![0, 4]);
}

#[test]
fn use_round_a_self_loop_ends_at_a_new_definition() {
    // The value loaded at 4 is read at 0 of the next round and replaced there.
    let cfg = build_test_cfg(
        0,
        vec![(
            0,
            vec![
                (0, Instruction::AddImm32 { dst: 1, src: 1, value: 1 }),
                (4, Instruction::LoadImm { reg: 1, value: 3 }),
                (8, Instruction::Jump { offset: -8 }),
            ],
            vec![0],
        )],
    );
    let df = DataFlowAnalysis::analyze(&cfg);
    assert!(df.chains[&0][0].uses.is_empty());
    let used: Vec<usize> = df.chains[&4][0].uses.iter().map(|u| u.pc).collect();
    assert_eq!(used, vec![0]);
}

#[test]
fn liveness_reaches_through_long_chains() {
    // The value of register 5 is read in the last block only; the blocks are entered in an
    // order against their program counters.
    let n = 60usize;
    let mut blocks = Vec::new();
    for k in 0..n {
        let pc = (n - 1 - k) * 10;
        let next = if k + 1 < n { vec![pc - 10] } else { vec![] };
        let code = if k + 1 < n {
            vec![(pc, Instruction::LoadImm { reg: 1, value: 0 })]
        } else {
            vec![(pc, Instruction::AddImm32 { dst: 2, src: 5, value: 1 })]
        };
        blocks.push((pc, code, next));
    }
    let cfg = build_test_cfg((n - 1) * 10, blocks);
    let df = DataFlowAnalysis::analyze(&cfg);
    for k in 0..n {
        assert!(df.live_in[&(k * 10)].contains(&5));
        assert!(!df.live_in[&(k * 10)].contains(&1));
        assert_eq!(df.live_out[&(k * 10)].contains(&5), k > 0);
    }
}
