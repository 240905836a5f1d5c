#![allow(unused_imports, unused_mut)]

use pvm_decompiler::cfg::{build_test_cfg, ControlFlowGraph};
use pvm_decompiler::dataflow::DataFlowAnalysis;
use pvm_decompiler::decoder::DecodedProgram;
use pvm_decompiler::lifting::LiftedProgram;
use pvm_decompiler::pvm::Instruction;
use pvm_decompiler::structuring::{
    DominatorTree, FunctionSignature, StructuralAnalysis, Structure,
};

fn empty_program() -> DecodedProgram {
    DecodedProgram {
        jump_table: vec![],
        instructions: vec![],
        code_len: 0,
        memory_base: None,
    }
}

// --- Dominator tree tests ---

#[test]
fn test_dominator_tree_linear() {
    // A -> B -> C
    let cfg = build_test_cfg(
        0,
        vec![
            (
                0,
                vec![(0, Instruction::LoadImm { reg: 0, value: 1 })],
                vec![10],
            ),
            (
                10,
                vec![(10, Instruction::LoadImm { reg: 1, value: 2 })],
                vec![20],
            ),
            (20, vec![(20, Instruction::Trap)], vec![]),
        ],
    );

    let dom = DominatorTree::compute(&cfg);

    assert!(dom.dominates(0, 0));
    assert!(dom.dominates(0, 10));
    assert!(dom.dominates(0, 20));
    assert!(dom.dominates(10, 20));
    assert!(!dom.dominates(20, 10));
    assert!(!dom.dominates(10, 0));
}

#[test]
fn test_dominator_tree_diamond() {
    //     0
    //    / \
    //  10   20
    //    \ /
    //     30
    let cfg = build_test_cfg(
        0,
        vec![
            (
                0,
                vec![(
                    0,
                    Instruction::BranchNeImm {
                        reg: 0,
                        value: 0,
                        offset: 10,
                    },
                )],
                vec![10, 20],
            ),
            (
                10,
                vec![(10, Instruction::LoadImm { reg: 1, value: 1 })],
                vec![30],
            ),
            (
                20,
                vec![(20, Instruction::LoadImm { reg: 1, value: 2 })],
                vec![30],
            ),
            (30, vec![(30, Instruction::Trap)], vec![]),
        ],
    );

    let dom = DominatorTree::compute(&cfg);

    assert!(dom.dominates(0, 10));
    assert!(dom.dominates(0, 20));
    assert!(dom.dominates(0, 30));
    // Neither 10 nor 20 dominates 30 (both paths reach 30)
    assert!(!dom.dominates(10, 30));
    assert!(!dom.dominates(20, 30));
}

#[test]
fn test_dominator_tree_with_loop() {
    // 0 -> 10 -> 20 -> 10 (back-edge)
    //             |
    //             v
    //            30
    let cfg = build_test_cfg(
        0,
        vec![
            (
                0,
                vec![(0, Instruction::LoadImm { reg: 0, value: 1 })],
                vec![10],
            ),
            (
                10,
                vec![(
                    10,
                    Instruction::BranchNeImm {
                        reg: 0,
                        value: 0,
                        offset: 10,
                    },
                )],
                vec![20, 30],
            ),
            (20, vec![(20, Instruction::Jump { offset: -10 })], vec![10]),
            (30, vec![(30, Instruction::Trap)], vec![]),
        ],
    );

    let dom = DominatorTree::compute(&cfg);

    assert!(dom.dominates(0, 10));
    assert!(dom.dominates(10, 20));
    assert!(dom.dominates(10, 30));
    // 20 does NOT dominate 10 (10 is reachable from 0 without going through 20)
    assert!(!dom.dominates(20, 10));
}

// --- Loop detection tests ---

#[test]
fn test_simple_loop_detection() {
    // 0 -> 10 -> 20 -> 10 (back-edge)
    //       |
    //       v
    //      30
    let cfg = build_test_cfg(
        0,
        vec![
            (
                0,
                vec![(0, Instruction::LoadImm { reg: 0, value: 1 })],
                vec![10],
            ),
            (
                10,
                vec![(
                    10,
                    Instruction::BranchNeImm {
                        reg: 0,
                        value: 0,
                        offset: 10,
                    },
                )],
                vec![20, 30],
            ),
            (20, vec![(20, Instruction::Jump { offset: -10 })], vec![10]),
            (30, vec![(30, Instruction::Trap)], vec![]),
        ],
    );

    let result = StructuralAnalysis::analyze(&cfg, &empty_program());

    let loops: Vec<&Structure> = result
        .structures
        .iter()
        .filter(|s| matches!(s, Structure::Loop { .. }))
        .collect();
    assert_eq!(loops.len(), 1);

    if let Structure::Loop {
        header,
        latch,
        body,
        ..
    } = loops[0]
    {
        assert_eq!(*header, 10);
        assert_eq!(*latch, 20);
        assert!(body.contains(&10));
        assert!(body.contains(&20));
        assert!(!body.contains(&0));
        assert!(!body.contains(&30));
    } else {
        panic!("Expected Loop");
    }
}

#[test]
fn test_nested_loops() {
    // 0 -> 10 -> 20 -> 30 -> 20 (inner back-edge)
    //       ^              |
    //       |              v
    //       +---- 40 <----+
    //             (outer back-edge: 40 -> 10)
    //       |
    //       v
    //      50
    let cfg = build_test_cfg(
        0,
        vec![
            (
                0,
                vec![(0, Instruction::LoadImm { reg: 0, value: 1 })],
                vec![10],
            ),
            (
                10,
                vec![(
                    10,
                    Instruction::BranchNeImm {
                        reg: 0,
                        value: 0,
                        offset: 10,
                    },
                )],
                vec![20, 50],
            ),
            (
                20,
                vec![(
                    20,
                    Instruction::BranchNeImm {
                        reg: 1,
                        value: 0,
                        offset: 10,
                    },
                )],
                vec![30, 40],
            ),
            (30, vec![(30, Instruction::Jump { offset: -10 })], vec![20]),
            (40, vec![(40, Instruction::Jump { offset: -30 })], vec![10]),
            (50, vec![(50, Instruction::Trap)], vec![]),
        ],
    );

    let result = StructuralAnalysis::analyze(&cfg, &empty_program());

    let loops: Vec<&Structure> = result
        .structures
        .iter()
        .filter(|s| matches!(s, Structure::Loop { .. }))
        .collect();
    assert_eq!(loops.len(), 2);

    // Inner loop: header=20, latch=30
    let inner = loops
        .iter()
        .find(|l| matches!(l, Structure::Loop { header: 20, .. }));
    assert!(inner.is_some(), "Inner loop at header=20 not found");

    // Outer loop: header=10, latch=40
    let outer = loops
        .iter()
        .find(|l| matches!(l, Structure::Loop { header: 10, .. }));
    assert!(outer.is_some(), "Outer loop at header=10 not found");
}

// --- If-then-else tests ---

#[test]
fn test_if_then_else_diamond() {
    //     0
    //    / \
    //  10   20
    //    \ /
    //     30
    let cfg = build_test_cfg(
        0,
        vec![
            (
                0,
                vec![(
                    0,
                    Instruction::BranchNeImm {
                        reg: 0,
                        value: 0,
                        offset: 10,
                    },
                )],
                vec![10, 20],
            ),
            (
                10,
                vec![(10, Instruction::LoadImm { reg: 1, value: 1 })],
                vec![30],
            ),
            (
                20,
                vec![(20, Instruction::LoadImm { reg: 1, value: 2 })],
                vec![30],
            ),
            (30, vec![(30, Instruction::Trap)], vec![]),
        ],
    );

    let result = StructuralAnalysis::analyze(&cfg, &empty_program());

    let ifs: Vec<&Structure> = result
        .structures
        .iter()
        .filter(|s| matches!(s, Structure::IfThenElse { .. }))
        .collect();
    assert_eq!(ifs.len(), 1);

    if let Structure::IfThenElse {
        header,
        then_blocks,
        else_blocks,
        join,
        condition,
    } = ifs[0]
    {
        assert_eq!(*header, 0);
        assert_eq!(then_blocks, &[10]);
        assert_eq!(else_blocks, &[20]);
        assert_eq!(*join, Some(30));
        assert!(condition.is_some());
    } else {
        panic!("Expected IfThenElse");
    }
}

#[test]
fn test_if_then_triangle() {
    //     0
    //    / \
    //  10   |
    //    \ /
    //     20
    let cfg = build_test_cfg(
        0,
        vec![
            (
                0,
                vec![(
                    0,
                    Instruction::BranchNeImm {
                        reg: 0,
                        value: 0,
                        offset: 10,
                    },
                )],
                vec![10, 20],
            ),
            (
                10,
                vec![(10, Instruction::LoadImm { reg: 1, value: 1 })],
                vec![20],
            ),
            (20, vec![(20, Instruction::Trap)], vec![]),
        ],
    );

    let result = StructuralAnalysis::analyze(&cfg, &empty_program());

    let ifs: Vec<&Structure> = result
        .structures
        .iter()
        .filter(|s| matches!(s, Structure::IfThenElse { .. }))
        .collect();
    assert_eq!(ifs.len(), 1);

    if let Structure::IfThenElse {
        then_blocks,
        else_blocks,
        join,
        ..
    } = ifs[0]
    {
        assert_eq!(then_blocks, &[10]);
        assert!(
            else_blocks.is_empty(),
            "Triangle should have no else blocks"
        );
        assert_eq!(*join, Some(20));
    } else {
        panic!("Expected IfThenElse");
    }
}

// --- Switch detection tests ---

#[test]
fn test_switch_detection() {
    let cfg = build_test_cfg(
        0,
        vec![(
            0,
            vec![(0, Instruction::JumpInd { reg: 3, offset: 0 })],
            vec![],
        )],
    );

    let program = DecodedProgram {
        jump_table: vec![100, 200, 100, 300],
        instructions: vec![(0, Instruction::JumpInd { reg: 3, offset: 0 })],
        code_len: 3,
        memory_base: None,
    };

    let result = StructuralAnalysis::analyze(&cfg, &program);

    let switches: Vec<&Structure> = result
        .structures
        .iter()
        .filter(|s| matches!(s, Structure::Switch { .. }))
        .collect();
    assert_eq!(switches.len(), 1);

    if let Structure::Switch { reg, cases, .. } = switches[0] {
        assert_eq!(*reg, 3);
        // Cases grouped by target: 100->[0,2], 200->[1], 300->[3]
        assert_eq!(cases.len(), 3);
        // Find the case for target 100
        let case_100 = cases.iter().find(|(_, t)| *t == 100).unwrap();
        assert!(case_100.0.contains(&0) && case_100.0.contains(&2));
    } else {
        panic!("Expected Switch");
    }
}

// --- Linear CFG (no structures) ---

#[test]
fn test_linear_no_structures() {
    let cfg = build_test_cfg(
        0,
        vec![
            (
                0,
                vec![(0, Instruction::LoadImm { reg: 0, value: 42 })],
                vec![10],
            ),
            (
                10,
                vec![(10, Instruction::LoadImm { reg: 1, value: 7 })],
                vec![20],
            ),
            (20, vec![(20, Instruction::Trap)], vec![]),
        ],
    );

    let result = StructuralAnalysis::analyze(&cfg, &empty_program());
    assert!(result.structures.is_empty());
}

// --- Pseudo-code output tests ---

#[test]
fn test_pseudo_code_simple_loop() {
    // 0 -> 10 -> 20 -> 10 (back-edge), 10 -> 30
    let cfg = build_test_cfg(
        0,
        vec![
            (
                0,
                vec![(0, Instruction::LoadImm { reg: 0, value: 42 })],
                vec![10],
            ),
            (
                10,
                vec![(
                    10,
                    Instruction::BranchNeImm {
                        reg: 3,
                        value: 0,
                        offset: 10,
                    },
                )],
                vec![20, 30],
            ),
            (
                20,
                vec![
                    (
                        20,
                        Instruction::Add32 {
                            dst: 2,
                            src1: 0,
                            src2: 1,
                        },
                    ),
                    (24, Instruction::Jump { offset: -14 }),
                ],
                vec![10],
            ),
            (30, vec![(30, Instruction::Trap)], vec![]),
        ],
    );

    let result = StructuralAnalysis::analyze(&cfg, &empty_program());
    let pseudo = result.pseudo_code(&cfg, None, None);

    assert!(
        pseudo.contains("while"),
        "Should contain 'while': {}",
        pseudo
    );
    assert!(
        pseudo.contains("r3 != 0"),
        "Should contain condition: {}",
        pseudo
    );
    assert!(
        pseudo.contains("r0 = 42"),
        "Should contain init: {}",
        pseudo
    );
}

#[test]
fn test_pseudo_code_if_else() {
    let cfg = build_test_cfg(
        0,
        vec![
            (
                0,
                vec![
                    (0, Instruction::LoadImm { reg: 0, value: 42 }),
                    (
                        4,
                        Instruction::BranchNeImm {
                            reg: 1,
                            value: 5,
                            offset: 10,
                        },
                    ),
                ],
                vec![10, 20],
            ),
            (
                10,
                vec![(10, Instruction::LoadImm { reg: 4, value: 99 })],
                vec![30],
            ),
            (
                20,
                vec![(20, Instruction::LoadImm { reg: 4, value: 0 })],
                vec![30],
            ),
            (30, vec![(30, Instruction::Trap)], vec![]),
        ],
    );

    let result = StructuralAnalysis::analyze(&cfg, &empty_program());
    let pseudo = result.pseudo_code(&cfg, None, None);

    assert!(pseudo.contains("if"), "Should contain 'if': {}", pseudo);
    assert!(
        pseudo.contains("r1 != 5"),
        "Should contain condition: {}",
        pseudo
    );
}

#[test]
fn test_pseudo_code_lifted_conditions() {

    // r0 = 42, branch on r0 != 5 → if-else
    let cfg = build_test_cfg(
        0,
        vec![
            (
                0,
                vec![
                    (0, Instruction::LoadImm { reg: 0, value: 42 }),
                    (
                        4,
                        Instruction::BranchNeImm {
                            reg: 0,
                            value: 5,
                            offset: 10,
                        },
                    ),
                ],
                vec![10, 20],
            ),
            (
                10,
                vec![(10, Instruction::LoadImm { reg: 4, value: 99 })],
                vec![30],
            ),
            (
                20,
                vec![(20, Instruction::LoadImm { reg: 4, value: 0 })],
                vec![30],
            ),
            (30, vec![(30, Instruction::Trap)], vec![]),
        ],
    );

    let dataflow = DataFlowAnalysis::analyze(&cfg);
    let mut lifted = LiftedProgram::analyze(&cfg, &dataflow);
    let result = StructuralAnalysis::analyze(&cfg, &empty_program());
    let pseudo = result.pseudo_code(&cfg, Some(&mut lifted), None);

    // The condition should use the lifted variable name, not raw register
    assert!(
        !pseudo.contains("r0 != 5"),
        "Should NOT contain raw register in condition: {}",
        pseudo
    );
    assert!(
        pseudo.contains("var_0 != 5") || pseudo.contains("42 != 5"),
        "Should contain lifted variable or constant in condition: {}",
        pseudo
    );
}

#[test]
fn test_lifted_condition_inlines_comparison() {

    // r2 = r0 <u r1 (SetLtU), then branch on r2 != 0 → should inline to "r0 <u r1"
    let cfg = build_test_cfg(
        0,
        vec![
            (
                0,
                vec![
                    (
                        0,
                        Instruction::SetLtU {
                            dst: 2,
                            src1: 0,
                            src2: 1,
                        },
                    ),
                    (
                        4,
                        Instruction::BranchNeImm {
                            reg: 2,
                            value: 0,
                            offset: 10,
                        },
                    ),
                ],
                vec![10, 20],
            ),
            (
                10,
                vec![(10, Instruction::LoadImm { reg: 4, value: 99 })],
                vec![30],
            ),
            (
                20,
                vec![(20, Instruction::LoadImm { reg: 4, value: 0 })],
                vec![30],
            ),
            (30, vec![(30, Instruction::Trap)], vec![]),
        ],
    );

    let dataflow = DataFlowAnalysis::analyze(&cfg);
    let mut lifted = LiftedProgram::analyze(&cfg, &dataflow);
    let result = StructuralAnalysis::analyze(&cfg, &empty_program());
    let pseudo = result.pseudo_code(&cfg, Some(&mut lifted), None);

    // Should inline the comparison, not show "cond_0 != 0"
    assert!(
        !pseudo.contains("!= 0"),
        "Should NOT contain 'cond != 0', should inline comparison: {}",
        pseudo
    );
    assert!(
        pseudo.contains("<u"),
        "Should contain inlined comparison operator: {}",
        pseudo
    );
}

#[test]
fn test_for_loop_detection() {

    // For-loop pattern:
    // block 0: r0 = 0 (init), fallthrough to header
    // block 10 (header): branch r0 != 10 → body (20) | exit (40)
    // block 20 (body): r1 = r1 + r0 (work), fallthrough to latch
    // block 30 (latch): r0 = r0 + 1 (step), jump to header
    // block 40: trap
    let cfg = build_test_cfg(
        0,
        vec![
            (
                0,
                vec![
                    (0, Instruction::LoadImm { reg: 0, value: 0 }),
                    (4, Instruction::Fallthrough),
                ],
                vec![10],
            ),
            (
                10,
                vec![(
                    10,
                    Instruction::BranchNeImm {
                        reg: 0,
                        value: 10,
                        offset: 10,
                    },
                )],
                vec![20, 40],
            ),
            (
                20,
                vec![
                    (
                        20,
                        Instruction::Add32 {
                            dst: 1,
                            src1: 1,
                            src2: 0,
                        },
                    ),
                    (24, Instruction::Fallthrough),
                ],
                vec![30],
            ),
            (
                30,
                vec![
                    (
                        30,
                        Instruction::AddImm32 {
                            dst: 0,
                            src: 0,
                            value: 1,
                        },
                    ),
                    (34, Instruction::Jump { offset: -24 }),
                ],
                vec![10],
            ),
            (40, vec![(40, Instruction::Trap)], vec![]),
        ],
    );

    let dataflow = DataFlowAnalysis::analyze(&cfg);
    let mut lifted = LiftedProgram::analyze(&cfg, &dataflow);
    let result = StructuralAnalysis::analyze(&cfg, &empty_program());
    let pseudo = result.pseudo_code(&cfg, Some(&mut lifted), None);

    assert!(
        pseudo.contains("for ("),
        "Should contain 'for (' for detected for-loop: {}",
        pseudo
    );
    assert!(
        !pseudo.contains("while"),
        "Should NOT contain 'while' when for-loop detected: {}",
        pseudo
    );
    // Check the for-header contains init and condition.
    // With deterministic var_at_use (smallest def PC wins), the init
    // variable (var_0 at PC 0) should be used consistently.
    assert!(
        pseudo.contains("var_0 = 0"),
        "For-header should contain init 'var_0 = 0': {}",
        pseudo
    );
    assert!(
        pseudo.contains("var_0 != 10"),
        "For-header should contain condition 'var_0 != 10': {}",
        pseudo
    );
    // After coalescing, the step should also use var_0 (not var_2 or similar)
    assert!(
        pseudo.contains("var_0 = var_0 + 1"),
        "For-header step should use coalesced name 'var_0 = var_0 + 1': {}",
        pseudo
    );
}

#[test]
fn test_while_loop_not_detected_as_for() {

    // While-loop pattern (no clear init or step for condition variable):
    // block 0: r1 = 42 (unrelated init), fallthrough to header
    // block 10 (header): branch r0 != 0 → body (20) | exit (30)
    // block 20 (body): r1 = r1 + 1, jump to header
    // block 30: trap
    //
    // r0 is the condition variable, but block 0 doesn't define r0,
    // and the latch (block 20) doesn't define r0 either.
    let cfg = build_test_cfg(
        0,
        vec![
            (
                0,
                vec![
                    (0, Instruction::LoadImm { reg: 1, value: 42 }),
                    (4, Instruction::Fallthrough),
                ],
                vec![10],
            ),
            (
                10,
                vec![(
                    10,
                    Instruction::BranchNeImm {
                        reg: 0,
                        value: 0,
                        offset: 10,
                    },
                )],
                vec![20, 30],
            ),
            (
                20,
                vec![
                    (
                        20,
                        Instruction::AddImm32 {
                            dst: 1,
                            src: 1,
                            value: 1,
                        },
                    ),
                    (24, Instruction::Jump { offset: -14 }),
                ],
                vec![10],
            ),
            (30, vec![(30, Instruction::Trap)], vec![]),
        ],
    );

    let dataflow = DataFlowAnalysis::analyze(&cfg);
    let mut lifted = LiftedProgram::analyze(&cfg, &dataflow);
    let result = StructuralAnalysis::analyze(&cfg, &empty_program());
    let pseudo = result.pseudo_code(&cfg, Some(&mut lifted), None);

    assert!(
        pseudo.contains("while"),
        "Should remain a while-loop when no for-pattern found: {}",
        pseudo
    );
    assert!(
        !pseudo.contains("for ("),
        "Should NOT contain 'for (' without init/step pattern: {}",
        pseudo
    );
}

#[test]
fn test_function_signature_in_pseudo_code() {

    // Function that uses r0 and r1 as parameters (live-in at entry):
    // block 0: r2 = r0 + r1, trap
    let cfg = build_test_cfg(
        0,
        vec![(
            0,
            vec![
                (
                    0,
                    Instruction::Add32 {
                        dst: 2,
                        src1: 0,
                        src2: 1,
                    },
                ),
                (4, Instruction::Trap),
            ],
            vec![],
        )],
    );

    let dataflow = DataFlowAnalysis::analyze(&cfg);
    let mut lifted = LiftedProgram::analyze(&cfg, &dataflow);

    // Compute params from live_in
    let mut params: Vec<u8> = dataflow
        .live_in
        .get(&0)
        .cloned()
        .unwrap_or_default()
        .into_iter()
        .collect();
    params.sort();

    let sig = FunctionSignature {
        name: "test_func".to_string(),
        params,
    };

    let result = StructuralAnalysis::analyze(&cfg, &empty_program());
    let pseudo = result.pseudo_code(&cfg, Some(&mut lifted), Some(&sig));

    assert!(
        pseudo.contains("fn test_func("),
        "Should contain function declaration: {}",
        pseudo
    );
    // Body should be indented
    assert!(
        pseudo.contains("    "),
        "Body should be indented: {}",
        pseudo
    );
    // Should end with closing brace
    assert!(
        pseudo.trim_end().ends_with('}'),
        "Should end with closing brace: {}",
        pseudo
    );
    // r0 and r1 should be listed as parameters
    assert!(
        pseudo.contains("r0") || pseudo.contains("var_"),
        "Should list parameters: {}",
        pseudo
    );
}

#[test]
fn test_function_signature_no_params() {
    // A function where no registers are live-in (self-contained)
    // block 0: r0 = 42, trap
    let cfg = build_test_cfg(
        0,
        vec![(
            0,
            vec![
                (0, Instruction::LoadImm { reg: 0, value: 42 }),
                (4, Instruction::Trap),
            ],
            vec![],
        )],
    );

    let sig = FunctionSignature {
        name: "no_params".to_string(),
        params: vec![],
    };

    let result = StructuralAnalysis::analyze(&cfg, &empty_program());
    let pseudo = result.pseudo_code(&cfg, None, Some(&sig));

    assert!(
        pseudo.starts_with("fn no_params() {"),
        "Should have empty param list: {}",
        pseudo
    );
    assert!(
        pseudo.trim_end().ends_with('}'),
        "Should end with closing brace: {}",
        pseudo
    );
}

#[test]
fn test_function_signature_with_loop() {

    // Function with a loop: verify indentation stacks (body inside loop inside fn)
    // block 0: r0 = 0 (init), branch to block 8
    // block 8: branch_ne r0 1 → exit (12), fallthrough to block 8 (back-edge)
    // block 12: trap
    let cfg = build_test_cfg(
        0,
        vec![
            (
                0,
                vec![
                    (0, Instruction::LoadImm { reg: 0, value: 0 }),
                    (4, Instruction::Jump { offset: 4 }),
                ],
                vec![8],
            ),
            (
                8,
                vec![(
                    8,
                    Instruction::BranchNeImm {
                        reg: 0,
                        value: 1,
                        offset: 4,
                    },
                )],
                vec![12, 8],
            ),
            (12, vec![(12, Instruction::Trap)], vec![]),
        ],
    );

    let dataflow = DataFlowAnalysis::analyze(&cfg);
    let mut lifted = LiftedProgram::analyze(&cfg, &dataflow);

    let sig = FunctionSignature {
        name: "loopy".to_string(),
        params: vec![],
    };

    let result = StructuralAnalysis::analyze(&cfg, &empty_program());
    let pseudo = result.pseudo_code(&cfg, Some(&mut lifted), Some(&sig));

    assert!(
        pseudo.starts_with("fn loopy() {"),
        "Should start with fn header: {}",
        pseudo
    );
    // While loop should be indented inside fn body
    assert!(
        pseudo.contains("    while"),
        "While should be indented inside fn: {}",
        pseudo
    );
    // Return should be indented inside fn body
    assert!(
        pseudo.contains("    return"),
        "Return should be indented inside fn: {}",
        pseudo
    );
    assert!(
        pseudo.trim_end().ends_with('}'),
        "Should end with closing brace: {}",
        pseudo
    );
}

#[test]
fn test_loop_with_latch_back_edge() {

    // Simple loop: header branches to exit or body, body loops back to header.
    // block 0 (header): branch_ne r0 0 → 12 (exit), fallthrough to 4 (body/latch)
    // block 4 (body): r0 += r1, jump to 0 (back-edge)
    // block 12: trap
    let cfg = build_test_cfg(
        0,
        vec![
            (
                0,
                vec![(
                    0,
                    Instruction::BranchNeImm {
                        reg: 0,
                        value: 0,
                        offset: 12,
                    },
                )],
                vec![12, 4],
            ),
            (
                4,
                vec![
                    (
                        4,
                        Instruction::Add32 {
                            dst: 0,
                            src1: 0,
                            src2: 1,
                        },
                    ),
                    (8, Instruction::Jump { offset: -8 }),
                ],
                vec![0],
            ),
            (12, vec![(12, Instruction::Trap)], vec![]),
        ],
    );

    let dataflow = DataFlowAnalysis::analyze(&cfg);
    let mut lifted = LiftedProgram::analyze(&cfg, &dataflow);
    let result = StructuralAnalysis::analyze(&cfg, &empty_program());
    let pseudo = result.pseudo_code(&cfg, Some(&mut lifted), None);

    // The body block jumps back to header (latch), no break here.
    // This is a normal while loop pattern.
    assert!(
        pseudo.contains("while"),
        "Should contain while loop: {}",
        pseudo
    );
}

#[test]
fn test_break_via_if_in_loop() {

    // Loop with conditional break:
    // block 0 (header): branch_ne r0 0 → 12 (exit), fallthrough to 4 (body)
    //   (condition: r0 != 0 → exit, so loop while r0 == 0... but body modifies r0)
    // block 4 (body1): r1 = r0, jump → 8
    // block 8 (body2/latch): back-edge to 0
    // block 12 (exit): trap
    //
    // In this structure, body1 has an if-then-else that targets exit → break.
    // Actually we need a structure where the structural analysis detects an if
    // inside the loop that branches to exit.
    //
    // Simpler: A body block that has 2 successors, one inside loop, one outside.
    // block 0 (header): branch r0 → 8 (exit), fallthrough to 4 (body)
    // block 4 (body): branch r1 → 8 (exit=break), fallthrough to 0 (header=continue)
    // block 8 (exit): trap
    let cfg = build_test_cfg(
        0,
        vec![
            (
                0,
                vec![(
                    0,
                    Instruction::BranchNeImm {
                        reg: 0,
                        value: 0,
                        offset: 8,
                    },
                )],
                vec![8, 4],
            ),
            (
                4,
                vec![(
                    4,
                    Instruction::BranchNeImm {
                        reg: 1,
                        value: 0,
                        offset: 4,
                    },
                )],
                vec![8, 0],
            ),
            (8, vec![(8, Instruction::Trap)], vec![]),
        ],
    );

    let dataflow = DataFlowAnalysis::analyze(&cfg);
    let mut lifted = LiftedProgram::analyze(&cfg, &dataflow);
    let result = StructuralAnalysis::analyze(&cfg, &empty_program());
    let pseudo = result.pseudo_code(&cfg, Some(&mut lifted), None);

    // Block 4 is inside the loop and has a conditional branch to exit (8).
    // The structural analysis should detect this as an if inside the loop,
    // or at minimum, the block should show break when it exits.
    assert!(
        pseudo.contains("while") || pseudo.contains("for"),
        "Should contain loop: {}",
        pseudo
    );
    // The pseudo-code should show "break" somewhere for the exit path
    assert!(
        pseudo.contains("break"),
        "Should contain break for loop exit: {}",
        pseudo
    );
}

#[test]
fn test_call_target_rendering() {

    // Block 0: load r0 = 1, then Jump to 0x100 (a known function entry)
    // Block 10: trap (fallthrough successor, won't be reached in practice)
    let cfg = build_test_cfg(
        0,
        vec![
            (
                0,
                vec![
                    (0, Instruction::LoadImm { reg: 0, value: 1 }),
                    (4, Instruction::Jump { offset: 0x100 - 4 }),
                ],
                vec![10],
            ),
            (10, vec![(10, Instruction::Trap)], vec![]),
        ],
    );

    let dataflow = DataFlowAnalysis::analyze(&cfg);
    let mut lifted = LiftedProgram::analyze(&cfg, &dataflow);
    // Register a call target: address 0x100 is "helper_func"
    lifted.call_targets.insert(0x100, "helper_func".to_string());

    let result = StructuralAnalysis::analyze(&cfg, &empty_program());
    let pseudo = result.pseudo_code(&cfg, Some(&mut lifted), None);

    assert!(
        pseudo.contains("helper_func()"),
        "Should render Jump to known function as call: {}",
        pseudo
    );
}

#[test]
fn structuring_test_empty_cfg() {
    let cfg = ControlFlowGraph::new(0);
    let result = StructuralAnalysis::analyze(&cfg, &empty_program());
    assert!(result.structures.is_empty());
    assert!(result.dom_tree.rpo.is_empty());
}

#[test]
fn branch_target_can_be_the_join() {
    // 0 branches over 10 to 20.
    let cfg = build_test_cfg(
        0,
        vec![
            (
                0,
                vec![(0, Instruction::BranchNeImm { reg: 0, value: 0, offset: 20 })],
                vec![20, 10],
            ),
            (10, vec![(10, Instruction::LoadImm { reg: 1, value: 1 })], vec![20]),
            (20, vec![(20, Instruction::LoadImm { reg: 2, value: 1 })], vec![30]),
            (30, vec![(30, Instruction::Trap)], vec![]),
        ],
    );
    let result = StructuralAnalysis::analyze(&cfg, &empty_program());
    assert_eq!(result.structures.len(), 1);
    match &result.structures[0] {
        Structure::IfThenElse { header, then_blocks, else_blocks, join, .. } => {
            assert_eq!(*header, 0);
            assert!(then_blocks.is_empty());
            assert_eq!(else_blocks, &[10]);
            assert_eq!(*join, Some(20));
        }
        _ => panic!("a branch"),
    }
}

#[test]
fn step_behind_other_code_has_the_name_of_the_init() {
    let cfg = build_test_cfg(
        0,
        vec![
            (
                0,
                vec![
                    (0, Instruction::LoadImm { reg: 0, value: 0 }),
                    (4, Instruction::Fallthrough),
                ],
                vec![10],
            ),
            (
                10,
                vec![(10, Instruction::BranchNeImm { reg: 0, value: 10, offset: 10 })],
                vec![20, 40],
            ),
            (
                20,
                vec![
                    (20, Instruction::Add32 { dst: 1, src1: 1, src2: 0 }),
                    (24, Instruction::AddImm32 { dst: 0, src: 0, value: 1 }),
                    (28, Instruction::Jump { offset: -18 }),
                ],
                vec![10],
            ),
            (40, vec![(40, Instruction::Trap)], vec![]),
        ],
    );
    let dataflow = DataFlowAnalysis::analyze(&cfg);
    let mut lifted = LiftedProgram::analyze(&cfg, &dataflow);
    let result = StructuralAnalysis::analyze(&cfg, &empty_program());
    let pseudo = result.pseudo_code(&cfg, Some(&mut lifted), None);
    assert!(pseudo.contains("for (let var_0 = 0; var_0 != 10; var_0 = var_0 + 1) {"), "{pseudo}");
}
