#![allow(unused_imports, unused_mut)]

use pvm_decompiler::cfg::{build_test_cfg, ControlFlowGraph};
use pvm_decompiler::dataflow::DataFlowAnalysis;
use pvm_decompiler::decoder::DecodedProgram;
use pvm_decompiler::functions::{
    build_call_graph, build_function_cfg, detect_direct_call_patterns, detect_epilogues,
    detect_functions, detect_prologue, has_stack_prologue, EpilogueKind, Function,
};
use pvm_decompiler::lifting::LiftedProgram;
use pvm_decompiler::pvm::Instruction;
use pvm_decompiler::structuring::StructuralAnalysis;

#[test]
fn test_single_function() {
    // All blocks connected: one function.
    let cfg = build_test_cfg(
        0,
        vec![
            (
                0,
                vec![(0, Instruction::LoadImm { reg: 0, value: 1 })],
                vec![10],
            ),
            (10, vec![(10, Instruction::Trap)], vec![]),
        ],
    );

    let functions = detect_functions(&cfg);
    assert_eq!(functions.len(), 1);
    assert_eq!(functions[0].entry_pc, 0);
    assert_eq!(functions[0].name, "main");
    assert_eq!(functions[0].block_pcs.len(), 2);
}

#[test]
fn test_disconnected_components() {
    // Two disconnected components: blocks {0, 10} and {100, 110}.
    let cfg = build_test_cfg(
        0,
        vec![
            (
                0,
                vec![(0, Instruction::LoadImm { reg: 0, value: 1 })],
                vec![10],
            ),
            (10, vec![(10, Instruction::Trap)], vec![]),
            (
                100,
                vec![(100, Instruction::LoadImm { reg: 1, value: 2 })],
                vec![110],
            ),
            (110, vec![(110, Instruction::Trap)], vec![]),
        ],
    );

    let functions = detect_functions(&cfg);
    assert_eq!(functions.len(), 2, "Should detect 2 disconnected functions");

    let main_fn = functions.iter().find(|f| f.entry_pc == 0).unwrap();
    assert_eq!(main_fn.name, "main");
    assert!(main_fn.block_pcs.contains(&0));
    assert!(main_fn.block_pcs.contains(&10));

    let other_fn = functions.iter().find(|f| f.entry_pc == 100).unwrap();
    assert!(other_fn.name.starts_with("func_"));
    assert!(other_fn.block_pcs.contains(&100));
    assert!(other_fn.block_pcs.contains(&110));
}

#[test]
fn functions_test_empty_cfg() {
    let cfg = ControlFlowGraph::new(0);
    let functions = detect_functions(&cfg);
    assert!(functions.is_empty());
}

#[test]
fn test_build_function_cfg_filters_edges() {
    // Function with blocks {0, 10}, block 10 has a successor to block 100 (outside).
    let cfg = build_test_cfg(
        0,
        vec![
            (
                0,
                vec![(0, Instruction::LoadImm { reg: 0, value: 1 })],
                vec![10],
            ),
            (10, vec![(10, Instruction::Jump { offset: 90 })], vec![100]),
            (100, vec![(100, Instruction::Trap)], vec![]),
        ],
    );

    let function = Function {
        entry_pc: 0,
        name: "test".to_string(),
        block_pcs: [0, 10].into_iter().collect(),
    };

    let sub_cfg = build_function_cfg(&cfg, &function);
    assert_eq!(sub_cfg.blocks.len(), 2);
    assert_eq!(sub_cfg.entry_pc, 0);

    // Block 10's successor to 100 should be filtered out.
    let block_10 = sub_cfg.blocks.get(&10).unwrap();
    assert!(
        block_10.successors.is_empty(),
        "Successors outside function should be filtered"
    );
}

#[test]
fn test_prologue_detection() {
    // Block at PC 50 starts with sp = sp + (-16) => prologue.
    let cfg = build_test_cfg(
        0,
        vec![
            (
                0,
                vec![
                    (0, Instruction::LoadImm { reg: 0, value: 1 }),
                    (4, Instruction::Jump { offset: 46 }),
                ],
                vec![50],
            ),
            (
                50,
                vec![
                    (
                        50,
                        Instruction::AddImm64 {
                            dst: 2,
                            src: 2,
                            value: -16,
                        },
                    ),
                    (54, Instruction::Trap),
                ],
                vec![],
            ),
        ],
    );

    assert!(has_stack_prologue(&cfg, 50));
    assert!(!has_stack_prologue(&cfg, 0));
}

#[test]
fn test_three_disconnected_functions() {
    let cfg = build_test_cfg(
        0,
        vec![
            (0, vec![(0, Instruction::Trap)], vec![]),
            (50, vec![(50, Instruction::Trap)], vec![]),
            (100, vec![(100, Instruction::Trap)], vec![]),
        ],
    );

    let functions = detect_functions(&cfg);
    assert_eq!(functions.len(), 3);

    // Should be sorted by entry PC.
    assert_eq!(functions[0].entry_pc, 0);
    assert_eq!(functions[1].entry_pc, 50);
    assert_eq!(functions[2].entry_pc, 100);
}

/// Integration test: verify that per-function sub-CFGs can be analyzed
/// through the full pipeline (dataflow + lifting + structuring).
#[test]
fn test_per_function_pipeline() {

    // Two disconnected functions: {0,10} and {100,110}.
    let cfg = build_test_cfg(
        0,
        vec![
            (
                0,
                vec![
                    (0, Instruction::LoadImm { reg: 0, value: 42 }),
                    (
                        4,
                        Instruction::AddImm32 {
                            dst: 1,
                            src: 0,
                            value: 1,
                        },
                    ),
                ],
                vec![10],
            ),
            (10, vec![(10, Instruction::Trap)], vec![]),
            (
                100,
                vec![(100, Instruction::LoadImm { reg: 3, value: 7 })],
                vec![110],
            ),
            (110, vec![(110, Instruction::Trap)], vec![]),
        ],
    );

    let functions = detect_functions(&cfg);
    assert_eq!(functions.len(), 2);

    let program = DecodedProgram {
        jump_table: vec![],
        instructions: vec![],
        code_len: 0,
        memory_base: None,
    };

    // Each function should analyze without panic.
    for func in &functions {
        let func_cfg = build_function_cfg(&cfg, func);
        assert_eq!(func_cfg.entry_pc, func.entry_pc);
        assert_eq!(func_cfg.blocks.len(), func.block_pcs.len());

        let dataflow = DataFlowAnalysis::analyze(&func_cfg);
        let mut lifted = LiftedProgram::analyze(&func_cfg, &dataflow);
        let structural = StructuralAnalysis::analyze(&func_cfg, &program);
        let pseudo = structural.pseudo_code(&func_cfg, Some(&mut lifted), None);
        assert!(!pseudo.is_empty(), "Pseudo-code should not be empty");
    }
}

#[test]
fn test_build_call_graph() {
    // Build a CFG where block 10 (in func_0) has a successor edge to 0x100
    // (entry of func_1). We manually specify the function boundaries to
    // simulate what detect_functions + split_at_prologues would produce.
    let cfg = build_test_cfg(
        0,
        vec![
            // func_0: block at 0
            (
                0,
                vec![(0, Instruction::LoadImm { reg: 0, value: 1 })],
                vec![10],
            ),
            // func_0: block at 10, has a cross-function edge to 0x100
            (
                10,
                vec![(
                    10,
                    Instruction::Jump {
                        offset: 0x100_i32 - 10,
                    },
                )],
                vec![0x100],
            ),
            // func_1: entry block at 0x100
            (
                0x100,
                vec![(0x100, Instruction::LoadImm { reg: 1, value: 2 })],
                vec![0x110],
            ),
            // func_1: exit block
            (0x110, vec![(0x110, Instruction::Trap)], vec![]),
        ],
    );

    // Manually define function boundaries (simulating prologue-based split)
    let functions = vec![
        Function {
            entry_pc: 0,
            block_pcs: [0, 10].iter().copied().collect(),
            name: "main".to_string(),
        },
        Function {
            entry_pc: 0x100,
            block_pcs: [0x100, 0x110].iter().copied().collect(),
            name: "func_0".to_string(),
        },
    ];

    let program = DecodedProgram {
        jump_table: vec![],
        instructions: vec![],
        code_len: 0,
        memory_base: None,
    };
    let call_graph = build_call_graph(&cfg, &functions, &program);

    // main should have a call to func_0
    let calls = call_graph.get(&0usize);
    assert!(calls.is_some(), "main should have call sites");

    let calls = calls.unwrap();
    assert_eq!(calls.len(), 1, "main should call exactly one function");
    assert_eq!(calls[0].callee_entry_pc, 0x100);
    assert_eq!(calls[0].caller_block_pc, 10);
    assert_eq!(calls[0].callee_name, "func_0");

    // func_0 should have no outgoing calls
    assert!(
        call_graph.get(&0x100usize).is_none(),
        "func_0 should have no call sites"
    );
}

#[test]
fn test_detect_epilogue_return_pattern() {
    // Block with: restore r9, restore r0, sp += 40, JumpInd r0
    let cfg = build_test_cfg(
        0,
        vec![(
            0,
            vec![
                (0, Instruction::LoadImm { reg: 5, value: 42 }), // some instruction
                (
                    4,
                    Instruction::LoadIndU64 {
                        dst: 9,
                        base: 1,
                        offset: 8,
                    },
                ), // restore r9
                (
                    7,
                    Instruction::LoadIndU64 {
                        dst: 0,
                        base: 1,
                        offset: 0,
                    },
                ), // restore r0
                (
                    10,
                    Instruction::AddImm64 {
                        dst: 1,
                        src: 1,
                        value: 40,
                    },
                ), // sp += 40
                (13, Instruction::JumpInd { reg: 0, offset: 0 }), // return
            ],
            vec![],
        )],
    );

    let epilogues = detect_epilogues(&cfg);
    assert!(
        epilogues.contains_key(&0),
        "Block 0 should be a return epilogue"
    );
    assert!(
        matches!(epilogues[&0], EpilogueKind::Return { .. }),
        "Should be Return kind"
    );
    if let EpilogueKind::Return { ref eliminated_pcs } = epilogues[&0] {
        // Should eliminate: restore r0, sp +=, JumpInd, and r9 restore
        assert!(
            eliminated_pcs.contains(&7),
            "r0 restore should be eliminated"
        );
        assert!(
            eliminated_pcs.contains(&10),
            "sp adjust should be eliminated"
        );
        assert!(eliminated_pcs.contains(&13), "JumpInd should be eliminated");
        assert!(
            eliminated_pcs.contains(&4),
            "r9 restore should be eliminated"
        );
        assert!(
            !eliminated_pcs.contains(&0),
            "non-epilogue instruction should not be eliminated"
        );
    }
}

#[test]
fn test_detect_epilogue_halt_pattern() {
    // Block with: LoadImm r2 = -65536, JumpInd r2
    let cfg = build_test_cfg(
        0,
        vec![(
            0,
            vec![
                (0, Instruction::LoadImm { reg: 5, value: 42 }),
                (
                    4,
                    Instruction::LoadImm {
                        reg: 2,
                        value: -65536,
                    },
                ),
                (8, Instruction::JumpInd { reg: 2, offset: 0 }),
            ],
            vec![],
        )],
    );

    let epilogues = detect_epilogues(&cfg);
    assert!(
        epilogues.contains_key(&0),
        "Block 0 should be a halt epilogue"
    );
    assert!(
        matches!(epilogues[&0], EpilogueKind::Halt { .. }),
        "Should be Halt kind"
    );
    if let EpilogueKind::Halt { ref eliminated_pcs } = epilogues[&0] {
        assert!(eliminated_pcs.contains(&4), "LoadImm should be eliminated");
        assert!(eliminated_pcs.contains(&8), "JumpInd should be eliminated");
    }
}

#[test]
fn test_detect_epilogue_no_match() {
    // Block with JumpInd but not matching return or halt pattern
    let cfg = build_test_cfg(
        0,
        vec![(
            0,
            vec![
                (0, Instruction::LoadImm { reg: 5, value: 42 }),
                (4, Instruction::JumpInd { reg: 5, offset: 0 }),
            ],
            vec![],
        )],
    );

    let epilogues = detect_epilogues(&cfg);
    assert!(epilogues.is_empty(), "Should not detect epilogue");
}

#[test]
fn test_detect_prologue_stack_guard() {
    // Entry block with stack guard: LoadImm64 r2, AddImm64 r3 = r1 - N, BranchGeU r2 r3
    let cfg = build_test_cfg(
        0,
        vec![
            (
                0,
                vec![
                    (
                        0,
                        Instruction::LoadImm64 {
                            reg: 2,
                            value: 4277993472,
                        },
                    ),
                    (
                        10,
                        Instruction::AddImm64 {
                            dst: 3,
                            src: 1,
                            value: -40,
                        },
                    ),
                    (
                        14,
                        Instruction::BranchGeU {
                            reg1: 2,
                            reg2: 3,
                            offset: 10,
                        },
                    ),
                ],
                vec![20, 24],
            ),
            (20, vec![(20, Instruction::Trap)], vec![]),
            (
                24,
                vec![
                    (
                        24,
                        Instruction::AddImm64 {
                            dst: 1,
                            src: 1,
                            value: -40,
                        },
                    ),
                    (
                        28,
                        Instruction::StoreIndU64 {
                            base: 1,
                            src: 0,
                            offset: 0,
                        },
                    ),
                    (
                        31,
                        Instruction::StoreIndU64 {
                            base: 1,
                            src: 9,
                            offset: 8,
                        },
                    ),
                ],
                vec![],
            ),
        ],
    );

    let eliminated = detect_prologue(&cfg, 0);
    // Stack guard instructions
    assert!(eliminated.contains(&0), "LoadImm64 should be eliminated");
    assert!(eliminated.contains(&10), "AddImm64 should be eliminated");
    assert!(eliminated.contains(&14), "BranchGeU should be eliminated");
    // Frame allocation and register saves in successor block
    assert!(eliminated.contains(&24), "sp -= 40 should be eliminated");
    assert!(eliminated.contains(&28), "save r0 should be eliminated");
    assert!(eliminated.contains(&31), "save r9 should be eliminated");
}

#[test]
fn test_return_epilogue_excludes_from_call_graph() {
    // Block 0 jumps to block 10 (func_0 entry).
    // Block 20 is a return epilogue (JumpInd r0) — should NOT be a call site.
    let cfg = build_test_cfg(
        0,
        vec![
            (0, vec![(0, Instruction::Jump { offset: 10 })], vec![10]),
            (10, vec![(10, Instruction::Trap)], vec![]),
            (
                20,
                vec![
                    (
                        20,
                        Instruction::LoadIndU64 {
                            dst: 0,
                            base: 1,
                            offset: 0,
                        },
                    ),
                    (
                        23,
                        Instruction::AddImm64 {
                            dst: 1,
                            src: 1,
                            value: 40,
                        },
                    ),
                    (26, Instruction::JumpInd { reg: 0, offset: 0 }),
                ],
                vec![],
            ),
        ],
    );

    let functions = vec![
        Function {
            entry_pc: 0,
            block_pcs: [0, 20].iter().copied().collect(),
            name: "main".to_string(),
        },
        Function {
            entry_pc: 10,
            block_pcs: [10].iter().copied().collect(),
            name: "func_0".to_string(),
        },
    ];

    let program = DecodedProgram {
        jump_table: vec![10], // jump_table[0] = func_0 entry
        instructions: vec![],
        code_len: 0,
        memory_base: None,
    };
    let call_graph = build_call_graph(&cfg, &functions, &program);

    // main should call func_0 via direct Jump, but block 20 (epilogue) should NOT
    // generate an indirect call via jump table
    let main_calls = call_graph.get(&0usize);
    if let Some(calls) = main_calls {
        // Should only have the direct call from block 0, not from block 20
        assert!(
            !calls.iter().any(|c| c.caller_block_pc == 20),
            "Return epilogue block should not be a call site"
        );
    }
}

#[test]
fn test_build_call_graph_does_not_guess_jumpind_targets() {
    // Main has a JumpInd callsite and jump_table points at func_0 entry,
    // but without proof this must not become a concrete call edge.
    let cfg = build_test_cfg(
        0,
        vec![
            (
                0,
                vec![
                    (0, Instruction::LoadImm { reg: 5, value: 0x100 }),
                    (4, Instruction::JumpInd { reg: 5, offset: 0 }),
                ],
                vec![],
            ),
            (0x100, vec![(0x100, Instruction::Trap)], vec![]),
        ],
    );

    let functions = vec![
        Function {
            entry_pc: 0,
            block_pcs: [0].into_iter().collect(),
            name: "main".to_string(),
        },
        Function {
            entry_pc: 0x100,
            block_pcs: [0x100].into_iter().collect(),
            name: "func_0".to_string(),
        },
    ];

    let program = DecodedProgram {
        jump_table: vec![0x100],
        instructions: vec![],
        code_len: 0,
        memory_base: None,
    };
    let call_graph = build_call_graph(&cfg, &functions, &program);
    assert!(
        call_graph.get(&0usize).is_none(),
        "JumpInd should not be guessed to all jump-table function entries"
    );
}

#[test]
fn test_detect_direct_call_pattern() {
    // Build a program with:
    // Block 0: LoadImm64 r0, 2 + Jump to block 100 (callee entry)
    // Block 60: caller continuation (this is where jump_table[0] points = return point)
    // Jump table: [60] (so address 2 → index (2/2-1) = 0 → jump_table[0] = 60)
    //
    // Regression: the callee must come from jump_target (100), not return_pc (60).
    let program = DecodedProgram {
        instructions: vec![
            (0, Instruction::LoadImm64 { reg: 0, value: 2 }),
            (10, Instruction::Jump { offset: 90 }),
            (60, Instruction::Trap),
            (100, Instruction::Trap),
        ],
        jump_table: vec![60],
        code_len: 101,
        memory_base: None,
    };

    let cfg = build_test_cfg(
        0,
        vec![
            (
                0,
                vec![
                    (0, Instruction::LoadImm64 { reg: 0, value: 2 }),
                    (10, Instruction::Jump { offset: 90 }),
                ],
                vec![100],
            ),
            (60, vec![(60, Instruction::Trap)], vec![]),
            (100, vec![(100, Instruction::Trap)], vec![]),
        ],
    );

    let functions = vec![
        Function {
            entry_pc: 0,
            block_pcs: [0, 60].into_iter().collect(),
            name: "main".to_string(),
        },
        Function {
            entry_pc: 100,
            block_pcs: [100].into_iter().collect(),
            name: "func_1".to_string(),
        },
    ];

    let patterns = detect_direct_call_patterns(&cfg, &functions, &program);
    assert_eq!(patterns.len(), 1, "Should detect one call pattern");
    assert_eq!(patterns[0].caller_block_pc, 0);
    assert_eq!(patterns[0].jump_pc, 10);
    assert_eq!(patterns[0].jump_target_pc, 100);
    assert_eq!(patterns[0].return_pc, 60);
    assert_eq!(patterns[0].callee_name, "func_1");
    assert_eq!(patterns[0].load_imm_pc, 0);
}

#[test]
fn test_detect_direct_call_pattern_uses_return_entry_for_trampoline() {
    // Build a pattern where jump_target stays in the caller function
    // while return_pc points to another function entry.
    // This should still resolve to the return_pc function entry.
    let program = DecodedProgram {
        instructions: vec![
            (0, Instruction::LoadImm64 { reg: 0, value: 2 }),
            (10, Instruction::Jump { offset: 90 }),
            (50, Instruction::Trap),
            (100, Instruction::Trap),
        ],
        jump_table: vec![50],
        code_len: 101,
        memory_base: None,
    };

    let cfg = build_test_cfg(
        0,
        vec![
            (
                0,
                vec![
                    (0, Instruction::LoadImm64 { reg: 0, value: 2 }),
                    (10, Instruction::Jump { offset: 90 }),
                ],
                vec![100],
            ),
            (50, vec![(50, Instruction::Trap)], vec![]),
            (100, vec![(100, Instruction::Trap)], vec![]),
        ],
    );

    let functions = vec![
        Function {
            entry_pc: 0,
            block_pcs: [0, 100].into_iter().collect(),
            name: "main".to_string(),
        },
        Function {
            entry_pc: 50,
            block_pcs: [50].into_iter().collect(),
            name: "func_1".to_string(),
        },
    ];

    let patterns = detect_direct_call_patterns(&cfg, &functions, &program);
    assert_eq!(patterns.len(), 1, "Should resolve trampoline call");
    assert_eq!(patterns[0].jump_pc, 10);
    assert_eq!(patterns[0].jump_target_pc, 100);
    assert_eq!(patterns[0].return_pc, 50);
    assert_eq!(patterns[0].callee_name, "func_1");
}

#[test]
fn test_detect_direct_call_pattern_ignores_intra_function_jumps_without_external_entry() {
    let program = DecodedProgram {
        instructions: vec![
            (0, Instruction::LoadImm64 { reg: 0, value: 2 }),
            (10, Instruction::Jump { offset: 90 }),
            (60, Instruction::Trap),
            (100, Instruction::Trap),
        ],
        jump_table: vec![60],
        code_len: 101,
        memory_base: None,
    };

    let cfg = build_test_cfg(
        0,
        vec![
            (
                0,
                vec![
                    (0, Instruction::LoadImm64 { reg: 0, value: 2 }),
                    (10, Instruction::Jump { offset: 90 }),
                ],
                vec![100],
            ),
            (60, vec![(60, Instruction::Trap)], vec![]),
            (100, vec![(100, Instruction::Trap)], vec![]),
        ],
    );

    let functions = vec![Function {
        entry_pc: 0,
        block_pcs: [0, 60, 100].into_iter().collect(),
        name: "main".to_string(),
    }];

    let patterns = detect_direct_call_patterns(&cfg, &functions, &program);
    assert!(
        patterns.is_empty(),
        "Intra-function jump targets should not be treated as calls"
    );
}

#[test]
fn epilogue_restores_from_the_first_instruction_on() {
    let cfg = build_test_cfg(
        0,
        vec![(
            0,
            vec![
                (0, Instruction::LoadIndU64 { dst: 9, base: 1, offset: 8 }),
                (3, Instruction::LoadIndU64 { dst: 0, base: 1, offset: 0 }),
                (6, Instruction::AddImm64 { dst: 1, src: 1, value: 40 }),
                (9, Instruction::JumpInd { reg: 0, offset: 0 }),
            ],
            vec![],
        )],
    );
    let epilogues = detect_epilogues(&cfg);
    match &epilogues[&0] {
        EpilogueKind::Return { eliminated_pcs } => {
            let mut pcs = eliminated_pcs.clone();
            pcs.sort();
            assert_eq!(pcs, vec![0, 3, 6, 9]);
        }
        EpilogueKind::Halt { .. } => panic!("the block returns"),
    }
}

#[test]
fn prologue_adds_to_the_stack_pointer() {
    let block = |instr: Instruction| build_test_cfg(0, vec![(0, vec![(0, instr)], vec![])]);
    assert!(has_stack_prologue(&block(Instruction::AddImm64 { dst: 2, src: 2, value: -16 }), 0));
    assert!(has_stack_prologue(&block(Instruction::AddImm32 { dst: 2, src: 2, value: -16 }), 0));
    assert!(!has_stack_prologue(&block(Instruction::AndImm { dst: 2, src: 2, value: -16 }), 0));
    assert!(!has_stack_prologue(&block(Instruction::AddImm64 { dst: 2, src: 2, value: 16 }), 0));
    assert!(!has_stack_prologue(&block(Instruction::AddImm64 { dst: 2, src: 1, value: -16 }), 0));
    assert!(has_stack_prologue(
        &block(Instruction::StoreIndU64 { base: 2, src: 0, offset: 0 }),
        0
    ));
}
