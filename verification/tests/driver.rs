use pvm_decompiler::cfg::{build_test_cfg, ControlFlowGraph};
use pvm_decompiler::dataflow::DataFlowAnalysis;
use pvm_decompiler::decoder::decode_blob;
use pvm_decompiler::driver::output::Survey;
use pvm_decompiler::driver::report::{write_cfg, write_overview};
use pvm_decompiler::driver::unknown::write_unknown;
use pvm_decompiler::functions::{detect_epilogues, CallSite, DirectCallPattern, Function};
use pvm_decompiler::names::NameMap;
use pvm_decompiler::pvm::Instruction;
use pvm_decompiler::{
    decompile_program, decompile_to_pseudocode, redundant_call_setup_pcs_for_function,
    redundant_halt_setup_pcs_for_function,
};
use std::collections::{BTreeMap, BTreeSet};
use wasm_pvm::pvm::Instruction as Code;
use wasm_pvm::{ProgramBlob, SpiProgram};

#[test]
fn test_redundant_call_setup_elimination_is_precise() {
    let cfg = build_test_cfg(
        0,
        vec![
            (
                0,
                vec![
                    (0, Instruction::LoadImm { reg: 9, value: 17 }),
                    (4, Instruction::LoadImm { reg: 7, value: 55 }),
                    (8, Instruction::LoadImm { reg: 6, value: 9 }),
                    (12, Instruction::LoadImm64 { reg: 0, value: 2 }),
                    (16, Instruction::Jump { offset: 84 }),
                ],
                vec![20],
            ),
            (
                20,
                vec![
                    (20, Instruction::Add32 { dst: 2, src1: 6, src2: 7 }),
                    (24, Instruction::Trap),
                ],
                vec![],
            ),
        ],
    );
    let dataflow = DataFlowAnalysis::analyze(&cfg);
    let patterns = vec![DirectCallPattern {
        caller_block_pc: 0,
        load_imm_pc: 12,
        jump_pc: 16,
        jump_target_pc: 100,
        return_pc: 20,
        callee_name: "callee".to_string(),
    }];
    let mut params = NameMap::new();
    params.insert("callee".to_string(), vec![7]);

    let eliminated = redundant_call_setup_pcs_for_function(&cfg, &dataflow, &patterns, &params);

    assert!(
        eliminated.contains(&0),
        "Non-param, non-live trampoline setup constant should be eliminated"
    );
    assert!(
        !eliminated.contains(&4),
        "Callee parameter setup constant must be preserved"
    );
    assert!(
        !eliminated.contains(&8),
        "Constant for register live after return must be preserved"
    );
    assert!(
        !eliminated.contains(&12),
        "r0 return-address setup must be left to call-pattern elimination"
    );
}

#[test]
fn test_redundant_halt_setup_elimination_is_precise() {
    let cfg = build_test_cfg(
        0,
        vec![(
            0,
            vec![
                (0, Instruction::LoadImm { reg: 4, value: 10 }),
                (4, Instruction::LoadImm { reg: 5, value: 1 }),
                (8, Instruction::Add32 { dst: 6, src1: 5, src2: 5 }),
                (12, Instruction::StoreIndU64 { base: 1, src: 4, offset: 0 }),
                (16, Instruction::LoadImm { reg: 7, value: 99 }),
                (20, Instruction::LoadImm { reg: 2, value: -0x10000 }),
                (24, Instruction::JumpInd { reg: 2, offset: 0 }),
            ],
            vec![],
        )],
    );

    let epilogues = detect_epilogues(&cfg);
    let eliminated = redundant_halt_setup_pcs_for_function(&cfg, &epilogues);

    assert!(
        !eliminated.contains(&0),
        "setup feeding a side-effecting store must be preserved"
    );
    assert!(
        eliminated.contains(&4) && eliminated.contains(&8),
        "dead pure setup chain should be eliminated"
    );
    assert!(
        !eliminated.contains(&12),
        "side-effecting store must be preserved"
    );
    assert!(
        eliminated.contains(&16),
        "dead pure setup after side effects should be eliminated"
    );
    assert!(
        !eliminated.contains(&20) && !eliminated.contains(&24),
        "halt epilogue instructions are handled by epilogue detection, not this pass"
    );
}

#[test]
fn test_decompile_to_pseudocode_invalid_input() {
    let result = decompile_to_pseudocode(&[0xFF, 0xFF, 0xFF]);
    // Should either succeed with warnings or fail with an error message
    // (not panic)
    let _ = result;
}

#[test]
fn test_decompile_to_pseudocode_empty_input() {
    let result = decompile_to_pseudocode(&[]);
    assert!(result.is_err());
}

/// 42 + 100, then a jump over a trap.
fn sample() -> ProgramBlob {
    ProgramBlob::new(vec![
        Code::LoadImm { reg: 0, value: 42 },
        Code::LoadImm { reg: 1, value: 100 },
        Code::Add32 { dst: 2, src1: 0, src2: 1 },
        Code::Jump { offset: 6 },
        Code::Trap,
        Code::Fallthrough,
    ])
}

#[test]
fn raw_blob_is_decompiled() {
    let out = decompile_to_pseudocode(&sample().encode()).unwrap();
    assert_eq!(out.function_count, out.functions.len());
    assert!(out.warnings.is_empty());
    let main = out.functions.iter().find(|f| f.name == "main").unwrap();
    assert_eq!(main.entry_pc, 0);
    assert_eq!(main.param_count, 0);
    assert!(out.pseudo_code.contains("fn main("), "{}", out.pseudo_code);
    assert!(out.pseudo_code.contains("142"), "{}", out.pseudo_code);
}

#[test]
fn spi_wrapped_blob_decompiles_alike() {
    let raw = decompile_to_pseudocode(&sample().encode()).unwrap();
    // The encoding starts with the length of the metadata, one byte here.
    let spi = decompile_to_pseudocode(&SpiProgram::new(sample()).encode()[1..]).unwrap();
    assert_eq!(raw.pseudo_code, spi.pseudo_code);
}

#[test]
fn metadata_does_not_change_the_output() {
    let plain = decompile_to_pseudocode(&SpiProgram::new(sample()).encode()[1..]).unwrap();
    let named = SpiProgram::new(sample()).with_metadata(b"program name".to_vec());
    let tagged = decompile_to_pseudocode(&named.encode()).unwrap();
    assert_eq!(plain.pseudo_code, tagged.pseudo_code);
}

#[test]
fn unknown_opcodes_are_listed() {
    // jump table of 0 entries, 1 byte each; 3 bytes of code, all marked
    let out = decompile_to_pseudocode(&[0, 1, 3, 255, 255, 0, 0b111]).unwrap();
    assert_eq!(out.warnings, vec!["Unknown opcode 0xff: 2 occurrence(s)".to_string()]);
}

#[test]
fn decoding_errors_are_reported() {
    let message = decompile_to_pseudocode(&[0]).unwrap_err();
    assert_eq!(message, "UnexpectedEof");
}

#[test]
fn verbose_run_tells_what_was_found() {
    let blob = ProgramBlob::new(vec![Code::LoadImm { reg: 7, value: 3 }, Code::Trap]);
    let program = decode_blob(&blob.encode()).unwrap();
    let cfg = ControlFlowGraph::build(&program);
    let survey = Survey::of(&program, &cfg);
    assert_eq!(
        survey.overview(),
        "\n=== Function Detection ===\nDetected 1 function(s):\n  main @ 0x0000 (1 blocks: [0])\n"
    );
    let quiet = survey.write(&program, 0, false);
    let verbose = survey.write(&program, 0, true);
    assert_eq!(quiet.summary, "");
    assert_eq!(quiet.pseudo_code, verbose.pseudo_code);
    assert!(verbose.summary.starts_with(
        "\n============================================================\n\
         === Function: main (entry @ 0x0000) ===\n\n"
    ));
    assert_eq!(
        decompile_program(&program).pseudo_code,
        format!("{}\n", quiet.pseudo_code)
    );
}

#[test]
fn calls_are_listed() {
    let functions = vec![
        Function {
            entry_pc: 0,
            block_pcs: BTreeSet::from([0, 4]),
            name: "main".to_string(),
        },
        Function {
            entry_pc: 16,
            block_pcs: BTreeSet::from([16]),
            name: "func_0".to_string(),
        },
    ];
    let graph = BTreeMap::from([(
        0,
        vec![CallSite {
            caller_block_pc: 4,
            callee_entry_pc: 16,
            callee_name: "func_0".to_string(),
        }],
    )]);
    let patterns = vec![DirectCallPattern {
        caller_block_pc: 4,
        load_imm_pc: 4,
        jump_pc: 8,
        jump_target_pc: 16,
        return_pc: 12,
        callee_name: "func_0".to_string(),
    }];
    assert_eq!(
        write_overview(&functions, &graph, &patterns),
        "\n=== Function Detection ===\nDetected 2 function(s):\n  \
         main @ 0x0000 (2 blocks: [0, 4])\n  \
         func_0 @ 0x0010 (1 blocks: [16])\n\
         \n=== Call Graph ===\n  main (block 0x0004) → func_0\n\
         \n=== Direct Call Patterns ===\n  \
         block 0x0004: call func_0 (jump to 0x0010, return to 0x000c)\n"
    );
}

#[test]
fn graph_is_written_block_by_block() {
    let cfg = build_test_cfg(
        0,
        vec![
            (0, vec![(0, Instruction::Fallthrough)], vec![1]),
            (1, vec![(1, Instruction::Trap)], vec![]),
        ],
    );
    let end = cfg.blocks[&0].end_pc;
    let last = cfg.blocks[&1].end_pc;
    let shown = BTreeMap::from([(0, "Fallthrough".to_string()), (1, "Trap".to_string())]);
    let mut out = "x\n".to_string();
    write_cfg(&cfg, &shown, &mut out);
    assert_eq!(
        out,
        format!(
            "x\nEntry PC: 0x0000\nNumber of blocks: 2\n\
             \nBlock @ 0x0000 - {:#06x}:\n    0x0000: Fallthrough\n  Successors: 0x0001\n\
             \nBlock @ 0x0001 - {:#06x}:\n    0x0001: Trap\n  Successors: (none)\n  \
             Predecessors: 0x0000\n",
            end, last
        )
    );
}

#[test]
fn unknown_opcodes_are_summed() {
    let unknown = |opcode: u8| Instruction::Unknown {
        opcode,
        raw_bytes: vec![opcode],
    };
    let code = vec![
        (0, unknown(0xfe)),
        (1, Instruction::Trap),
        (2, unknown(9)),
        (3, unknown(0xfe)),
    ];
    assert_eq!(
        write_unknown(&code),
        "Warning: 3 unknown opcode(s) encountered:\n  \
         opcode 0x09: 1 occurrence(s)\n  \
         opcode 0xfe: 2 occurrence(s)\n\n"
    );
    assert_eq!(write_unknown(&vec![(0, Instruction::Trap)]), "");
}
