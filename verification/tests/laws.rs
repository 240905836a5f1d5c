//! What holds of analyses, on chosen programs.

use pvm_decompiler::cfg::{build_test_cfg, ControlFlowGraph};
use pvm_decompiler::dataflow::DataFlowAnalysis;
use pvm_decompiler::decoder::{decode_blob, decode_spi, try_strip_metadata, DecodeError};
use pvm_decompiler::functions::detect_functions;
use pvm_decompiler::instruction::{BinOp, BitWidth, InstructionShape, MemWidth, UnaryOp};
use pvm_decompiler::lifting::expr::{at_least_deep, uses_name};
use pvm_decompiler::lifting::{
    format_expression, simplify_expression, Expression, FormatContext, LiftedProgram,
};
use pvm_decompiler::llm_refine::{read_reply, request_body};
use pvm_decompiler::llvm_lift::lift_program;
use pvm_decompiler::pvm::Instruction;
use pvm_decompiler::structuring::lines::fix_blank_lines;
use pvm_decompiler::structuring::{DominatorTree, StructuralAnalysis, Structure};
use pvm_decompiler::varint::decode_var_u32;
use pvm_decompiler::{expr_uses_var, unsuppress_blocks_with_live_incoming_edges};
use wasm_pvm::pvm::Instruction as Code;
use wasm_pvm::ProgramBlob;

/// A loop from 10 to 20 and back, left for 30.
fn looping() -> ControlFlowGraph {
    build_test_cfg(
        0,
        vec![
            (0, vec![(0, Instruction::LoadImm { reg: 0, value: 0 })], vec![10]),
            (
                10,
                vec![(10, Instruction::BranchEqImm { reg: 0, value: 5, offset: 20 })],
                vec![30, 20],
            ),
            (
                20,
                vec![
                    (20, Instruction::AddImm32 { dst: 0, src: 0, value: 1 }),
                    (24, Instruction::Jump { offset: -14 }),
                ],
                vec![10],
            ),
            (30, vec![(30, Instruction::Trap)], vec![]),
        ],
    )
}

#[test]
fn predecessors_mirror_successors() {
    let cfg = looping();
    for (pc, block) in &cfg.blocks {
        for s in &block.successors {
            assert!(cfg.blocks[s].predecessors.contains(pc));
        }
        for p in &block.predecessors {
            assert!(cfg.blocks[p].successors.contains(pc));
        }
    }
}

#[test]
fn program_counters_increase() {
    let blob = ProgramBlob::new(vec![
        Code::LoadImm { reg: 0, value: 1 },
        Code::Add32 { dst: 1, src1: 0, src2: 0 },
        Code::Trap,
    ])
    .with_jump_table(vec![0, 3]);
    let program = decode_blob(&blob.encode()).unwrap();
    assert_eq!(program.jump_table, vec![0, 3]);
    assert_eq!(program.instructions.len(), 3);
    for pair in program.instructions.windows(2) {
        assert!(pair[0].0 < pair[1].0);
    }
    assert!(program.instructions[2].0 < program.code_len);
}

#[test]
fn decoding_errors() {
    assert_eq!(decode_blob(&[]).unwrap_err(), DecodeError::InvalidVarInt);
    assert_eq!(decode_blob(&[0]).unwrap_err(), DecodeError::UnexpectedEof);
    assert_eq!(
        decode_blob(&[1, 200, 0]).unwrap_err(),
        DecodeError::UnsupportedJumpTableEntrySize(200)
    );
    assert_eq!(decode_spi(&[1, 2, 3]).unwrap_err(), DecodeError::UnexpectedEof);
    assert_eq!(DecodeError::InvalidOpcode(9).message(), "InvalidOpcode(9)");
    assert_eq!(
        DecodeError::UnsupportedJumpTableEntrySize(9).message(),
        "UnsupportedJumpTableEntrySize(9)"
    );
}

#[test]
fn metadata_prefix_is_stripped() {
    let mut data = vec![5u8];
    data.extend(b"hello");
    data.extend([1, 2, 3]);
    assert_eq!(try_strip_metadata(&data).unwrap(), &[1, 2, 3]);
    // not printable
    assert_eq!(try_strip_metadata(&[2, 1, 1, 9]).unwrap(), &[2, 1, 1, 9]);
}

#[test]
fn variable_length_numbers() {
    assert_eq!(decode_var_u32(&[]), None);
    assert_eq!(decode_var_u32(&[5]), Some((5, 1)));
    assert_eq!(decode_var_u32(&[0x80, 0x80]), Some((128, 2)));
}

#[test]
fn entry_dominates_all_reachable_blocks() {
    let cfg = looping();
    let tree = DominatorTree::compute(&cfg);
    for pc in [0, 10, 20, 30] {
        assert!(tree.dominates(0, pc));
    }
    assert!(tree.dominates(10, 20));
    assert!(!tree.dominates(20, 30));
}

#[test]
fn loop_holds_header_and_latch() {
    let cfg = looping();
    let analysis = StructuralAnalysis::analyze(
        &cfg,
        &decode_blob(&ProgramBlob::new(vec![Code::Trap]).encode()).unwrap(),
    );
    let body = analysis
        .structures
        .iter()
        .find_map(|s| match s {
            Structure::Loop { header: 10, latch: 20, body, .. } => Some(body),
            _ => None,
        })
        .unwrap();
    assert!(body.contains(&10) && body.contains(&20) && !body.contains(&30));
}

#[test]
fn liveness_follows_uses() {
    let cfg = looping();
    let df = DataFlowAnalysis::analyze(&cfg);
    assert!(df.live_in[&10].contains(&0));
    assert!(df.live_out[&20].contains(&0));
    assert!(!df.live_in[&0].contains(&0));
    assert!(df.live_in[&30].is_empty());
}

#[test]
fn functions_share_no_block() {
    let cfg = build_test_cfg(
        0,
        vec![
            (0, vec![(0, Instruction::Jump { offset: 10 })], vec![10]),
            (10, vec![(10, Instruction::StoreIndU64 { base: 2, src: 0, offset: 0 })], vec![20]),
            (20, vec![(20, Instruction::Trap)], vec![]),
            (50, vec![(50, Instruction::Trap)], vec![]),
        ],
    );
    let functions = detect_functions(&cfg);
    let entries: Vec<usize> = functions.iter().map(|f| f.entry_pc).collect();
    assert_eq!(entries, vec![0, 10, 50]);
    let names: Vec<&str> = functions.iter().map(|f| f.name.as_str()).collect();
    assert_eq!(names, vec!["main", "func_0", "func_1"]);
    for (i, a) in functions.iter().enumerate() {
        assert!(a.block_pcs.contains(&a.entry_pc));
        for b in &functions[i + 1..] {
            assert!(a.block_pcs.is_disjoint(&b.block_pcs));
        }
    }
}

#[test]
fn simplification_keeps_the_value() {
    // 2 + 3 * 1 and !(0 <u x)
    let sum = Expression::BinOp {
        op: BinOp::Add,
        lhs: Box::new(Expression::Const(2)),
        rhs: Box::new(Expression::BinOp {
            op: BinOp::Mul,
            lhs: Box::new(Expression::Const(3)),
            rhs: Box::new(Expression::Const(1)),
        }),
    };
    let ctx = FormatContext::new(None);
    assert_eq!(format_expression(&simplify_expression(sum), &ctx), "5");
    let negated = Expression::UnaryOp {
        op: UnaryOp::Not,
        operand: Box::new(Expression::BinOp {
            op: BinOp::GtU,
            lhs: Box::new(Expression::Var("x".to_string())),
            rhs: Box::new(Expression::Const(7)),
        }),
    };
    assert_eq!(format_expression(&simplify_expression(negated), &ctx), "x <=u 7");
}

#[test]
fn coalesced_name_is_gone() {
    let mut lifted = LiftedProgram::new();
    lifted.expressions.insert(4, Expression::Var("old".to_string()));
    lifted.coalesce_variable("old", "new");
    assert!(!expr_uses_var(&lifted.expressions[&4], "old"));
    assert!(expr_uses_var(&lifted.expressions[&4], "new"));
}

#[test]
fn raw_text_refers_to_whole_names() {
    let raw = Expression::Raw("if (var_1 == var_22) goto x".to_string());
    assert!(expr_uses_var(&raw, "var_1"));
    assert!(expr_uses_var(&raw, "var_22"));
    assert!(!expr_uses_var(&raw, "var_2"));
}

#[test]
fn entered_blocks_are_shown_again() {
    let cfg = build_test_cfg(
        0,
        vec![
            (0, vec![(0, Instruction::Fallthrough)], vec![10]),
            (10, vec![(10, Instruction::Fallthrough)], vec![20]),
            (20, vec![(20, Instruction::Trap)], vec![]),
            (30, vec![(30, Instruction::Trap)], vec![]),
        ],
    );
    let mut lifted = LiftedProgram::new();
    for pc in [10, 20, 30] {
        lifted.suppressed_blocks.insert(pc);
    }
    unsuppress_blocks_with_live_incoming_edges(&mut lifted, &cfg, &[]);
    let left: Vec<usize> = lifted.suppressed_blocks.iter().copied().collect();
    assert_eq!(left, vec![30]);
}

#[test]
fn no_blank_line_before_a_closing_brace() {
    assert_eq!(fix_blank_lines("a {\nb\n\n}\nc\n"), "a {\nb\n}\n\nc\n");
}

#[test]
fn shapes_agree_on_definitions() {
    let shape = InstructionShape::classify(&Instruction::Add32 { dst: 4, src1: 1, src2: 2 });
    assert_eq!(shape.def_reg(), Some(4));
    assert_eq!(shape.def_use().0, vec![4]);
    assert!(matches!(shape, InstructionShape::BinReg { width: BitWidth::W32, .. }));
}

#[test]
fn branches_become_comparisons() {
    let program = decode_blob(&ProgramBlob::new(vec![Code::Trap]).encode()).unwrap();
    let cfg = build_test_cfg(
        0,
        vec![(
            0,
            vec![(0, Instruction::BranchLtU { reg1: 1, reg2: 2, offset: 64 })],
            vec![],
        )],
    );
    let ir = lift_program(&program, &cfg, &[]);
    // reg1: 1, reg2: 2 branches where r2 < r1
    assert!(ir.contains("  %t0 = load i64, ptr %r2, align 8\n"), "{ir}");
    assert!(ir.contains("  %t1 = load i64, ptr %r1, align 8\n"), "{ir}");
    assert!(ir.contains("  %t2 = icmp ult i64 %t0, %t1\n"), "{ir}");
    assert!(
        ir.contains("  br i1 %t2, label %bb_exit_0040, label %bb_exit_0001\n"),
        "{ir}"
    );
}

#[test]
fn negated_addition_subtracts_from_the_constant() {
    let program = decode_blob(&ProgramBlob::new(vec![Code::Trap]).encode()).unwrap();
    let cfg = build_test_cfg(
        0,
        vec![(
            0,
            vec![
                (0, Instruction::NegAddImm64 { dst: 1, src: 2, value: 9 }),
                (4, Instruction::Trap),
            ],
            vec![],
        )],
    );
    let ir = lift_program(&program, &cfg, &[]);
    assert!(ir.contains("  %t1 = add i64 0, 9\n"), "{ir}");
    assert!(ir.contains("  %t2 = sub i64 %t1, %t0\n"), "{ir}");
}

#[test]
fn flow_stays_in_functions() {
    let cfg = build_test_cfg(
        0,
        vec![
            (0, vec![(0, Instruction::Jump { offset: 10 })], vec![10]),
            (10, vec![(10, Instruction::StoreIndU64 { base: 2, src: 0, offset: 0 })], vec![20]),
            (20, vec![(20, Instruction::Jump { offset: -20 })], vec![0]),
        ],
    );
    let functions = detect_functions(&cfg);
    let holds = |pc: usize| functions.iter().any(|f| f.block_pcs.contains(&pc));
    for (pc, block) in &cfg.blocks {
        if holds(*pc) {
            assert!(block.successors.iter().all(|s| holds(*s)));
        }
    }
}

#[test]
fn blob_gives_its_parts() {
    // one table entry of two bytes, two bytes of code, one byte of mask, and a tail
    let d = [1, 2, 2, 0x01, 0x02, 0, 1, 0b11, 9, 9];
    let program = decode_blob(&d).unwrap();
    assert_eq!(program.jump_table, vec![0x0201]);
    assert_eq!(program.code_len, 2);
    assert_eq!(
        program.instructions,
        vec![(0, Instruction::Trap), (1, Instruction::Fallthrough)]
    );
}

#[test]
fn spi_gives_its_code() {
    let code = [0u8, 0, 1, 0, 1];
    let mut d = vec![1, 0, 0, 2, 0, 0, 0, 0, 0, 0, 0, 0xaa, 0xbb, 0xcc];
    d.extend((code.len() as u32).to_le_bytes());
    d.extend(code);
    let program = decode_spi(&d).unwrap();
    assert_eq!(program.instructions, vec![(0, Instruction::Trap)]);
}

#[test]
fn graph_holds_every_instruction_once() {
    let blob = ProgramBlob::new(vec![
        Code::LoadImm { reg: 0, value: 1 },
        Code::Add32 { dst: 1, src1: 0, src2: 0 },
        Code::Trap,
        Code::LoadImm { reg: 2, value: 3 },
        Code::Trap,
    ]);
    let program = decode_blob(&blob.encode()).unwrap();
    let cfg = ControlFlowGraph::build(&program);
    let mut pcs = Vec::new();
    for (start, block) in &cfg.blocks {
        assert_eq!(*start, block.start_pc);
        assert!(!block.instructions.is_empty());
        for (pc, _) in &block.instructions {
            assert!(block.start_pc <= *pc && *pc < block.end_pc);
            pcs.push(*pc);
        }
    }
    let all: Vec<usize> = program.instructions.iter().map(|e| e.0).collect();
    assert_eq!(pcs, all);
    assert_eq!(cfg.blocks.len(), 2);
}

fn var(name: &str) -> Box<Expression> {
    Box::new(Expression::Var(name.to_string()))
}

#[test]
fn simplification_makes_nothing_higher() {
    // (x + 4) - 0, with a constant that is moved into the offset of the load
    let sum = Expression::BinOp {
        op: BinOp::Add,
        lhs: var("x"),
        rhs: Box::new(Expression::Const(4)),
    };
    let whole = Expression::Load {
        width: MemWidth::U64,
        base: Box::new(Expression::BinOp {
            op: BinOp::Sub,
            lhs: Box::new(sum),
            rhs: Box::new(Expression::Const(0)),
        }),
        offset: 8,
    };
    assert!(at_least_deep(&whole, 3) && !at_least_deep(&whole, 4));
    let short = simplify_expression(whole);
    assert!(at_least_deep(&short, 1) && !at_least_deep(&short, 2));
    assert!(uses_name(&short, "x") && !uses_name(&short, "y"));
    match short {
        Expression::Load { base, offset, .. } => {
            assert!(matches!(*base, Expression::Var(ref n) if n == "x"));
            assert_eq!(offset, 12);
        }
        _ => panic!("a load stays a load"),
    }
}

#[test]
fn tidied_text_stays() {
    for text in [
        "",
        "a {\n\n\nb\n\n  }\nc\n}\n}\n\n\nd",
        "}\n};\nx\n\n\n}\n",
        "if (x) {\n    y\n} else {\n    z\n}\nw\n",
        "\n\n\n",
    ] {
        let once = fix_blank_lines(text);
        assert_eq!(fix_blank_lines(&once), once);
        let solid = |s: &str| {
            s.lines().filter(|l| !l.trim().is_empty()).map(|l| l.to_string()).collect::<Vec<_>>()
        };
        assert_eq!(solid(&once), solid(text));
        let lines: Vec<&str> = once.lines().collect();
        for pair in lines.windows(2) {
            let closes = pair[1].trim().starts_with('}');
            assert!(!closes || !pair[0].trim().is_empty());
            if pair[0].trim() == "}" {
                assert!(closes || pair[1].trim().is_empty());
            }
        }
    }
    assert_eq!(fix_blank_lines("}\nx"), "}\n\nx\n");
}

#[test]
fn operation_sets_each_temporary_once() {
    let cfg = build_test_cfg(
        0,
        vec![(
            0,
            vec![
                (0, Instruction::Max { dst: 3, src1: 1, src2: 2 }),
                (3, Instruction::MulUpperSS { dst: 4, src1: 1, src2: 2 }),
                (6, Instruction::Add32 { dst: 5, src1: 1, src2: 2 }),
                (9, Instruction::SetLtU { dst: 6, src1: 1, src2: 2 }),
                (12, Instruction::LeadingZeroBits32 { dst: 7, src: 1 }),
                (15, Instruction::SignExtend8 { dst: 8, src: 1 }),
                (18, Instruction::Sbrk { dst: 9, src: 1 }),
                (21, Instruction::Trap),
            ],
            vec![],
        )],
    );
    let functions = detect_functions(&cfg);
    let program = decode_blob(&ProgramBlob::new(vec![Code::Trap]).encode()).unwrap();
    let ir = lift_program(&program, &cfg, &functions);
    let mut names: Vec<&str> = ir
        .lines()
        .filter(|l| l.starts_with("  %t"))
        .map(|l| l.trim().split(' ').next().unwrap())
        .collect();
    let count = names.len();
    names.sort();
    names.dedup();
    assert_eq!(names.len(), count);
    for reg in [3, 4, 5, 6, 7, 8, 9] {
        let store = format!(", ptr %r{reg}, align 8");
        assert_eq!(
            ir.lines().filter(|l| l.starts_with("  store i64 %t") && l.ends_with(&store)).count(),
            1
        );
    }
}

#[test]
fn exit_label_is_written_once() {
    // Two branches that leave the function for the same place.
    let cfg = build_test_cfg(
        0,
        vec![
            (
                0,
                vec![(0, Instruction::BranchEqImm { reg: 1, value: 0, offset: 256 })],
                vec![10],
            ),
            (
                10,
                vec![(10, Instruction::BranchEqImm { reg: 2, value: 0, offset: 246 })],
                vec![20],
            ),
            (20, vec![(20, Instruction::Trap)], vec![]),
        ],
    );
    let functions = detect_functions(&cfg);
    let program = decode_blob(&ProgramBlob::new(vec![Code::Trap]).encode()).unwrap();
    let ir = lift_program(&program, &cfg, &functions);
    assert_eq!(ir.lines().filter(|l| *l == "bb_exit_0100:").count(), 1);
    assert_eq!(ir.matches("label %bb_exit_0100").count(), 2);
}

#[test]
fn writing_leaves_declared_names() {
    let cfg = build_test_cfg(
        0,
        vec![(
            0,
            vec![
                (0, Instruction::LoadImm { reg: 0, value: 42 }),
                (4, Instruction::Trap),
            ],
            vec![],
        )],
    );
    let program = decode_blob(&ProgramBlob::new(vec![Code::Trap]).encode()).unwrap();
    let mut lifted = LiftedProgram::analyze(&cfg, &DataFlowAnalysis::analyze(&cfg));
    let structural = StructuralAnalysis::analyze(&cfg, &program);
    let first = structural.pseudo_code(&cfg, Some(&mut lifted), None);
    let second = structural.pseudo_code(&cfg, Some(&mut lifted), None);
    assert_eq!(first.matches("let var_0 = 42").count(), 1);
    assert_eq!(second.matches("let ").count(), 0);
    assert_eq!(second.matches("var_0 = 42").count(), 1);
}

#[test]
fn branch_compares_the_second_register_with_the_first() {
    let program = decode_blob(&ProgramBlob::new(vec![Code::Trap]).encode()).unwrap();
    for (branch, text) in [
        (Instruction::BranchGeU { reg1: 2, reg2: 3, offset: 10 }, "if (r3 >=u r2) {"),
        (Instruction::BranchLtU { reg1: 2, reg2: 3, offset: 10 }, "if (r3 <u r2) {"),
    ] {
        let cfg = build_test_cfg(
            0,
            vec![
                (0, vec![(0, branch)], vec![10, 20]),
                (10, vec![(10, Instruction::LoadImm { reg: 1, value: 1 })], vec![20]),
                (20, vec![(20, Instruction::Trap)], vec![]),
            ],
        );
        let pseudo = StructuralAnalysis::analyze(&cfg, &program).pseudo_code(&cfg, None, None);
        assert!(pseudo.contains(text), "{pseudo}");
    }
}

#[test]
fn loop_head_states_the_condition_of_going_on() {
    let program = decode_blob(&ProgramBlob::new(vec![Code::Trap]).encode()).unwrap();
    // A branch at 10 that leaves the loop for 30 where it is taken, and one that goes on to 20.
    let looped = |branch: Instruction, next: Vec<usize>| {
        build_test_cfg(
            0,
            vec![
                (0, vec![(0, Instruction::LoadImm { reg: 7, value: 0 })], vec![10]),
                (10, vec![(10, branch)], next),
                (20, vec![(20, Instruction::Jump { offset: -10 })], vec![10]),
                (30, vec![(30, Instruction::Trap)], vec![]),
            ],
        )
    };
    for (branch, text) in [
        (Instruction::BranchEqImm { reg: 1, value: 5, offset: 20 }, "while (r1 != 5) {"),
        (Instruction::BranchNeImm { reg: 1, value: 5, offset: 20 }, "while (r1 == 5) {"),
        (Instruction::BranchGeSImm { reg: 1, value: 5, offset: 20 }, "while (r1 <s 5) {"),
        (Instruction::BranchGeU { reg1: 2, reg2: 3, offset: 20 }, "while (r3 <u r2) {"),
        (Instruction::BranchLtU { reg1: 2, reg2: 3, offset: 20 }, "while (r3 >=u r2) {"),
    ] {
        let cfg = looped(branch, vec![30, 20]);
        let pseudo = StructuralAnalysis::analyze(&cfg, &program).pseudo_code(&cfg, None, None);
        assert!(pseudo.contains(text), "{pseudo}");
    }
    let cfg = looped(
        Instruction::BranchGeU { reg1: 2, reg2: 3, offset: 10 },
        vec![20, 30],
    );
    let pseudo = StructuralAnalysis::analyze(&cfg, &program).pseudo_code(&cfg, None, None);
    assert!(pseudo.contains("while (r3 >=u r2) {"), "{pseudo}");
}

#[test]
fn last_of_several_blocks_at_one_start_stays() {
    let cfg = build_test_cfg(
        0,
        vec![
            (0, vec![(0, Instruction::LoadImm { reg: 1, value: 1 })], vec![10]),
            (10, vec![(10, Instruction::LoadImm { reg: 1, value: 2 })], vec![0]),
            (10, vec![(10, Instruction::Trap)], vec![]),
        ],
    );
    assert_eq!(cfg.blocks.len(), 2);
    assert_eq!(cfg.blocks[&10].instructions, vec![(10, Instruction::Trap)]);
    // The edges into 10 are listed at the block that was replaced.
    assert!(cfg.blocks[&10].predecessors.is_empty());
    assert_eq!(cfg.blocks[&0].predecessors, vec![10]);
}

#[test]
fn liveness_equations_hold_round_a_loop() {
    let cfg = looping();
    let (live_in, live_out) = DataFlowAnalysis::compute_liveness(&cfg);
    for (pc, block) in &cfg.blocks {
        let mut behind: Vec<u8> =
            block.successors.iter().flat_map(|s| live_in[s].iter().copied()).collect();
        behind.sort();
        behind.dedup();
        assert_eq!(live_out[pc].iter().copied().collect::<Vec<u8>>(), behind);
    }
    assert!(live_in[&0].is_empty());
    assert_eq!(live_in[&10].iter().copied().collect::<Vec<u8>>(), vec![0]);
    assert_eq!(live_in[&20].iter().copied().collect::<Vec<u8>>(), vec![0]);
    assert!(live_in[&30].is_empty());
}

#[test]
fn escaped_text_is_read_again() {
    for text in ["", "a \"b\"\n\\n\t\r", "\\u0041", "\"content\":\""] {
        let request = request_body(text);
        assert_eq!(read_reply(&request), Ok(text.to_string()));
    }
    assert_eq!(read_reply("\"content\":\"a\\\"b\"}]\"x"), Ok("a\"b".to_string()));
    assert!(read_reply("\"content\":\"a\\\"b").is_err());
}
