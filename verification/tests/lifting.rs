#![allow(unused_imports, unused_mut)]

use pvm_decompiler::cfg::build_test_cfg;
use pvm_decompiler::dataflow::DataFlowAnalysis;
use pvm_decompiler::instruction::{BinOp, MemWidth, UnaryOp};
use pvm_decompiler::ir::ssa::SsaProgram;
use pvm_decompiler::lifting::program::ecalli_name;
use pvm_decompiler::lifting::{
    format_expression, is_boolean_expr, simplify_expression, Expression, FormatContext,
    LiftedProgram, VarType, Variable,
};
use pvm_decompiler::pvm::Instruction;
use pvm_decompiler::structuring::DominatorTree;

fn lifted_with(memory_base: Option<u64>) -> LiftedProgram {
    let mut lifted = LiftedProgram::new();
    lifted.memory_base = memory_base;
    lifted
}

/// Default formatting context for tests (no memory base).
fn ctx() -> FormatContext {
    FormatContext::default()
}

#[test]
fn test_variable_naming_simple() {
    // r0 = 42; r1 = r0 + 1
    let cfg = build_test_cfg(
        0,
        vec![(
            0,
            vec![
                (0, Instruction::LoadImm { reg: 0, value: 42 }),
                (
                    4,
                    Instruction::AddImm32 {
                        dst: 1,
                        src: 0,
                        value: 1,
                    },
                ),
                (8, Instruction::Trap),
            ],
            vec![],
        )],
    );
    let dataflow = DataFlowAnalysis::analyze(&cfg);
    let lifted = LiftedProgram::analyze(&cfg, &dataflow);

    // Should have variables for r0@PC0 and r1@PC4.
    assert!(lifted.variables.contains_key(&(0, 0)));
    assert!(lifted.variables.contains_key(&(4, 1)));

    // Names should start with var_ (integer type).
    assert!(lifted.variables[&(0, 0)].name.starts_with("var_"));
    assert!(lifted.variables[&(4, 1)].name.starts_with("var_"));
}

#[test]
fn test_constant_propagation_single_use() {
    // r0 = 42; r1 = r0 + 1; trap
    // r0 has a single use at PC 4, so it should be propagated.
    let cfg = build_test_cfg(
        0,
        vec![(
            0,
            vec![
                (0, Instruction::LoadImm { reg: 0, value: 42 }),
                (
                    4,
                    Instruction::AddImm32 {
                        dst: 1,
                        src: 0,
                        value: 1,
                    },
                ),
                (8, Instruction::Trap),
            ],
            vec![],
        )],
    );
    let dataflow = DataFlowAnalysis::analyze(&cfg);
    let lifted = LiftedProgram::analyze(&cfg, &dataflow);

    // PC 0 should be eliminated (constant propagated).
    assert!(
        lifted.eliminated_pcs.contains(&0),
        "PC 0 should be eliminated after constant propagation"
    );

    // PC 4's expression should be the folded result: 42 + 1 = 43.
    let expr = lifted.expressions.get(&4).unwrap();
    let formatted = format_expression(expr, &ctx());
    assert!(
        formatted.contains("43"),
        "Expression should contain folded constant 43 (42 + 1), got: {}",
        formatted
    );
}

#[test]
fn test_expression_folding() {
    // r0 = 42; r1 = r0 + 1; r2 = r1 * 3; trap
    // r0 single-use -> propagated; r1 single-use at next instruction -> folded
    let cfg = build_test_cfg(
        0,
        vec![(
            0,
            vec![
                (0, Instruction::LoadImm { reg: 0, value: 42 }),
                (
                    4,
                    Instruction::AddImm32 {
                        dst: 1,
                        src: 0,
                        value: 1,
                    },
                ),
                (
                    8,
                    Instruction::Mul32 {
                        dst: 2,
                        src1: 1,
                        src2: 1,
                    },
                ),
                (12, Instruction::Trap),
            ],
            vec![],
        )],
    );
    let dataflow = DataFlowAnalysis::analyze(&cfg);
    let mut lifted = LiftedProgram::analyze(&cfg, &dataflow);

    // PC 0 and PC 4 should both be eliminated.
    assert!(lifted.eliminated_pcs.contains(&0));
    assert!(lifted.eliminated_pcs.contains(&4));

    // PC 8 should have the folded expression.
    let line = lifted
        .format_pc(
            8,
            &Instruction::Mul32 {
                dst: 2,
                src1: 1,
                src2: 1,
            },
        )
        .unwrap();
    // With constant folding, 42+1=43, then 43*43=1849.
    assert!(
        line.contains("1849"),
        "Should contain fully folded constant 1849 (43*43), got: {}",
        line
    );
}

#[test]
fn test_pointer_type_inference() {
    // r0 = 100; r1 = u32[r0 + 0]; trap
    // r0 is used as base in a load -> should be Pointer.
    let cfg = build_test_cfg(
        0,
        vec![(
            0,
            vec![
                (0, Instruction::LoadImm { reg: 0, value: 100 }),
                (
                    4,
                    Instruction::LoadIndU32 {
                        dst: 1,
                        base: 0,
                        offset: 0,
                    },
                ),
                (8, Instruction::Trap),
            ],
            vec![],
        )],
    );
    let dataflow = DataFlowAnalysis::analyze(&cfg);
    let lifted = LiftedProgram::analyze(&cfg, &dataflow);

    let var = lifted.variables.get(&(0, 0)).unwrap();
    assert_eq!(
        var.var_type,
        VarType::Pointer,
        "r0 used as load base should be Pointer"
    );
    assert!(
        var.name.starts_with("ptr_"),
        "Pointer variable should have ptr_ prefix, got: {}",
        var.name
    );
}

#[test]
fn test_boolean_type_inference() {
    // r2 = r0 <u r1; trap
    let cfg = build_test_cfg(
        0,
        vec![(
            0,
            vec![
                (
                    0,
                    Instruction::SetLtU {
                        dst: 2,
                        src1: 0,
                        src2: 1,
                    },
                ),
                (4, Instruction::Trap),
            ],
            vec![],
        )],
    );
    let dataflow = DataFlowAnalysis::analyze(&cfg);
    let lifted = LiftedProgram::analyze(&cfg, &dataflow);

    let var = lifted.variables.get(&(0, 2)).unwrap();
    assert_eq!(var.var_type, VarType::Boolean);
    assert!(var.name.starts_with("cond_"));
}

#[test]
fn test_signedness_type_inference() {
    // r2 = r0 /s r1 → r2 should be I64 (signed 64-bit)
    let cfg = build_test_cfg(
        0,
        vec![(
            0,
            vec![
                (
                    0,
                    Instruction::DivS64 {
                        dst: 2,
                        src1: 0,
                        src2: 1,
                    },
                ),
                (4, Instruction::Trap),
            ],
            vec![],
        )],
    );
    let dataflow = DataFlowAnalysis::analyze(&cfg);
    let lifted = LiftedProgram::analyze(&cfg, &dataflow);

    let var = lifted.variables.get(&(0, 2)).unwrap();
    assert_eq!(
        var.var_type,
        VarType::I64,
        "DivS64 result should be I64, got: {:?}",
        var.var_type
    );
}

#[test]
fn test_width_type_inference() {
    // r2 = r0 + r1 (32-bit) → r2 should be U32
    let cfg = build_test_cfg(
        0,
        vec![(
            0,
            vec![
                (
                    0,
                    Instruction::Add32 {
                        dst: 2,
                        src1: 0,
                        src2: 1,
                    },
                ),
                (4, Instruction::Trap),
            ],
            vec![],
        )],
    );
    let dataflow = DataFlowAnalysis::analyze(&cfg);
    let lifted = LiftedProgram::analyze(&cfg, &dataflow);

    let var = lifted.variables.get(&(0, 2)).unwrap();
    assert_eq!(
        var.var_type,
        VarType::U32,
        "Add32 result should be U32, got: {:?}",
        var.var_type
    );
}

#[test]
fn test_simplify_add_zero() {
    let expr = Expression::BinOp {
        op: BinOp::Add,
        lhs: Box::new(Expression::Var("x".to_string())),
        rhs: Box::new(Expression::Const(0)),
    };
    let simplified = simplify_expression(expr);
    assert_eq!(format_expression(&simplified, &ctx()), "x");
}

#[test]
fn test_simplify_xor_zero() {
    let expr = Expression::BinOp {
        op: BinOp::Xor,
        lhs: Box::new(Expression::Var("x".to_string())),
        rhs: Box::new(Expression::Const(0)),
    };
    let simplified = simplify_expression(expr);
    assert_eq!(format_expression(&simplified, &ctx()), "x");
}

#[test]
fn test_simplify_mul_one() {
    let expr = Expression::BinOp {
        op: BinOp::Mul,
        lhs: Box::new(Expression::Var("x".to_string())),
        rhs: Box::new(Expression::Const(1)),
    };
    let simplified = simplify_expression(expr);
    assert_eq!(format_expression(&simplified, &ctx()), "x");
}

#[test]
fn test_simplify_mul_zero() {
    let expr = Expression::BinOp {
        op: BinOp::Mul,
        lhs: Box::new(Expression::Var("x".to_string())),
        rhs: Box::new(Expression::Const(0)),
    };
    let simplified = simplify_expression(expr);
    assert_eq!(format_expression(&simplified, &ctx()), "0");
}

#[test]
fn test_simplify_and_zero() {
    let expr = Expression::BinOp {
        op: BinOp::And,
        lhs: Box::new(Expression::Var("x".to_string())),
        rhs: Box::new(Expression::Const(0)),
    };
    let simplified = simplify_expression(expr);
    assert_eq!(format_expression(&simplified, &ctx()), "0");
}

#[test]
fn test_simplify_ltu_1_negation() {
    let expr = Expression::BinOp {
        op: BinOp::LtU,
        lhs: Box::new(Expression::Var("cond_0".to_string())),
        rhs: Box::new(Expression::Const(1)),
    };
    let simplified = simplify_expression(expr);
    assert_eq!(format_expression(&simplified, &ctx()), "!(cond_0)");
}

#[test]
fn test_simplify_double_negation() {
    // !!x → x
    let expr = Expression::UnaryOp {
        op: UnaryOp::Not,
        operand: Box::new(Expression::UnaryOp {
            op: UnaryOp::Not,
            operand: Box::new(Expression::Var("cond_0".to_string())),
        }),
    };
    let simplified = simplify_expression(expr);
    assert_eq!(format_expression(&simplified, &ctx()), "cond_0");
}

#[test]
fn test_simplify_comparison_inversion() {
    // !(x <u y) → x >=u y
    let expr = Expression::UnaryOp {
        op: UnaryOp::Not,
        operand: Box::new(Expression::BinOp {
            op: BinOp::LtU,
            lhs: Box::new(Expression::Var("x".to_string())),
            rhs: Box::new(Expression::Var("y".to_string())),
        }),
    };
    let simplified = simplify_expression(expr);
    assert_eq!(format_expression(&simplified, &ctx()), "x >=u y");

    // !(a <s b) → a >=s b
    let expr_signed = Expression::UnaryOp {
        op: UnaryOp::Not,
        operand: Box::new(Expression::BinOp {
            op: BinOp::LtS,
            lhs: Box::new(Expression::Var("a".to_string())),
            rhs: Box::new(Expression::Var("b".to_string())),
        }),
    };
    let simplified_signed = simplify_expression(expr_signed);
    assert_eq!(format_expression(&simplified_signed, &ctx()), "a >=s b");

    // !(x >s y) → x <=s y
    let expr_gt = Expression::UnaryOp {
        op: UnaryOp::Not,
        operand: Box::new(Expression::BinOp {
            op: BinOp::GtS,
            lhs: Box::new(Expression::Var("x".to_string())),
            rhs: Box::new(Expression::Var("y".to_string())),
        }),
    };
    let simplified_gt = simplify_expression(expr_gt);
    assert_eq!(format_expression(&simplified_gt, &ctx()), "x <=s y");

    // !(x >=u y) → x <u y
    let expr_ge = Expression::UnaryOp {
        op: UnaryOp::Not,
        operand: Box::new(Expression::BinOp {
            op: BinOp::GeU,
            lhs: Box::new(Expression::Var("a".to_string())),
            rhs: Box::new(Expression::Var("b".to_string())),
        }),
    };
    let simplified_ge = simplify_expression(expr_ge);
    assert_eq!(format_expression(&simplified_ge, &ctx()), "a <u b");
}

#[test]
fn test_simplify_0_ltu_boolean() {
    // 0 <u !(x <u y) → x >=u y
    // Chain: !(x <u y) → x >=u y, then 0 <u (x >=u y) → x >=u y
    let expr = Expression::BinOp {
        op: BinOp::LtU,
        lhs: Box::new(Expression::Const(0)),
        rhs: Box::new(Expression::UnaryOp {
            op: UnaryOp::Not,
            operand: Box::new(Expression::BinOp {
                op: BinOp::LtU,
                lhs: Box::new(Expression::Var("x".to_string())),
                rhs: Box::new(Expression::Var("y".to_string())),
            }),
        }),
    };
    let simplified = simplify_expression(expr);
    assert_eq!(format_expression(&simplified, &ctx()), "x >=u y");
}

#[test]
fn test_simplify_0_ltu_comparison() {
    // 0 <u (x <u y) → (x <u y) (truthy check on comparison)
    let expr = Expression::BinOp {
        op: BinOp::LtU,
        lhs: Box::new(Expression::Const(0)),
        rhs: Box::new(Expression::BinOp {
            op: BinOp::LtU,
            lhs: Box::new(Expression::Var("x".to_string())),
            rhs: Box::new(Expression::Var("y".to_string())),
        }),
    };
    let simplified = simplify_expression(expr);
    assert_eq!(format_expression(&simplified, &ctx()), "x <u y");
}

#[test]
fn test_format_0_ltu_bitwise_or() {
    // 0 <u (a | b) → (a | b) != 0
    let expr = Expression::BinOp {
        op: BinOp::LtU,
        lhs: Box::new(Expression::Const(0)),
        rhs: Box::new(Expression::BinOp {
            op: BinOp::Or,
            lhs: Box::new(Expression::Var("a".to_string())),
            rhs: Box::new(Expression::Var("b".to_string())),
        }),
    };
    assert_eq!(format_expression(&expr, &ctx()), "(a | b) != 0");

    // 0 <u x → x != 0 (simple variable, no parens needed)
    let expr2 = Expression::BinOp {
        op: BinOp::LtU,
        lhs: Box::new(Expression::Const(0)),
        rhs: Box::new(Expression::Var("x".to_string())),
    };
    assert_eq!(format_expression(&expr2, &ctx()), "x != 0");
}

#[test]
fn test_simplify_const_lt_flip() {
    // 1 <s x → x >s 1
    let expr = Expression::BinOp {
        op: BinOp::LtS,
        lhs: Box::new(Expression::Const(1)),
        rhs: Box::new(Expression::Var("x".to_string())),
    };
    let simplified = simplify_expression(expr);
    assert_eq!(format_expression(&simplified, &ctx()), "x >s 1");

    // 5 <u x → x >u 5
    let expr2 = Expression::BinOp {
        op: BinOp::LtU,
        lhs: Box::new(Expression::Const(5)),
        rhs: Box::new(Expression::Var("x".to_string())),
    };
    let simplified2 = simplify_expression(expr2);
    assert_eq!(format_expression(&simplified2, &ctx()), "x >u 5");

    // 0 <s x → x >s 0
    let expr3 = Expression::BinOp {
        op: BinOp::LtS,
        lhs: Box::new(Expression::Const(0)),
        rhs: Box::new(Expression::Var("x".to_string())),
    };
    let simplified3 = simplify_expression(expr3);
    assert_eq!(format_expression(&simplified3, &ctx()), "x >s 0");

    // 0 <u x → stays as-is (handled by format_expression as x != 0)
    let expr4 = Expression::BinOp {
        op: BinOp::LtU,
        lhs: Box::new(Expression::Const(0)),
        rhs: Box::new(Expression::Var("x".to_string())),
    };
    let simplified4 = simplify_expression(expr4);
    assert_eq!(format_expression(&simplified4, &ctx()), "x != 0");
}

#[test]
fn test_simplify_shift_zero() {
    let expr = Expression::BinOp {
        op: BinOp::Shl,
        lhs: Box::new(Expression::Var("x".to_string())),
        rhs: Box::new(Expression::Const(0)),
    };
    let simplified = simplify_expression(expr);
    assert_eq!(format_expression(&simplified, &ctx()), "x");
}

#[test]
fn test_simplify_nested() {
    // (x + 0) * 1 → x
    let expr = Expression::BinOp {
        op: BinOp::Mul,
        lhs: Box::new(Expression::BinOp {
            op: BinOp::Add,
            lhs: Box::new(Expression::Var("x".to_string())),
            rhs: Box::new(Expression::Const(0)),
        }),
        rhs: Box::new(Expression::Const(1)),
    };
    let simplified = simplify_expression(expr);
    assert_eq!(format_expression(&simplified, &ctx()), "x");
}

#[test]
fn test_simplify_no_change() {
    let expr = Expression::BinOp {
        op: BinOp::Add,
        lhs: Box::new(Expression::Var("x".to_string())),
        rhs: Box::new(Expression::Const(5)),
    };
    let simplified = simplify_expression(expr);
    assert_eq!(format_expression(&simplified, &ctx()), "x + 5");
}

#[test]
fn test_format_expression_precedence() {
    // (a + b) * c should parenthesize the addition
    let expr = Expression::BinOp {
        op: BinOp::Mul,
        lhs: Box::new(Expression::BinOp {
            op: BinOp::Add,
            lhs: Box::new(Expression::Var("a".to_string())),
            rhs: Box::new(Expression::Var("b".to_string())),
        }),
        rhs: Box::new(Expression::Var("c".to_string())),
    };
    let formatted = format_expression(&expr, &ctx());
    assert_eq!(formatted, "(a + b) * c");
}

#[test]
fn test_format_expression_no_unnecessary_parens() {
    // a * b + c should NOT parenthesize the multiplication
    let expr = Expression::BinOp {
        op: BinOp::Add,
        lhs: Box::new(Expression::BinOp {
            op: BinOp::Mul,
            lhs: Box::new(Expression::Var("a".to_string())),
            rhs: Box::new(Expression::Var("b".to_string())),
        }),
        rhs: Box::new(Expression::Var("c".to_string())),
    };
    let formatted = format_expression(&expr, &ctx());
    assert_eq!(formatted, "a * b + c");
}

#[test]
fn test_format_expression_right_associativity() {
    // a - (b - c) must parenthesise the right operand because
    // subtraction is left-associative: a - b - c != a - (b - c)
    let expr = Expression::BinOp {
        op: BinOp::Sub,
        lhs: Box::new(Expression::Var("a".to_string())),
        rhs: Box::new(Expression::BinOp {
            op: BinOp::Sub,
            lhs: Box::new(Expression::Var("b".to_string())),
            rhs: Box::new(Expression::Var("c".to_string())),
        }),
    };
    let formatted = format_expression(&expr, &ctx());
    assert_eq!(formatted, "a - (b - c)");

    // a + (b + c) should NOT parenthesise — addition is commutative
    let expr2 = Expression::BinOp {
        op: BinOp::Add,
        lhs: Box::new(Expression::Var("a".to_string())),
        rhs: Box::new(Expression::BinOp {
            op: BinOp::Add,
            lhs: Box::new(Expression::Var("b".to_string())),
            rhs: Box::new(Expression::Var("c".to_string())),
        }),
    };
    let formatted2 = format_expression(&expr2, &ctx());
    assert_eq!(formatted2, "a + b + c");
}

#[test]
fn test_no_fold_across_blocks() {
    // Block 0: r0 = 42
    // Block 10: r1 = r0 + 1; trap
    // r0 has single use but across blocks -> should NOT be folded (only propagated).
    let cfg = build_test_cfg(
        0,
        vec![
            (
                0,
                vec![(0, Instruction::LoadImm { reg: 0, value: 42 })],
                vec![10],
            ),
            (
                10,
                vec![
                    (
                        10,
                        Instruction::AddImm32 {
                            dst: 1,
                            src: 0,
                            value: 1,
                        },
                    ),
                    (14, Instruction::Trap),
                ],
                vec![],
            ),
        ],
    );
    let dataflow = DataFlowAnalysis::analyze(&cfg);
    let lifted = LiftedProgram::analyze(&cfg, &dataflow);

    // PC 0 should be eliminated (constant propagated since single use).
    assert!(lifted.eliminated_pcs.contains(&0));

    // PC 10 should NOT be eliminated.
    assert!(!lifted.eliminated_pcs.contains(&10));
}

#[test]
fn test_cross_block_expression_folding() {
    // Block 0: r0 = 100 (ptr); r1 = r0 + 8
    // Block 10: r2 = r1 + 16; trap
    // r1 has single use across blocks; block 0 dominates block 10 -> should be folded.
    let cfg = build_test_cfg(
        0,
        vec![
            (
                0,
                vec![
                    (0, Instruction::LoadImm { reg: 0, value: 100 }),
                    (
                        4,
                        Instruction::AddImm32 {
                            dst: 1,
                            src: 0,
                            value: 8,
                        },
                    ),
                ],
                vec![10],
            ),
            (
                10,
                vec![
                    (
                        10,
                        Instruction::AddImm32 {
                            dst: 2,
                            src: 1,
                            value: 16,
                        },
                    ),
                    (14, Instruction::Trap),
                ],
                vec![],
            ),
        ],
    );
    let dataflow = DataFlowAnalysis::analyze(&cfg);
    let lifted = LiftedProgram::analyze(&cfg, &dataflow);

    // r1's definition at PC 4 should be folded into PC 10 (cross-block).
    assert!(
        lifted.eliminated_pcs.contains(&4),
        "PC 4 (r1 = r0 + 8) should be eliminated by cross-block folding"
    );

    // The expression at PC 10 should contain the folded result.
    // With constant propagation (r0=100) and simplification, it becomes 100 + 8 + 16 = 124.
    let expr = lifted.expressions.get(&10).unwrap();
    let formatted = format_expression(expr, &ctx());
    assert!(
        formatted.contains("124"),
        "Expression should be folded to 124 (100 + 8 + 16), got: {}",
        formatted
    );
}

#[test]
fn test_cross_block_no_fold_in_loop() {
    // Block 0: r0 = 1 (init)
    // Block 10 (loop header): r1 = r0 + 1; branch back to 10 or exit to 20
    // Block 20: trap
    // r0 is defined in block 0, used in loop header block 10.
    // Block 0 dominates block 10, but r0 is not defined in a loop body,
    // so this would normally be safe. However, if r0 has other definitions
    // in the loop body, it shouldn't be folded. This tests the basic case.
    let cfg = build_test_cfg(
        0,
        vec![
            (
                0,
                vec![(0, Instruction::LoadImm { reg: 0, value: 1 })],
                vec![10],
            ),
            (
                10,
                vec![
                    (
                        10,
                        Instruction::AddImm32 {
                            dst: 1,
                            src: 0,
                            value: 1,
                        },
                    ),
                    (
                        14,
                        Instruction::AddImm32 {
                            dst: 0,
                            src: 1,
                            value: 0,
                        },
                    ),
                    (
                        18,
                        Instruction::BranchNeImm {
                            reg: 0,
                            value: 10,
                            offset: -8,
                        },
                    ),
                ],
                vec![10, 22],
            ),
            (22, vec![(22, Instruction::Trap)], vec![]),
        ],
    );
    let dataflow = DataFlowAnalysis::analyze(&cfg);
    let lifted = LiftedProgram::analyze(&cfg, &dataflow);

    // r0 defined at PC 0 is used in the loop header. Since r0 is redefined
    // at PC 14 inside the loop, the def at PC 0 has multiple uses (PC 10
    // on each iteration via the redefinition). The analysis should handle
    // this correctly without creating circular expressions.
    // Just verify it doesn't panic and produces output.
    assert!(!lifted.expressions.is_empty());
}

#[test]
fn test_cross_block_no_fold_side_effects() {
    // Block 0: r0 = load_u32(r2, 0)   (side effect - memory load)
    // Block 10: r1 = r0 + 1; trap
    // r0 is SDSU across blocks, block 0 dominates block 10, but r0's definition
    // is a Load expression which has side effects -> should NOT be folded.
    let cfg = build_test_cfg(
        0,
        vec![
            (
                0,
                vec![(
                    0,
                    Instruction::LoadIndU32 {
                        dst: 0,
                        base: 2,
                        offset: 0,
                    },
                )],
                vec![10],
            ),
            (
                10,
                vec![
                    (
                        10,
                        Instruction::AddImm32 {
                            dst: 1,
                            src: 0,
                            value: 1,
                        },
                    ),
                    (14, Instruction::Trap),
                ],
                vec![],
            ),
        ],
    );
    let dataflow = DataFlowAnalysis::analyze(&cfg);
    let lifted = LiftedProgram::analyze(&cfg, &dataflow);

    // PC 0 (Load) should NOT be eliminated because loads have side effects.
    assert!(
        !lifted.eliminated_pcs.contains(&0),
        "Load at PC 0 should not be folded across blocks (side effect)"
    );
}

#[test]
fn test_copy_propagation() {
    // r0 = 10; r1 = r0 (move/add 0); r2 = r1 + 5; trap
    // After copy propagation, r1 = r0 should be eliminated and r2 should use r0's var name.
    let cfg = build_test_cfg(
        0,
        vec![(
            0,
            vec![
                (0, Instruction::LoadImm { reg: 0, value: 10 }),
                (
                    4,
                    Instruction::AddImm32 {
                        dst: 1,
                        src: 0,
                        value: 0,
                    },
                ),
                (
                    8,
                    Instruction::AddImm32 {
                        dst: 2,
                        src: 1,
                        value: 5,
                    },
                ),
                (12, Instruction::Trap),
            ],
            vec![],
        )],
    );
    let dataflow = DataFlowAnalysis::analyze(&cfg);
    let lifted = LiftedProgram::analyze(&cfg, &dataflow);

    // PC 4 (the copy r1 = r0 + 0 = r0) should be eliminated.
    assert!(
        lifted.eliminated_pcs.contains(&4),
        "Copy at PC 4 should be eliminated"
    );
}

#[test]
fn test_store_load_forwarding() {
    // r0 = 100 (ptr); store u64[r0+8] = r1; r2 = load u64[r0+8]; trap
    // The load should be forwarded to use r1's value directly.
    let cfg = build_test_cfg(
        0,
        vec![(
            0,
            vec![
                (0, Instruction::LoadImm { reg: 0, value: 100 }),
                (4, Instruction::LoadImm { reg: 1, value: 42 }),
                (
                    8,
                    Instruction::StoreIndU64 {
                        base: 0,
                        src: 1,
                        offset: 8,
                    },
                ),
                (
                    12,
                    Instruction::LoadIndU64 {
                        dst: 2,
                        base: 0,
                        offset: 8,
                    },
                ),
                (16, Instruction::Trap),
            ],
            vec![],
        )],
    );
    let dataflow = DataFlowAnalysis::analyze(&cfg);
    let lifted = LiftedProgram::analyze(&cfg, &dataflow);

    // PC 12 (the load) should have been forwarded to the stored value,
    // not remain as a Load expression.
    let expr = lifted.expressions.get(&12).unwrap();
    assert!(
        !matches!(expr, Expression::Load { .. }),
        "Load at PC 12 should have been forwarded, got: {}",
        format_expression(expr, &ctx())
    );
}

#[test]
fn test_dead_store_elimination() {
    // r1 = 4096 (SP-like base); store u64[r1+8] = r2; store u64[r1+16] = r2; trap
    // Both stores are never loaded, so they should be eliminated as dead stack-slot stores.
    let cfg = build_test_cfg(
        0,
        vec![(
            0,
            vec![
                (
                    0,
                    Instruction::LoadImm {
                        reg: 1,
                        value: 4096,
                    },
                ),
                (4, Instruction::LoadImm { reg: 2, value: 42 }),
                (
                    8,
                    Instruction::StoreIndU64 {
                        base: 1,
                        src: 2,
                        offset: 8,
                    },
                ),
                (
                    12,
                    Instruction::StoreIndU64 {
                        base: 1,
                        src: 2,
                        offset: 16,
                    },
                ),
                (16, Instruction::Trap),
            ],
            vec![],
        )],
    );
    let dataflow = DataFlowAnalysis::analyze(&cfg);
    let lifted = LiftedProgram::analyze(&cfg, &dataflow);

    // r1 is used as a base in stores, so it should be inferred as a pointer (ptr_*).
    let var = lifted.variables.get(&(0, 1)).unwrap();
    assert!(
        var.name.starts_with("ptr_"),
        "Base register should be a pointer, got: {}",
        var.name
    );

    // The store at PC 8 should be eliminated since no load reads from it.
    assert!(
        lifted.eliminated_pcs.contains(&8),
        "Dead store at PC 8 should be eliminated"
    );
    // The store at PC 12 should also be eliminated.
    assert!(
        lifted.eliminated_pcs.contains(&12),
        "Dead store at PC 12 should be eliminated"
    );
}

#[test]
fn test_dead_store_elimination_uses_shared_format_context_for_live_load_keys() {
    let mut lifted = lifted_with(Some(0x50000));
    lifted.variables.insert(
        (1, 1),
        Variable {
            name: "ptr_0".to_string(),
            var_type: VarType::Pointer,
        },
    );
    lifted.var_name_to_def_pc.insert("ptr_0".to_string(), 1);
    lifted.expressions.insert(1, Expression::Const(0));

    let base_expr = Expression::BinOp {
        op: BinOp::Add,
        lhs: Box::new(Expression::Var("ptr_0".to_string())),
        rhs: Box::new(Expression::Const(0x50000)),
    };
    lifted.expressions.insert(
        2,
        Expression::Store {
            width: MemWidth::U64,
            base: Box::new(base_expr.clone()),
            offset: 0,
            value: Box::new(Expression::Const(7)),
        },
    );
    lifted.expressions.insert(
        3,
        Expression::Load {
            width: MemWidth::U64,
            base: Box::new(base_expr),
            offset: 0,
        },
    );

    lifted.eliminate_dead_stores();

    assert!(
        !lifted.eliminated_pcs.contains(&2),
        "Store with matching live load should be retained when keying uses a shared context"
    );
}

#[test]
fn test_store_load_forward_then_dead_store() {
    // r1 = 4096 (SP-like base); r2 = 7; store u64[r1+16] = r2; r3 = load u64[r1+16];
    // r3 = r2 + r4; store u64[r0+32] = r3; trap
    // r3 is used at PC 20 (different reg from r4), and r4 used at PC 20.
    // r1 has multiple uses (base in load/store), not constant-propagated.
    // r3 has uses at PC 20 and PC 24 (two distinct use sites via different instructions),
    // preventing fold. After forwarding, load at PC 12 replaced. After DSE, store at PC 8 removed.
    let cfg = build_test_cfg(
        0,
        vec![
            (
                0,
                vec![
                    (
                        0,
                        Instruction::LoadImm {
                            reg: 1,
                            value: 4096,
                        },
                    ),
                    (4, Instruction::LoadImm { reg: 2, value: 7 }),
                    (
                        8,
                        Instruction::StoreIndU64 {
                            base: 1,
                            src: 2,
                            offset: 16,
                        },
                    ),
                    (
                        12,
                        Instruction::LoadIndU64 {
                            dst: 3,
                            base: 1,
                            offset: 16,
                        },
                    ),
                ],
                vec![20],
            ),
            (
                20,
                vec![
                    (
                        20,
                        Instruction::AddImm32 {
                            dst: 5,
                            src: 3,
                            value: 1,
                        },
                    ),
                    (
                        24,
                        Instruction::AddImm32 {
                            dst: 6,
                            src: 3,
                            value: 2,
                        },
                    ),
                    (28, Instruction::Trap),
                ],
                vec![],
            ),
        ],
    );
    let dataflow = DataFlowAnalysis::analyze(&cfg);
    let lifted = LiftedProgram::analyze(&cfg, &dataflow);

    // The load at PC 12 should not be a Load expression anymore.
    let expr12 = lifted.expressions.get(&12);
    if let Some(e) = expr12 {
        assert!(
            !matches!(e, Expression::Load { .. }),
            "Load should have been forwarded, got: {}",
            format_expression(e, &ctx())
        );
    }

    // The store at PC 8 should be eliminated (dead store after forwarding).
    assert!(
        lifted.eliminated_pcs.contains(&8),
        "Store at PC 8 should be a dead store after forwarding"
    );
}

#[test]
fn test_dead_store_elimination_keeps_store_through_loaded_pointer() {
    let cfg = build_test_cfg(
        0,
        vec![(
            0,
            vec![
                (
                    0,
                    Instruction::LoadImm {
                        reg: 1,
                        value: 4096,
                    },
                ),
                (
                    4,
                    Instruction::LoadImm {
                        reg: 2,
                        value: 8192,
                    },
                ),
                (
                    8,
                    Instruction::StoreIndU64 {
                        base: 1,
                        src: 2,
                        offset: 16,
                    },
                ),
                (
                    12,
                    Instruction::LoadIndU64 {
                        dst: 3,
                        base: 1,
                        offset: 16,
                    },
                ),
                (16, Instruction::LoadImm { reg: 4, value: 123 }),
                (
                    20,
                    Instruction::StoreIndU64 {
                        base: 3,
                        src: 4,
                        offset: 0,
                    },
                ),
                (24, Instruction::Trap),
            ],
            vec![],
        )],
    );
    let dataflow = DataFlowAnalysis::analyze(&cfg);
    let lifted = LiftedProgram::analyze(&cfg, &dataflow);

    assert!(
        !lifted.eliminated_pcs.contains(&20),
        "Store through stack-loaded pointer must not be treated as dead stack-slot store"
    );
}

#[test]
fn test_inline_let_declaration() {
    // r0 = 42; trap → should produce "let var_0 = 42"
    let cfg = build_test_cfg(
        0,
        vec![(
            0,
            vec![
                (0, Instruction::LoadImm { reg: 0, value: 42 }),
                (4, Instruction::Trap),
            ],
            vec![],
        )],
    );
    let dataflow = DataFlowAnalysis::analyze(&cfg);
    let mut lifted = LiftedProgram::analyze(&cfg, &dataflow);

    let line = lifted.format_pc(0, &Instruction::LoadImm { reg: 0, value: 42 });
    assert!(
        line.as_deref() == Some("let var_0 = 42"),
        "First use should have 'let' prefix: {:?}",
        line
    );
}

#[test]
fn test_no_let_on_reassignment() {
    // r0 = 42; r0 = 99; trap → second assignment should NOT have 'let'
    let cfg = build_test_cfg(
        0,
        vec![(
            0,
            vec![
                (0, Instruction::LoadImm { reg: 0, value: 42 }),
                (4, Instruction::LoadImm { reg: 0, value: 99 }),
                (8, Instruction::Trap),
            ],
            vec![],
        )],
    );
    let dataflow = DataFlowAnalysis::analyze(&cfg);
    let mut lifted = LiftedProgram::analyze(&cfg, &dataflow);

    // First use: should have let
    let _ = lifted.format_pc(0, &Instruction::LoadImm { reg: 0, value: 42 });
    // Second use: should NOT have let (different def_pc creates a new variable)
    let line = lifted.format_pc(4, &Instruction::LoadImm { reg: 0, value: 99 });
    let line_str = line.as_deref().unwrap_or("");
    // The second definition creates a new variable (var_1), so it gets its own `let`
    assert!(
        line_str.starts_with("let "),
        "Second definition of r0 creates a new variable and should get 'let': {:?}",
        line_str
    );
}

#[test]
fn test_trap_renders_as_return() {
    let cfg = build_test_cfg(0, vec![(0, vec![(0, Instruction::Trap)], vec![])]);
    let dataflow = DataFlowAnalysis::analyze(&cfg);
    let mut lifted = LiftedProgram::analyze(&cfg, &dataflow);

    let line = lifted.format_pc(0, &Instruction::Trap);
    assert_eq!(
        line.as_deref(),
        Some("return"),
        "Trap should be rendered as 'return': {:?}",
        line
    );
}

#[test]
fn test_ecalli_named_host_functions() {
    assert_eq!(ecalli_name(0), "gas_remaining");
    assert_eq!(ecalli_name(3), "read");
    assert_eq!(ecalli_name(4), "write");
    assert_eq!(ecalli_name(17), "checkpoint");
    assert_eq!(ecalli_name(100), "log");
    assert_eq!(ecalli_name(999), "ecalli(999)");
}

#[test]
fn test_ecalli_renders_named() {
    let instr = Instruction::Ecalli { index: 0 };
    let cfg = build_test_cfg(0, vec![(0, vec![(0, instr.clone())], vec![])]);
    let dataflow = DataFlowAnalysis::analyze(&cfg);
    let mut lifted = LiftedProgram::analyze(&cfg, &dataflow);

    let line = lifted.format_pc(0, &instr);
    assert_eq!(
        line.as_deref(),
        Some("gas_remaining()"),
        "ecalli(0) should render as gas_remaining(): {:?}",
        line
    );
}

#[test]
fn test_coalesce_variable() {
    let mut lifted = lifted_with(None);

    // Set up two variables for the same register at different PCs
    lifted.variables.insert(
        (0, 0),
        Variable {
            name: "var_0".to_string(),
            var_type: VarType::U64,
        },
    );
    lifted.var_name_to_def_pc.insert("var_0".to_string(), 0);
    lifted.variables.insert(
        (30, 0),
        Variable {
            name: "var_2".to_string(),
            var_type: VarType::U64,
        },
    );
    lifted.var_name_to_def_pc.insert("var_2".to_string(), 30);

    // Set up var_at_use references
    lifted.var_at_use.insert((10, 0), "var_0".to_string()); // condition uses var_0
    lifted.var_at_use.insert((30, 0), "var_0".to_string()); // step uses var_0 as source
    lifted.var_at_use.insert((20, 0), "var_2".to_string()); // body uses var_2

    // Set up an expression that references var_2
    lifted.expressions.insert(
        30,
        Expression::BinOp {
            op: BinOp::Add,
            lhs: Box::new(Expression::Var("var_2".to_string())),
            rhs: Box::new(Expression::Const(1)),
        },
    );

    // Coalesce: rename var_2 → var_0
    lifted.coalesce_variable("var_2", "var_0");

    // Variable definition should be renamed
    assert_eq!(lifted.variables[&(30, 0)].name, "var_0");

    // var_at_use should be updated
    assert_eq!(lifted.var_at_use[&(20, 0)], "var_0");

    // Expression should have var_0 instead of var_2
    if let Expression::BinOp { lhs, .. } = &lifted.expressions[&30] {
        if let Expression::Var(name) = lhs.as_ref() {
            assert_eq!(name, "var_0", "Expression var should be coalesced");
        } else {
            panic!("Expected Var in lhs");
        }
    } else {
        panic!("Expected BinOp expression");
    }

    // Reverse index should map var_0 → 0 (old_name entry removed, new_name preserved)
    assert!(
        !lifted.var_name_to_def_pc.contains("var_2"),
        "Old name should be removed from reverse index"
    );
    // var_0 should still map (it was already there for def_pc 0)
    assert_eq!(*lifted.var_name_to_def_pc.get("var_0").unwrap(), 0);
}

#[test]
fn test_expression_for_var_uses_reverse_index() {
    let mut lifted = lifted_with(None);

    lifted.variables.insert(
        (10, 0),
        Variable {
            name: "var_0".to_string(),
            var_type: VarType::U64,
        },
    );
    lifted.var_name_to_def_pc.insert("var_0".to_string(), 10);
    lifted.expressions.insert(10, Expression::Const(42));

    // Should find the expression via the reverse index
    let expr = lifted.expression_for_var("var_0");
    assert!(expr.is_some());
    assert!(
        matches!(expr.unwrap(), Expression::Const(42)),
        "Should find expression via reverse index"
    );

    // Unknown variable should return None
    assert!(lifted.expression_for_var("unknown").is_none());
}

#[test]
fn test_lower_ssa_to_lifted_uses_rewrites_instr_backed_use_names() {

    let cfg = build_test_cfg(
        0,
        vec![(
            0,
            vec![
                (0, Instruction::LoadImm { reg: 1, value: 7 }),
                (
                    4,
                    Instruction::Add32 {
                        dst: 2,
                        src1: 1,
                        src2: 0,
                    },
                ),
                (8, Instruction::Trap),
            ],
            vec![],
        )],
    );
    let dom_tree = DominatorTree::compute(&cfg);
    let ssa = SsaProgram::build(&cfg, &dom_tree);

    let mut lifted = lifted_with(None);
    lifted.variables.insert(
        (0, 1),
        Variable {
            name: "var_0".to_string(),
            var_type: VarType::U64,
        },
    );
    // Deliberately wrong initial name for use-site (4, r1)
    lifted.var_at_use.insert((4, 1), "wrong_name".to_string());

    lifted.lower_ssa_to_lifted_uses(&ssa);
    assert_eq!(
        lifted.var_at_use.get(&(4, 1)).map(String::as_str),
        Some("var_0"),
        "SSA lowering should rewrite use-site to the concrete defining variable"
    );
}

#[test]
fn test_is_synthetic_boolean_temp_requires_bool_type_and_boolean_expr() {
    let mut lifted = lifted_with(None);

    lifted.variables.insert(
        (10, 0),
        Variable {
            name: "cond_0".to_string(),
            var_type: VarType::Boolean,
        },
    );
    lifted.var_name_to_def_pc.insert("cond_0".to_string(), 10);
    lifted.expressions.insert(
        10,
        Expression::BinOp {
            op: BinOp::LtU,
            lhs: Box::new(Expression::Var("var_a".to_string())),
            rhs: Box::new(Expression::Var("var_b".to_string())),
        },
    );

    assert!(lifted.is_synthetic_boolean_temp("cond_0", 10));

    // Same expression but non-boolean variable type -> should not qualify.
    lifted.variables.insert(
        (20, 1),
        Variable {
            name: "var_1".to_string(),
            var_type: VarType::U64,
        },
    );
    lifted.var_name_to_def_pc.insert("var_1".to_string(), 20);
    lifted.expressions.insert(
        20,
        Expression::BinOp {
            op: BinOp::LtU,
            lhs: Box::new(Expression::Var("var_x".to_string())),
            rhs: Box::new(Expression::Var("var_y".to_string())),
        },
    );
    assert!(!lifted.is_synthetic_boolean_temp("var_1", 20));
}

#[test]
fn test_struct_field_access_formatting() {
    // Load from ptr_0 + 8 → ptr_0->field_8
    let load = Expression::Load {
        width: MemWidth::U64,
        base: Box::new(Expression::Var("ptr_0".to_string())),
        offset: 8,
    };
    assert_eq!(format_expression(&load, &ctx()), "ptr_0->field_8");

    // Load from ptr_0 + 0 → ptr_0->field_0
    let load_zero = Expression::Load {
        width: MemWidth::U32,
        base: Box::new(Expression::Var("ptr_0".to_string())),
        offset: 0,
    };
    assert_eq!(format_expression(&load_zero, &ctx()), "ptr_0->field_0");

    // Store to ptr_1 + 12 → ptr_1->field_12 = value
    let store = Expression::Store {
        width: MemWidth::U32,
        base: Box::new(Expression::Var("ptr_1".to_string())),
        offset: 12,
        value: Box::new(Expression::Var("var_0".to_string())),
    };
    assert_eq!(format_expression(&store, &ctx()), "ptr_1->field_12 = var_0");

    // Non-pointer base should NOT use struct notation
    let load_var = Expression::Load {
        width: MemWidth::U64,
        base: Box::new(Expression::Var("var_0".to_string())),
        offset: 8,
    };
    assert_eq!(format_expression(&load_var, &ctx()), "u64[var_0 + 8]");

    // Negative offset should NOT use struct notation
    let load_neg = Expression::Load {
        width: MemWidth::U64,
        base: Box::new(Expression::Var("ptr_0".to_string())),
        offset: -4,
    };
    assert_eq!(format_expression(&load_neg, &ctx()), "u64[ptr_0 - 4]");
}

#[test]
fn test_array_access_formatting() {
    // u32 load: base + index * 4 → base[index]
    let load = Expression::Load {
        width: MemWidth::U32,
        base: Box::new(Expression::BinOp {
            op: BinOp::Add,
            lhs: Box::new(Expression::Var("ptr_0".to_string())),
            rhs: Box::new(Expression::BinOp {
                op: BinOp::Mul,
                lhs: Box::new(Expression::Var("var_1".to_string())),
                rhs: Box::new(Expression::Const(4)),
            }),
        }),
        offset: 0,
    };
    assert_eq!(format_expression(&load, &ctx()), "ptr_0[var_1]");

    // u64 load: base + index * 8 → base[index]
    let load64 = Expression::Load {
        width: MemWidth::U64,
        base: Box::new(Expression::BinOp {
            op: BinOp::Add,
            lhs: Box::new(Expression::Var("arr".to_string())),
            rhs: Box::new(Expression::BinOp {
                op: BinOp::Mul,
                lhs: Box::new(Expression::Var("i".to_string())),
                rhs: Box::new(Expression::Const(8)),
            }),
        }),
        offset: 0,
    };
    assert_eq!(format_expression(&load64, &ctx()), "arr[i]");

    // u16 load: base + index * 2 → base[index]
    let load16 = Expression::Load {
        width: MemWidth::U16,
        base: Box::new(Expression::BinOp {
            op: BinOp::Add,
            lhs: Box::new(Expression::Var("buf".to_string())),
            rhs: Box::new(Expression::BinOp {
                op: BinOp::Mul,
                lhs: Box::new(Expression::Var("idx".to_string())),
                rhs: Box::new(Expression::Const(2)),
            }),
        }),
        offset: 0,
    };
    assert_eq!(format_expression(&load16, &ctx()), "buf[idx]");

    // Wrong multiplier: u32 load with * 8 should NOT match
    let load_wrong = Expression::Load {
        width: MemWidth::U32,
        base: Box::new(Expression::BinOp {
            op: BinOp::Add,
            lhs: Box::new(Expression::Var("ptr_0".to_string())),
            rhs: Box::new(Expression::BinOp {
                op: BinOp::Mul,
                lhs: Box::new(Expression::Var("var_1".to_string())),
                rhs: Box::new(Expression::Const(8)),
            }),
        }),
        offset: 0,
    };
    assert_eq!(
        format_expression(&load_wrong, &ctx()),
        "u32[ptr_0 + var_1 * 8]"
    );

    // Non-zero offset: should NOT match array pattern
    let load_offset = Expression::Load {
        width: MemWidth::U32,
        base: Box::new(Expression::BinOp {
            op: BinOp::Add,
            lhs: Box::new(Expression::Var("ptr_0".to_string())),
            rhs: Box::new(Expression::BinOp {
                op: BinOp::Mul,
                lhs: Box::new(Expression::Var("var_1".to_string())),
                rhs: Box::new(Expression::Const(4)),
            }),
        }),
        offset: 8,
    };
    assert_eq!(
        format_expression(&load_offset, &ctx()),
        "u32[ptr_0 + var_1 * 4 + 8]"
    );

    // Store: base + index * 4 = value → base[index] = value
    let store = Expression::Store {
        width: MemWidth::U32,
        base: Box::new(Expression::BinOp {
            op: BinOp::Add,
            lhs: Box::new(Expression::Var("arr".to_string())),
            rhs: Box::new(Expression::BinOp {
                op: BinOp::Mul,
                lhs: Box::new(Expression::Var("i".to_string())),
                rhs: Box::new(Expression::Const(4)),
            }),
        }),
        offset: 0,
        value: Box::new(Expression::Const(42)),
    };
    assert_eq!(format_expression(&store, &ctx()), "arr[i] = 42");

    // Commutative: index * 4 + base → base[index]
    let load_comm = Expression::Load {
        width: MemWidth::U32,
        base: Box::new(Expression::BinOp {
            op: BinOp::Add,
            lhs: Box::new(Expression::BinOp {
                op: BinOp::Mul,
                lhs: Box::new(Expression::Var("var_1".to_string())),
                rhs: Box::new(Expression::Const(4)),
            }),
            rhs: Box::new(Expression::Var("ptr_0".to_string())),
        }),
        offset: 0,
    };
    assert_eq!(format_expression(&load_comm, &ctx()), "ptr_0[var_1]");

    // Byte-width (u8) should NOT trigger array pattern even with * 1
    let load_u8 = Expression::Load {
        width: MemWidth::U8,
        base: Box::new(Expression::BinOp {
            op: BinOp::Add,
            lhs: Box::new(Expression::Var("buf".to_string())),
            rhs: Box::new(Expression::Var("i".to_string())),
        }),
        offset: 0,
    };
    assert_eq!(format_expression(&load_u8, &ctx()), "u8[buf + i]");

    // Struct field access should take priority: ptr_ base with non-zero offset
    // is struct, not array (even if the base contains a multiply)
    let struct_load = Expression::Load {
        width: MemWidth::U32,
        base: Box::new(Expression::Var("ptr_0".to_string())),
        offset: 8,
    };
    assert_eq!(format_expression(&struct_load, &ctx()), "ptr_0->field_8");
}

#[test]
fn test_indirect_call_resolution() {
    // JumpInd with a register holding a known function entry constant
    // resolve_indirect_call should find the function name
    let cfg = build_test_cfg(
        0,
        vec![(
            0,
            vec![
                (
                    0,
                    Instruction::LoadImm {
                        reg: 5,
                        value: 0x200,
                    },
                ),
                (4, Instruction::JumpInd { reg: 5, offset: 0 }),
            ],
            vec![],
        )],
    );

    let dataflow = DataFlowAnalysis::analyze(&cfg);
    let mut lifted = LiftedProgram::analyze(&cfg, &dataflow);
    // Register address 0x200 as a function
    lifted.call_targets.insert(0x200, "helper".to_string());

    // resolve_indirect_call should find the target
    let resolved = lifted.resolve_indirect_call(4, 5);
    assert_eq!(
        resolved.as_deref(),
        Some("helper"),
        "Should resolve indirect call to known function"
    );
}

#[test]
fn test_indirect_call_unknown_target() {
    // JumpInd with an unknown target should render as call_indirect(var)
    let cfg = build_test_cfg(
        0,
        vec![(
            0,
            vec![
                (0, Instruction::LoadImm { reg: 3, value: 42 }),
                (4, Instruction::JumpInd { reg: 3, offset: 0 }),
            ],
            vec![],
        )],
    );

    let dataflow = DataFlowAnalysis::analyze(&cfg);
    let lifted = LiftedProgram::analyze(&cfg, &dataflow);
    // No call_targets set — resolve should return None

    let resolved = lifted.resolve_indirect_call(4, 3);
    assert!(resolved.is_none(), "Unknown target should not resolve");

    // The expression should be call_indirect
    let expr = lifted.expressions.get(&4);
    assert!(expr.is_some());
    let formatted = format_expression(expr.unwrap(), &ctx());
    assert!(
        formatted.contains("call_indirect"),
        "Unknown target should render as call_indirect: {}",
        formatted
    );
}

#[test]
fn test_named_globals_in_load() {
    // resolve_named_global should return named constants for known PVM addresses
    let expr_heap_ptr = Expression::Load {
        width: MemWidth::U32,
        base: Box::new(Expression::Const(0x30008)),
        offset: 0,
    };
    assert_eq!(format_expression(&expr_heap_ptr, &ctx()), "HEAP_PTR");

    let expr_result_ptr = Expression::Load {
        width: MemWidth::U32,
        base: Box::new(Expression::Const(0x30000)),
        offset: 0,
    };
    assert_eq!(format_expression(&expr_result_ptr, &ctx()), "RESULT_PTR");

    let expr_result_len = Expression::Load {
        width: MemWidth::U32,
        base: Box::new(Expression::Const(0x30004)),
        offset: 0,
    };
    assert_eq!(format_expression(&expr_result_len, &ctx()), "RESULT_LEN");

    let expr_heap_pages = Expression::Load {
        width: MemWidth::U32,
        base: Box::new(Expression::Const(0x3000C)),
        offset: 0,
    };
    assert_eq!(format_expression(&expr_heap_pages, &ctx()), "HEAP_PAGES");
}

#[test]
fn test_named_globals_in_store() {
    let expr = Expression::Store {
        width: MemWidth::U32,
        base: Box::new(Expression::Const(0x30008)),
        offset: 0,
        value: Box::new(Expression::Const(1036)),
    };
    assert_eq!(format_expression(&expr, &ctx()), "HEAP_PTR = 1036");
}

#[test]
fn test_memory_base_simplification() {
    let ctx = FormatContext::new(Some(0x50000));

    // x + (-0x50000) → wasm_ptr(x)
    let expr = Expression::BinOp {
        op: BinOp::Add,
        lhs: Box::new(Expression::Var("addr".to_string())),
        rhs: Box::new(Expression::Const(-0x50000)),
    };
    assert_eq!(format_expression(&expr, &ctx), "wasm_ptr(addr)");

    // x + 0x50000 → pvm_addr(x)
    let expr2 = Expression::BinOp {
        op: BinOp::Add,
        lhs: Box::new(Expression::Var("offset".to_string())),
        rhs: Box::new(Expression::Const(0x50000)),
    };
    assert_eq!(format_expression(&expr2, &ctx), "pvm_addr(offset)");

    // ptr->field_0x50000 → u32[ptr] (linear memory access, width-preserving)
    let load = Expression::Load {
        width: MemWidth::U32,
        base: Box::new(Expression::Var("ptr_0".to_string())),
        offset: 0x50000,
    };
    assert_eq!(format_expression(&load, &ctx), "u32[ptr_0]");

    // u8[var + 0x50000] → u8[var]  (base is BinOp with memory base)
    let load2 = Expression::Load {
        width: MemWidth::U8,
        base: Box::new(Expression::BinOp {
            op: BinOp::Add,
            lhs: Box::new(Expression::Var("idx".to_string())),
            rhs: Box::new(Expression::Const(0x50000)),
        }),
        offset: 0,
    };
    assert_eq!(format_expression(&load2, &ctx), "u8[idx]");

    // u32[0] for constant address = memory base
    let load3 = Expression::Load {
        width: MemWidth::U32,
        base: Box::new(Expression::Const(0x50000)),
        offset: 0,
    };
    assert_eq!(format_expression(&load3, &ctx), "u32[0]");
}

#[test]
fn test_linear_memory_offset_rendering_is_deref_only() {
    let mut ctx = FormatContext::new(None);
    ctx.linear_memory_offset = Some(0x50000);

    // Outside dereference context, keep arithmetic explicit.
    let arithmetic = Expression::BinOp {
        op: BinOp::Add,
        lhs: Box::new(Expression::Var("addr".to_string())),
        rhs: Box::new(Expression::Const(-0x50000)),
    };
    assert_eq!(format_expression(&arithmetic, &ctx), "addr - 0x50000");

    // Pointer-like bases use dereference form when offset matches linear_memory_offset.
    let ptr_load = Expression::Load {
        width: MemWidth::U32,
        base: Box::new(Expression::Var("ptr_data".to_string())),
        offset: 0x50000,
    };
    assert_eq!(format_expression(&ptr_load, &ctx), "*ptr_data");

    // Non-pointer names should preserve arithmetic addressing.
    let non_ptr_load = Expression::Load {
        width: MemWidth::U32,
        base: Box::new(Expression::Var("idx".to_string())),
        offset: 0x50000,
    };
    assert_eq!(format_expression(&non_ptr_load, &ctx), "u32[idx + 0x50000]");
}

fn empty_lifted() -> LiftedProgram {
    lifted_with(None)
}

#[test]
fn test_resolve_eliminated_vars() {
    let mut lifted = empty_lifted();

    // Define var_a = 42 at PC 0 (eliminated)
    lifted.variables.insert(
        (0, 2),
        Variable {
            name: "var_a".to_string(),
            var_type: VarType::U64,
        },
    );
    lifted.expressions.insert(0, Expression::Const(42));
    lifted.var_name_to_def_pc.insert("var_a".to_string(), 0);
    lifted.eliminated_pcs.insert(0);

    // Define var_b = var_a + 10 at PC 5 (eliminated)
    lifted.variables.insert(
        (5, 3),
        Variable {
            name: "var_b".to_string(),
            var_type: VarType::U64,
        },
    );
    lifted.expressions.insert(
        5,
        Expression::BinOp {
            op: BinOp::Add,
            lhs: Box::new(Expression::Var("var_a".to_string())),
            rhs: Box::new(Expression::Const(10)),
        },
    );
    lifted.var_name_to_def_pc.insert("var_b".to_string(), 5);
    lifted.eliminated_pcs.insert(5);

    // Define var_c = var_b * 2 at PC 10 (NOT eliminated — still live)
    lifted.variables.insert(
        (10, 4),
        Variable {
            name: "var_c".to_string(),
            var_type: VarType::U64,
        },
    );
    lifted.expressions.insert(
        10,
        Expression::BinOp {
            op: BinOp::Mul,
            lhs: Box::new(Expression::Var("var_b".to_string())),
            rhs: Box::new(Expression::Const(2)),
        },
    );
    lifted.var_name_to_def_pc.insert("var_c".to_string(), 10);

    // Expression referencing eliminated var_b: should resolve to (42 + 10)
    let expr = Expression::Var("var_b".to_string());
    let resolved = lifted.resolve_eliminated_vars(&expr);
    assert_eq!(
        format_expression(&resolved, &ctx()),
        "42 + 10",
        "var_b should be resolved to its definition (42 + 10)"
    );

    // Expression referencing live var_c: should stay as var_c
    let expr2 = Expression::Var("var_c".to_string());
    let resolved2 = lifted.resolve_eliminated_vars(&expr2);
    assert_eq!(
        format_expression(&resolved2, &ctx()),
        "var_c",
        "var_c should NOT be resolved (not eliminated)"
    );

    // Compound expression: var_b + var_c should partially resolve
    let compound = Expression::BinOp {
        op: BinOp::Add,
        lhs: Box::new(Expression::Var("var_b".to_string())),
        rhs: Box::new(Expression::Var("var_c".to_string())),
    };
    let resolved3 = lifted.resolve_eliminated_vars(&compound);
    assert_eq!(
        format_expression(&resolved3, &ctx()),
        "42 + 10 + var_c",
        "Should resolve eliminated var_b but keep live var_c"
    );
}
