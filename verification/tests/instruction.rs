#![allow(unused_imports, unused_mut)]

use pvm_decompiler::instruction::{BinOp, BitWidth, InstructionShape, MemWidth, UnaryOp};
use pvm_decompiler::pvm::Instruction;

#[test]
fn test_classify_unknown() {
    let instr = Instruction::Unknown {
        opcode: 0xAB,
        raw_bytes: vec![0xAB, 0x01],
    };
    let shape = InstructionShape::classify(&instr);
    assert!(matches!(shape, InstructionShape::Unknown { opcode: 0xAB }));
}

#[test]
fn test_unknown_format_raw() {
    let shape = InstructionShape::Unknown { opcode: 0xFF };
    assert_eq!(shape.format_raw(), "/* unknown opcode 0xff */");
}

#[test]
fn test_unknown_def_use_conservative() {
    let shape = InstructionShape::Unknown { opcode: 0xFF };
    let (defs, uses) = shape.def_use();
    let all_regs: Vec<u8> = (0..=12).collect();
    assert_eq!(defs, all_regs);
    assert_eq!(uses, all_regs);
}

#[test]
fn test_unknown_no_def_reg() {
    let shape = InstructionShape::Unknown { opcode: 0xFF };
    assert_eq!(shape.def_reg(), None);
}

#[test]
fn test_classify_add32() {
    let instr = Instruction::Add32 {
        dst: 3,
        src1: 1,
        src2: 2,
    };
    let shape = InstructionShape::classify(&instr);
    assert!(matches!(
        shape,
        InstructionShape::BinReg {
            op: BinOp::Add,
            width: BitWidth::W32,
            dst: 3,
            src1: 1,
            src2: 2,
        }
    ));
    assert_eq!(shape.format_raw(), "r3 = r1 + r2");
}

#[test]
fn test_classify_add64_format() {
    let instr = Instruction::Add64 {
        dst: 0,
        src1: 1,
        src2: 2,
    };
    let shape = InstructionShape::classify(&instr);
    assert_eq!(shape.format_raw(), "r0 = r1 +64 r2");
}

#[test]
fn test_is_terminator() {
    assert!(InstructionShape::Jump { offset: 10 }.is_terminator());
    assert!(InstructionShape::JumpInd { reg: 0 }.is_terminator());
    assert!(InstructionShape::NoOp { name: "trap" }.is_terminator());
    assert!(
        InstructionShape::BranchImm {
            cond: "==",
            reg: 0,
            value: 0,
            offset: 5,
        }
        .is_terminator()
    );
    assert!(
        InstructionShape::BranchReg {
            cond: "<u",
            reg1: 0,
            reg2: 1,
            offset: 5,
        }
        .is_terminator()
    );

    // Non-terminators
    assert!(
        !InstructionShape::NoOp {
            name: "fallthrough"
        }
        .is_terminator()
    );
    assert!(!InstructionShape::LoadImm { dst: 0, value: 42 }.is_terminator());
    assert!(!InstructionShape::Unknown { opcode: 0xFF }.is_terminator());
}

#[test]
fn test_branch_offset() {
    assert_eq!(
        InstructionShape::Jump { offset: 10 }.branch_offset(),
        Some(10)
    );
    assert_eq!(
        InstructionShape::BranchImm {
            cond: "==",
            reg: 0,
            value: 0,
            offset: -5,
        }
        .branch_offset(),
        Some(-5)
    );
    assert_eq!(InstructionShape::JumpInd { reg: 0 }.branch_offset(), None);
    assert_eq!(
        InstructionShape::NoOp { name: "trap" }.branch_offset(),
        None
    );
}

#[test]
fn test_is_conditional_branch() {
    assert!(
        InstructionShape::BranchImm {
            cond: "==",
            reg: 0,
            value: 0,
            offset: 5,
        }
        .is_conditional_branch()
    );
    assert!(!InstructionShape::Jump { offset: 5 }.is_conditional_branch());
    assert!(!InstructionShape::JumpInd { reg: 0 }.is_conditional_branch());
}

#[test]
fn test_classify_load_store() {
    let load = Instruction::LoadIndU32 {
        dst: 1,
        base: 2,
        offset: 8,
    };
    let shape = InstructionShape::classify(&load);
    assert_eq!(shape.format_raw(), "r1 = u32[r2 + 8]");
    assert_eq!(shape.def_reg(), Some(1));

    let store = Instruction::StoreIndU64 {
        base: 3,
        src: 4,
        offset: 0,
    };
    let shape = InstructionShape::classify(&store);
    assert_eq!(shape.format_raw(), "u64[r3 + 0] = r4");
    assert_eq!(shape.def_reg(), None);
}

#[test]
fn test_classify_unary() {
    let instr = Instruction::SignExtend8 { dst: 5, src: 6 };
    let shape = InstructionShape::classify(&instr);
    assert_eq!(shape.format_raw(), "r5 = sext8(r6)");
    let (defs, uses) = shape.def_use();
    assert_eq!(defs, vec![5]);
    assert_eq!(uses, vec![6]);
}
