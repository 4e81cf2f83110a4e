use domtree::cfg::BlockId;
use domtree::dfg::{DataFlowGraph, ValueDef};
use domtree::insn::{BinaryOp, CastOp, ImmediateOp, Insn, InsnData, JumpOp};
use domtree::types::{Type, Value};

#[test]
fn dfg_blocks_and_params() {
    let mut dfg = DataFlowGraph::new();
    let b0 = dfg.make_block();
    let b1 = dfg.make_block();
    assert_eq!(b0, BlockId(0));
    assert_eq!(b1, BlockId(1));

    let v0 = dfg.append_block_param(b0, Type::I32);
    let v1 = dfg.append_block_param(b0, Type::I64);
    assert_eq!(dfg.block_data(b0).params, vec![v0, v1]);
    assert_eq!(dfg.value_ty(v0), Type::I32);
    assert_eq!(dfg.value_ty(v1), Type::I64);
    assert!(matches!(dfg.value_def(v0), ValueDef::Param(b) if b == b0));

    dfg.remove_block_param(b0, v0);
    assert_eq!(dfg.block_data(b0).params, vec![v1]);
    dfg.remove_block_param(b0, v0);
    assert_eq!(dfg.block_data(b0).params, vec![v1]);
    assert!(dfg.block_data(b1).params.is_empty());
}

#[test]
fn dfg_insns() {
    let mut dfg = DataFlowGraph::new();
    let jump = InsnData::jump(BlockId(3));
    assert_eq!(
        jump,
        InsnData::Jump { code: JumpOp::Jump, dests: [BlockId(3)] }
    );
    let i0 = dfg.make_insn(jump.clone());
    assert_eq!(i0, Insn(0));
    assert_eq!(dfg.insn_data(i0), &jump);
    assert_eq!(dfg.insn_result(i0), None);
    assert!(dfg.insn_args(i0).is_empty());

    let b = dfg.make_block();
    let v0 = dfg.append_block_param(b, Type::I8);
    let store = InsnData::Store { args: [v0, v0] };
    let i1 = dfg.make_insn(store);
    assert_eq!(dfg.insn_args(i1), vec![v0, v0]);
}

#[test]
fn insn_branch_dests_and_args() {
    let jump = InsnData::jump(BlockId(1));
    assert_eq!(jump.branch_dests(), vec![BlockId(1)]);
    let br = InsnData::Branch { args: [Value(0)], dests: [BlockId(1), BlockId(2)] };
    assert_eq!(br.branch_dests(), vec![BlockId(1), BlockId(2)]);
    assert_eq!(br.args(), vec![Value(0)]);
    let imm = InsnData::Immediate { code: ImmediateOp::U8(3) };
    assert!(imm.branch_dests().is_empty());
    assert!(imm.args().is_empty());
    let ret = InsnData::Return { args: vec![Value(4), Value(5)] };
    assert_eq!(ret.args(), vec![Value(4), Value(5)]);

    let mut bin = InsnData::Binary { code: BinaryOp::Add, args: [Value(1), Value(2)] };
    bin.replace_arg(Value(9), 1);
    assert_eq!(bin.args(), vec![Value(1), Value(9)]);
}

#[test]
fn insn_side_effects_and_types() {
    assert!(InsnData::Store { args: [Value(0), Value(1)] }.has_side_effect());
    assert!(InsnData::Load { args: [Value(0)], ty: Type::I8 }.has_side_effect());
    assert!(InsnData::Return { args: vec![] }.has_side_effect());
    assert!(!InsnData::jump(BlockId(0)).has_side_effect());

    let dfg = DataFlowGraph::new();
    assert_eq!(
        InsnData::Immediate { code: ImmediateOp::I64(7) }.result_type(&dfg),
        Some(Type::I64)
    );
    assert_eq!(
        InsnData::Load { args: [Value(0)], ty: Type::I256 }.result_type(&dfg),
        Some(Type::I256)
    );
    assert_eq!(InsnData::Store { args: [Value(0), Value(1)] }.result_type(&dfg), None);

    let mut dfg = DataFlowGraph::new();
    let b = dfg.make_block();
    let v = dfg.append_block_param(b, Type::I128);
    assert_eq!(
        InsnData::Binary { code: BinaryOp::Mul, args: [v, v] }.result_type(&dfg),
        Some(Type::I128)
    );
}

#[test]
fn immediate_result_types() {
    assert_eq!(ImmediateOp::I8(-1).result_type(), Type::I8);
    assert_eq!(ImmediateOp::U8(1).result_type(), Type::I8);
    assert_eq!(ImmediateOp::I16(2).result_type(), Type::I16);
    assert_eq!(ImmediateOp::U16(2).result_type(), Type::I16);
    assert_eq!(ImmediateOp::I32(-5).result_type(), Type::I32);
    assert_eq!(ImmediateOp::U32(5).result_type(), Type::I32);
    assert_eq!(ImmediateOp::I64(6).result_type(), Type::I64);
    assert_eq!(ImmediateOp::U64(6).result_type(), Type::I64);
    assert_eq!(ImmediateOp::I128(7).result_type(), Type::I128);
    assert_eq!(ImmediateOp::U128(7).result_type(), Type::I128);
    assert_eq!(
        ImmediateOp::U256(domtree::types::U256 { lo: 1, hi: 0 }).result_type(),
        Type::I256
    );
}

#[test]
fn op_mnemonics() {
    assert_eq!(BinaryOp::Add.as_str(), "add");
    assert_eq!(BinaryOp::Sub.as_str(), "sub");
    assert_eq!(BinaryOp::Mul.as_str(), "mul");
    assert_eq!(BinaryOp::UDiv.as_str(), "udiv");
    assert_eq!(BinaryOp::SDiv.as_str(), "sdiv");
    assert_eq!(BinaryOp::Lt.as_str(), "lt");
    assert_eq!(BinaryOp::Gt.as_str(), "gt");
    assert_eq!(BinaryOp::Slt.as_str(), "slt");
    assert_eq!(BinaryOp::Sgt.as_str(), "sgt");
    assert_eq!(BinaryOp::Eq.as_str(), "eq");
    assert_eq!(BinaryOp::And.as_str(), "and");
    assert_eq!(BinaryOp::Or.as_str(), "or");
    assert_eq!(CastOp::Sext.as_str(), "sext");
    assert_eq!(CastOp::Zext.as_str(), "zext");
    assert_eq!(CastOp::Trunc.as_str(), "trunc");
    assert_eq!(JumpOp::Jump.as_str(), "jump");
    assert_eq!(JumpOp::FallThrough.as_str(), "fallthrough");
}

#[test]
fn cmp_insts_hold_their_operands() {
    let lt = domtree::cmp::Lt { lhs: Value(1), rhs: Value(2) };
    assert_eq!(lt, domtree::cmp::Lt { lhs: Value(1), rhs: Value(2) });
    let eq = domtree::cmp::Eq { lhs: Value(3), rhs: Value(3) };
    assert_eq!(eq.lhs, eq.rhs);
    let z = domtree::cmp::IsZero { lhs: Value(0) };
    assert_eq!(z.lhs, Value(0));
    let ne = domtree::cmp::Ne { lhs: Value(1), rhs: Value(4) };
    assert_ne!(ne.lhs, ne.rhs);
    let _ = (
        domtree::cmp::Gt { lhs: Value(0), rhs: Value(1) },
        domtree::cmp::Slt { lhs: Value(0), rhs: Value(1) },
        domtree::cmp::Sgt { lhs: Value(0), rhs: Value(1) },
        domtree::cmp::Le { lhs: Value(0), rhs: Value(1) },
        domtree::cmp::Ge { lhs: Value(0), rhs: Value(1) },
        domtree::cmp::Sle { lhs: Value(0), rhs: Value(1) },
        domtree::cmp::Sge { lhs: Value(0), rhs: Value(1) },
    );
}
