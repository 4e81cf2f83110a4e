//! Instruction definitions: opaque instruction handles, instruction data
//! with branch destinations and arguments, and the operation kinds.

use vstd::prelude::*;

use crate::cfg::BlockId;
use crate::dfg::DataFlowGraph;
use crate::types::{Type, U256, Value};

verus! {

/// An opaque reference to an instruction.
#[derive(Debug, Clone, PartialEq, Eq, Copy, Hash, PartialOrd, Ord, Structural)]
pub struct Insn(pub u32);

/// An instruction data definition.
#[derive(Debug, Clone, PartialEq, Eq)]
pub enum InsnData {
    /// Immediate instruction.
    Immediate { code: ImmediateOp },
    /// Binary instruction.
    Binary { code: BinaryOp, args: [Value; 2] },
    /// Cast operations.
    Cast { code: CastOp, args: [Value; 1], ty: Type },
    /// Load a value from memory.
    Load { args: [Value; 1], ty: Type },
    /// Store a value to memory.
    Store { args: [Value; 2] },
    /// Unconditional jump operations.
    Jump { code: JumpOp, dests: [BlockId; 1] },
    /// Conditional jump operations.
    Branch { args: [Value; 1], dests: [BlockId; 2] },
    /// Return.
    Return { args: Vec<Value> },
    /// Phi function.
    Phi { values: Vec<Value>, blocks: Vec<BlockId>, ty: Type },
}

impl InsnData {
    /// The branch destinations of a terminator; empty for instructions that
    /// do not branch.
    pub open spec fn branch_dests_spec(self) -> Seq<BlockId> {
        match self {
            InsnData::Jump { dests, .. } => dests@,
            InsnData::Branch { dests, .. } => dests@,
            _ => Seq::empty(),
        }
    }

    /// The value arguments of an instruction.
    pub open spec fn args_spec(self) -> Seq<Value> {
        match self {
            InsnData::Binary { args, .. } => args@,
            InsnData::Store { args, .. } => args@,
            InsnData::Cast { args, .. } => args@,
            InsnData::Load { args, .. } => args@,
            InsnData::Branch { args, .. } => args@,
            InsnData::Phi { values, .. } => values@,
            InsnData::Return { args } => args@,
            _ => Seq::empty(),
        }
    }

    /// An unconditional jump to `dest`.
    pub fn jump(dest: BlockId) -> (r: InsnData)
        ensures
            r == (InsnData::Jump { code: JumpOp::Jump, dests: [dest] }),
    {
        InsnData::Jump { code: JumpOp::Jump, dests: [dest] }
    }

    /// The branch destinations, empty for non-branching instructions.
    pub fn branch_dests(&self) -> (r: Vec<BlockId>)
        ensures
            r@ == self.branch_dests_spec(),
    {
        let mut r: Vec<BlockId> = Vec::new();
        match self {
            InsnData::Jump { dests, .. } => {
                r.push(dests[0]);
                assert(r@ =~= dests@);
            },
            InsnData::Branch { dests, .. } => {
                r.push(dests[0]);
                r.push(dests[1]);
                assert(r@ =~= dests@);
            },
            _ => {
                assert(r@ =~= self.branch_dests_spec());
            },
        }
        r
    }

    /// The value arguments of the instruction.
    pub fn args(&self) -> (r: Vec<Value>)
        ensures
            r@ == self.args_spec(),
    {
        match self {
            InsnData::Binary { args, .. } => {
                let mut r: Vec<Value> = Vec::new();
                r.push(args[0]);
                r.push(args[1]);
                assert(r@ =~= args@);
                r
            },
            InsnData::Store { args, .. } => {
                let mut r: Vec<Value> = Vec::new();
                r.push(args[0]);
                r.push(args[1]);
                assert(r@ =~= args@);
                r
            },
            InsnData::Cast { args, .. } => {
                let mut r: Vec<Value> = Vec::new();
                r.push(args[0]);
                assert(r@ =~= args@);
                r
            },
            InsnData::Load { args, .. } => {
                let mut r: Vec<Value> = Vec::new();
                r.push(args[0]);
                assert(r@ =~= args@);
                r
            },
            InsnData::Branch { args, .. } => {
                let mut r: Vec<Value> = Vec::new();
                r.push(args[0]);
                assert(r@ =~= args@);
                r
            },
            InsnData::Phi { values, .. } => values.clone(),
            InsnData::Return { args } => args.clone(),
            _ => {
                let r: Vec<Value> = Vec::new();
                assert(r@ =~= self.args_spec());
                r
            },
        }
    }

    /// The instruction keeps its variant and every field other than the
    /// value arguments: the opcode, the result type, the destinations and a
    /// phi's block list.
    pub open spec fn same_shape(self, other: InsnData) -> bool {
        match (self, other) {
            (InsnData::Immediate { code: c1 }, InsnData::Immediate { code: c2 }) => c1 == c2,
            (InsnData::Binary { code: c1, .. }, InsnData::Binary { code: c2, .. }) => c1 == c2,
            (
                InsnData::Cast { code: c1, ty: t1, .. },
                InsnData::Cast { code: c2, ty: t2, .. },
            ) => c1 == c2 && t1 == t2,
            (InsnData::Load { ty: t1, .. }, InsnData::Load { ty: t2, .. }) => t1 == t2,
            (InsnData::Store { .. }, InsnData::Store { .. }) => true,
            (
                InsnData::Jump { code: c1, dests: d1 },
                InsnData::Jump { code: c2, dests: d2 },
            ) => c1 == c2 && d1 == d2,
            (
                InsnData::Branch { dests: d1, .. },
                InsnData::Branch { dests: d2, .. },
            ) => d1 == d2,
            (InsnData::Return { .. }, InsnData::Return { .. }) => true,
            (
                InsnData::Phi { blocks: b1, ty: t1, .. },
                InsnData::Phi { blocks: b2, ty: t2, .. },
            ) => b1 == b2 && t1 == t2,
            _ => false,
        }
    }

    /// Replaces the argument at `idx` with `new_arg`; everything else about
    /// the instruction is unchanged.
    pub fn replace_arg(&mut self, new_arg: Value, idx: usize)
        requires
            idx < old(self).args_spec().len(),
        ensures
            final(self).args_spec() == old(self).args_spec().update(idx as int, new_arg),
            final(self).same_shape(*old(self)),
    {
        match self {
            InsnData::Binary { args, .. } => {
                args[idx] = new_arg;
            },
            InsnData::Store { args, .. } => {
                args[idx] = new_arg;
            },
            InsnData::Cast { args, .. } => {
                args[idx] = new_arg;
            },
            InsnData::Load { args, .. } => {
                args[idx] = new_arg;
            },
            InsnData::Branch { args, .. } => {
                args[idx] = new_arg;
            },
            InsnData::Phi { values, .. } => {
                values.set(idx, new_arg);
            },
            InsnData::Return { args } => {
                args.set(idx, new_arg);
            },
            _ => {
                proof {
                    assert(false);
                }
            },
        }
        assert(self.args_spec() =~= old(self).args_spec().update(idx as int, new_arg));
    }

    /// Whether the instruction's effect must be kept even when its result is
    /// unused. `Load` counts as having a side effect because it may trap.
    pub fn has_side_effect(&self) -> (r: bool)
        ensures
            r == (self matches InsnData::Load { .. } || self matches InsnData::Store { .. }
                || self matches InsnData::Return { .. }),
    {
        matches!(self, InsnData::Load { .. } | InsnData::Store { .. } | InsnData::Return { .. })
    }

    /// The type of the instruction's result, or `None` for instructions
    /// without one.
    pub fn result_type(&self, dfg: &DataFlowGraph) -> (r: Option<Type>)
        requires
            self matches InsnData::Binary { args, .. } ==> dfg.value_valid(args[0]),
        ensures
            r == match *self {
                InsnData::Immediate { code } => Some(code.result_type_spec()),
                InsnData::Binary { args, .. } => Some(dfg.value_ty_spec(args[0])),
                InsnData::Cast { ty, .. } => Some(ty),
                InsnData::Load { ty, .. } => Some(ty),
                InsnData::Phi { ty, .. } => Some(ty),
                _ => None::<Type>,
            },
    {
        match self {
            InsnData::Immediate { code } => Some(code.result_type()),
            InsnData::Binary { code, args } => Some(code.result_type(dfg, args)),
            InsnData::Cast { ty, .. } => Some(*ty),
            InsnData::Load { ty, .. } => Some(*ty),
            InsnData::Phi { ty, .. } => Some(*ty),
            _ => None,
        }
    }
}

/// Immediates.
#[derive(Debug, Clone, Copy, PartialEq, Eq)]
pub enum ImmediateOp {
    I8(i8),
    I16(i16),
    I32(i32),
    I64(i64),
    I128(i128),
    U8(u8),
    U16(u16),
    U32(u32),
    U64(u64),
    U128(u128),
    U256(U256),
}

impl ImmediateOp {
    /// The value type an immediate of this kind produces.
    pub open spec fn result_type_spec(self) -> Type {
        match self {
            ImmediateOp::I8(_) => Type::I8,
            ImmediateOp::U8(_) => Type::I8,
            ImmediateOp::I16(_) => Type::I16,
            ImmediateOp::U16(_) => Type::I16,
            ImmediateOp::I32(_) => Type::I32,
            ImmediateOp::U32(_) => Type::I32,
            ImmediateOp::I64(_) => Type::I64,
            ImmediateOp::U64(_) => Type::I64,
            ImmediateOp::I128(_) => Type::I128,
            ImmediateOp::U128(_) => Type::I128,
            ImmediateOp::U256(_) => Type::I256,
        }
    }

    /// The value type an immediate of this kind produces.
    pub fn result_type(&self) -> (r: Type)
        ensures
            r == self.result_type_spec(),
    {
        match self {
            ImmediateOp::I8(_) | ImmediateOp::U8(_) => Type::I8,
            ImmediateOp::I16(_) | ImmediateOp::U16(_) => Type::I16,
            ImmediateOp::I32(_) | ImmediateOp::U32(_) => Type::I32,
            ImmediateOp::I64(_) | ImmediateOp::U64(_) => Type::I64,
            ImmediateOp::I128(_) | ImmediateOp::U128(_) => Type::I128,
            ImmediateOp::U256(_) => Type::I256,
        }
    }
}

/// Binary operations.
#[derive(Debug, Clone, Copy, PartialEq, Eq, Structural)]
pub enum BinaryOp {
    Add,
    Sub,
    Mul,
    UDiv,
    SDiv,
    Lt,
    Gt,
    Slt,
    Sgt,
    Eq,
    And,
    Or,
}

impl BinaryOp {
    /// The mnemonic of the operation.
    pub open spec fn as_str_spec(self) -> Seq<char> {
        match self {
            BinaryOp::Add => "add"@,
            BinaryOp::Sub => "sub"@,
            BinaryOp::Mul => "mul"@,
            BinaryOp::UDiv => "udiv"@,
            BinaryOp::SDiv => "sdiv"@,
            BinaryOp::Lt => "lt"@,
            BinaryOp::Gt => "gt"@,
            BinaryOp::Slt => "slt"@,
            BinaryOp::Sgt => "sgt"@,
            BinaryOp::Eq => "eq"@,
            BinaryOp::And => "and"@,
            BinaryOp::Or => "or"@,
        }
    }

    /// The mnemonic of the operation.
    pub fn as_str(self) -> (r: &'static str)
        ensures
            r@ == self.as_str_spec(),
    {
        match self {
            BinaryOp::Add => "add",
            BinaryOp::Sub => "sub",
            BinaryOp::Mul => "mul",
            BinaryOp::UDiv => "udiv",
            BinaryOp::SDiv => "sdiv",
            BinaryOp::Lt => "lt",
            BinaryOp::Gt => "gt",
            BinaryOp::Slt => "slt",
            BinaryOp::Sgt => "sgt",
            BinaryOp::Eq => "eq",
            BinaryOp::And => "and",
            BinaryOp::Or => "or",
        }
    }

    /// The result type of the operation: that of its first operand.
    pub fn result_type(self, dfg: &DataFlowGraph, args: &[Value; 2]) -> (r: Type)
        requires
            dfg.value_valid(args[0]),
        ensures
            r == dfg.value_ty_spec(args[0]),
    {
        dfg.value_ty(args[0])
    }
}

/// Cast operations.
#[derive(Debug, Clone, Copy, PartialEq, Eq, Structural)]
pub enum CastOp {
    Sext,
    Zext,
    Trunc,
}

impl CastOp {
    /// The mnemonic of the operation.
    pub open spec fn as_str_spec(self) -> Seq<char> {
        match self {
            CastOp::Sext => "sext"@,
            CastOp::Zext => "zext"@,
            CastOp::Trunc => "trunc"@,
        }
    }

    /// The mnemonic of the operation.
    pub fn as_str(self) -> (r: &'static str)
        ensures
            r@ == self.as_str_spec(),
    {
        match self {
            CastOp::Sext => "sext",
            CastOp::Zext => "zext",
            CastOp::Trunc => "trunc",
        }
    }
}

/// Unconditional jump operations.
#[derive(Debug, Clone, Copy, PartialEq, Eq, Structural)]
pub enum JumpOp {
    Jump,
    FallThrough,
}

impl JumpOp {
    /// The mnemonic of the operation.
    pub open spec fn as_str_spec(self) -> Seq<char> {
        match self {
            JumpOp::Jump => "jump"@,
            JumpOp::FallThrough => "fallthrough"@,
        }
    }

    /// The mnemonic of the operation.
    pub fn as_str(self) -> (r: &'static str)
        ensures
            r@ == self.as_str_spec(),
    {
        match self {
            JumpOp::Jump => "jump",
            JumpOp::FallThrough => "fallthrough",
        }
    }
}

} // verus!
