//! Comparison instruction definitions: each holds the value handles it
//! compares.

use vstd::prelude::*;

use crate::types::ValueId;

verus! {

/// Unsigned less-than.
#[derive(Debug, Clone, Copy, PartialEq, Eq, Hash, Structural)]
pub struct Lt {
    pub lhs: ValueId,
    pub rhs: ValueId,
}

/// Unsigned greater-than.
#[derive(Debug, Clone, Copy, PartialEq, Eq, Hash, Structural)]
pub struct Gt {
    pub lhs: ValueId,
    pub rhs: ValueId,
}

/// Signed less-than.
#[derive(Debug, Clone, Copy, PartialEq, Eq, Hash, Structural)]
pub struct Slt {
    pub lhs: ValueId,
    pub rhs: ValueId,
}

/// Signed greater-than.
#[derive(Debug, Clone, Copy, PartialEq, Eq, Hash, Structural)]
pub struct Sgt {
    pub lhs: ValueId,
    pub rhs: ValueId,
}

/// Unsigned less-than-or-equal.
#[derive(Debug, Clone, Copy, PartialEq, Eq, Hash, Structural)]
pub struct Le {
    pub lhs: ValueId,
    pub rhs: ValueId,
}

/// Unsigned greater-than-or-equal.
#[derive(Debug, Clone, Copy, PartialEq, Eq, Hash, Structural)]
pub struct Ge {
    pub lhs: ValueId,
    pub rhs: ValueId,
}

/// Signed less-than-or-equal.
#[derive(Debug, Clone, Copy, PartialEq, Eq, Hash, Structural)]
pub struct Sle {
    pub lhs: ValueId,
    pub rhs: ValueId,
}

/// Signed greater-than-or-equal.
#[derive(Debug, Clone, Copy, PartialEq, Eq, Hash, Structural)]
pub struct Sge {
    pub lhs: ValueId,
    pub rhs: ValueId,
}

/// Equality.
#[derive(Debug, Clone, Copy, PartialEq, Eq, Hash, Structural)]
pub struct Eq {
    pub lhs: ValueId,
    pub rhs: ValueId,
}

/// Inequality.
#[derive(Debug, Clone, Copy, PartialEq, Eq, Hash, Structural)]
pub struct Ne {
    pub lhs: ValueId,
    pub rhs: ValueId,
}

/// Test against zero.
#[derive(Debug, Clone, Copy, PartialEq, Eq, Hash, Structural)]
pub struct IsZero {
    pub lhs: ValueId,
}

} // verus!
