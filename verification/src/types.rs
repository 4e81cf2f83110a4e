//! Value types of the intermediate representation, as far as the
//! instruction definitions need them.

use vstd::prelude::*;

verus! {

/// An integer value type.
#[derive(Debug, Clone, Copy, PartialEq, Eq, Structural)]
pub enum Type {
    I8,
    I16,
    I32,
    I64,
    I128,
    I256,
}

/// A 256-bit unsigned immediate, stored as two 128-bit halves.
#[derive(Debug, Clone, Copy, PartialEq, Eq, Structural)]
pub struct U256 {
    pub lo: u128,
    pub hi: u128,
}

/// An opaque reference to an SSA value.
#[derive(Debug, Clone, Copy, PartialEq, Eq, Hash, PartialOrd, Ord, Structural)]
pub struct Value(pub u32);

/// The name the comparison instruction definitions use for value handles.
pub type ValueId = Value;

} // verus!
