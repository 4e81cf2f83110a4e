//! Control-flow and dominance analysis over basic blocks.
//!
//! Given a function's control-flow graph, the crate computes the dominator
//! tree with the iterative algorithm of Cooper, Harvey and Kennedy, derives
//! dominance frontiers, and offers a parent-to-children view of the tree.
#![verifier::loop_isolation(false)]

pub mod cfg;
pub mod cmp;
pub mod dfg;
pub mod domtree;
pub mod insn;
pub mod types;
