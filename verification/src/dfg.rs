//! The data-flow graph: arena-style storage for blocks, instructions and
//! values, addressed by dense handles.

use vstd::prelude::*;

use crate::cfg::BlockId;
use crate::insn::{Insn, InsnData};
use crate::types::{Type, Value};

verus! {

/// Where a value comes from: an instruction's result or a block parameter.
#[derive(Debug, Clone, Copy)]
pub enum ValueDef {
    Insn(Insn),
    Param(BlockId),
}

/// The definition backing a value handle.
#[derive(Debug, Clone, Copy)]
pub enum ValueData {
    Insn { insn: Insn, ty: Type },
    Param { block: BlockId, ty: Type },
}

/// A block data definition. Block data holds no layout information; only
/// the block's parameter values.
#[derive(Debug, Clone)]
pub struct BlockData {
    /// The block's parameter values, each held at most once.
    pub params: Vec<Value>,
}

impl BlockData {
    /// Each parameter is held at most once.
    pub open spec fn params_distinct(self) -> bool {
        forall|i: int, j: int|
            0 <= i < j < self.params@.len() ==> self.params@[i] != self.params@[j]
    }
}

impl Default for BlockData {
    /// A block without parameters.
    fn default() -> (r: BlockData)
        ensures
            r.params@.len() == 0,
    {
        BlockData { params: Vec::new() }
    }
}

impl Default for DataFlowGraph {
    /// An empty graph, as [`DataFlowGraph::new`] returns it.
    fn default() -> (r: DataFlowGraph)
        ensures
            r.wf(),
            r.blocks@.len() == 0,
            r.insns@.len() == 0,
            r.values@.len() == 0,
    {
        DataFlowGraph::new()
    }
}

/// Arena-style storage of one function's blocks, instructions and values.
pub struct DataFlowGraph {
    pub blocks: Vec<BlockData>,
    pub insns: Vec<InsnData>,
    pub values: Vec<ValueData>,
    /// The result value of each instruction, indexed like `insns`.
    pub insn_results: Vec<Option<Value>>,
}

impl DataFlowGraph {
    /// A block handle minted by this graph.
    pub open spec fn block_valid(self, b: BlockId) -> bool {
        (b.0 as int) < self.blocks@.len()
    }

    /// An instruction handle minted by this graph.
    pub open spec fn insn_valid(self, i: Insn) -> bool {
        (i.0 as int) < self.insns@.len()
    }

    /// A value handle minted by this graph.
    pub open spec fn value_valid(self, v: Value) -> bool {
        (v.0 as int) < self.values@.len()
    }

    /// The type recorded for a value.
    pub open spec fn value_ty_spec(self, v: Value) -> Type {
        match self.values@[v.0 as int] {
            ValueData::Insn { ty, .. } => ty,
            ValueData::Param { ty, .. } => ty,
        }
    }

    /// Handles stay dense and side tables parallel: one result slot per
    /// instruction, and each block's parameters distinct value handles of
    /// this graph.
    pub open spec fn wf(self) -> bool {
        &&& self.insn_results@.len() == self.insns@.len()
        &&& self.blocks@.len() <= u32::MAX
        &&& self.insns@.len() <= u32::MAX
        &&& self.values@.len() <= u32::MAX
        &&& forall|b: int|
            0 <= b < self.blocks@.len() ==> (#[trigger] self.blocks@[b]).params_distinct()
        &&& forall|b: int, i: int|
            0 <= b < self.blocks@.len() && 0 <= i < self.blocks@[b].params@.len()
                ==> (#[trigger] self.blocks@[b].params@[i]).0 < self.values@.len()
    }

    /// An empty graph.
    pub fn new() -> (r: DataFlowGraph)
        ensures
            r.wf(),
            r.blocks@.len() == 0,
            r.insns@.len() == 0,
            r.values@.len() == 0,
    {
        DataFlowGraph {
            blocks: Vec::new(),
            insns: Vec::new(),
            values: Vec::new(),
            insn_results: Vec::new(),
        }
    }

    /// Mints a fresh block without parameters.
    pub fn make_block(&mut self) -> (r: BlockId)
        requires
            old(self).wf(),
            old(self).blocks@.len() < u32::MAX,
        ensures
            final(self).wf(),
            r.0 == old(self).blocks@.len(),
            final(self).blocks@.len() == old(self).blocks@.len() + 1,
            final(self).blocks@[r.0 as int].params@.len() == 0,
            forall|t: int|
                0 <= t < old(self).blocks@.len() ==> final(self).blocks@[t] == old(
                    self,
                ).blocks@[t],
            final(self).insns@ == old(self).insns@,
            final(self).values@ == old(self).values@,
            final(self).insn_results@ == old(self).insn_results@,
    {
        let r = BlockId(self.blocks.len() as u32);
        self.blocks.push(BlockData::default());
        r
    }

    /// Stores a new instruction and hands back its handle.
    pub fn make_insn(&mut self, insn: InsnData) -> (r: Insn)
        requires
            old(self).wf(),
            old(self).insns@.len() < u32::MAX,
        ensures
            final(self).wf(),
            r.0 == old(self).insns@.len(),
            final(self).insns@ == old(self).insns@.push(insn),
            final(self).insn_results@ == old(self).insn_results@.push(None::<Value>),
            final(self).blocks@ == old(self).blocks@,
            final(self).values@ == old(self).values@,
    {
        let r = Insn(self.insns.len() as u32);
        self.insns.push(insn);
        self.insn_results.push(None);
        r
    }

    /// The data of an instruction.
    pub fn insn_data(&self, insn: Insn) -> (r: &InsnData)
        requires
            self.insn_valid(insn),
        ensures
            r == self.insns@[insn.0 as int],
    {
        &self.insns[insn.0 as usize]
    }

    /// The data of a block.
    pub fn block_data(&self, block: BlockId) -> (r: &BlockData)
        requires
            self.block_valid(block),
        ensures
            r == self.blocks@[block.0 as int],
    {
        &self.blocks[block.0 as usize]
    }

    /// Mints a fresh value as a parameter of `block` and appends it to the
    /// block's parameter list.
    pub fn append_block_param(&mut self, block: BlockId, ty: Type) -> (r: Value)
        requires
            old(self).wf(),
            old(self).block_valid(block),
            old(self).values@.len() < u32::MAX,
        ensures
            final(self).wf(),
            r.0 == old(self).values@.len(),
            final(self).values@ == old(self).values@.push(
                ValueData::Param { block, ty },
            ),
            final(self).blocks@[block.0 as int].params@ == old(self).blocks@[
                block.0 as int
            ].params@.push(r),
            final(self).blocks@.len() == old(self).blocks@.len(),
            forall|b: int|
                0 <= b < old(self).blocks@.len() && b != block.0 as int
                    ==> final(self).blocks@[b] == old(self).blocks@[b],
            final(self).insns@ == old(self).insns@,
            final(self).insn_results@ == old(self).insn_results@,
    {
        let value = Value(self.values.len() as u32);
        self.values.push(ValueData::Param { block, ty });
        let idx = block.0 as usize;
        let ghost oldp = self.blocks@[idx as int].params@;
        let len = self.blocks[idx].params.len();
        let mut newp: Vec<Value> = Vec::new();
        let mut i: usize = 0;
        while i < len
            invariant
                idx < self.blocks@.len(),
                len == self.blocks@[idx as int].params@.len(),
                oldp == self.blocks@[idx as int].params@,
                0 <= i <= len,
                newp@ == oldp.subrange(0, i as int),
            decreases len - i,
        {
            newp.push(self.blocks[idx].params[i]);
            proof {
                assert(newp@ =~= oldp.subrange(0, i + 1));
            }
            i += 1;
        }
        proof {
            assert(newp@ =~= oldp);
        }
        newp.push(value);
        self.blocks.set(idx, BlockData { params: newp });
        proof {
            assert(self.blocks@[idx as int].params@ =~= oldp.push(value));
            assert(self.blocks@[idx as int].params_distinct()) by {
                assert(forall|k: int|
                    0 <= k < oldp.len() ==> (#[trigger] oldp[k]).0 < value.0);
            }
        }
        value
    }

    /// Removes `param` from `block`'s parameter list, if present.
    pub fn remove_block_param(&mut self, block: BlockId, param: Value)
        requires
            old(self).wf(),
            old(self).block_valid(block),
        ensures
            final(self).wf(),
            final(self).blocks@.len() == old(self).blocks@.len(),
            !final(self).blocks@[block.0 as int].params@.contains(param),
            forall|v: Value|
                v != param ==> (final(self).blocks@[block.0 as int].params@.contains(v)
                    == old(self).blocks@[block.0 as int].params@.contains(v)),
            forall|b: int|
                0 <= b < old(self).blocks@.len() && b != block.0 as int
                    ==> final(self).blocks@[b] == old(self).blocks@[b],
            final(self).insns@ == old(self).insns@,
            final(self).values@ == old(self).values@,
            final(self).insn_results@ == old(self).insn_results@,
    {
        let idx = block.0 as usize;
        let ghost oldp = self.blocks@[idx as int].params@;
        let len = self.blocks[idx].params.len();
        let mut newp: Vec<Value> = Vec::new();
        let mut i: usize = 0;
        while i < len
            invariant
                idx < self.blocks@.len(),
                len == self.blocks@[idx as int].params@.len(),
                oldp == self.blocks@[idx as int].params@,
                self.blocks@[idx as int].params_distinct(),
                0 <= i <= len,
                newp@.len() <= i,
                forall|v: Value|
                    #[trigger] newp@.contains(v) == (oldp.subrange(0, i as int).contains(v) && v
                        != param),
                forall|k1: int, k2: int|
                    0 <= k1 < k2 < newp@.len() ==> newp@[k1] != newp@[k2],
            decreases len - i,
        {
            let v = self.blocks[idx].params[i];
            proof {
                assert(oldp.subrange(0, i + 1) =~= oldp.subrange(0, i as int).push(oldp[i as int]));
            }
            if v != param {
                proof {
                    if newp@.contains(v) {
                        let k = choose|k: int|
                            0 <= k < oldp.subrange(0, i as int).len() && oldp.subrange(
                                0,
                                i as int,
                            )[k] == v;
                        assert(oldp[k] == v && oldp[i as int] == v);
                        assert(false);
                    }
                }
                let ghost np0 = newp@;
                newp.push(v);
                proof {
                    assert forall|w: Value|
                        #[trigger] newp@.contains(w) == (oldp.subrange(0, i + 1).contains(w) && w
                            != param) by {
                        if newp@.contains(w) {
                            let k = choose|k: int| 0 <= k < newp@.len() && newp@[k] == w;
                            if k < np0.len() {
                                assert(np0.contains(w)) by {
                                    assert(np0[k] == w);
                                }
                            } else {
                                assert(w == v);
                                assert(oldp.subrange(0, i + 1).contains(w)) by {
                                    assert(oldp.subrange(0, i + 1)[i as int] == v);
                                }
                            }
                        }
                        if oldp.subrange(0, i + 1).contains(w) && w != param {
                            if w == v {
                                assert(newp@[np0.len() as int] == v);
                                assert(newp@.contains(w));
                            } else {
                                assert(oldp.subrange(0, i as int).contains(w)) by {
                                    let k = choose|k: int|
                                        0 <= k < i + 1 && #[trigger] oldp.subrange(0, i + 1)[k]
                                            == w;
                                    assert(k < i);
                                    assert(oldp.subrange(0, i as int)[k] == w);
                                }
                                assert(np0.contains(w));
                                let k = choose|k: int| 0 <= k < np0.len() && np0[k] == w;
                                assert(newp@[k] == w);
                                assert(newp@.contains(w));
                            }
                        }
                    }
                }
            }
            i += 1;
        }
        proof {
            assert(oldp.subrange(0, len as int) =~= oldp);
        }
        self.blocks.set(idx, BlockData { params: newp });
        proof {
            assert forall|k: int|
                0 <= k < self.blocks@[idx as int].params@.len() implies (
            #[trigger] self.blocks@[idx as int].params@[k]).0 < self.values@.len() by {
                let w = self.blocks@[idx as int].params@[k];
                assert(self.blocks@[idx as int].params@.contains(w));
                assert(oldp.contains(w));
                let k2 = choose|k2: int| 0 <= k2 < oldp.len() && oldp[k2] == w;
                assert(old(self).blocks@[idx as int].params@[k2] == w);
            }
        }
    }

    /// Where a value comes from.
    pub fn value_def(&self, value: Value) -> (r: ValueDef)
        requires
            self.value_valid(value),
        ensures
            r == match self.values@[value.0 as int] {
                ValueData::Insn { insn, .. } => ValueDef::Insn(insn),
                ValueData::Param { block, .. } => ValueDef::Param(block),
            },
    {
        match self.values[value.0 as usize] {
            ValueData::Insn { insn, .. } => ValueDef::Insn(insn),
            ValueData::Param { block, .. } => ValueDef::Param(block),
        }
    }

    /// The type recorded for a value.
    pub fn value_ty(&self, value: Value) -> (r: Type)
        requires
            self.value_valid(value),
        ensures
            r == self.value_ty_spec(value),
    {
        match self.values[value.0 as usize] {
            ValueData::Insn { ty, .. } => ty,
            ValueData::Param { ty, .. } => ty,
        }
    }

    /// The value arguments of an instruction.
    pub fn insn_args(&self, insn: Insn) -> (r: Vec<Value>)
        requires
            self.insn_valid(insn),
        ensures
            r@ == self.insns@[insn.0 as int].args_spec(),
    {
        self.insn_data(insn).args()
    }

    /// The result value of an instruction, if one was recorded.
    pub fn insn_result(&self, insn: Insn) -> (r: Option<Value>)
        requires
            self.wf(),
            self.insn_valid(insn),
        ensures
            r == self.insn_results@[insn.0 as int],
    {
        self.insn_results[insn.0 as usize]
    }
}

} // verus!
