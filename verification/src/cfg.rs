//! Block identifiers and the control-flow-graph snapshot that the dominance
//! analysis consumes: per-block predecessor lists and a depth-first post-order
//! traversal seeded at the function's entry block.

use vstd::prelude::*;

verus! {

/// An opaque, densely assigned handle identifying a basic block within one
/// function. The analysis never inspects block contents; it only uses the
/// handle as a lookup key.
#[derive(Debug, Clone, Copy, PartialEq, Eq, Hash, PartialOrd, Ord, Structural)]
pub struct BlockId(pub u32);

/// A finished control-flow-graph snapshot. The dominance analysis reads, per
/// block, its predecessor list, and a depth-first post-order traversal whose
/// last element is the entry block. Construction from instruction terminators
/// happens outside this crate; `ControlFlowGraph::new` only validates the
/// snapshot's shape.
pub struct ControlFlowGraph {
    /// Predecessor lists, indexed by block id; the length fixes the universe
    /// of valid block ids.
    pub preds: Vec<Vec<BlockId>>,
    /// Depth-first post-order traversal from the entry block. Blocks
    /// unreachable from the entry are absent.
    pub post_order: Vec<BlockId>,
}

impl ControlFlowGraph {
    /// The number of block ids of the function, reachable or not.
    pub open spec fn num_blocks_spec(self) -> int {
        self.preds@.len() as int
    }

    /// A block id that indexes into the function's block storage.
    pub open spec fn block_valid(self, b: BlockId) -> bool {
        (b.0 as int) < self.preds@.len()
    }

    /// The predecessor list of `b`, in the snapshot's order.
    pub open spec fn pred_seq(self, b: BlockId) -> Seq<BlockId> {
        self.preds@[b.0 as int]@
    }

    /// The post-order traversal.
    pub open spec fn post_order_spec(self) -> Seq<BlockId> {
        self.post_order@
    }

    /// Every block named by a predecessor list is a valid block id.
    pub open spec fn preds_in_bounds(self) -> bool {
        forall|i: int, k: int|
            0 <= i < self.preds@.len() && 0 <= k < self.preds@[i]@.len()
                ==> (#[trigger] self.preds@[i]@[k]).0 < self.preds@.len()
    }

    /// The post order names valid block ids, each at most once.
    pub open spec fn post_order_blocks_ok(self) -> bool {
        &&& forall|j: int|
            0 <= j < self.post_order@.len() ==> (#[trigger] self.post_order@[j]).0
                < self.preds@.len()
        &&& forall|j1: int, j2: int|
            0 <= j1 < j2 < self.post_order@.len() ==> self.post_order@[j1] != self.post_order@[j2]
    }

    /// Every block of the post order except the last (the entry) has a
    /// predecessor later in the post order, i.e. earlier in reverse
    /// post order. A depth-first traversal from the entry always yields
    /// this: the block's tree parent finishes after it.
    pub open spec fn post_order_connected(self) -> bool {
        forall|j: int|
            0 <= j < self.post_order@.len() - 1 ==> exists|k: int|
                j < k < self.post_order@.len() && self.pred_seq(
                    #[trigger] self.post_order@[j],
                ).contains(self.post_order@[k])
    }

    /// A well-formed snapshot: all ids in range, the post order free of
    /// duplicates and connected as a depth-first traversal is.
    pub open spec fn wf(self) -> bool {
        &&& self.preds_in_bounds()
        &&& self.post_order_blocks_ok()
        &&& self.post_order_connected()
    }

    /// Validates and takes ownership of a snapshot: `preds` indexed by block
    /// id, `post_order` a depth-first post-order traversal ending at the
    /// entry block. Returns `None` exactly when the snapshot breaks one of
    /// the well-formedness conditions.
    #[verifier::loop_isolation(false)]
    pub fn new(preds: Vec<Vec<BlockId>>, post_order: Vec<BlockId>) -> (r: Option<ControlFlowGraph>)
        ensures
            match r {
                Some(cfg) => {
                    &&& cfg.wf()
                    &&& cfg.preds@ == preds@
                    &&& cfg.post_order@ == post_order@
                },
                None => !(ControlFlowGraph { preds, post_order }).wf(),
            },
    {
        let cfg = ControlFlowGraph { preds, post_order };
        let n = cfg.preds.len();
        // Predecessor ids in range.
        let mut i: usize = 0;
        while i < n
            invariant
                n == cfg.preds@.len(),
                0 <= i <= n,
                forall|i2: int, k: int|
                    0 <= i2 < i && 0 <= k < cfg.preds@[i2]@.len()
                        ==> (#[trigger] cfg.preds@[i2]@[k]).0 < n,
            decreases n - i,
        {
            let row_len = cfg.preds[i].len();
            let mut k: usize = 0;
            while k < row_len
                invariant
                    n == cfg.preds@.len(),
                    0 <= i < n,
                    row_len == cfg.preds@[i as int]@.len(),
                    0 <= k <= row_len,
                    forall|k2: int|
                        0 <= k2 < k ==> (#[trigger] cfg.preds@[i as int]@[k2]).0 < n,
                decreases row_len - k,
            {
                if cfg.preds[i][k].0 as usize >= n {
                    proof {
                        if cfg.preds_in_bounds() {
                            assert((cfg.preds@[i as int]@[k as int]).0 < n);
                        }
                    }
                    assert(!cfg.wf());
                    return None;
                }
                k += 1;
            }
            i += 1;
        }
        assert(cfg.preds_in_bounds());
        // Post-order ids in range and distinct; record each block's position.
        let m = cfg.post_order.len();
        let mut pos: Vec<usize> = Vec::new();
        let mut seen: Vec<bool> = Vec::new();
        let mut c: usize = 0;
        while c < n
            invariant
                0 <= c <= n,
                pos@.len() == c,
                seen@.len() == c,
                forall|c2: int| 0 <= c2 < c ==> !(#[trigger] seen@[c2]),
            decreases n - c,
        {
            pos.push(0);
            seen.push(false);
            c += 1;
        }
        let mut j: usize = 0;
        while j < m
            invariant
                n == cfg.preds@.len(),
                m == cfg.post_order@.len(),
                0 <= j <= m,
                pos@.len() == n,
                seen@.len() == n,
                forall|j2: int|
                    0 <= j2 < j ==> (#[trigger] cfg.post_order@[j2]).0 < n,
                forall|j1: int, j2: int|
                    0 <= j1 < j2 < j ==> cfg.post_order@[j1] != cfg.post_order@[j2],
                forall|c2: int|
                    0 <= c2 < n ==> ((#[trigger] seen@[c2]) <==> exists|j2: int|
                        0 <= j2 < j && cfg.post_order@[j2].0 == c2),
                forall|j2: int|
                    0 <= j2 < j ==> pos@[(#[trigger] cfg.post_order@[j2]).0 as int] == j2,
            decreases m - j,
        {
            let b = cfg.post_order[j];
            if b.0 as usize >= n {
                proof {
                    if cfg.post_order_blocks_ok() {
                        assert((cfg.post_order@[j as int]).0 < n);
                    }
                }
                assert(!cfg.wf());
                return None;
            }
            if seen[b.0 as usize] {
                // A repeated block: pin down the earlier occurrence.
                proof {
                    let j2 = choose|j2: int| 0 <= j2 < j && cfg.post_order@[j2].0 == b.0;
                    assert(cfg.post_order@[j2].0 == cfg.post_order@[j as int].0);
                    if cfg.post_order_blocks_ok() {
                        assert(cfg.post_order@[j2] != cfg.post_order@[j as int]);
                        assert(false);
                    }
                }
                assert(!cfg.wf());
                return None;
            }
            seen.set(b.0 as usize, true);
            pos.set(b.0 as usize, j);
            j += 1;
        }
        assert(cfg.post_order_blocks_ok());
        // Connectivity: every non-entry post-order block has a predecessor
        // later in the post order.
        if m > 0 {
            let mut j: usize = 0;
            while j < m - 1
                invariant
                    cfg.preds_in_bounds(),
                    cfg.post_order_blocks_ok(),
                    n == cfg.preds@.len(),
                    m == cfg.post_order@.len(),
                    m > 0,
                    0 <= j <= m - 1,
                    pos@.len() == n,
                    seen@.len() == n,
                    forall|c2: int|
                        0 <= c2 < n ==> ((#[trigger] seen@[c2]) <==> exists|j2: int|
                            0 <= j2 < m && cfg.post_order@[j2].0 == c2),
                    forall|j2: int|
                        0 <= j2 < m ==> pos@[(#[trigger] cfg.post_order@[j2]).0 as int] == j2,
                    forall|j2: int|
                        0 <= j2 < j ==> exists|k: int|
                            j2 < k < m && cfg.pred_seq(#[trigger] cfg.post_order@[j2]).contains(
                                cfg.post_order@[k],
                            ),
                decreases m - 1 - j,
            {
                let b = cfg.post_order[j];
                let row_len = cfg.preds[b.0 as usize].len();
                let mut k: usize = 0;
                let mut found = false;
                while k < row_len && !found
                    invariant
                        0 <= k <= row_len,
                        found ==> exists|k2: int|
                            j < k2 < m && cfg.pred_seq(b).contains(cfg.post_order@[k2]),
                        !found ==> forall|k2: int|
                            0 <= k2 < k ==> !(exists|j2: int|
                                j < j2 < m && cfg.post_order@[j2] == #[trigger] cfg.pred_seq(
                                    b,
                                )[k2]),
                    decreases row_len - k + if found { 0int } else { 1int },
                {
                    let p = cfg.preds[b.0 as usize][k];
                    let mut hit = false;
                    if seen[p.0 as usize] {
                        let pp = pos[p.0 as usize];
                        if pp > j {
                            proof {
                                let j2 = choose|j2: int|
                                    0 <= j2 < m && cfg.post_order@[j2].0 == p.0;
                                assert(cfg.post_order@[j2] == p);
                                assert(pos@[p.0 as int] == j2);
                                assert(cfg.pred_seq(b).contains(cfg.post_order@[j2])) by {
                                    assert(cfg.pred_seq(b)[k as int] == p);
                                }
                            }
                            hit = true;
                        }
                    }
                    if hit {
                        found = true;
                    } else {
                        proof {
                            // No later occurrence of this predecessor exists.
                            if exists|j2: int|
                                j < j2 < m && cfg.post_order@[j2] == cfg.pred_seq(b)[k as int] {
                                let j2 = choose|j2: int|
                                    j < j2 < m && cfg.post_order@[j2] == cfg.pred_seq(b)[k as int];
                                assert(seen@[p.0 as int]);
                                assert(pos@[p.0 as int] == j2);
                                assert(false);
                            }
                        }
                        k += 1;
                    }
                }
                if !found {
                    proof {
                        if exists|k2: int|
                            j < k2 < m && cfg.pred_seq(b).contains(cfg.post_order@[k2]) {
                            let k2 = choose|k2: int|
                                j < k2 < m && cfg.pred_seq(b).contains(cfg.post_order@[k2]);
                            let idx = choose|idx: int|
                                0 <= idx < cfg.pred_seq(b).len() && cfg.pred_seq(b)[idx]
                                    == cfg.post_order@[k2];
                            assert(!(exists|j2: int|
                                j < j2 < m && cfg.post_order@[j2] == cfg.pred_seq(b)[idx]));
                            assert(false);
                        }
                        assert(!cfg.post_order_connected()) by {
                            if cfg.post_order_connected() {
                                assert(exists|k2: int|
                                    j < k2 < m && cfg.pred_seq(
                                        cfg.post_order@[j as int],
                                    ).contains(cfg.post_order@[k2]));
                            }
                        }
                    }
                    assert(!cfg.wf());
                    return None;
                }
                j += 1;
            }
        }
        assert(cfg.post_order_connected());
        Some(cfg)
    }

    /// The number of block ids of the function.
    pub fn num_blocks(&self) -> (r: usize)
        ensures
            r == self.num_blocks_spec(),
    {
        self.preds.len()
    }

    /// The predecessor list of `block`, in the snapshot's order.
    pub fn preds_of(&self, block: BlockId) -> (r: &Vec<BlockId>)
        requires
            self.block_valid(block),
        ensures
            r@ == self.pred_seq(block),
    {
        &self.preds[block.0 as usize]
    }

    /// The number of predecessors of `block`.
    pub fn pred_num_of(&self, block: BlockId) -> (r: usize)
        requires
            self.block_valid(block),
        ensures
            r == self.pred_seq(block).len(),
    {
        self.preds[block.0 as usize].len()
    }

    /// The depth-first post-order traversal from the entry block.
    pub fn post_order(&self) -> (r: &Vec<BlockId>)
        ensures
            r@ == self.post_order_spec(),
    {
        &self.post_order
    }
}

} // verus!
