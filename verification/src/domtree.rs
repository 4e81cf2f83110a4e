//! Dominator tree, dominance frontiers, and a parent-to-children view.
//!
//! The algorithm is the iterative one of Keith D. Cooper, Timothy J. Harvey
//! and Ken Kennedy, "A Simple, Fast Dominance Algorithm".

use vstd::prelude::*;

use crate::cfg::{BlockId, ControlFlowGraph};

verus! {

/// The dominator tree of one function's control-flow graph, recomputed
/// wholesale by [`DomTree::compute`].
#[derive(Debug)]
pub struct DomTree {
    /// Recorded immediate dominator per block id. `None` means "no immediate
    /// dominator recorded", which after `compute` holds exactly for the
    /// blocks unreachable from the entry; the entry block records itself as
    /// an internal root sentinel.
    pub doms: Vec<Option<BlockId>>,
    /// Blocks in reverse post order; the first element, if any, is the entry.
    pub rpo: Vec<BlockId>,
}

impl DomTree {
    /// The recorded immediate-dominator entry of `b`: the internal map, with
    /// the entry block recording itself.
    pub open spec fn dom_entry(self, b: BlockId) -> Option<BlockId> {
        if (b.0 as int) < self.doms@.len() {
            self.doms@[b.0 as int]
        } else {
            None
        }
    }

    /// The blocks in reverse post order.
    pub open spec fn rpo_spec(self) -> Seq<BlockId> {
        self.rpo@
    }

    /// The entry block (meaningful only when the reverse post order is
    /// non-empty).
    pub open spec fn entry_spec(self) -> BlockId {
        self.rpo@[0]
    }

    /// A block is reachable from the entry iff it appears in the reverse
    /// post order.
    pub open spec fn reachable(self, b: BlockId) -> bool {
        self.rpo@.contains(b)
    }

    /// The reported immediate dominator: `None` for the entry block and for
    /// unreachable blocks.
    pub open spec fn idom_spec(self, b: BlockId) -> Option<BlockId> {
        if self.rpo@.len() > 0 && b == self.entry_spec() {
            None
        } else {
            self.dom_entry(b)
        }
    }

    /// The reverse post order holds no block twice.
    pub open spec fn rpo_distinct(self) -> bool {
        forall|i: int, j: int| 0 <= i < j < self.rpo@.len() ==> self.rpo@[i] != self.rpo@[j]
    }

    /// Every block of the reverse post order indexes into the dominator map.
    pub open spec fn rpo_in_bounds(self) -> bool {
        forall|i: int|
            0 <= i < self.rpo@.len() ==> (#[trigger] self.rpo@[i]).0 < self.doms@.len()
    }

    /// The entry block records itself (the internal root sentinel).
    pub open spec fn entry_ok(self) -> bool {
        self.rpo@.len() > 0 ==> self.dom_entry(self.rpo@[0]) == Some(self.rpo@[0])
    }

    /// A recorded dominator of a non-entry block sits strictly earlier in
    /// reverse post order; walking recorded dominators therefore terminates.
    pub open spec fn chain_ok(self) -> bool {
        forall|i: int|
            1 <= i < self.rpo@.len() ==> match self.dom_entry(#[trigger] self.rpo@[i]) {
                Some(d) => exists|j: int| 0 <= j < i && self.rpo@[j] == d,
                None => true,
            }
    }

    /// Only blocks of the reverse post order carry a recorded dominator.
    pub open spec fn doms_only_rpo(self) -> bool {
        forall|c: int|
            0 <= c < self.doms@.len() && (#[trigger] self.doms@[c]).is_some() ==> exists|i: int|
                0 <= i < self.rpo@.len() && self.rpo@[i].0 == c
    }

    /// A recorded dominator is itself a block with a recorded dominator, so
    /// recorded chains never dangle.
    pub open spec fn chains_closed(self) -> bool {
        forall|c: int|
            0 <= c < self.doms@.len() && (#[trigger] self.doms@[c]).is_some()
                ==> self.dom_entry(self.doms@[c].unwrap()).is_some()
    }

    /// Every block of the reverse post order has a recorded dominator.
    pub open spec fn complete(self) -> bool {
        forall|i: int|
            0 <= i < self.rpo@.len() ==> self.dom_entry(#[trigger] self.rpo@[i]).is_some()
    }

    /// The structural invariants that hold while the fixed point is still
    /// being computed: recorded chains are acyclic, stay within the reverse
    /// post order, and never dangle.
    pub open spec fn links_ok(self) -> bool {
        &&& self.rpo_distinct()
        &&& self.rpo_in_bounds()
        &&& self.entry_ok()
        &&& self.chain_ok()
        &&& self.doms_only_rpo()
        &&& self.chains_closed()
    }

    /// A converged (or cleared) dominator tree: the structural invariants,
    /// and a recorded dominator for exactly the blocks of the reverse post
    /// order.
    pub open spec fn wf(self) -> bool {
        &&& self.links_ok()
        &&& self.complete()
    }

    /// `a` lies on the recorded-dominator chain from `b`, `b` itself
    /// included; `fuel` bounds the walk, and any fuel at least the length of
    /// the reverse post order is enough.
    pub open spec fn on_chain(self, a: BlockId, b: BlockId, fuel: nat) -> bool
        decreases fuel,
    {
        a == b || (fuel > 0 && match self.dom_entry(b) {
            Some(d) => d != b && self.on_chain(a, d, (fuel - 1) as nat),
            None => false,
        })
    }

    /// Block `a` dominates block `b`: walking the recorded-dominator chain
    /// upward from `b` meets `a` (reflexively). On a converged tree this
    /// means every path from the entry to `b` passes through `a`.
    pub open spec fn spec_dominates(self, a: BlockId, b: BlockId) -> bool {
        self.on_chain(a, b, self.rpo@.len() as nat)
    }

    /// Block `a` strictly dominates block `b`: it dominates `b` and differs
    /// from it.
    pub open spec fn spec_strictly_dominates(self, a: BlockId, b: BlockId) -> bool {
        a != b && self.spec_dominates(a, b)
    }

    /// An empty tree: nothing reachable, nothing recorded.
    pub open spec fn is_cleared(self) -> bool {
        self.rpo@.len() == 0 && self.doms@.len() == 0
    }

    /// The root-only approximation: every reachable block other than the
    /// entry records the entry as its immediate dominator. It is a
    /// well-formed tree that understates dominance (only the entry
    /// dominates anything strictly).
    pub open spec fn flat_approximation(self) -> bool {
        forall|i: int|
            1 <= i < self.rpo@.len() ==> self.dom_entry(#[trigger] self.rpo@[i]) == Some(
                self.rpo@[0],
            )
    }

    /// The chain walk is insensitive to fuel once the fuel covers the
    /// position of `b` in the reverse post order; unreachable blocks need no
    /// fuel at all.
    proof fn lemma_chain_fuel(self, a: BlockId, b: BlockId, i: int, fuel1: nat, fuel2: nat)
        requires
            self.links_ok(),
            0 <= i < self.rpo@.len(),
            self.rpo@[i] == b,
            fuel1 >= i,
            fuel2 >= i,
        ensures
            self.on_chain(a, b, fuel1) == self.on_chain(a, b, fuel2),
        decreases i,
    {
        if a == b {
        } else {
            match self.dom_entry(b) {
                Some(d) => {
                    if i == 0 {
                        // The entry records itself, so the walk stops here.
                        assert(d == b);
                    } else {
                        assert(exists|j: int| 0 <= j < i && self.rpo@[j] == d);
                        let j = choose|j: int| 0 <= j < i && self.rpo@[j] == d;
                        if d == b {
                        } else {
                            assert(fuel1 > 0 && fuel2 > 0);
                            self.lemma_chain_fuel(a, d, j, (fuel1 - 1) as nat, (fuel2 - 1) as nat);
                        }
                    }
                },
                None => {},
            }
        }
    }

    /// A block without a recorded dominator chains to nothing but itself.
    proof fn lemma_chain_unassigned(self, a: BlockId, b: BlockId, fuel: nat)
        requires
            self.dom_entry(b).is_none(),
        ensures
            self.on_chain(a, b, fuel) == (a == b),
    {
    }

    /// Recorded blocks appear in the reverse post order; their position is
    /// the witness.
    proof fn lemma_assigned_has_pos(self, b: BlockId) -> (i: int)
        requires
            self.links_ok(),
            self.dom_entry(b).is_some(),
        ensures
            0 <= i < self.rpo@.len(),
            self.rpo@[i] == b,
        decreases 0int,
    {
        assert((b.0 as int) < self.doms@.len());
        assert(exists|i: int| 0 <= i < self.rpo@.len() && self.rpo@[i].0 == b.0);
        let i = choose|i: int| 0 <= i < self.rpo@.len() && self.rpo@[i].0 == b.0;
        assert(self.rpo@[i] == b);
        i
    }

    /// Chain membership is position-monotone: whatever the chain from `b`
    /// reaches sits at `b`'s position or earlier, strictly earlier unless it
    /// is `b` itself.
    proof fn lemma_chain_pos(self, a: BlockId, b: BlockId, i: int, fuel: nat) -> (j: int)
        requires
            self.links_ok(),
            0 <= i < self.rpo@.len(),
            self.rpo@[i] == b,
            self.on_chain(a, b, fuel),
        ensures
            0 <= j <= i,
            self.rpo@[j] == a,
            a != b ==> j < i,
        decreases fuel,
    {
        if a == b {
            i
        } else {
            let d = self.dom_entry(b).unwrap();
            if i == 0 {
                assert(d == b);
                assert(false);
                0
            } else {
                let jd = choose|j: int| 0 <= j < i && self.rpo@[j] == d;
                self.lemma_chain_pos(a, d, jd, (fuel - 1) as nat)
            }
        }
    }

    /// Chain membership is transitive.
    proof fn lemma_chain_trans(self, a: BlockId, b: BlockId, c: BlockId, f1: nat, f2: nat)
        requires
            self.on_chain(a, b, f1),
            self.on_chain(b, c, f2),
        ensures
            self.on_chain(a, c, (f1 + f2) as nat),
        decreases f2,
    {
        if b == c {
            self.lemma_chain_fuel_mono(a, b, f1, (f1 + f2) as nat);
        } else {
            let d = self.dom_entry(c).unwrap();
            self.lemma_chain_trans(a, b, d, f1, (f2 - 1) as nat);
        }
    }

    /// More fuel never makes a chain walk fail.
    proof fn lemma_chain_fuel_mono(self, a: BlockId, b: BlockId, f1: nat, f2: nat)
        requires
            self.on_chain(a, b, f1),
            f2 >= f1,
        ensures
            self.on_chain(a, b, f2),
        decreases f1,
    {
        if a == b {
        } else {
            let d = self.dom_entry(b).unwrap();
            self.lemma_chain_fuel_mono(a, d, (f1 - 1) as nat, (f2 - 1) as nat);
        }
    }

    /// `spec_dominates` unfolded by one recorded step, at saturation fuel.
    proof fn lemma_dominates_step(self, a: BlockId, b: BlockId, i: int)
        requires
            self.links_ok(),
            0 <= i < self.rpo@.len(),
            self.rpo@[i] == b,
        ensures
            self.spec_dominates(a, b) == (a == b || (i > 0 && self.dom_entry(b).is_some()
                && self.spec_dominates(a, self.dom_entry(b).unwrap()))),
    {
        let n = self.rpo@.len() as nat;
        if a == b {
        } else if i == 0 {
            // At the entry the recorded step points to itself, ending chains.
            match self.dom_entry(b) {
                Some(d) => {
                    assert(d == b);
                },
                None => {},
            }
        } else {
            match self.dom_entry(b) {
                Some(d) => {
                    if d == b {
                        assert(exists|j: int| 0 <= j < i && self.rpo@[j] == d);
                        let j = choose|j: int| 0 <= j < i && self.rpo@[j] == d;
                        assert(false);
                    } else {
                        let j = choose|j: int| 0 <= j < i && self.rpo@[j] == d;
                        self.lemma_chain_fuel(a, d, j, (n - 1) as nat, n);
                    }
                },
                None => {},
            }
        }
    }

    /// The reverse post order lists only valid blocks of `cfg`.
    pub open spec fn rpo_cfg_valid(self, cfg: ControlFlowGraph) -> bool {
        forall|i: int| 0 <= i < self.rpo@.len() ==> cfg.block_valid(#[trigger] self.rpo@[i])
    }

    /// Some predecessor of the block at position `i` of the reverse post
    /// order sits strictly earlier in it.
    pub open spec fn has_earlier_pred(self, cfg: ControlFlowGraph, i: int) -> bool {
        exists|j: int| 0 <= j < i && cfg.pred_seq(self.rpo@[i]).contains(#[trigger] self.rpo@[j])
    }

    /// Every non-entry block of the reverse post order has a predecessor
    /// earlier in it.
    pub open spec fn rpo_connected(self, cfg: ControlFlowGraph) -> bool {
        forall|i: int| 1 <= i < self.rpo@.len() ==> #[trigger] self.has_earlier_pred(cfg, i)
    }

    /// Connectivity of the reverse post order depends on the order alone,
    /// not on the recorded dominators.
    proof fn lemma_connected_stable(self, post: DomTree, cfg: ControlFlowGraph)
        requires
            self.rpo_connected(cfg),
            post.rpo@ == self.rpo@,
        ensures
            post.rpo_connected(cfg),
    {
        assert forall|i: int|
            1 <= i < post.rpo@.len() implies #[trigger] post.has_earlier_pred(cfg, i) by {
            assert(self.has_earlier_pred(cfg, i));
            let j = choose|j: int|
                0 <= j < i && cfg.pred_seq(self.rpo@[i]).contains(#[trigger] self.rpo@[j]);
            assert(cfg.pred_seq(post.rpo@[i]).contains(post.rpo@[j]));
        }
    }

    /// `nums` records, per block id, the reverse-post-order rank: the
    /// position subtracted from the length, so earlier blocks rank higher.
    pub open spec fn nums_ok(self, nums: Seq<usize>) -> bool {
        &&& nums.len() == self.doms@.len()
        &&& forall|i: int|
            0 <= i < self.rpo@.len() ==> nums[(#[trigger] self.rpo@[i]).0 as int]
                == self.rpo@.len() - i
    }

    /// `y` dominates every predecessor of `b` (among the first `upto`) that
    /// has a recorded dominator.
    pub open spec fn dominates_assigned_preds_upto(
        self,
        cfg: ControlFlowGraph,
        y: BlockId,
        b: BlockId,
        upto: int,
    ) -> bool {
        forall|k: int|
            0 <= k < upto && k < cfg.pred_seq(b).len() && self.dom_entry(
                #[trigger] cfg.pred_seq(b)[k],
            ).is_some() ==> self.spec_dominates(y, cfg.pred_seq(b)[k])
    }

    /// `y` dominates every predecessor of `b` that has a recorded dominator.
    pub open spec fn dominates_assigned_preds(
        self,
        cfg: ControlFlowGraph,
        y: BlockId,
        b: BlockId,
    ) -> bool {
        self.dominates_assigned_preds_upto(cfg, y, b, cfg.pred_seq(b).len() as int)
    }

    /// `m` is the meet, over the dominator tree built so far, of the
    /// recorded predecessors of `b`: their nearest common dominator.
    pub open spec fn is_meet(self, cfg: ControlFlowGraph, m: BlockId, b: BlockId) -> bool {
        &&& self.dom_entry(m).is_some()
        &&& self.dominates_assigned_preds(cfg, m, b)
        &&& forall|y: BlockId|
            #[trigger] self.dominates_assigned_preds(cfg, y, b) ==> self.spec_dominates(y, m)
    }

    /// The fixed point the iteration converges to: every non-entry block of
    /// the reverse post order records exactly the nearest common dominator
    /// of its recorded predecessors.
    pub open spec fn fixpoint(self, cfg: ControlFlowGraph) -> bool {
        forall|i: int|
            1 <= i < self.rpo@.len() ==> {
                &&& self.dom_entry(#[trigger] self.rpo@[i]).is_some()
                &&& self.is_meet(cfg, self.dom_entry(self.rpo@[i]).unwrap(), self.rpo@[i])
            }
    }

    /// Dominance is transitive.
    proof fn lemma_dominates_trans(self, a: BlockId, b: BlockId, c: BlockId)
        requires
            self.links_ok(),
            self.spec_dominates(a, b),
            self.spec_dominates(b, c),
        ensures
            self.spec_dominates(a, c),
    {
        let n = self.rpo@.len() as nat;
        if b == c {
        } else {
            // The chain from c steps somewhere, so c is recorded.
            assert(self.dom_entry(c).is_some());
            let i = self.lemma_assigned_has_pos(c);
            self.lemma_chain_trans(a, b, c, n, n);
            self.lemma_chain_fuel(a, c, i, (n + n) as nat, n);
        }
    }

    /// The meet of two recorded blocks in the partial dominator tree: the
    /// nearest block dominating both, found by walking the two chains
    /// upward, lower rank first.
    #[verifier::loop_isolation(false)]
    fn intersect(
        doms: &Vec<Option<BlockId>>,
        rpo: &Vec<BlockId>,
        nums: &Vec<usize>,
        b1: BlockId,
        b2: BlockId,
    ) -> (r: BlockId)
        requires
            ({
                let dt = (DomTree { doms: *doms, rpo: *rpo });
                &&& dt.links_ok()
                &&& dt.nums_ok(nums@)
                &&& dt.dom_entry(b1).is_some()
                &&& dt.dom_entry(b2).is_some()
            }),
        ensures
            ({
                let dt = (DomTree { doms: *doms, rpo: *rpo });
                &&& dt.dom_entry(r).is_some()
                &&& dt.spec_dominates(r, b1)
                &&& dt.spec_dominates(r, b2)
                &&& forall|y: BlockId|
                    dt.spec_dominates(y, b1) && dt.spec_dominates(y, b2)
                        ==> dt.spec_dominates(y, r)
            }),
    {
        let ghost dt = (DomTree { doms: *doms, rpo: *rpo });
        let ghost n = dt.rpo@.len() as nat;
        let mut f1 = b1;
        let mut f2 = b2;
        let ghost mut i1 = dt.lemma_assigned_has_pos(b1);
        let ghost mut i2 = dt.lemma_assigned_has_pos(b2);
        while f1.0 != f2.0
            invariant
                dt == (DomTree { doms: *doms, rpo: *rpo }),
                dt.links_ok(),
                dt.nums_ok(nums@),
                dt.dom_entry(f1).is_some(),
                dt.dom_entry(f2).is_some(),
                0 <= i1 < dt.rpo@.len(),
                0 <= i2 < dt.rpo@.len(),
                dt.rpo@[i1] == f1,
                dt.rpo@[i2] == f2,
                dt.spec_dominates(f1, b1),
                dt.spec_dominates(f2, b2),
                forall|y: BlockId|
                    dt.spec_dominates(y, b1) && dt.spec_dominates(y, b2) ==> dt.spec_dominates(
                        y,
                        f1,
                    ) && dt.spec_dominates(y, f2),
            decreases i1 + i2,
        {
            let ghost i1_entry = i1;
            let ghost i2_entry = i2;
            let ghost g1 = f1;
            let ghost g2 = f2;
            while nums[f1.0 as usize] < nums[f2.0 as usize]
                invariant
                    dt == (DomTree { doms: *doms, rpo: *rpo }),
                    dt.links_ok(),
                    dt.nums_ok(nums@),
                    dt.dom_entry(f1).is_some(),
                    dt.dom_entry(f2).is_some(),
                    0 <= i1 < dt.rpo@.len(),
                    0 <= i2 < dt.rpo@.len(),
                    dt.rpo@[i1] == f1,
                    dt.rpo@[i2] == f2,
                    i2 == i2_entry,
                    i1 <= i1_entry,
                    dt.spec_dominates(f1, b1),
                    dt.spec_dominates(f2, b2),
                    forall|y: BlockId|
                        dt.spec_dominates(y, b1) && dt.spec_dominates(y, b2)
                            ==> dt.spec_dominates(y, f1) && dt.spec_dominates(y, f2),
                decreases i1,
            {
                proof {
                    // A lower rank means a later position, so f1 is not the
                    // entry and its recorded dominator sits strictly earlier.
                    assert(nums@[f1.0 as int] == dt.rpo@.len() - i1);
                    assert(nums@[f2.0 as int] == dt.rpo@.len() - i2);
                    assert(i1 > i2);
                    assert(i1 >= 1);
                }
                let d = recorded_dom(doms, f1);
                proof {
                    assert((f1.0 as int) < doms@.len());
                    assert(dt.dom_entry(f1) == Some(d));
                    let j = choose|j: int| 0 <= j < i1 && dt.rpo@[j] == d;
                    assert(dt.spec_dominates(d, f1)) by {
                        assert(n > 0);
                        assert(d != f1);
                        assert(dt.on_chain(d, d, (n - 1) as nat));
                        assert(dt.on_chain(d, f1, n));
                    }
                    dt.lemma_dominates_trans(d, f1, b1);
                    assert forall|y: BlockId|
                        dt.spec_dominates(y, b1) && dt.spec_dominates(y, b2) implies dt
                        .spec_dominates(y, d) && dt.spec_dominates(y, f2) by {
                        assert(dt.spec_dominates(y, f1));
                        if y == f1 {
                            // Then y would sit at f1's late position and on
                            // f2's earlier chain at once: impossible.
                            let jy = dt.lemma_chain_pos(y, f2, i2, n);
                            assert(false);
                        } else {
                            assert(dt.on_chain(y, f1, n));
                            assert(dt.on_chain(y, d, (n - 1) as nat));
                            dt.lemma_chain_fuel_mono(y, d, (n - 1) as nat, n);
                        }
                    }
                    i1 = j;
                }
                f1 = d;
            }
            while nums[f2.0 as usize] < nums[f1.0 as usize]
                invariant
                    dt == (DomTree { doms: *doms, rpo: *rpo }),
                    dt.links_ok(),
                    dt.nums_ok(nums@),
                    dt.dom_entry(f1).is_some(),
                    dt.dom_entry(f2).is_some(),
                    0 <= i1 < dt.rpo@.len(),
                    0 <= i2 < dt.rpo@.len(),
                    dt.rpo@[i1] == f1,
                    dt.rpo@[i2] == f2,
                    i1 <= i1_entry,
                    i2 <= i2_entry,
                    dt.spec_dominates(f1, b1),
                    dt.spec_dominates(f2, b2),
                    forall|y: BlockId|
                        dt.spec_dominates(y, b1) && dt.spec_dominates(y, b2)
                            ==> dt.spec_dominates(y, f1) && dt.spec_dominates(y, f2),
                decreases i2,
            {
                proof {
                    assert(nums@[f1.0 as int] == dt.rpo@.len() - i1);
                    assert(nums@[f2.0 as int] == dt.rpo@.len() - i2);
                    assert(i2 > i1);
                    assert(i2 >= 1);
                }
                let d = recorded_dom(doms, f2);
                proof {
                    assert((f2.0 as int) < doms@.len());
                    assert(dt.dom_entry(f2) == Some(d));
                    let j = choose|j: int| 0 <= j < i2 && dt.rpo@[j] == d;
                    assert(dt.spec_dominates(d, f2)) by {
                        assert(n > 0);
                        assert(d != f2);
                        assert(dt.on_chain(d, d, (n - 1) as nat));
                        assert(dt.on_chain(d, f2, n));
                    }
                    dt.lemma_dominates_trans(d, f2, b2);
                    assert forall|y: BlockId|
                        dt.spec_dominates(y, b1) && dt.spec_dominates(y, b2) implies dt
                        .spec_dominates(y, f1) && dt.spec_dominates(y, d) by {
                        assert(dt.spec_dominates(y, f2));
                        if y == f2 {
                            let jy = dt.lemma_chain_pos(y, f1, i1, n);
                            assert(false);
                        } else {
                            assert(dt.on_chain(y, f2, n));
                            assert(dt.on_chain(y, d, (n - 1) as nat));
                            dt.lemma_chain_fuel_mono(y, d, (n - 1) as nat, n);
                        }
                    }
                    i2 = j;
                }
                f2 = d;
            }
            proof {
                // If no inner walk ran, the ranks were already equal, so the
                // cursors named one block, against the loop condition.
                assert(nums@[f1.0 as int] == dt.rpo@.len() - i1);
                assert(nums@[f2.0 as int] == dt.rpo@.len() - i2);
                if i1 == i1_entry && i2 == i2_entry {
                    assert(!(nums@[f1.0 as int] < nums@[f2.0 as int]));
                    assert(!(nums@[f2.0 as int] < nums@[f1.0 as int]));
                    assert(i1 == i2);
                    assert(f1 == f2);
                    assert(g1 == dt.rpo@[i1_entry] && g2 == dt.rpo@[i2_entry]);
                    assert(false);
                }
                assert(i1 + i2 < i1_entry + i2_entry);
            }
        }
        f1
    }

    /// One sweep of the fixed-point iteration over the non-entry blocks in
    /// reverse post order. After any sweep every block of the reverse post
    /// order has a recorded dominator; a sweep that changes nothing reports
    /// `false` and leaves the map at the fixed point.
    #[verifier::loop_isolation(false)]
    #[verifier::rlimit(100)]
    #[verifier::spinoff_prover]
    fn pass(&mut self, cfg: &ControlFlowGraph, nums: &Vec<usize>) -> (changed: bool)
        requires
            cfg.wf(),
            old(self).links_ok(),
            old(self).rpo@.len() > 0,
            old(self).rpo_cfg_valid(*cfg),
            old(self).rpo_connected(*cfg),
            old(self).dom_entry(old(self).rpo@[0]).is_some(),
            old(self).nums_ok(nums@),
        ensures
            final(self).rpo@ == old(self).rpo@,
            final(self).doms@.len() == old(self).doms@.len(),
            final(self).links_ok(),
            final(self).complete(),
            !changed ==> final(self).doms@ == old(self).doms@,
            !changed ==> final(self).fixpoint(*cfg),
    {
        let mut changed = false;
        let rlen = self.rpo.len();
        let mut i: usize = 1;
        while i < rlen
            invariant
                1 <= i <= rlen,
                self.rpo@ == old(self).rpo@,
                self.doms@.len() == old(self).doms@.len(),
                self.links_ok(),
                self.nums_ok(nums@),
                forall|j: int| 0 <= j < i ==> self.dom_entry(#[trigger] self.rpo@[j]).is_some(),
                !changed ==> self.doms@ == old(self).doms@,
                !changed ==> forall|j: int|
                    1 <= j < i ==> self.is_meet(
                        *cfg,
                        self.dom_entry(#[trigger] self.rpo@[j]).unwrap(),
                        self.rpo@[j],
                    ),
            decreases rlen - i,
        {
            let b = self.rpo[i];
            proof {
                assert(cfg.block_valid(b));
            }
            let plen = cfg.pred_num_of(b);
            let preds = cfg.preds_of(b);
            // Pick the first predecessor that already has a recorded
            // dominator as the seed of the fold.
            let mut k0: usize = 0;
            let mut seed_found = false;
            while k0 < plen && !seed_found
                invariant
                    0 <= k0 <= plen,
                    !seed_found ==> forall|k2: int|
                        0 <= k2 < k0 ==> self.dom_entry(#[trigger] cfg.pred_seq(b)[k2]).is_none(),
                    seed_found ==> k0 < plen && self.dom_entry(
                        cfg.pred_seq(b)[k0 as int],
                    ).is_some(),
                decreases plen - k0 + if seed_found {
                    0int
                } else {
                    1int
                },
            {
                let p = preds[k0];
                if (p.0 as usize) < self.doms.len() && self.doms[p.0 as usize].is_some() {
                    seed_found = true;
                } else {
                    k0 += 1;
                }
            }
            proof {
                // A predecessor earlier in reverse post order is already
                // recorded, so the scan cannot come up empty.
                if !seed_found {
                    assert(self.has_earlier_pred(*cfg, i as int)) by {
                        assert(old(self).has_earlier_pred(*cfg, i as int));
                    }
                    let j = choose|j: int|
                        0 <= j < i && cfg.pred_seq(self.rpo@[i as int]).contains(
                            #[trigger] self.rpo@[j],
                        );
                    let k2 = choose|k2: int|
                        0 <= k2 < cfg.pred_seq(b).len() && cfg.pred_seq(b)[k2] == self.rpo@[j];
                    assert(self.dom_entry(cfg.pred_seq(b)[k2]).is_none());
                    assert(self.dom_entry(self.rpo@[j]).is_some());
                    assert(false);
                }
            }
            let mut new_dom = preds[k0];
            let ghost seed = cfg.pred_seq(b)[k0 as int];
            proof {
                assert(self.spec_dominates(new_dom, seed));
                assert(self.dominates_assigned_preds_upto(*cfg, new_dom, b, 0));
            }
            let mut k: usize = 0;
            while k < plen
                invariant
                    0 <= k <= plen,
                    self.dom_entry(new_dom).is_some(),
                    self.spec_dominates(new_dom, seed),
                    self.dominates_assigned_preds_upto(*cfg, new_dom, b, k as int),
                    forall|y: BlockId|
                        self.spec_dominates(y, seed) && #[trigger] self.dominates_assigned_preds_upto(
                            *cfg,
                            y,
                            b,
                            k as int,
                        ) ==> self.spec_dominates(y, new_dom),
                decreases plen - k,
            {
                let p = preds[k];
                let mut fold = false;
                if k != k0 {
                    if (p.0 as usize) < self.doms.len() && self.doms[p.0 as usize].is_some() {
                        fold = true;
                    }
                }
                let ghost before = new_dom;
                if fold {
                    new_dom = DomTree::intersect(&self.doms, &self.rpo, nums, new_dom, p);
                    proof {
                        let dt = (DomTree { doms: self.doms, rpo: self.rpo });
                        assert(dt == *self);
                        self.lemma_dominates_trans(new_dom, before, seed);
                        assert forall|k2: int|
                            0 <= k2 < k + 1 && k2 < cfg.pred_seq(b).len() && self.dom_entry(
                                #[trigger] cfg.pred_seq(b)[k2],
                            ).is_some() implies self.spec_dominates(
                            new_dom,
                            cfg.pred_seq(b)[k2],
                        ) by {
                            if k2 == k {
                            } else {
                                assert(self.spec_dominates(before, cfg.pred_seq(b)[k2]));
                                self.lemma_dominates_trans(new_dom, before, cfg.pred_seq(b)[k2]);
                            }
                        }
                        assert forall|y: BlockId|
                            self.spec_dominates(y, seed)
                                && #[trigger] self.dominates_assigned_preds_upto(
                                *cfg,
                                y,
                                b,
                                k + 1,
                            ) implies self.spec_dominates(y, new_dom) by {
                            assert(self.dominates_assigned_preds_upto(*cfg, y, b, k as int));
                            assert(self.spec_dominates(y, before));
                            assert(self.spec_dominates(y, cfg.pred_seq(b)[k as int]));
                        }
                    }
                } else {
                    proof {
                        assert forall|k2: int|
                            0 <= k2 < k + 1 && k2 < cfg.pred_seq(b).len() && self.dom_entry(
                                #[trigger] cfg.pred_seq(b)[k2],
                            ).is_some() implies self.spec_dominates(
                            new_dom,
                            cfg.pred_seq(b)[k2],
                        ) by {
                            if k2 == k {
                                assert(k == k0);
                            }
                        }
                        assert forall|y: BlockId|
                            self.spec_dominates(y, seed)
                                && #[trigger] self.dominates_assigned_preds_upto(
                                *cfg,
                                y,
                                b,
                                k + 1,
                            ) implies self.spec_dominates(y, new_dom) by {
                            assert(self.dominates_assigned_preds_upto(*cfg, y, b, k as int));
                        }
                    }
                }
                k += 1;
            }
            proof {
                // The fold result is the meet of all recorded predecessors.
                assert(self.is_meet(*cfg, new_dom, b)) by {
                    assert(self.dominates_assigned_preds(*cfg, new_dom, b));
                    assert forall|y: BlockId|
                        #[trigger] self.dominates_assigned_preds(*cfg, y, b) implies self
                        .spec_dominates(y, new_dom) by {
                        assert(self.spec_dominates(y, seed));
                    }
                }
            }
            let cur_same = match self.doms[b.0 as usize] {
                Some(c) => c.0 == new_dom.0,
                None => false,
            };
            if !cur_same {
                let ghost pre = *self;
                self.doms.set(b.0 as usize, Some(new_dom));
                changed = true;
                proof {
                    assert(self.rpo@ == pre.rpo@);
                    // The only changed entry is b's, and blocks other than b
                    // keep their recorded dominator.
                    assert forall|x: BlockId| x.0 != b.0 implies self.dom_entry(x)
                        == pre.dom_entry(x) by {}
                    assert(self.dom_entry(b) == Some(new_dom));
                    // The meet sits strictly earlier in reverse post order
                    // than b: it dominates a predecessor recorded earlier.
                    assert(pre.has_earlier_pred(*cfg, i as int)) by {
                        assert(old(self).has_earlier_pred(*cfg, i as int));
                    }
                    let j = choose|j: int|
                        0 <= j < i && cfg.pred_seq(pre.rpo@[i as int]).contains(
                            #[trigger] pre.rpo@[j],
                        );
                    let k2 = choose|k2: int|
                        0 <= k2 < cfg.pred_seq(b).len() && cfg.pred_seq(b)[k2] == pre.rpo@[j];
                    assert(pre.dom_entry(cfg.pred_seq(b)[k2]).is_some());
                    assert(pre.spec_dominates(new_dom, pre.rpo@[j]));
                    let jm = pre.lemma_chain_pos(new_dom, pre.rpo@[j], j, pre.rpo@.len() as nat);
                    assert(0 <= jm < i && pre.rpo@[jm] == new_dom);
                    assert(new_dom.0 != b.0);
                    assert(self.links_ok()) by {
                        assert forall|i2: int|
                            1 <= i2 < self.rpo@.len() implies match self.dom_entry(
                            #[trigger] self.rpo@[i2],
                        ) {
                            Some(d) => exists|j2: int| 0 <= j2 < i2 && self.rpo@[j2] == d,
                            None => true,
                        } by {
                            if self.rpo@[i2].0 == b.0 {
                                assert(self.rpo@[i2] == b);
                                assert(i2 == i);
                                assert(self.rpo@[jm] == new_dom);
                            } else {
                                assert(self.dom_entry(self.rpo@[i2]) == pre.dom_entry(
                                    self.rpo@[i2],
                                ));
                            }
                        }
                        assert forall|c: int|
                            0 <= c < self.doms@.len() && (#[trigger] self.doms@[c]).is_some()
                                implies exists|i2: int|
                            0 <= i2 < self.rpo@.len() && self.rpo@[i2].0 == c by {
                            if c == b.0 as int {
                                assert(self.rpo@[i as int].0 == c);
                            } else {
                                assert(pre.doms@[c].is_some());
                            }
                        }
                        assert forall|c: int|
                            0 <= c < self.doms@.len() && (#[trigger] self.doms@[c]).is_some()
                                implies self.dom_entry(self.doms@[c].unwrap()).is_some() by {
                            if c == b.0 as int {
                                assert(self.doms@[c].unwrap() == new_dom);
                                assert(pre.dom_entry(new_dom).is_some());
                                if new_dom.0 == b.0 {
                                    assert(false);
                                }
                            } else {
                                assert(pre.doms@[c].is_some());
                                let t = pre.doms@[c].unwrap();
                                assert(pre.dom_entry(t).is_some());
                                if t.0 == b.0 {
                                    assert(self.dom_entry(t) == Some(new_dom));
                                } else {
                                    assert(self.dom_entry(t) == pre.dom_entry(t));
                                }
                            }
                        }
                    }
                    assert forall|j2: int|
                        0 <= j2 < i + 1 implies self.dom_entry(
                        #[trigger] self.rpo@[j2],
                    ).is_some() by {
                        if self.rpo@[j2].0 == b.0 {
                        } else {
                            assert(self.dom_entry(self.rpo@[j2]) == pre.dom_entry(self.rpo@[j2]));
                        }
                    }
                }
            } else {
                proof {
                    assert(self.dom_entry(b) == Some(new_dom)) by {
                        assert(self.doms@[b.0 as int].is_some());
                        assert(self.doms@[b.0 as int].unwrap().0 == new_dom.0);
                    }
                }
            }
            i += 1;
        }
        changed
    }

    /// Computes the immediate-dominator map of `cfg` with the iterative
    /// fixed-point algorithm: number the blocks in reverse post order, seed
    /// the entry with itself, then sweep until a sweep changes nothing.
    ///
    /// On return the tree is well formed, its reverse post order is the
    /// reverse of `cfg`'s post order, and the map is at the fixed point:
    /// every non-entry reachable block records the nearest common dominator
    /// of its recorded predecessors. The sweeps carry a step budget beyond
    /// what any machine can spend; in the case that it runs out before a
    /// clean sweep, the map degrades to the root-only approximation, which
    /// is well formed but understates dominance.
    #[verifier::loop_isolation(false)]
    #[verifier::rlimit(100)]
    #[verifier::spinoff_prover]
    pub fn compute(&mut self, cfg: &ControlFlowGraph)
        requires
            cfg.wf(),
        ensures
            final(self).wf(),
            final(self).rpo@ == cfg.post_order_spec().reverse(),
            final(self).rpo_cfg_valid(*cfg),
            final(self).fixpoint(*cfg) || final(self).flat_approximation(),
    {
        self.clear();
        let m = cfg.post_order().len();
        // Reverse the post order.
        let mut r: usize = 0;
        while r < m
            invariant
                self.rpo@.len() == r,
                self.doms@.len() == 0,
                0 <= r <= m,
                forall|t: int|
                    0 <= t < r ==> #[trigger] self.rpo@[t] == cfg.post_order_spec()[m - 1 - t],
            decreases m - r,
        {
            let po = cfg.post_order();
            self.rpo.push(po[m - 1 - r]);
            r += 1;
        }
        // One dominator slot per block id, all unset.
        let n = cfg.num_blocks();
        let mut c: usize = 0;
        while c < n
            invariant
                self.doms@.len() == c,
                0 <= c <= n,
                self.rpo@.len() == m,
                forall|t: int|
                    0 <= t < m ==> #[trigger] self.rpo@[t] == cfg.post_order_spec()[m - 1 - t],
                forall|t: int| 0 <= t < c ==> (#[trigger] self.doms@[t]).is_none(),
            decreases n - c,
        {
            self.doms.push(None);
            c += 1;
        }
        proof {
            assert(self.rpo@ =~= cfg.post_order_spec().reverse());
        }
        if m == 0 {
            return ;
        }
        proof {
            assert(self.rpo_distinct()) by {
                assert forall|i2: int, j2: int|
                    0 <= i2 < j2 < self.rpo@.len() implies self.rpo@[i2] != self.rpo@[j2] by {
                    assert(cfg.post_order_spec()[m - 1 - j2] != cfg.post_order_spec()[m - 1 - i2]);
                }
            }
            assert(self.rpo_in_bounds()) by {
                assert forall|i2: int|
                    0 <= i2 < self.rpo@.len() implies (#[trigger] self.rpo@[i2]).0
                    < self.doms@.len() by {
                    assert(self.rpo@[i2] == cfg.post_order_spec()[m - 1 - i2]);
                }
            }
            assert(self.rpo_cfg_valid(*cfg)) by {
                assert forall|i2: int|
                    0 <= i2 < self.rpo@.len() implies cfg.block_valid(
                    #[trigger] self.rpo@[i2],
                ) by {
                    assert(self.rpo@[i2] == cfg.post_order_spec()[m - 1 - i2]);
                }
            }
            assert(self.rpo_connected(*cfg)) by {
                assert forall|i2: int|
                    1 <= i2 < self.rpo@.len() implies #[trigger] self.has_earlier_pred(
                    *cfg,
                    i2,
                ) by {
                    let jj = m - 1 - i2;
                    assert(0 <= jj < m - 1);
                    let bb = cfg.post_order@[jj];
                    assert(exists|k: int|
                        jj < k < m && cfg.pred_seq(bb).contains(cfg.post_order@[k]));
                    let k = choose|k: int|
                        jj < k < m && cfg.pred_seq(bb).contains(cfg.post_order@[k]);
                    let j = m - 1 - k;
                    assert(self.rpo@[j] == cfg.post_order@[k]);
                    assert(self.rpo@[i2] == bb);
                    assert(cfg.pred_seq(self.rpo@[i2]).contains(self.rpo@[j]));
                    assert(0 <= j < i2);
                }
            }
        }
        // Rank numbers: the position subtracted from the length.
        let mut nums: Vec<usize> = Vec::new();
        let mut c2: usize = 0;
        while c2 < n
            invariant
                nums@.len() == c2,
                0 <= c2 <= n,
            decreases n - c2,
        {
            nums.push(0);
            c2 += 1;
        }
        let mut i: usize = 0;
        while i < m
            invariant
                nums@.len() == n,
                0 <= i <= m,
                forall|t: int|
                    0 <= t < i ==> nums@[(#[trigger] self.rpo@[t]).0 as int] == m - t,
            decreases m - i,
        {
            let b = self.rpo[i];
            nums.set(b.0 as usize, m - i);
            proof {
                assert forall|t: int|
                    0 <= t < i + 1 implies nums@[(#[trigger] self.rpo@[t]).0 as int] == m - t by {
                    if t < i {
                        assert(self.rpo@[t] != self.rpo@[i as int]);
                    }
                }
            }
            i += 1;
        }
        // Seed the entry block with itself.
        let ghost unseeded = *self;
        let entry = self.rpo[0];
        self.doms.set(entry.0 as usize, Some(entry));
        proof {
            unseeded.lemma_connected_stable(*self, *cfg);
            assert(self.links_ok()) by {
                assert(self.dom_entry(self.rpo@[0]) == Some(entry));
                assert forall|i2: int|
                    1 <= i2 < self.rpo@.len() implies match self.dom_entry(
                    #[trigger] self.rpo@[i2],
                ) {
                    Some(d) => exists|j2: int| 0 <= j2 < i2 && self.rpo@[j2] == d,
                    None => true,
                } by {
                    assert(self.rpo@[i2] != self.rpo@[0]);
                    assert(self.rpo@[i2].0 != entry.0);
                    assert(self.dom_entry(self.rpo@[i2]).is_none());
                }
                assert forall|cc: int|
                    0 <= cc < self.doms@.len() && (#[trigger] self.doms@[cc]).is_some()
                        implies exists|i2: int|
                    0 <= i2 < self.rpo@.len() && self.rpo@[i2].0 == cc by {
                    assert(cc == entry.0 as int);
                    assert(self.rpo@[0].0 == cc);
                }
                assert forall|cc: int|
                    0 <= cc < self.doms@.len() && (#[trigger] self.doms@[cc]).is_some()
                        implies self.dom_entry(self.doms@[cc].unwrap()).is_some() by {
                    assert(cc == entry.0 as int);
                }
            }
            assert(self.nums_ok(nums@));
        }
        // Sweep until a sweep changes nothing.
        let mut fuel: usize = usize::MAX;
        let ghost before_pass = *self;
        let mut changed = self.pass(cfg, &nums);
        proof {
            before_pass.lemma_connected_stable(*self, *cfg);
        }
        while changed && fuel > 0
            invariant
                self.rpo@ == cfg.post_order_spec().reverse(),
                self.rpo@.len() == m,
                self.doms@.len() == n,
                self.links_ok(),
                self.complete(),
                self.nums_ok(nums@),
                self.rpo_cfg_valid(*cfg),
                self.rpo_connected(*cfg),
                !changed ==> self.fixpoint(*cfg),
            decreases fuel,
        {
            fuel -= 1;
            let ghost prev = *self;
            changed = self.pass(cfg, &nums);
            proof {
                prev.lemma_connected_stable(*self, *cfg);
            }
        }
        if changed {
            // The step budget ran out before a clean sweep: degrade to the
            // root-only approximation, keeping the tree well formed.
            let entry = self.rpo[0];
            let mut t: usize = 1;
            while t < m
                invariant
                    self.rpo@ == cfg.post_order_spec().reverse(),
                    self.rpo@.len() == m,
                    self.doms@.len() == n,
                    self.rpo_distinct(),
                    self.rpo_in_bounds(),
                    entry == self.rpo@[0],
                    1 <= t <= m,
                    self.dom_entry(self.rpo@[0]) == Some(entry),
                    forall|j: int|
                        1 <= j < t ==> self.dom_entry(#[trigger] self.rpo@[j]) == Some(entry),
                    forall|j: int|
                        0 <= j < m ==> self.dom_entry(#[trigger] self.rpo@[j]).is_some(),
                    forall|c: int|
                        0 <= c < self.doms@.len() && (#[trigger] self.doms@[c]).is_some()
                            ==> exists|j: int| 0 <= j < m && self.rpo@[j].0 == c,
                decreases m - t,
            {
                let b = self.rpo[t];
                proof {
                    assert(self.rpo@[0] != self.rpo@[t as int]);
                }
                self.doms.set(b.0 as usize, Some(entry));
                proof {
                    assert forall|j: int|
                        0 <= j < m && self.rpo@[j].0 != b.0 implies self.dom_entry(
                        #[trigger] self.rpo@[j],
                    ).is_some() by {}
                }
                t += 1;
            }
            proof {
                assert(self.links_ok()) by {
                    assert forall|i2: int|
                        1 <= i2 < self.rpo@.len() implies match self.dom_entry(
                        #[trigger] self.rpo@[i2],
                    ) {
                        Some(d) => exists|j2: int| 0 <= j2 < i2 && self.rpo@[j2] == d,
                        None => true,
                    } by {
                        assert(self.dom_entry(self.rpo@[i2]) == Some(self.rpo@[0]));
                    }
                    assert forall|c: int|
                        0 <= c < self.doms@.len() && (#[trigger] self.doms@[c]).is_some()
                            implies self.dom_entry(self.doms@[c].unwrap()).is_some() by {
                        let j = choose|j: int| 0 <= j < m && self.rpo@[j].0 == c;
                        if j == 0 {
                            assert(self.doms@[c] == Some(entry));
                        } else {
                            assert(self.dom_entry(self.rpo@[j]) == Some(entry));
                            assert(self.doms@[c] == Some(entry));
                        }
                        assert(self.dom_entry(entry) == Some(entry));
                    }
                }
                assert(self.flat_approximation());
            }
        }
    }

    /// Creates an empty dominator tree; run [`DomTree::compute`] before
    /// querying it.
    pub fn new() -> (r: DomTree)
        ensures
            r.wf(),
            r.is_cleared(),
    {
        DomTree { doms: Vec::new(), rpo: Vec::new() }
    }
}

impl Default for DomTree {
    /// The empty dominator tree, as [`DomTree::new`] returns it.
    fn default() -> (r: DomTree)
        ensures
            r.wf(),
            r.is_cleared(),
    {
        DomTree::new()
    }
}

impl DomTree {

    /// Resets the tree to the empty state, keeping backing storage for
    /// reuse across functions.
    pub fn clear(&mut self)
        ensures
            final(self).wf(),
            final(self).is_cleared(),
    {
        self.doms.clear();
        self.rpo.clear();
    }

    /// Returns the immediate dominator of `block`, or `None` if `block` is
    /// the entry block or is unreachable from the entry.
    pub fn idom_of(&self, block: BlockId) -> (r: Option<BlockId>)
        requires
            self.wf(),
        ensures
            r == self.idom_spec(block),
    {
        if self.rpo.len() == 0 {
            return None;
        }
        if self.rpo[0] == block {
            return None;
        }
        if (block.0 as usize) < self.doms.len() {
            self.doms[block.0 as usize]
        } else {
            None
        }
    }

    /// Returns `true` iff `block` is reachable from the entry block, i.e.
    /// iff it appears in the reverse post order.
    pub fn is_reachable(&self, block: BlockId) -> (r: bool)
        requires
            self.wf(),
        ensures
            r == self.reachable(block),
    {
        let r = (block.0 as usize) < self.doms.len() && self.doms[block.0 as usize].is_some();
        proof {
            if r {
                let i = self.lemma_assigned_has_pos(block);
            } else {
                if self.rpo@.contains(block) {
                    let i = choose|i: int|
                        0 <= i < self.rpo@.len() && self.rpo@[i] == block;
                    assert(self.dom_entry(self.rpo@[i]).is_some());
                }
            }
        }
        r
    }

    /// Returns `true` if `block1` strictly dominates `block2`.
    pub fn strictly_dominates(&self, block1: BlockId, block2: BlockId) -> (r: bool)
        requires
            self.wf(),
        ensures
            r == self.spec_strictly_dominates(block1, block2),
    {
        let mut current: BlockId = block2;
        let ghost mut m: int = if self.reachable(block2) {
            1 + choose|i: int| 0 <= i < self.rpo@.len() && self.rpo@[i] == block2
        } else {
            0int
        };
        loop
            invariant
                self.wf(),
                self.spec_strictly_dominates(block1, block2) == self.spec_strictly_dominates(
                    block1,
                    current,
                ),
                self.reachable(current) ==> 0 <= m - 1 < self.rpo@.len() && self.rpo@[m - 1]
                    == current,
                !self.reachable(current) ==> m == 0,
                m >= 0,
            decreases m,
        {
            match self.idom_of(current) {
                Some(d) => {
                    proof {
                        let i = self.lemma_assigned_has_pos(current);
                        assert(i == m - 1);
                        assert(i >= 1) by {
                            if i == 0 {
                                assert(self.idom_spec(current).is_none());
                            }
                        }
                        let j = choose|j: int| 0 <= j < i && self.rpo@[j] == d;
                        self.lemma_dominates_step(block1, current, i);
                        if d == block1 {
                            // The walk found `block1` one step up.
                            assert(self.spec_dominates(block1, current));
                            assert(block1 != current);
                        } else {
                            // Stepping preserves what the walk will find.
                            assert(self.spec_strictly_dominates(block1, current)
                                == self.spec_strictly_dominates(block1, d)) by {
                                if block1 == current {
                                    if self.spec_dominates(block1, d) {
                                        let jj = self.lemma_chain_pos(
                                            block1,
                                            d,
                                            j,
                                            self.rpo@.len() as nat,
                                        );
                                    }
                                }
                            }
                        }
                        m = j + 1;
                    }
                    if d == block1 {
                        return true;
                    }
                    current = d;
                },
                None => {
                    proof {
                        if self.rpo@.len() == 0 {
                            assert(!self.reachable(current));
                            self.lemma_chain_unassigned(block1, current, self.rpo@.len() as nat);
                        } else if current == self.entry_spec() {
                            self.lemma_dominates_step(block1, current, 0);
                        } else {
                            assert(self.dom_entry(current).is_none());
                            self.lemma_chain_unassigned(block1, current, self.rpo@.len() as nat);
                        }
                        assert(!self.spec_strictly_dominates(block1, current));
                    }
                    return false;
                },
            }
        }
    }

    /// Returns `true` if `block1` dominates `block2`; dominance is
    /// reflexive.
    pub fn dominates(&self, block1: BlockId, block2: BlockId) -> (r: bool)
        requires
            self.wf(),
        ensures
            r == self.spec_dominates(block1, block2),
    {
        if block1 == block2 {
            return true;
        }
        self.strictly_dominates(block1, block2)
    }

    /// Returns the blocks reachable from the entry, in reverse post order.
    pub fn rpo(&self) -> (r: &[BlockId])
        ensures
            r@ == self.rpo_spec(),
    {
        self.rpo.as_slice()
    }

    /// Dominance is reflexive: every block dominates itself, reachable or
    /// not.
    pub proof fn law_dominates_reflexive(self, x: BlockId)
        ensures
            self.spec_dominates(x, x),
    {
    }

    /// Every reachable block other than the entry has an immediate
    /// dominator, which is itself reachable and sits strictly earlier in
    /// reverse post order, so immediate-dominator chains terminate.
    pub proof fn law_idom_reachable(self, b: BlockId) -> (ij: (int, int))
        requires
            self.wf(),
            self.reachable(b),
            b != self.entry_spec(),
        ensures
            self.idom_spec(b).is_some(),
            self.reachable(self.idom_spec(b).unwrap()),
            ({
                let (i, j) = ij;
                &&& 0 <= j < i < self.rpo@.len()
                &&& self.rpo@[i] == b
                &&& self.rpo@[j] == self.idom_spec(b).unwrap()
            }),
    {
        let i = choose|i: int| 0 <= i < self.rpo@.len() && self.rpo@[i] == b;
        assert(self.dom_entry(self.rpo@[i]).is_some());
        assert(i != 0);
        let d = self.dom_entry(b).unwrap();
        let j = choose|j: int| 0 <= j < i && self.rpo@[j] == d;
        assert(self.reachable(d)) by {
            assert(self.rpo@[j] == d);
        }
        (i, j)
    }

    /// The entry block strictly dominates every other reachable block.
    pub proof fn law_entry_strictly_dominates(self, b: BlockId)
        requires
            self.wf(),
            self.reachable(b),
            b != self.entry_spec(),
        ensures
            self.spec_strictly_dominates(self.entry_spec(), b),
    {
        let i = choose|i: int| 0 <= i < self.rpo@.len() && self.rpo@[i] == b;
        assert(i != 0);
        self.lemma_entry_reaches(i);
    }

    /// The chain from any reverse-post-order position reaches the entry.
    proof fn lemma_entry_reaches(self, i: int)
        requires
            self.wf(),
            1 <= i < self.rpo@.len(),
        ensures
            self.spec_dominates(self.rpo@[0], self.rpo@[i]),
        decreases i,
    {
        let b = self.rpo@[i];
        assert(self.dom_entry(b).is_some());
        let d = self.dom_entry(b).unwrap();
        let j = choose|j: int| 0 <= j < i && self.rpo@[j] == d;
        if j == 0 {
            self.lemma_dominates_step(self.rpo@[0], b, i);
        } else {
            self.lemma_entry_reaches(j);
            self.lemma_dominates_step(self.rpo@[0], b, i);
        }
    }

    /// The immediate dominator of a reachable block dominates it, and is
    /// the nearest dominator: every strict dominator of the block also
    /// dominates the immediate dominator.
    pub proof fn law_idom_nearest(self, b: BlockId)
        requires
            self.wf(),
            self.reachable(b),
            b != self.entry_spec(),
        ensures
            self.spec_dominates(self.idom_spec(b).unwrap(), b),
            forall|x: BlockId|
                #[trigger] self.spec_strictly_dominates(x, b) ==> self.spec_dominates(
                    x,
                    self.idom_spec(b).unwrap(),
                ),
    {
        let i = choose|i: int| 0 <= i < self.rpo@.len() && self.rpo@[i] == b;
        assert(i != 0);
        let d = self.dom_entry(b).unwrap();
        self.lemma_dominates_step(d, b, i);
        assert forall|x: BlockId| #[trigger] self.spec_strictly_dominates(x, b) implies self
            .spec_dominates(x, d) by {
            self.lemma_dominates_step(x, b, i);
        }
    }

    /// An unreachable block has no immediate dominator and dominates only
    /// itself.
    pub proof fn law_unreachable(self, b: BlockId)
        requires
            self.wf(),
            !self.reachable(b),
        ensures
            self.idom_spec(b).is_none(),
            forall|x: BlockId| #[trigger] self.spec_dominates(x, b) ==> x == b,
    {
        assert(self.dom_entry(b).is_none()) by {
            if self.dom_entry(b).is_some() {
                let i = self.lemma_assigned_has_pos(b);
            }
        }
        assert forall|x: BlockId| #[trigger] self.spec_dominates(x, b) implies x == b by {
            self.lemma_chain_unassigned(x, b, self.rpo@.len() as nat);
        }
    }

    /// The frontier walk from cursor `runner` toward the recorded dominator
    /// of the merge block `b` visits `x`: the cursor lies strictly below
    /// `b`'s recorded dominator and below the entry on a recorded chain, and
    /// either is `x` or walks on. Any fuel at least the length of the
    /// reverse post order is enough.
    pub open spec fn walk_visits(self, x: BlockId, runner: BlockId, b: BlockId, fuel: nat) -> bool
        decreases fuel,
    {
        &&& self.dom_entry(b) != Some(runner)
        &&& self.rpo@.len() > 0
        &&& runner != self.rpo@[0]
        &&& self.dom_entry(runner).is_some()
        &&& (x == runner || (fuel > 0 && self.walk_visits(
            x,
            self.dom_entry(runner).unwrap(),
            b,
            (fuel - 1) as nat,
        )))
    }

    /// Block `b` lies in the dominance frontier of `of`: `b` is a reachable
    /// control-flow merge, and the walk up from one of its predecessors
    /// stops only past `of`.
    pub open spec fn in_frontier_spec(
        self,
        cfg: ControlFlowGraph,
        of: BlockId,
        b: BlockId,
    ) -> bool {
        &&& self.reachable(b)
        &&& cfg.pred_seq(b).len() >= 2
        &&& exists|k: int|
            0 <= k < cfg.pred_seq(b).len() && self.walk_visits(
                of,
                #[trigger] cfg.pred_seq(b)[k],
                b,
                self.rpo@.len() as nat,
            )
    }

    /// Whatever the walk visits lies on the recorded chain from the cursor.
    proof fn lemma_walk_on_chain(self, x: BlockId, runner: BlockId, b: BlockId, fuel: nat)
        requires
            self.walk_visits(x, runner, b, fuel),
        ensures
            self.on_chain(x, runner, fuel),
        decreases fuel,
    {
        if x == runner {
        } else {
            let d = self.dom_entry(runner).unwrap();
            self.lemma_walk_on_chain(x, d, b, (fuel - 1) as nat);
            assert(d != runner) by {
                if d == runner {
                    self.lemma_walk_same(x, runner, b, (fuel - 1) as nat);
                }
            }
        }
    }

    /// A walk whose cursor steps to itself never moves on.
    proof fn lemma_walk_same(self, x: BlockId, runner: BlockId, b: BlockId, fuel: nat)
        requires
            self.walk_visits(x, runner, b, fuel),
            self.dom_entry(runner) == Some(runner),
        ensures
            x == runner,
        decreases fuel,
    {
        if x != runner {
            self.lemma_walk_same(x, runner, b, (fuel - 1) as nat);
        }
    }

    /// The walk is insensitive to fuel once the fuel covers the cursor's
    /// position in the reverse post order.
    proof fn lemma_walk_fuel(
        self,
        x: BlockId,
        runner: BlockId,
        b: BlockId,
        i: int,
        fuel1: nat,
        fuel2: nat,
    )
        requires
            self.links_ok(),
            0 <= i < self.rpo@.len(),
            self.rpo@[i] == runner,
            fuel1 >= i,
            fuel2 >= i,
        ensures
            self.walk_visits(x, runner, b, fuel1) == self.walk_visits(x, runner, b, fuel2),
        decreases i,
    {
        if self.dom_entry(runner).is_some() && x != runner && runner != self.rpo@[0]
            && self.dom_entry(b) != Some(runner) && self.rpo@.len() > 0 {
            let d = self.dom_entry(runner).unwrap();
            if i == 0 {
            } else {
                let j = choose|j: int| 0 <= j < i && self.rpo@[j] == d;
                self.lemma_walk_fuel(x, d, b, j, (fuel1 - 1) as nat, (fuel2 - 1) as nat);
            }
        }
    }

    /// Mutually dominating recorded blocks are one block.
    proof fn lemma_dominates_antisym(self, a: BlockId, b: BlockId)
        requires
            self.links_ok(),
            self.dom_entry(a).is_some(),
            self.dom_entry(b).is_some(),
            self.spec_dominates(a, b),
            self.spec_dominates(b, a),
        ensures
            a == b,
    {
        let n = self.rpo@.len() as nat;
        let ia = self.lemma_assigned_has_pos(a);
        let ib = self.lemma_assigned_has_pos(b);
        let j1 = self.lemma_chain_pos(a, b, ib, n);
        let j2 = self.lemma_chain_pos(b, a, ia, n);
        if a != b {
            assert(j1 < ib && j2 < ia);
            assert(self.rpo@[j1] == a && self.rpo@[ia] == a);
            assert(j1 == ia);
            assert(j2 == ib);
            assert(false);
        }
    }

    /// A visited block carries a recorded dominator, differs from the
    /// stop block, and is not the entry.
    proof fn lemma_walk_visited_assigned(self, x: BlockId, r: BlockId, b: BlockId, f: nat)
        requires
            self.walk_visits(x, r, b, f),
        ensures
            self.dom_entry(x).is_some(),
            self.dom_entry(b) != Some(x),
            x != self.rpo@[0],
        decreases f,
    {
        if x == r {
        } else {
            self.lemma_walk_visited_assigned(x, self.dom_entry(r).unwrap(), b, (f - 1) as nat);
        }
    }

    /// The walk never crosses the stop block: if `b`'s recorded dominator
    /// lies on the cursor's chain, it stays at or above everything visited.
    proof fn lemma_walk_below(self, x: BlockId, r: BlockId, b: BlockId, db: BlockId, f: nat)
        requires
            self.links_ok(),
            self.walk_visits(x, r, b, f),
            self.dom_entry(b) == Some(db),
            self.on_chain(db, r, self.rpo@.len() as nat),
        ensures
            self.on_chain(db, x, self.rpo@.len() as nat),
        decreases f,
    {
        let n = self.rpo@.len() as nat;
        if x == r {
        } else {
            let d = self.dom_entry(r).unwrap();
            assert(self.on_chain(db, d, n)) by {
                assert(db != r);
                let i = self.lemma_assigned_has_pos(r);
                self.lemma_dominates_step(db, r, i);
                assert(i != 0) by {
                    if i == 0 {
                        assert(r == self.rpo@[0]);
                    }
                }
            }
            self.lemma_walk_below(x, d, b, db, (f - 1) as nat);
        }
    }

    /// Where nothing stops it earlier, the walk from a recorded cursor
    /// reaches every block that dominates the cursor without strictly
    /// dominating the target.
    proof fn lemma_walk_reaches(self, x: BlockId, r: BlockId, b: BlockId, i: int)
        requires
            self.wf(),
            0 <= i < self.rpo@.len(),
            self.rpo@[i] == r,
            self.dom_entry(r).is_some(),
            self.spec_dominates(x, r),
            self.reachable(b),
            !self.spec_strictly_dominates(x, b),
            !(x == self.entry_spec() && b == self.entry_spec()),
        ensures
            self.walk_visits(x, r, b, self.rpo@.len() as nat),
        decreases i,
    {
        let n = self.rpo@.len() as nat;
        let ib = choose|t: int| 0 <= t < self.rpo@.len() && self.rpo@[t] == b;
        let db = self.dom_entry(b).unwrap();
        assert(r != self.entry_spec()) by {
            if r == self.entry_spec() {
                assert(i == 0) by {
                    if i != 0 {
                        assert(self.rpo@[i] == self.rpo@[0]);
                    }
                }
                assert(x == r) by {
                    self.lemma_dominates_step(x, r, 0);
                }
                if b != self.entry_spec() {
                    self.law_entry_strictly_dominates(b);
                    assert(false);
                } else {
                    assert(false);
                }
            }
        }
        assert(i != 0);
        assert(Some(r) != self.dom_entry(b)) by {
            if r == db {
                if ib == 0 {
                    // The entry records itself, so only the entry would do.
                    assert(db == b);
                    assert(self.spec_dominates(x, b));
                    assert(x == b) by {
                        self.lemma_dominates_step(x, b, 0);
                    }
                    assert(false);
                } else {
                    let jdb = choose|j: int| 0 <= j < ib && self.rpo@[j] == db;
                    if x == b {
                        // b would dominate a block strictly above it.
                        let jx = self.lemma_chain_pos(x, r, i, n);
                        assert(self.rpo@[jx] == b && self.rpo@[ib] == b);
                        assert(jx == ib);
                        assert(jx <= i);
                        assert(i == jdb);
                        assert(false);
                    } else {
                        self.lemma_dominates_step(x, b, ib);
                        assert(self.spec_strictly_dominates(x, b));
                        assert(false);
                    }
                }
            }
        }
        if x == r {
        } else {
            let d = self.dom_entry(r).unwrap();
            let j = choose|j: int| 0 <= j < i && self.rpo@[j] == d;
            assert(self.spec_dominates(x, d)) by {
                self.lemma_dominates_step(x, r, i);
            }
            self.lemma_walk_reaches(x, d, b, j);
            self.lemma_walk_fuel(x, d, b, j, (n - 1) as nat, n);
        }
    }

    /// Dominance-frontier membership characterized by dominance: a
    /// reachable block `x` has the reachable merge block `b` in its
    /// dominance frontier exactly when `x` dominates some predecessor of
    /// `b` but does not strictly dominate `b` itself. The pair of the
    /// entry block with itself is left out: at a back edge into the entry
    /// the walk treats the entry as the root sentinel and never records it.
    pub proof fn law_frontier_iff(self, cfg: ControlFlowGraph, x: BlockId, b: BlockId)
        requires
            self.wf(),
            self.fixpoint(cfg),
            self.reachable(x),
            self.reachable(b),
            cfg.pred_seq(b).len() >= 2,
            !(x == self.entry_spec() && b == self.entry_spec()),
        ensures
            self.in_frontier_spec(cfg, x, b) <==> ((exists|k: int|
                0 <= k < cfg.pred_seq(b).len() && self.spec_dominates(
                    x,
                    #[trigger] cfg.pred_seq(b)[k],
                )) && !self.spec_strictly_dominates(x, b)),
    {
        let n = self.rpo@.len() as nat;
        let ib = choose|t: int| 0 <= t < self.rpo@.len() && self.rpo@[t] == b;
        assert(self.dom_entry(b).is_some());
        let db = self.dom_entry(b).unwrap();
        let ix = choose|t: int| 0 <= t < self.rpo@.len() && self.rpo@[t] == x;
        assert(self.dom_entry(x).is_some()) by {
            assert(self.rpo@[ix] == x);
        }
        if self.in_frontier_spec(cfg, x, b) {
            let k = choose|k: int|
                0 <= k < cfg.pred_seq(b).len() && self.walk_visits(
                    x,
                    #[trigger] cfg.pred_seq(b)[k],
                    b,
                    n,
                );
            let p = cfg.pred_seq(b)[k];
            self.lemma_walk_on_chain(x, p, b, n);
            assert(self.spec_dominates(x, p));
            assert(!self.spec_strictly_dominates(x, b)) by {
                if self.spec_strictly_dominates(x, b) {
                    assert(ib != 0) by {
                        if ib == 0 {
                            self.lemma_dominates_step(x, b, 0);
                        }
                    }
                    self.lemma_dominates_step(x, b, ib);
                    assert(self.spec_dominates(x, db));
                    // The meet property puts b's recorded dominator on the
                    // chain of every recorded predecessor.
                    assert(self.rpo@[ib] == b);
                    assert(self.is_meet(cfg, db, b));
                    assert(self.spec_dominates(db, p));
                    self.lemma_walk_below(x, p, b, db, n);
                    assert(self.spec_dominates(db, x));
                    assert(self.dom_entry(db).is_some()) by {
                        assert((b.0 as int) < self.doms@.len());
                        assert(self.doms@[b.0 as int].is_some());
                    }
                    self.lemma_dominates_antisym(x, db);
                    assert(x == db);
                    self.lemma_walk_visited_assigned(x, p, b, n);
                    assert(false);
                }
            }
        }
        if (exists|k: int|
            0 <= k < cfg.pred_seq(b).len() && self.spec_dominates(x, #[trigger] cfg.pred_seq(b)[k]))
            && !self.spec_strictly_dominates(x, b) {
            let k = choose|k: int|
                0 <= k < cfg.pred_seq(b).len() && self.spec_dominates(
                    x,
                    #[trigger] cfg.pred_seq(b)[k],
                );
            let p = cfg.pred_seq(b)[k];
            assert(self.dom_entry(p).is_some()) by {
                if self.dom_entry(p).is_none() {
                    self.lemma_chain_unassigned(x, p, n);
                    assert(x == p);
                }
            }
            let ip = self.lemma_assigned_has_pos(p);
            self.lemma_walk_reaches(x, p, b, ip);
            assert(self.in_frontier_spec(cfg, x, b));
        }
    }

    /// Computes the dominance frontier of every block: for each reachable
    /// merge block `b`, each block on the walk from a predecessor of `b` up
    /// to, but not including, `b`'s immediate dominator gains `b` in its
    /// frontier set. Unreachable predecessors contribute nothing.
    #[verifier::loop_isolation(false)]
    #[verifier::rlimit(100)]
    #[verifier::spinoff_prover]
    pub fn compute_df(&self, cfg: &ControlFlowGraph) -> (df: DFSet)
        requires
            self.wf(),
            cfg.wf(),
            self.rpo_cfg_valid(*cfg),
        ensures
            df.rows_distinct(),
            forall|of: BlockId, b: BlockId|
                #[trigger] df.frontier_contains(b, of) <==> self.in_frontier_spec(*cfg, of, b),
    {
        let ghost n_spec = self.rpo@.len() as nat;
        let mut df = DFSet { sets: Vec::new() };
        let n_ids = self.doms.len();
        let mut c: usize = 0;
        while c < n_ids
            invariant
                df.sets@.len() == c,
                0 <= c <= n_ids,
                forall|t: int| 0 <= t < c ==> (#[trigger] df.sets@[t]@).len() == 0,
            decreases n_ids - c,
        {
            df.sets.push(Vec::new());
            c += 1;
        }
        let rlen = self.rpo.len();
        if rlen == 0 {
            return df;
        }
        let entry = self.rpo[0];
        let mut i: usize = 0;
        while i < rlen
            invariant
                0 <= i <= rlen,
                df.sets@.len() == n_ids,
                df.rows_distinct(),
                forall|of: BlockId, b: BlockId|
                    #[trigger] df.frontier_contains(b, of) <==> exists|t: int|
                        0 <= t < i && self.rpo@[t] == b && self.in_frontier_spec(*cfg, of, b),
            decreases rlen - i,
        {
            let b = self.rpo[i];
            let pnum = cfg.pred_num_of(b);
            if pnum >= 2 {
                let dom_b = recorded_dom(&self.doms, b);
                let ghost df_b_start = df;
                let mut k: usize = 0;
                while k < pnum
                    invariant
                        0 <= k <= pnum,
                        df.sets@.len() == n_ids,
                        df.rows_distinct(),
                        forall|of: BlockId, b2: BlockId|
                            b2 != b ==> (#[trigger] df.frontier_contains(b2, of)
                                == df_b_start.frontier_contains(b2, of)),
                        forall|of: BlockId|
                            #[trigger] df.frontier_contains(b, of)
                                <==> (df_b_start.frontier_contains(b, of) || exists|k2: int|
                                0 <= k2 < k && self.walk_visits(
                                    of,
                                    #[trigger] cfg.pred_seq(b)[k2],
                                    b,
                                    n_spec,
                                )),
                    decreases pnum - k,
                {
                    let p = cfg.preds_of(b)[k];
                    let mut runner = p;
                    let ghost mut mpos: int = if self.dom_entry(p).is_some() {
                        1 + choose|t: int| 0 <= t < self.rpo@.len() && self.rpo@[t] == p
                    } else {
                        0int
                    };
                    proof {
                        if self.dom_entry(p).is_some() {
                            let t = self.lemma_assigned_has_pos(p);
                            assert(self.rpo@[mpos - 1] == p) by {
                                assert(self.rpo@[t] == p);
                                if t != mpos - 1 {
                                    assert(self.rpo@[t] == self.rpo@[mpos - 1]);
                                }
                            }
                        }
                    }
                    while runner.0 != dom_b.0 && runner.0 != entry.0 && (runner.0 as usize)
                        < self.doms.len() && self.doms[runner.0 as usize].is_some()
                        invariant
                            df.sets@.len() == n_ids,
                            df.rows_distinct(),
                            self.dom_entry(runner).is_some() ==> 1 <= mpos <= self.rpo@.len()
                                && self.rpo@[mpos - 1] == runner,
                            self.dom_entry(runner).is_none() ==> mpos == 0,
                            forall|of: BlockId, b2: BlockId|
                                b2 != b ==> (#[trigger] df.frontier_contains(b2, of)
                                    == df_b_start.frontier_contains(b2, of)),
                            forall|of: BlockId|
                                #[trigger] df.frontier_contains(b, of)
                                    <==> (df_b_start.frontier_contains(b, of) || exists|k2: int|
                                    0 <= k2 < k && self.walk_visits(
                                        of,
                                        #[trigger] cfg.pred_seq(b)[k2],
                                        b,
                                        n_spec,
                                    ) || (self.walk_visits(of, p, b, n_spec) && !self.walk_visits(
                                    of,
                                    runner,
                                    b,
                                    n_spec,
                                ))),
                            forall|of: BlockId|
                                #[trigger] self.walk_visits(of, runner, b, n_spec)
                                    ==> self.walk_visits(of, p, b, n_spec),
                        decreases mpos,
                    {
                        proof {
                            assert(self.dom_entry(runner).is_some());
                        }
                        df.insert(runner, b);
                        let d = recorded_dom(&self.doms, runner);
                        proof {
                            // One walk step: the set of visited blocks grows
                            // by exactly the cursor.
                            let rp = mpos - 1;
                            assert(runner != entry && Some(runner) != self.dom_entry(b));
                            assert forall|of: BlockId| #[trigger] self.walk_visits(
                                of,
                                runner,
                                b,
                                n_spec,
                            ) == (of == runner || self.walk_visits(of, d, b, n_spec)) by {
                                if rp == 0 {
                                    assert(runner == self.rpo@[0]);
                                    assert(false);
                                }
                                let j = choose|j: int| 0 <= j < rp && self.rpo@[j] == d;
                                self.lemma_walk_fuel(of, d, b, j, (n_spec - 1) as nat, n_spec);
                            }
                            // The cursor is not visited by the rest of the
                            // walk: positions on a chain only fall.
                            assert forall|of: BlockId| #[trigger] self.walk_visits(
                                of,
                                d,
                                b,
                                n_spec,
                            ) implies of != runner by {
                                if of == runner {
                                    self.lemma_walk_on_chain(of, d, b, n_spec);
                                    let j = choose|j: int| 0 <= j < rp && self.rpo@[j] == d;
                                    let jr = self.lemma_chain_pos(runner, d, j, n_spec);
                                    assert(self.rpo@[jr] == self.rpo@[rp]);
                                    assert(jr == rp);
                                    assert(false);
                                }
                            }
                            // The cursor itself is visited from p.
                            assert(self.walk_visits(runner, runner, b, n_spec));
                            assert(self.walk_visits(runner, p, b, n_spec));
                            assert forall|of: BlockId| #[trigger] self.walk_visits(
                                of,
                                d,
                                b,
                                n_spec,
                            ) implies self.walk_visits(of, p, b, n_spec) by {
                                assert(self.walk_visits(of, runner, b, n_spec));
                            }
                            let j = choose|j: int| 0 <= j < mpos - 1 && self.rpo@[j] == d;
                            mpos = j + 1;
                        }
                        runner = d;
                    }
                    proof {
                        // The walk stopped: nothing past this cursor is
                        // visited, so the pairs for b are those of the first
                        // k + 1 predecessors.
                        assert(!self.walk_visits(runner, runner, b, n_spec));
                        assert forall|of: BlockId| !(#[trigger] self.walk_visits(
                            of,
                            runner,
                            b,
                            n_spec,
                        )) by {}
                        assert forall|of: BlockId| #[trigger] df.frontier_contains(b, of)
                            <==> (df_b_start.frontier_contains(b, of) || exists|k2: int|
                            0 <= k2 < k + 1 && self.walk_visits(
                                of,
                                #[trigger] cfg.pred_seq(b)[k2],
                                b,
                                n_spec,
                            )) by {
                            assert(cfg.pred_seq(b)[k as int] == p);
                            if df.frontier_contains(b, of) {
                                if !df_b_start.frontier_contains(b, of) {
                                    if exists|k2: int|
                                        0 <= k2 < k && self.walk_visits(
                                            of,
                                            #[trigger] cfg.pred_seq(b)[k2],
                                            b,
                                            n_spec,
                                        ) {
                                        let k2 = choose|k2: int|
                                            0 <= k2 < k && self.walk_visits(
                                                of,
                                                #[trigger] cfg.pred_seq(b)[k2],
                                                b,
                                                n_spec,
                                            );
                                        assert(0 <= k2 < k + 1);
                                    } else {
                                        assert(self.walk_visits(of, p, b, n_spec));
                                    }
                                }
                            }
                            if exists|k2: int|
                                0 <= k2 < k + 1 && self.walk_visits(
                                    of,
                                    #[trigger] cfg.pred_seq(b)[k2],
                                    b,
                                    n_spec,
                                ) {
                                let k2 = choose|k2: int|
                                    0 <= k2 < k + 1 && self.walk_visits(
                                        of,
                                        #[trigger] cfg.pred_seq(b)[k2],
                                        b,
                                        n_spec,
                                    );
                                if k2 == k {
                                    assert(self.walk_visits(of, p, b, n_spec));
                                }
                            }
                        }
                    }
                    k += 1;
                }
                proof {
                    // Close this block's row: exactly the frontier pairs of b.
                    assert forall|of: BlockId, b2: BlockId| #[trigger] df.frontier_contains(
                        b2,
                        of,
                    ) <==> (exists|t: int|
                        0 <= t < i + 1 && self.rpo@[t] == b2 && self.in_frontier_spec(
                            *cfg,
                            of,
                            b2,
                        )) by {
                        if b2 == b {
                            if df.frontier_contains(b2, of) {
                                if df_b_start.frontier_contains(b2, of) {
                                    let t = choose|t: int|
                                        0 <= t < i && self.rpo@[t] == b2 && self.in_frontier_spec(
                                            *cfg,
                                            of,
                                            b2,
                                        );
                                    assert(self.rpo@[t] == self.rpo@[i as int]);
                                    assert(false);
                                }
                                assert(self.reachable(b)) by {
                                    assert(self.rpo@[i as int] == b);
                                }
                                assert(self.in_frontier_spec(*cfg, of, b));
                                assert(self.rpo@[i as int] == b2);
                            }
                            if exists|t: int|
                                0 <= t < i + 1 && self.rpo@[t] == b2 && self.in_frontier_spec(
                                    *cfg,
                                    of,
                                    b2,
                                ) {
                                assert(df.frontier_contains(b2, of));
                            }
                        } else {
                            if df.frontier_contains(b2, of) {
                                let t = choose|t: int|
                                    0 <= t < i && self.rpo@[t] == b2 && self.in_frontier_spec(
                                        *cfg,
                                        of,
                                        b2,
                                    );
                                assert(0 <= t < i + 1);
                            }
                            if exists|t: int|
                                0 <= t < i + 1 && self.rpo@[t] == b2 && self.in_frontier_spec(
                                    *cfg,
                                    of,
                                    b2,
                                ) {
                                let t = choose|t: int|
                                    0 <= t < i + 1 && self.rpo@[t] == b2 && self.in_frontier_spec(
                                        *cfg,
                                        of,
                                        b2,
                                    );
                                assert(t != i);
                            }
                        }
                    }
                }
            } else {
                proof {
                    // Not a merge: b gains no frontier pairs.
                    assert forall|of: BlockId, b2: BlockId| #[trigger] df.frontier_contains(
                        b2,
                        of,
                    ) <==> (exists|t: int|
                        0 <= t < i + 1 && self.rpo@[t] == b2 && self.in_frontier_spec(
                            *cfg,
                            of,
                            b2,
                        )) by {
                        if df.frontier_contains(b2, of) {
                            let t = choose|t: int|
                                0 <= t < i && self.rpo@[t] == b2 && self.in_frontier_spec(
                                    *cfg,
                                    of,
                                    b2,
                                );
                            assert(0 <= t < i + 1);
                        }
                        if exists|t: int|
                            0 <= t < i + 1 && self.rpo@[t] == b2 && self.in_frontier_spec(
                                *cfg,
                                of,
                                b2,
                            ) {
                            let t = choose|t: int|
                                0 <= t < i + 1 && self.rpo@[t] == b2 && self.in_frontier_spec(
                                    *cfg,
                                    of,
                                    b2,
                                );
                            if t == i {
                                assert(b2 == b);
                                assert(cfg.pred_seq(b).len() < 2);
                                assert(false);
                            }
                        }
                    }
                }
            }
            i += 1;
        }
        proof {
            assert forall|of: BlockId, b: BlockId| #[trigger] df.frontier_contains(b, of)
                <==> self.in_frontier_spec(*cfg, of, b) by {
                if self.in_frontier_spec(*cfg, of, b) {
                    let t = choose|t: int| 0 <= t < self.rpo@.len() && self.rpo@[t] == b;
                }
            }
        }
        df
    }
}

/// Dominance frontiers of each block: per block id, the set of blocks at
/// whose control-flow merge its dominance ends.
#[derive(Debug)]
pub struct DFSet {
    /// Frontier sets, indexed by block id; each row holds a block at most
    /// once.
    pub sets: Vec<Vec<BlockId>>,
}

impl DFSet {
    /// The frontier set of `of`, as stored; empty for ids past the table.
    pub open spec fn row(self, of: BlockId) -> Seq<BlockId> {
        if (of.0 as int) < self.sets@.len() {
            self.sets@[of.0 as int]@
        } else {
            Seq::empty()
        }
    }

    /// `block` lies in the dominance frontier of `of`.
    pub open spec fn frontier_contains(self, block: BlockId, of: BlockId) -> bool {
        self.row(of).contains(block)
    }

    /// Each row holds a block at most once, so a row's length is the
    /// frontier's cardinality.
    pub open spec fn rows_distinct(self) -> bool {
        forall|r: int, i: int, j: int|
            0 <= r < self.sets@.len() && 0 <= i < j < self.sets@[r]@.len() ==> self.sets@[r]@[i]
                != self.sets@[r]@[j]
    }

    /// The members of `block`'s dominance frontier, each once, in no
    /// promised order.
    pub fn frontiers(&self, block: BlockId) -> (r: Vec<BlockId>)
        ensures
            r@ == self.row(block),
    {
        let mut r: Vec<BlockId> = Vec::new();
        if (block.0 as usize) >= self.sets.len() {
            proof {
                assert(r@ =~= self.row(block));
            }
            return r;
        }
        let len = self.sets[block.0 as usize].len();
        let mut i: usize = 0;
        while i < len
            invariant
                (block.0 as int) < self.sets@.len(),
                len == self.sets@[block.0 as int]@.len(),
                0 <= i <= len,
                r@ == self.sets@[block.0 as int]@.subrange(0, i as int),
            decreases len - i,
        {
            r.push(self.sets[block.0 as usize][i]);
            proof {
                assert(r@ =~= self.sets@[block.0 as int]@.subrange(0, i + 1));
            }
            i += 1;
        }
        proof {
            assert(r@ =~= self.row(block));
        }
        r
    }

    /// Returns `true` iff `block` lies in the dominance frontier of `of`.
    pub fn in_frontier_of(&self, block: BlockId, of: BlockId) -> (r: bool)
        ensures
            r == self.frontier_contains(block, of),
    {
        if (of.0 as usize) >= self.sets.len() {
            return false;
        }
        let len = self.sets[of.0 as usize].len();
        let mut i: usize = 0;
        while i < len
            invariant
                (of.0 as int) < self.sets@.len(),
                len == self.sets@[of.0 as int]@.len(),
                0 <= i <= len,
                forall|t: int| 0 <= t < i ==> self.sets@[of.0 as int]@[t] != block,
            decreases len - i,
        {
            if self.sets[of.0 as usize][i] == block {
                return true;
            }
            i += 1;
        }
        proof {
            if self.row(of).contains(block) {
                let t = choose|t: int| 0 <= t < self.row(of).len() && self.row(of)[t] == block;
            }
        }
        false
    }

    /// The number of blocks in the dominance frontier of `of`.
    pub fn frontier_num_of(&self, of: BlockId) -> (r: usize)
        ensures
            r == self.row(of).len(),
    {
        if (of.0 as usize) >= self.sets.len() {
            return 0;
        }
        self.sets[of.0 as usize].len()
    }

    /// Drops all frontier sets.
    pub fn clear(&mut self)
        ensures
            final(self).sets@.len() == 0,
            forall|of: BlockId, b: BlockId| !final(self).frontier_contains(b, of),
    {
        self.sets.clear();
    }

    /// Adds `b` to the frontier set of `of`, keeping rows duplicate-free.
    fn insert(&mut self, of: BlockId, b: BlockId)
        requires
            (of.0 as int) < old(self).sets@.len(),
            old(self).rows_distinct(),
        ensures
            final(self).sets@.len() == old(self).sets@.len(),
            final(self).rows_distinct(),
            forall|x: BlockId, y: BlockId|
                #[trigger] final(self).frontier_contains(y, x) == (old(self).frontier_contains(
                    y,
                    x,
                ) || (x == of && y == b)),
    {
        let idx = of.0 as usize;
        let ghost oldrow = self.sets@[idx as int]@;
        let len = self.sets[idx].len();
        let mut i: usize = 0;
        while i < len
            invariant
                (idx as int) < self.sets@.len(),
                len == self.sets@[idx as int]@.len(),
                0 <= i <= len,
                forall|t: int| 0 <= t < i ==> self.sets@[idx as int]@[t] != b,
            decreases len - i,
        {
            if self.sets[idx][i] == b {
                proof {
                    assert(self.frontier_contains(b, of)) by {
                        assert(self.row(of)[i as int] == b);
                    }
                    assert forall|x: BlockId, y: BlockId| #[trigger] self.frontier_contains(y, x)
                        == (self.frontier_contains(y, x) || (x == of && y == b)) by {}
                }
                return ;
            }
            i += 1;
        }
        let mut newrow: Vec<BlockId> = Vec::new();
        let mut t: usize = 0;
        while t < len
            invariant
                (idx as int) < self.sets@.len(),
                oldrow == self.sets@[idx as int]@,
                len == oldrow.len(),
                0 <= t <= len,
                newrow@ == oldrow.subrange(0, t as int),
            decreases len - t,
        {
            newrow.push(self.sets[idx][t]);
            proof {
                assert(newrow@ =~= oldrow.subrange(0, t + 1));
            }
            t += 1;
        }
        proof {
            assert(newrow@ =~= oldrow);
        }
        newrow.push(b);
        self.sets.set(idx, newrow);
        proof {
            assert(self.sets@[idx as int]@ =~= oldrow.push(b));
            assert forall|x: BlockId, y: BlockId| #[trigger] self.frontier_contains(y, x) == (old(
                self,
            ).frontier_contains(y, x) || (x == of && y == b)) by {
                if x.0 == of.0 {
                    assert(x == of);
                    assert(self.row(x) =~= oldrow.push(b));
                    if self.row(x).contains(y) {
                        let t2 = choose|t2: int|
                            0 <= t2 < self.row(x).len() && self.row(x)[t2] == y;
                        if t2 < oldrow.len() {
                            assert(oldrow[t2] == y);
                        } else {
                            assert(y == b);
                        }
                    }
                    if old(self).frontier_contains(y, x) {
                        let t2 = choose|t2: int| 0 <= t2 < oldrow.len() && oldrow[t2] == y;
                        assert(self.row(x)[t2] == y);
                    }
                    if y == b {
                        assert(self.row(x)[oldrow.len() as int] == b);
                    }
                } else {
                    assert(self.row(x) == old(self).row(x));
                }
            }
            assert(self.rows_distinct()) by {
                assert forall|r: int, i2: int, j2: int|
                    0 <= r < self.sets@.len() && 0 <= i2 < j2 < self.sets@[r]@.len() implies self
                    .sets@[r]@[i2] != self.sets@[r]@[j2] by {
                    if r == idx as int {
                        if j2 == oldrow.len() {
                            assert(self.sets@[r]@[i2] == oldrow[i2]);
                            assert(oldrow[i2] != b);
                        } else {
                            assert(self.sets@[r]@[i2] == oldrow[i2]);
                            assert(self.sets@[r]@[j2] == oldrow[j2]);
                        }
                    }
                }
            }
        }
    }
}

impl Default for DFSet {
    /// An empty frontier table.
    fn default() -> (r: DFSet)
        ensures
            r.sets@.len() == 0,
            forall|of: BlockId, b: BlockId| !r.frontier_contains(b, of),
    {
        DFSet { sets: Vec::new() }
    }
}

/// Parent-to-children view of the dominator tree, for top-down walks.
#[derive(Debug)]
pub struct DominatorTreeTraversable {
    /// Children lists, indexed by the parent's block id; order follows the
    /// children's reverse post order.
    pub children: Vec<Vec<BlockId>>,
}

impl DominatorTreeTraversable {
    /// The children list recorded for `block`; empty past the table.
    pub open spec fn children_spec(self, block: BlockId) -> Seq<BlockId> {
        if (block.0 as int) < self.children@.len() {
            self.children@[block.0 as int]@
        } else {
            Seq::empty()
        }
    }

    /// The children of `d` in the dominator tree `dt`: the reachable blocks
    /// whose immediate dominator is `d`, in reverse post order.
    pub open spec fn expected_children(dt: DomTree, d: BlockId) -> Seq<BlockId> {
        dt.rpo@.filter(|b: BlockId| dt.idom_spec(b) == Some(d))
    }

    /// An empty view; fill it with [`DominatorTreeTraversable::compute`].
    pub fn new() -> (r: DominatorTreeTraversable)
        ensures
            r.children@.len() == 0,
    {
        DominatorTreeTraversable { children: Vec::new() }
    }

    /// Rebuilds the parent-to-children view of `domtree` by walking the
    /// reverse post order and appending each block to its immediate
    /// dominator's list: children therefore appear in reverse post order.
    #[verifier::loop_isolation(false)]
    #[verifier::rlimit(60)]
    pub fn compute(&mut self, domtree: &DomTree)
        requires
            domtree.wf(),
        ensures
            forall|d: BlockId| final(self).children_spec(d)
                == DominatorTreeTraversable::expected_children(*domtree, d),
    {
        broadcast use vstd::seq_lib::group_filter_ensures;

        self.children.clear();
        let n_ids = domtree.doms.len();
        let mut c: usize = 0;
        while c < n_ids
            invariant
                self.children@.len() == c,
                0 <= c <= n_ids,
                forall|t: int| 0 <= t < c ==> (#[trigger] self.children@[t]@).len() == 0,
            decreases n_ids - c,
        {
            self.children.push(Vec::new());
            c += 1;
        }
        let rlen = domtree.rpo.len();
        let mut i: usize = 0;
        while i < rlen
            invariant
                0 <= i <= rlen,
                self.children@.len() == n_ids,
                forall|d: BlockId| #[trigger] self.children_spec(d)
                    == domtree.rpo@.subrange(0, i as int).filter(
                    |b: BlockId| domtree.idom_spec(b) == Some(d),
                ),
            decreases rlen - i,
        {
            let b = domtree.rpo[i];
            let ghost pre = *self;
            match domtree.idom_of(b) {
                Some(idom) => {
                    proof {
                        let t = domtree.lemma_assigned_has_pos(idom);
                    }
                    let idx = idom.0 as usize;
                    let ghost oldrow = self.children@[idx as int]@;
                    let len = self.children[idx].len();
                    let mut t: usize = 0;
                    let mut newrow: Vec<BlockId> = Vec::new();
                    while t < len
                        invariant
                            (idx as int) < self.children@.len(),
                            oldrow == self.children@[idx as int]@,
                            len == oldrow.len(),
                            0 <= t <= len,
                            newrow@ == oldrow.subrange(0, t as int),
                        decreases len - t,
                    {
                        newrow.push(self.children[idx][t]);
                        proof {
                            assert(newrow@ =~= oldrow.subrange(0, t + 1));
                        }
                        t += 1;
                    }
                    proof {
                        assert(newrow@ =~= oldrow);
                    }
                    newrow.push(b);
                    self.children.set(idx, newrow);
                    proof {
                        assert forall|d: BlockId| #[trigger] self.children_spec(d)
                            == domtree.rpo@.subrange(0, i + 1).filter(
                            |b2: BlockId| domtree.idom_spec(b2) == Some(d),
                        ) by {
                            let f = |b2: BlockId| domtree.idom_spec(b2) == Some(d);
                            assert(domtree.rpo@.subrange(0, i + 1) =~= domtree.rpo@.subrange(
                                0,
                                i as int,
                            ).push(domtree.rpo@[i as int]));
                            assert(domtree.rpo@.subrange(0, i as int).push(b).drop_last()
                                =~= domtree.rpo@.subrange(0, i as int));
                            assert(domtree.rpo@.subrange(0, i as int).push(b).last() == b);
                            assert(domtree.rpo@.subrange(0, i as int).push(b).filter(f)
                                == if f(b) {
                                domtree.rpo@.subrange(0, i as int).filter(f).push(b)
                            } else {
                                domtree.rpo@.subrange(0, i as int).filter(f)
                            }) by {
                                reveal_with_fuel(Seq::filter, 2);
                            }
                            if d.0 == idom.0 {
                                assert(d == idom);
                                assert(f(b));
                                assert(self.children_spec(d) =~= pre.children_spec(d).push(b));
                            } else {
                                assert(self.children_spec(d) == pre.children_spec(d));
                                assert(!f(b));
                            }
                        }
                    }
                },
                None => {
                    proof {
                        assert forall|d: BlockId| #[trigger] self.children_spec(d)
                            == domtree.rpo@.subrange(0, i + 1).filter(
                            |b2: BlockId| domtree.idom_spec(b2) == Some(d),
                        ) by {
                            let f = |b2: BlockId| domtree.idom_spec(b2) == Some(d);
                            assert(domtree.rpo@.subrange(0, i + 1) =~= domtree.rpo@.subrange(
                                0,
                                i as int,
                            ).push(domtree.rpo@[i as int]));
                            assert(domtree.rpo@.subrange(0, i as int).push(b).drop_last()
                                =~= domtree.rpo@.subrange(0, i as int));
                            assert(domtree.rpo@.subrange(0, i as int).push(b).last() == b);
                            assert(domtree.rpo@.subrange(0, i as int).push(b).filter(f)
                                == if f(b) {
                                domtree.rpo@.subrange(0, i as int).filter(f).push(b)
                            } else {
                                domtree.rpo@.subrange(0, i as int).filter(f)
                            }) by {
                                reveal_with_fuel(Seq::filter, 2);
                            }
                            assert(!f(b));
                        }
                    }
                },
            }
            i += 1;
        }
        proof {
            assert forall|d: BlockId| #[trigger] self.children_spec(d)
                == DominatorTreeTraversable::expected_children(*domtree, d) by {
                assert(domtree.rpo@.subrange(0, rlen as int) =~= domtree.rpo@);
            }
        }
    }

    /// An unreachable block is never a parent in the dominator tree: its
    /// children list is empty.
    pub proof fn law_unreachable_no_children(self, dt: DomTree, b: BlockId)
        requires
            dt.wf(),
            !dt.reachable(b),
            forall|d: BlockId| #[trigger] self.children_spec(d)
                == DominatorTreeTraversable::expected_children(dt, d),
        ensures
            self.children_spec(b).len() == 0,
    {
        broadcast use vstd::seq_lib::group_filter_ensures;

        let f = |x: BlockId| dt.idom_spec(x) == Some(b);
        assert(self.children_spec(b) == dt.rpo@.filter(f));
        if dt.rpo@.filter(f).len() > 0 {
            let x = dt.rpo@.filter(f)[0];
            assert(f(x));
            assert(dt.dom_entry(x) == Some(b));
            assert((x.0 as int) < dt.doms@.len() && dt.doms@[x.0 as int] == Some(b));
            assert(dt.dom_entry(b).is_some());
            let i = dt.lemma_assigned_has_pos(b);
            assert(dt.reachable(b)) by {
                assert(dt.rpo@[i] == b);
            }
            assert(false);
        }
    }

    /// The ordered dominator-tree children of `block`; empty for leaves and
    /// for unreachable blocks.
    pub fn children_of(&self, block: BlockId) -> (r: Vec<BlockId>)
        ensures
            r@ == self.children_spec(block),
    {
        let mut r: Vec<BlockId> = Vec::new();
        if (block.0 as usize) >= self.children.len() {
            proof {
                assert(r@ =~= self.children_spec(block));
            }
            return r;
        }
        let len = self.children[block.0 as usize].len();
        let mut i: usize = 0;
        while i < len
            invariant
                (block.0 as int) < self.children@.len(),
                len == self.children@[block.0 as int]@.len(),
                0 <= i <= len,
                r@ == self.children@[block.0 as int]@.subrange(0, i as int),
            decreases len - i,
        {
            r.push(self.children[block.0 as usize][i]);
            proof {
                assert(r@ =~= self.children@[block.0 as int]@.subrange(0, i + 1));
            }
            i += 1;
        }
        proof {
            assert(r@ =~= self.children_spec(block));
        }
        r
    }

    /// Drops all children lists.
    pub fn clear(&mut self)
        ensures
            final(self).children@.len() == 0,
            forall|b: BlockId| final(self).children_spec(b).len() == 0,
    {
        self.children.clear();
    }
}

impl Default for DominatorTreeTraversable {
    /// An empty view, as [`DominatorTreeTraversable::new`] returns it.
    fn default() -> (r: DominatorTreeTraversable)
        ensures
            r.children@.len() == 0,
    {
        DominatorTreeTraversable::new()
    }
}

/// Reads the recorded dominator of a block known to have one.
fn recorded_dom(doms: &Vec<Option<BlockId>>, b: BlockId) -> (r: BlockId)
    requires
        (b.0 as int) < doms@.len(),
        doms@[b.0 as int].is_some(),
    ensures
        doms@[b.0 as int] == Some(r),
{
    doms[b.0 as usize].unwrap()
}

} // verus!
