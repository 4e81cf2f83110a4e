use domtree::cfg::{BlockId, ControlFlowGraph};
use domtree::domtree::{DFSet, DomTree, DominatorTreeTraversable};

/// Builds a validated snapshot from `n` blocks, the edge list, and a
/// depth-first post order of the reachable blocks.
fn mk_cfg(n: u32, edges: &[(u32, u32)], post_order: &[u32]) -> ControlFlowGraph {
    let mut preds: Vec<Vec<BlockId>> = Vec::new();
    for _ in 0..n {
        preds.push(Vec::new());
    }
    for &(from, to) in edges {
        preds[to as usize].push(BlockId(from));
    }
    let po: Vec<BlockId> = post_order.iter().map(|&b| BlockId(b)).collect();
    ControlFlowGraph::new(preds, po).expect("well-formed snapshot")
}

fn calc_dom(cfg: &ControlFlowGraph) -> (DomTree, DFSet) {
    let mut dom_tree = DomTree::new();
    dom_tree.compute(cfg);
    let df = dom_tree.compute_df(cfg);
    (dom_tree, df)
}

fn test_df(df: &DFSet, of: BlockId, frontiers: &[BlockId]) -> bool {
    if df.frontier_num_of(of) != frontiers.len() {
        return false;
    }
    for &block in frontiers {
        if !df.in_frontier_of(block, of) {
            return false;
        }
    }
    true
}

#[test]
fn dom_tree_if_else() {
    let entry_block = BlockId(0);
    let then_block = BlockId(1);
    let else_block = BlockId(2);
    let merge_block = BlockId(3);
    let cfg = mk_cfg(4, &[(0, 2), (0, 1), (1, 3), (2, 3)], &[3, 1, 2, 0]);
    let (dom_tree, df) = calc_dom(&cfg);

    assert_eq!(dom_tree.idom_of(entry_block), None);
    assert_eq!(dom_tree.idom_of(then_block), Some(entry_block));
    assert_eq!(dom_tree.idom_of(else_block), Some(entry_block));
    assert_eq!(dom_tree.idom_of(merge_block), Some(entry_block));

    assert!(test_df(&df, entry_block, &[]));
    assert!(test_df(&df, then_block, &[merge_block]));
    assert!(test_df(&df, else_block, &[merge_block]));
    assert!(test_df(&df, merge_block, &[]));
}

#[test]
fn unreachable_edge() {
    let a = BlockId(0);
    let b = BlockId(1);
    let c = BlockId(2);
    let d = BlockId(3);
    let e = BlockId(4);
    let cfg = mk_cfg(5, &[(0, 1), (0, 2), (1, 4), (2, 4), (3, 4)], &[4, 1, 2, 0]);
    let (dom_tree, df) = calc_dom(&cfg);

    assert_eq!(dom_tree.idom_of(a), None);
    assert_eq!(dom_tree.idom_of(b), Some(a));
    assert_eq!(dom_tree.idom_of(c), Some(a));
    assert_eq!(dom_tree.idom_of(d), None);
    assert!(!dom_tree.is_reachable(d));
    assert_eq!(dom_tree.idom_of(e), Some(a));

    assert!(test_df(&df, a, &[]));
    assert!(test_df(&df, b, &[e]));
    assert!(test_df(&df, c, &[e]));
    assert!(test_df(&df, d, &[]));
    assert!(test_df(&df, e, &[]));
}

#[test]
fn dom_tree_complex() {
    let a = BlockId(0);
    let b = BlockId(1);
    let c = BlockId(2);
    let d = BlockId(3);
    let e = BlockId(4);
    let f = BlockId(5);
    let g = BlockId(6);
    let h = BlockId(7);
    let i = BlockId(8);
    let j = BlockId(9);
    let k = BlockId(10);
    let l = BlockId(11);
    let m = BlockId(12);
    let cfg = mk_cfg(
        13,
        &[
            (0, 2),
            (0, 1),
            (1, 6),
            (1, 3),
            (2, 7),
            (2, 4),
            (3, 6),
            (3, 5),
            (4, 7),
            (4, 2),
            (5, 10),
            (5, 8),
            (6, 9),
            (7, 12),
            (8, 11),
            (9, 8),
            (10, 11),
            (11, 12),
            (11, 1),
        ],
        &[12, 7, 4, 2, 11, 8, 9, 6, 10, 5, 3, 1, 0],
    );
    let (dom_tree, df) = calc_dom(&cfg);

    assert_eq!(dom_tree.idom_of(a), None);
    assert_eq!(dom_tree.idom_of(b), Some(a));
    assert_eq!(dom_tree.idom_of(c), Some(a));
    assert_eq!(dom_tree.idom_of(d), Some(b));
    assert_eq!(dom_tree.idom_of(e), Some(c));
    assert_eq!(dom_tree.idom_of(f), Some(d));
    assert_eq!(dom_tree.idom_of(g), Some(b));
    assert_eq!(dom_tree.idom_of(h), Some(c));
    assert_eq!(dom_tree.idom_of(i), Some(b));
    assert_eq!(dom_tree.idom_of(j), Some(g));
    assert_eq!(dom_tree.idom_of(k), Some(f));

    assert!(test_df(&df, a, &[]));
    assert!(test_df(&df, b, &[b, m]));
    assert!(test_df(&df, c, &[c, m]));
    assert!(test_df(&df, d, &[g, i, l]));
    assert!(test_df(&df, e, &[c, h]));
    assert!(test_df(&df, f, &[i, l]));
    assert!(test_df(&df, g, &[i]));
    assert!(test_df(&df, h, &[m]));
    assert!(test_df(&df, i, &[l]));
    assert!(test_df(&df, j, &[i]));
    assert!(test_df(&df, k, &[l]));
    assert!(test_df(&df, l, &[b, m]));
    assert!(test_df(&df, m, &[]));
}

#[test]
fn dom_tree_br_table() {
    let a = BlockId(0);
    let b = BlockId(1);
    let c = BlockId(2);
    let d = BlockId(3);
    let e = BlockId(4);
    let f = BlockId(5);
    let cfg = mk_cfg(
        6,
        &[(0, 1), (0, 2), (0, 3), (1, 0), (1, 4), (2, 5), (3, 5)],
        &[4, 1, 5, 2, 3, 0],
    );
    let (dom_tree, df) = calc_dom(&cfg);

    assert_eq!(dom_tree.idom_of(a), None);
    assert_eq!(dom_tree.idom_of(b), Some(a));
    assert_eq!(dom_tree.idom_of(c), Some(a));
    assert_eq!(dom_tree.idom_of(d), Some(a));
    assert_eq!(dom_tree.idom_of(e), Some(b));
    assert_eq!(dom_tree.idom_of(f), Some(a));

    assert!(test_df(&df, a, &[]));
    assert!(test_df(&df, b, &[]));
    assert!(test_df(&df, c, &[f]));
    assert!(test_df(&df, d, &[f]));
    assert!(test_df(&df, e, &[]));
    assert!(test_df(&df, f, &[]));
}

#[test]
fn diamond_with_exit() {
    // entry -> then, else; then/else -> merge; merge -> exit.
    let entry = BlockId(0);
    let then_b = BlockId(1);
    let else_b = BlockId(2);
    let merge = BlockId(3);
    let exit = BlockId(4);
    let cfg = mk_cfg(5, &[(0, 1), (0, 2), (1, 3), (2, 3), (3, 4)], &[4, 3, 1, 2, 0]);
    let (dom_tree, df) = calc_dom(&cfg);

    assert_eq!(dom_tree.idom_of(then_b), Some(entry));
    assert_eq!(dom_tree.idom_of(else_b), Some(entry));
    assert_eq!(dom_tree.idom_of(merge), Some(entry));
    assert_eq!(dom_tree.idom_of(exit), Some(merge));
    assert!(test_df(&df, then_b, &[merge]));
    assert!(test_df(&df, else_b, &[merge]));
    assert!(test_df(&df, entry, &[]));
    assert!(test_df(&df, merge, &[]));

    // Dominance queries are reflexive and the entry strictly dominates
    // every reachable block.
    assert!(dom_tree.dominates(exit, exit));
    assert!(dom_tree.dominates(entry, entry));
    for blk in 1..5u32 {
        assert!(dom_tree.strictly_dominates(entry, BlockId(blk)));
    }
    assert!(!dom_tree.strictly_dominates(entry, entry));
    assert!(dom_tree.strictly_dominates(merge, exit));
    assert!(!dom_tree.strictly_dominates(then_b, merge));

    // Children follow reverse post order: rpo is 0, 2, 1, 3, 4.
    let rpo: Vec<BlockId> = dom_tree.rpo().to_vec();
    assert_eq!(rpo, vec![entry, else_b, then_b, merge, exit]);
    let mut tt = DominatorTreeTraversable::new();
    tt.compute(&dom_tree);
    assert_eq!(tt.children_of(entry), vec![else_b, then_b, merge]);
    assert_eq!(tt.children_of(merge), vec![exit]);
    assert_eq!(tt.children_of(exit), Vec::<BlockId>::new());
}

#[test]
fn isolated_unreachable_block() {
    // d has no path from the entry; it must stay invisible everywhere.
    let entry = BlockId(0);
    let body = BlockId(1);
    let d = BlockId(2);
    let cfg = mk_cfg(3, &[(0, 1)], &[1, 0]);
    let (dom_tree, df) = calc_dom(&cfg);

    assert!(!dom_tree.is_reachable(d));
    assert_eq!(dom_tree.idom_of(d), None);
    assert_eq!(df.frontier_num_of(d), 0);
    for blk in 0..3u32 {
        assert!(!df.in_frontier_of(d, BlockId(blk)));
        assert!(!df.in_frontier_of(BlockId(blk), d));
    }
    assert!(dom_tree.is_reachable(entry));
    assert!(dom_tree.is_reachable(body));
    assert!(dom_tree.dominates(d, d));

    let mut tt = DominatorTreeTraversable::new();
    tt.compute(&dom_tree);
    assert_eq!(tt.children_of(d), Vec::<BlockId>::new());
    assert!(!tt.children_of(entry).contains(&d));
    assert!(!tt.children_of(body).contains(&d));
}

#[test]
fn loop_header_in_own_frontier() {
    // A latch branching back to a two-predecessor header puts the header
    // in its own dominance frontier.
    let entry = BlockId(0);
    let header = BlockId(1);
    let latch = BlockId(2);
    let exit = BlockId(3);
    let cfg = mk_cfg(4, &[(0, 1), (1, 2), (2, 1), (1, 3)], &[2, 3, 1, 0]);
    let (dom_tree, df) = calc_dom(&cfg);

    assert_eq!(dom_tree.idom_of(header), Some(entry));
    assert_eq!(dom_tree.idom_of(latch), Some(header));
    assert_eq!(dom_tree.idom_of(exit), Some(header));
    assert!(df.in_frontier_of(header, header));
    assert!(test_df(&df, header, &[header]));
    assert!(test_df(&df, latch, &[header]));
    assert!(test_df(&df, entry, &[]));
}

#[test]
fn recompute_is_idempotent() {
    let cfg = mk_cfg(
        6,
        &[(0, 1), (0, 2), (0, 3), (1, 0), (1, 4), (2, 5), (3, 5)],
        &[4, 1, 5, 2, 3, 0],
    );
    let mut dom_tree = DomTree::new();
    dom_tree.compute(&cfg);
    let df1 = dom_tree.compute_df(&cfg);
    let idoms1: Vec<Option<BlockId>> = (0..6).map(|b| dom_tree.idom_of(BlockId(b))).collect();
    let rpo1: Vec<BlockId> = dom_tree.rpo().to_vec();
    let mut tt1 = DominatorTreeTraversable::new();
    tt1.compute(&dom_tree);

    dom_tree.compute(&cfg);
    let df2 = dom_tree.compute_df(&cfg);
    let idoms2: Vec<Option<BlockId>> = (0..6).map(|b| dom_tree.idom_of(BlockId(b))).collect();
    let rpo2: Vec<BlockId> = dom_tree.rpo().to_vec();
    let mut tt2 = DominatorTreeTraversable::new();
    tt2.compute(&dom_tree);

    assert_eq!(idoms1, idoms2);
    assert_eq!(rpo1, rpo2);
    for b in 0..6u32 {
        assert_eq!(df1.frontiers(BlockId(b)), df2.frontiers(BlockId(b)));
        assert_eq!(tt1.children_of(BlockId(b)), tt2.children_of(BlockId(b)));
    }
}

#[test]
fn empty_graph_has_no_blocks() {
    let cfg = mk_cfg(0, &[], &[]);
    let (dom_tree, df) = calc_dom(&cfg);
    assert!(dom_tree.rpo().is_empty());
    assert!(!dom_tree.is_reachable(BlockId(0)));
    assert_eq!(dom_tree.idom_of(BlockId(0)), None);
    assert_eq!(df.frontier_num_of(BlockId(0)), 0);
}

#[test]
fn clear_resets_state() {
    let cfg = mk_cfg(2, &[(0, 1)], &[1, 0]);
    let mut dom_tree = DomTree::new();
    dom_tree.compute(&cfg);
    assert!(dom_tree.is_reachable(BlockId(1)));
    dom_tree.clear();
    assert!(!dom_tree.is_reachable(BlockId(0)));
    assert!(dom_tree.rpo().is_empty());

    let mut df = dom_tree_df_for(&cfg);
    assert_eq!(df.frontier_num_of(BlockId(0)), 0);
    df.clear();
    assert_eq!(df.frontier_num_of(BlockId(0)), 0);

    let mut tt = DominatorTreeTraversable::new();
    tt.compute(&dom_tree);
    tt.clear();
    assert_eq!(tt.children_of(BlockId(0)), Vec::<BlockId>::new());
}

fn dom_tree_df_for(cfg: &ControlFlowGraph) -> DFSet {
    let mut dom_tree = DomTree::new();
    dom_tree.compute(cfg);
    dom_tree.compute_df(cfg)
}

#[test]
fn snapshot_validation() {
    // A predecessor id out of range is refused.
    let preds = vec![vec![BlockId(7)]];
    assert!(ControlFlowGraph::new(preds, vec![BlockId(0)]).is_none());
    // A repeated block in the post order is refused.
    let preds = vec![vec![], vec![BlockId(0)]];
    assert!(ControlFlowGraph::new(preds, vec![BlockId(1), BlockId(1)]).is_none());
    // A post-order block with no predecessor later in the order is refused.
    let preds = vec![vec![], vec![]];
    assert!(ControlFlowGraph::new(preds, vec![BlockId(1), BlockId(0)]).is_none());
    // A well-formed snapshot is accepted.
    let preds = vec![vec![], vec![BlockId(0)]];
    let cfg = ControlFlowGraph::new(preds, vec![BlockId(1), BlockId(0)]).unwrap();
    assert_eq!(cfg.num_blocks(), 2);
    assert_eq!(cfg.pred_num_of(BlockId(1)), 1);
    assert_eq!(cfg.preds_of(BlockId(1)), &vec![BlockId(0)]);
    assert_eq!(cfg.post_order(), &vec![BlockId(1), BlockId(0)]);
}
