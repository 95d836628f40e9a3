//! The forest a graph becomes, and the drawing flattened.

use std::collections::HashSet;

use coloring_bt_transactions::forest::{build, build_rooted, Prune, Tree};
use coloring_bt_transactions::graph::Adjacency;
use coloring_bt_transactions::scene::{Scene, NO_PARENT};

fn graph_of(n: usize, arcs: &[(usize, usize)]) -> Adjacency {
    let mut g = Adjacency::empty(n);
    for &(u, v) in arcs {
        g.add_arc(u, v);
    }
    g
}

/// `(node, level, leaf)` per drawn node, by node: an added root has no level.
fn drawing(tree: &Tree, root: usize) -> Vec<(usize, usize, bool)> {
    let mut out = Vec::new();
    let first = if tree.nodes[root].graph.is_some() { 0 } else { usize::MAX };
    let mut stack = vec![(root, first)];
    while let Some((id, level)) = stack.pop() {
        let node = &tree.nodes[id];
        if let Some(v) = node.graph {
            out.push((v, level, node.children.is_empty()));
        }
        for &c in &node.children {
            stack.push((c, level.wrapping_add(1)));
        }
    }
    out.sort_unstable();
    out
}

/// Two sources, an arc that would give a node a second parent, and a two-node
/// cycle no source reaches.
#[test]
fn a_forest_with_everything_in_it() {
    let g = graph_of(
        10,
        &[
            (0, 1),
            (0, 2),
            (1, 3),
            (1, 4),
            (2, 5),
            (6, 7),
            // 5 already belongs to 2's subtree by the time 7 offers itself.
            (7, 5),
            (8, 9),
            // Closes the cycle, and 8 already has 9 as a parent.
            (9, 8),
        ],
    );

    let mut tree = Tree::new();
    let forest = build(&g, &mut tree).unwrap();

    // 0 and 6 are pointed at by nothing; 8 lies on a cycle and is the first of it
    // the sweep reaches.
    assert_eq!(forest.roots, 3);
    assert_eq!(forest.dropped_arcs, 2, "7->5 and 9->8");
    assert!(forest.synthetic_root, "three roots need a node to hang from");

    let root = forest.root;
    let expected = [
        (0usize, 0usize, false),
        (1, 1, false),
        (2, 1, false),
        (3, 2, true),
        (4, 2, true),
        (5, 2, true),
        (6, 0, false),
        (7, 1, true),
        (8, 0, false),
        (9, 1, true),
    ];
    assert_eq!(drawing(&tree, root), expected);
    assert!(tree.nodes[root].graph.is_none(), "the root stands for no node");
}

#[test]
fn a_single_root_is_the_root_itself() {
    let g = graph_of(3, &[(0, 1), (0, 2)]);

    let mut tree = Tree::new();
    let forest = build(&g, &mut tree).unwrap();

    assert_eq!(forest.roots, 1);
    assert!(!forest.synthetic_root);
    assert!(tree.nodes[forest.root].graph.is_some(), "the root stands for node 0");
    assert_eq!(drawing(&tree, forest.root), [(0, 0, false), (1, 1, true), (2, 1, true)]);
}

#[test]
fn a_graph_of_only_cycles_still_has_roots() {
    let g = graph_of(3, &[(0, 1), (1, 2), (2, 0)]);

    let mut tree = Tree::new();
    let forest = build(&g, &mut tree).unwrap();

    assert_eq!(forest.roots, 1, "node 0 starts the walk, and reaches the rest");
    assert_eq!(forest.dropped_arcs, 1, "2->0 closes the cycle");
    assert!(!forest.synthetic_root, "one root needs no help");
    assert_eq!(drawing(&tree, forest.root), [(0, 0, false), (1, 1, false), (2, 2, true)]);
}

#[test]
fn a_node_before_its_parent_is_a_root_of_its_own() {
    let g = graph_of(2, &[(1, 0)]);

    let mut tree = Tree::new();
    let forest = build(&g, &mut tree).unwrap();

    assert_eq!(forest.roots, 2, "0 is swept up before 1 can claim it");
    assert_eq!(forest.dropped_arcs, 1, "1->0");
    assert!(forest.synthetic_root);
    // Two roots side by side rather than a chain.
    assert_eq!(drawing(&tree, forest.root), [(0, 0, true), (1, 0, true)]);
}

#[test]
fn a_graph_without_nodes_is_refused() {
    let g = graph_of(0, &[]);

    let mut tree = Tree::new();
    assert!(build(&g, &mut tree).is_err());
}

#[test]
fn what_a_run_reports() {
    let g = graph_of(2, &[]);
    let mut tree = Tree::new();
    let forest = build(&g, &mut tree).unwrap();

    assert_eq!(
        forest.summary(2),
        "2 nodes, 2 root(s), one added root standing for no node"
    );

    let g = graph_of(3, &[(0, 1), (0, 2), (1, 2)]);
    let mut tree = Tree::new();
    let forest = build(&g, &mut tree).unwrap();

    assert_eq!(
        forest.summary(3),
        "3 nodes, 1 root(s)\n\
         1 arc(s) not drawn: they would have given a node a second parent"
    );
}

#[test]
fn a_rooted_walk_draws_one_subtree() {
    let g = graph_of(8, &[(0, 1), (0, 2), (1, 3), (1, 4), (1, 5), (2, 5), (6, 7)]);

    let mut tree = Tree::new();
    let sampled = build_rooted(&g, &mut tree, &[0], &Prune::default()).unwrap();

    assert_eq!(sampled.nodes, 6, "0..=5 and neither of 6, 7");
    assert_eq!(sampled.dropped_arcs, 1, "the second parent of 5");
    assert!(sampled.truncated.is_empty(), "nothing was cut");
    assert!(!sampled.synthetic_root, "one root needs no help");

    let drawn: Vec<usize> = drawing(&tree, sampled.root).iter().map(|&(v, ..)| v).collect();
    assert_eq!(drawn, [0, 1, 2, 3, 4, 5]);
}

/// The three scissors: each cuts where it says, and the node whose successors
/// were left out is named rather than passed off as a leaf.
#[test]
fn the_cut_is_reported_not_hidden() {
    // A chain with a fan in the middle: 0 -> 1 -> {2, 3, 4}, 2 -> 5 -> 6.
    let g = graph_of(7, &[(0, 1), (1, 2), (1, 3), (1, 4), (2, 5), (5, 6)]);

    // Depth: level 2 is drawn, level 3 is not, and 2 is named as cut.
    let mut tree = Tree::new();
    let sampled = build_rooted(
        &g,
        &mut tree,
        &[0],
        &Prune { depth: Some(2), ..Prune::default() },
    )
    .unwrap();
    assert_eq!(sampled.nodes, 5, "0, 1 and the fan");
    assert_eq!(sampled.truncated, HashSet::from([2]), "3 and 4 are true leaves");

    // Fanout: two of the three children, the first and the last of the fan, not
    // the head alone, and the parent named.
    let mut tree = Tree::new();
    let sampled = build_rooted(
        &g,
        &mut tree,
        &[1],
        &Prune { fanout: Some(2), ..Prune::default() },
    )
    .unwrap();
    assert_eq!(sampled.nodes, 5, "1, then 2 and 4, then 2's chain");
    assert_eq!(sampled.truncated, HashSet::from([1]));

    let tree_holds: Vec<usize> = {
        let mut v: Vec<usize> = tree.nodes.iter().filter_map(|n| n.graph).collect();
        v.sort_unstable();
        v
    };
    assert_eq!(tree_holds, [1, 2, 4, 5, 6], "3 is the one the cut took");

    // Budget: breadth first, so what three nodes buy is the nearest three.
    let mut tree = Tree::new();
    let sampled = build_rooted(
        &g,
        &mut tree,
        &[0],
        &Prune { max_nodes: 3, ..Prune::default() },
    )
    .unwrap();
    assert_eq!(sampled.nodes, 3, "0, 1 and 1's first child");
    // Both 1 and 2 still had successors when the budget ran out, and both say so.
    assert_eq!(sampled.truncated, HashSet::from([1, 2]));
    assert!(sampled.summary().contains("2 node(s)") || sampled.summary().contains('2'));
}

#[test]
fn a_spine_walks_alone() {
    // A peel chain 0 -> {1, 2} -> {3, 4} -> {5, 6}, where every leg (1, 3) also
    // spends onward and would drag the walk with it.
    let g = graph_of(9, &[(0, 1), (0, 2), (2, 3), (2, 4), (4, 5), (4, 6), (1, 7), (3, 8)]);

    let mut tree = Tree::new();
    let sampled = build_rooted(
        &g,
        &mut tree,
        &[0],
        &Prune { expand: Some(HashSet::from([0, 2, 4])), ..Prune::default() },
    )
    .unwrap();

    assert_eq!(sampled.nodes, 7, "the spine and its legs, not the legs' spends");
    assert_eq!(
        sampled.truncated,
        HashSet::from([1, 3]),
        "the legs that spend onward are reported cut; the sinks are not"
    );
}

#[test]
fn several_roots_and_a_swallowed_one() {
    let g = graph_of(5, &[(0, 1), (2, 3)]);

    let mut tree = Tree::new();
    let sampled = build_rooted(&g, &mut tree, &[0, 1, 2], &Prune::default()).unwrap();

    assert_eq!(sampled.nodes, 4, "1 was reached under 0, and 4 is nobody's");
    assert!(sampled.synthetic_root, "0 and 2 need a node to hang from");
    assert!(tree.nodes[sampled.root].graph.is_none());
}

#[test]
fn what_a_rooted_walk_refuses() {
    let g = graph_of(3, &[(0, 1), (0, 2)]);

    let mut tree = Tree::new();
    assert!(build_rooted(&g, &mut tree, &[], &Prune::default()).is_err());

    let mut tree = Tree::new();
    assert!(build_rooted(&g, &mut tree, &[3], &Prune::default()).is_err());

    let mut tree = Tree::new();
    let spent = build_rooted(
        &g,
        &mut tree,
        &[0, 1],
        &Prune { max_nodes: 1, ..Prune::default() },
    );
    // The budget holds one node, so 0 is drawn and 1 is never reached under it; a
    // named root that cannot be placed is an error rather than a silently smaller
    // picture.
    assert!(spent.is_err());
}

/// A chain of 200 000 nodes, on an ordinary stack.
#[test]
fn forest_a_chain_deeper_than_any_stack() {
    let n = 200_000;
    let arcs: Vec<(usize, usize)> = (0..n - 1).map(|v| (v, v + 1)).collect();
    let g = graph_of(n, &arcs);

    let mut tree = Tree::new();
    let forest = build(&g, &mut tree).unwrap();

    assert_eq!(forest.roots, 1, "node 0 reaches every other");
    assert!(!forest.synthetic_root);
    assert_eq!(tree.len(), n);
    let deepest = drawing(&tree, forest.root).iter().map(|&(_, level, _)| level).max();
    assert_eq!(deepest, Some(n - 1), "one node per level");
}

/// A tree from `(parent, child)` pairs over nodes `0..n`.
fn tree_of(n: usize, arcs: &[(usize, usize)], roots: &[usize]) -> (Tree, usize) {
    let mut tree = Tree::new();
    for v in 0..n {
        tree.add_node(v);
    }
    for &(p, c) in arcs {
        tree.push_child(p, c);
    }
    let root = if roots.len() == 1 { roots[0] } else { tree.add_root(roots.to_vec()) };
    (tree, root)
}

/// The walk is pre-order, and subtrees are the ranges that follow.
#[test]
fn a_subtree_is_a_range() {
    let (tree, root) = tree_of(5, &[(0, 1), (0, 4), (1, 2), (1, 3)], &[0]);
    let scene = Scene::of(&tree, root).unwrap();

    assert_eq!(scene.len(), 5);
    let order: Vec<u32> = (0..5).map(|i| scene.node(i).graph).collect();
    assert_eq!(order, [0, 1, 2, 3, 4], "depth first, eldest child first");

    assert_eq!(scene.subtree(0), 0..5, "the root is the whole drawing");
    assert_eq!(scene.subtree(1), 1..4, "1 and the two under it");
    assert_eq!(scene.subtree(2), 2..3, "a leaf is itself");
    assert_eq!(scene.subtree(4), 4..5);

    assert!(!scene.is_leaf(0) && !scene.is_leaf(1));
    assert!(scene.is_leaf(2) && scene.is_leaf(3) && scene.is_leaf(4));

    assert_eq!(scene.node(0).parent, NO_PARENT);
    assert_eq!(scene.node(2).parent, 1);
    assert_eq!(scene.node(4).parent, 0);
    assert!(!scene.is_empty());
    assert_eq!(scene.tree_node(4), 4);
}

/// The root standing for nothing is not drawn, and does not become anyone's
/// parent: the graph's several roots stay roots.
#[test]
fn the_added_root_is_not_in_the_scene() {
    let (tree, root) = tree_of(4, &[(0, 1), (2, 3)], &[0, 2]);
    let scene = Scene::of(&tree, root).unwrap();

    assert_eq!(scene.len(), 4, "four nodes, and not a fifth");
    assert_eq!(scene.node(0).parent, NO_PARENT);
    assert_eq!(scene.node(2).parent, NO_PARENT);
    assert_eq!(scene.node(1).parent, 0);
    assert_eq!(scene.node(3).parent, 2);

    assert_eq!(scene.subtree(0), 0..2);
    assert_eq!(scene.subtree(2), 2..4);
}

/// A chain a hundred thousand levels deep, walked on an ordinary stack.
#[test]
fn scene_a_chain_deeper_than_any_stack() {
    let n = 100_000;
    let arcs: Vec<(usize, usize)> = (0..n - 1).map(|v| (v, v + 1)).collect();
    let (tree, root) = tree_of(n, &arcs, &[0]);

    let scene = Scene::of(&tree, root).unwrap();

    assert_eq!(scene.len(), n);
    assert_eq!(scene.subtree(0), 0..n as u32, "the whole chain hangs off the top");
    assert_eq!(scene.subtree(n as u32 - 1), n as u32 - 1..n as u32);
    assert_eq!(scene.node(n as u32 - 1).parent, n as u32 - 2);
}
