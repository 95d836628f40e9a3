//! What holds of every graph, seen on a few.

use std::collections::{HashMap, HashSet};

use coloring_bt_transactions::block_scene::{lay_out_blocks, BlockScene};
use coloring_bt_transactions::blocks::{fetch_block, Seed};
use coloring_bt_transactions::colorset::merge_into;
use coloring_bt_transactions::forest::{build, build_rooted, Prune, Tree};
use coloring_bt_transactions::graph::{Adjacency, Asked, Graph};
use coloring_bt_transactions::report::BlockPrune;
use coloring_bt_transactions::rows::{Producer, Role};
use coloring_bt_transactions::scene::{Scene, NO_PARENT};
use coloring_bt_transactions::settle::unhide;
use coloring_bt_transactions::walk::walk;

fn graph_of(n: usize, arcs: &[(usize, usize)]) -> Adjacency {
    let mut g = Adjacency::empty(n);
    for &(u, v) in arcs {
        g.add_arc(u, v);
    }
    g
}

/// K({0},{1..=9}), K({1},{10}), K({4,9},{11,12}), K({10,11,13},{14}), 13 a source.
fn arcs() -> Vec<(usize, usize)> {
    let mut arcs: Vec<(usize, usize)> = (1..=9).map(|v| (0, v)).collect();
    arcs.extend([(1, 10), (4, 11), (4, 12), (9, 11), (9, 12), (10, 14), (11, 14), (13, 14)]);
    arcs
}

fn graphs() -> (Adjacency, Adjacency) {
    let reversed: Vec<(usize, usize)> = arcs().iter().map(|&(u, v)| (v, u)).collect();
    (graph_of(15, &arcs()), graph_of(15, &reversed))
}

fn scene(prune: &BlockPrune) -> BlockScene {
    let (pg, pgt) = graphs();
    let w = walk(&pg, &pgt, &[1], prune, Seed::Producing, true).unwrap();
    assert!(w.blocks.iter().any(|b| b.parent.is_none()));
    lay_out_blocks(&pg, &pgt, w, true).unwrap()
}

fn cut_rows() -> BlockPrune {
    BlockPrune { fanout_out: Some(4), fanout_in: Some(2), ..BlockPrune::default() }
}

/// The arcs as graph nodes.
fn drawn_arcs(scene: &BlockScene) -> Vec<(usize, usize)> {
    let graph = |i: u32| scene.nodes[i as usize].graph;
    scene.arcs.iter().map(|a| (graph(a.from), graph(a.to))).collect()
}

#[test]
fn a_graph_node_is_drawn_once() {
    for prune in [BlockPrune::default(), cut_rows()] {
        let scene = scene(&prune);
        let distinct: HashSet<usize> = scene.nodes.iter().map(|p| p.graph).collect();
        assert_eq!(distinct.len(), scene.nodes.len());
        assert_eq!(scene.index.len(), scene.nodes.len());
        for (i, p) in scene.nodes.iter().enumerate() {
            assert_eq!(scene.index[&p.graph] as usize, i);
        }
    }
}

#[test]
fn whole_blocks_have_all_their_arcs() {
    let scene = scene(&BlockPrune::default());
    assert_eq!(scene.blocks.len(), 4);
    let mut drawn = drawn_arcs(&scene);
    drawn.sort_unstable();
    let mut all = arcs();
    all.sort_unstable();
    assert_eq!(drawn, all, "every block was reached, so every arc is there, once");
    assert!(scene.ellipses.is_empty());
}

#[test]
fn a_cut_drawing_adds_no_arc() {
    let scene = scene(&cut_rows());
    let all: HashSet<(usize, usize)> = arcs().into_iter().collect();
    let drawn = drawn_arcs(&scene);
    assert!(drawn.iter().all(|a| all.contains(a)));
    assert_eq!(drawn.iter().collect::<HashSet<_>>().len(), drawn.len(), "none twice");
    assert!(scene.arcs.iter().all(|a| {
        (a.from as usize) < scene.nodes.len() && (a.to as usize) < scene.nodes.len()
    }));
}

#[test]
fn what_a_block_shows_its_producer_shows() {
    let scene = scene(&cut_rows());
    let mut made: HashMap<usize, usize> = HashMap::new();
    for (q, b) in scene.blocks.iter().enumerate() {
        for &o in &b.outputs {
            assert!(made.insert(o, q).is_none(), "an output is of one block");
        }
    }
    for (to, from) in drawn_arcs(&scene).iter().map(|&(u, v)| (v, u)) {
        let block = made[&to] as u32;
        if let Some(&producer) = made.get(&from) {
            let p = scene.nodes[scene.index[&from] as usize];
            assert_eq!(p.role, Role::Output { block: producer as u32 }, "an arc into block {block}");
        }
    }
}

#[test]
fn a_block_hangs_under_an_earlier_one() {
    let scene = scene(&BlockPrune::default());
    for (i, b) in scene.blocks.iter().enumerate() {
        if let Some((q, o)) = b.parent {
            assert!((q as usize) < i);
            assert_eq!(b.level, scene.blocks[q as usize].level + 1);
            assert!(b.inputs.contains(&o) && scene.blocks[q as usize].outputs.contains(&o));
        }
    }
}

#[test]
fn a_checked_block_is_complete_and_has_its_key() {
    let (pg, pgt) = graphs();
    for key in [1, 5, 9, 10, 11, 12, 14] {
        let b = fetch_block(&pg, &pgt, key, true).unwrap();
        assert!(b.outputs.contains(&key));
        assert_eq!(b.first_out, b.outputs[0]);
        for &i in &b.inputs {
            assert_eq!(pg.successors(i), b.outputs);
        }
        for &o in &b.outputs {
            assert_eq!(pgt.successors(o), b.inputs);
        }
    }
}

#[test]
fn a_forest_has_every_node_and_accounts_for_every_arc() {
    let g = graph_of(6, &[(0, 1), (0, 2), (1, 3), (2, 3), (4, 5), (5, 4)]);
    let mut tree = Tree::new();
    let built = build(&g, &mut tree).ok().unwrap();
    let mut nodes: Vec<usize> = tree.nodes.iter().filter_map(|n| n.graph).collect();
    nodes.sort_unstable();
    assert_eq!(nodes, [0, 1, 2, 3, 4, 5]);
    let hung: usize =
        tree.nodes.iter().filter(|n| n.graph.is_some()).map(|n| n.children.len()).sum();
    assert_eq!(hung as u64 + built.dropped_arcs, 6);
    assert_eq!(hung + built.roots, 6);
}

/// A graph asked for its arcs is the graph that answers.
#[test]
fn a_graph_elsewhere_is_the_same_graph() {
    let (pg, pgt) = graphs();
    let g = Asked::new(pg.num_nodes(), |u| pg.successors(u), |u| pg.outdegree(u));
    let t = Asked::new(pgt.num_nodes(), |u| pgt.successors(u), |u| pgt.outdegree(u));
    assert_eq!(g.num_nodes(), 15);
    for u in 0..15 {
        assert_eq!(g.successors(u), pg.successors(u));
        assert_eq!(g.outdegree(u), pg.outdegree(u));
    }
    let names = |w: &coloring_bt_transactions::walk::Walk| {
        w.blocks.iter().map(|b| b.name()).collect::<Vec<String>>()
    };
    let prune = BlockPrune::default();
    let here = walk(&pg, &pgt, &[1], &prune, Seed::Producing, true).unwrap();
    let there = walk(&g, &t, &[1], &prune, Seed::Producing, true).unwrap();
    assert_eq!(names(&here), names(&there));

    let (mut one, mut other) = (Tree::new(), Tree::new());
    let prune = Prune::default();
    let a = build_rooted(&pg, &mut one, &[0], &prune).ok().unwrap();
    let b = build_rooted(&g, &mut other, &[0], &prune).ok().unwrap();
    assert_eq!(one.len(), other.len());
    assert_eq!(a.summary(), b.summary());
}

fn union(a: &[u32], b: &[u32]) -> Vec<u32> {
    let mut out = Vec::new();
    merge_into(&mut out, a, b);
    out
}

#[test]
fn unions_are_of_sets() {
    let (a, b, c) = ([1, 4, 9], [2, 4], [0, 9, u32::MAX]);
    assert_eq!(union(&a, &b), [1, 2, 4, 9]);
    assert_eq!(union(&a, &b), union(&b, &a));
    assert_eq!(union(&union(&a, &b), &c), union(&a, &union(&b, &c)));
    assert_eq!(union(&a, &a), a);
    assert_eq!(union(&[1, 2], &[3, 4]), [1, 2, 3, 4]);
}

#[test]
fn a_scene_has_the_whole_graph() {
    let g = graph_of(6, &[(0, 1), (0, 2), (1, 3), (2, 3), (4, 5), (5, 4)]);
    let mut tree = Tree::new();
    let built = build(&g, &mut tree).ok().unwrap();
    assert!(built.synthetic_root);
    let scene = Scene::of(&tree, built.root).ok().unwrap();
    let mut nodes: Vec<u32> = (0..scene.len() as u32).map(|i| scene.node(i).graph).collect();
    for i in 0..scene.len() as u32 {
        let p = scene.node(i);
        if p.parent != NO_PARENT {
            let up = scene.node(p.parent).graph as usize;
            assert!(g.successors(up).contains(&(p.graph as usize)));
        }
    }
    nodes.sort_unstable();
    assert_eq!(nodes, [0, 1, 2, 3, 4, 5]);
}

#[test]
fn every_node_is_counted_as_one_thing() {
    for prune in [BlockPrune::default(), cut_rows()] {
        let r = scene(&prune).report;
        assert_eq!(r.outputs_drawn + r.outside_inputs, r.nodes_drawn);
        assert_eq!(r.outside_sources + r.outside_from_undrawn, r.outside_inputs);
        assert_eq!(r.arcs_drawn + r.arcs_hidden_by_fanout, r.arcs_in_drawn_blocks);
    }
}

#[test]
fn a_refused_walk_adds_nothing() {
    let g = graph_of(3, &[(0, 1), (0, 2)]);
    let mut tree = Tree::new();
    tree.add_node(7);
    let none = Prune { max_nodes: 0, ..Prune::default() };
    assert!(build_rooted(&g, &mut tree, &[], &Prune::default()).is_err());
    assert!(build_rooted(&g, &mut tree, &[0], &none).is_err());
    assert!(build_rooted(&g, &mut tree, &[0, 3], &Prune::default()).is_err());
    assert_eq!(tree.len(), 1, "not even the root that is in the graph");
    // The budget is found spent only on the way.
    let one = Prune { max_nodes: 1, ..Prune::default() };
    assert!(build_rooted(&g, &mut tree, &[0, 1], &one).is_err());
    assert_eq!(tree.len(), 2);
}

#[test]
fn a_second_unhiding_does_nothing() {
    let (pg, pgt) = graphs();
    let w = walk(&pg, &pgt, &[1], &cut_rows(), Seed::Producing, true).unwrap();
    let mut blocks = w.blocks;
    let kept = |blocks: &[coloring_bt_transactions::blocks::Block]| {
        blocks
            .iter()
            .map(|b| (b.kept_in.indices(b.inputs.len()), b.kept_out.indices(b.outputs.len())))
            .collect::<Vec<_>>()
    };
    let before = kept(&blocks);
    assert!(before[0].1.contains(&3), "4 was un-hidden: {before:?}");
    unhide(&mut blocks);
    assert_eq!(kept(&blocks), before);
}

#[test]
fn budgets_and_depth_hold_to_the_end() {
    let (pg, pgt) = graphs();
    for max_nodes in 5..16 {
        for depth in 0..4 {
            let prune = BlockPrune { depth: Some(depth), max_nodes, ..cut_rows() };
            let Ok(w) = walk(&pg, &pgt, &[1], &prune, Seed::Producing, true) else { continue };
            let mut shown = HashSet::new();
            for b in &w.blocks {
                assert!(b.level <= depth);
                shown.extend(b.kept_in.indices(b.inputs.len()).iter().map(|&i| b.inputs[i]));
                shown.extend(b.kept_out.indices(b.outputs.len()).iter().map(|&j| b.outputs[j]));
            }
            assert!(shown.len() <= max_nodes);
        }
    }
    let none = BlockPrune { max_nodes: 0, ..BlockPrune::default() };
    assert!(walk(&pg, &pgt, &[1], &none, Seed::Producing, true).is_err());
    assert!(walk(&pg, &pgt, &[], &BlockPrune::default(), Seed::Producing, true).is_err());
}

#[test]
fn the_drawn_nodes_are_the_kept_ones() {
    let scene = scene(&cut_rows());
    let mut roles: HashMap<usize, Role> = HashMap::new();
    for (q, b) in scene.blocks.iter().enumerate() {
        for j in b.kept_out.indices(b.outputs.len()) {
            roles.insert(b.outputs[j], Role::Output { block: q as u32 });
        }
    }
    let mut outside = HashSet::new();
    for b in &scene.blocks {
        for i in b.kept_in.indices(b.inputs.len()) {
            if !roles.contains_key(&b.inputs[i]) {
                outside.insert(b.inputs[i]);
            }
        }
    }
    assert_eq!(scene.nodes.len(), roles.len() + outside.len());
    let (_, pgt) = graphs();
    for p in &scene.nodes {
        match p.role {
            Role::Output { .. } => assert_eq!(roles[&p.graph], p.role),
            Role::Outside { producer, .. } => {
                assert!(outside.contains(&p.graph));
                assert_eq!(producer == Producer::Source, pgt.outdegree(p.graph) == 0);
            }
        }
    }
}

#[test]
fn siblings_keep_their_order() {
    let g = graph_of(7, &[(0, 2), (0, 4), (2, 3), (2, 6), (1, 5)]);
    let mut tree = Tree::new();
    let built = build(&g, &mut tree).ok().unwrap();
    let scene = Scene::of(&tree, built.root).ok().unwrap();
    let order: Vec<u32> = (0..scene.len() as u32).map(|i| scene.node(i).graph).collect();
    assert_eq!(order, [0, 2, 3, 6, 4, 1, 5]);
    let tops: Vec<u32> =
        (0..7).map(|i| scene.node(i)).filter(|p| p.parent == NO_PARENT).map(|p| p.graph).collect();
    assert_eq!(tops, [0, 1], "what hangs under the added root hangs off nothing");
}
