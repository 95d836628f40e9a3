//! Blocks, the walk over them, and the drawing they make.

use coloring_bt_transactions::block_places::{settle_places, Corner};
use coloring_bt_transactions::block_scene::{lay_out_blocks, ArcKind, BlockScene};
use coloring_bt_transactions::blocks::{fetch_block, seed_of, Seed};
use coloring_bt_transactions::boxes::{breadth_of, BoxKind};
use coloring_bt_transactions::crossings::UNIT;
use coloring_bt_transactions::graph::{Adjacency, Graph};
use coloring_bt_transactions::kept::{Kept, Slot};
use coloring_bt_transactions::report::{BlockPrune, DEFAULT_MAX_BLOCKS};
use coloring_bt_transactions::rows::{Role, RowSlot};
use coloring_bt_transactions::walk::walk;

fn graph_of(n: usize, arcs: &[(usize, usize)]) -> Adjacency {
    let mut g = Adjacency::empty(n);
    for &(u, v) in arcs {
        g.add_arc(u, v);
    }
    g
}

fn transpose_of(n: usize, arcs: &[(usize, usize)]) -> Adjacency {
    let reversed: Vec<(usize, usize)> = arcs.iter().map(|&(u, v)| (v, u)).collect();
    graph_of(n, &reversed)
}

fn scene_of(
    n: usize,
    arcs: &[(usize, usize)],
    roots: &[usize],
    prune: &BlockPrune,
    vertical: bool,
) -> BlockScene {
    let pg = graph_of(n, arcs);
    let pgt = transpose_of(n, arcs);
    let w = walk(&pg, &pgt, roots, prune, Seed::Producing, true).unwrap();
    assert!(w.blocks.iter().any(|b| b.parent.is_none()));
    let mut scene = lay_out_blocks(&pg, &pgt, w, vertical).unwrap();
    let mut corners = vec![Corner { breadth: 0, depth: 0 }; scene.boxes.boxes.len()];
    spread(&scene, scene.boxes.root, 0, 0, &mut corners);
    scene.report = settle_places(&scene, &corners).unwrap().1;
    scene
}

/// Lays the boxes out side by side, a node apart, each centred over what hangs under
/// it, and answers how wide the whole is.
fn spread(scene: &BlockScene, b: usize, s: i64, t: i64, at: &mut Vec<Corner>) -> i64 {
    let tree = &scene.boxes.boxes[b];
    let wide_of = |b: usize| breadth_of(scene.boxes.boxes[b].slots) as i64 * UNIT;
    let (own, deep) =
        if tree.kind == BoxKind::Root { (0, 0) } else { (wide_of(b), tree.rows as i64 * UNIT) };
    let mut wide = 0;
    for &c in &tree.children {
        if wide > 0 {
            wide += UNIT;
        }
        wide += spread(scene, c, s + wide, t + deep, at);
    }
    let breadth = match (tree.children.first(), tree.children.last()) {
        (Some(&first), Some(&last)) => {
            (at[first].breadth + at[last].breadth + wide_of(last) - own) / 2
        }
        _ => s,
    };
    at[b] = Corner { breadth, depth: t };
    wide.max(own)
}

/// How far down a graph node is, in node units: a box hangs right under its
/// parent, and a row is a unit deep.
fn depth_of(scene: &BlockScene, g: usize) -> f64 {
    let boxes = &scene.boxes.boxes;
    let mut top = vec![0usize; boxes.len()];
    let mut stack = vec![scene.boxes.root];
    while let Some(b) = stack.pop() {
        for &c in &boxes[b].children {
            top[c] = top[b] + boxes[b].rows;
            stack.push(c);
        }
    }
    let p = scene.nodes[scene.index[&g] as usize];
    match p.role {
        Role::Output { block } => {
            let b = block as usize;
            (top[b] + boxes[b].rows) as f64 - 0.5
        }
        Role::Outside { block, .. } => match scene.boxes.in_boxes[block as usize] {
            None => top[block as usize] as f64 + 0.5,
            Some(b) => (top[b] + boxes[b].rows) as f64 - 0.5,
        },
    }
}

const CHAIN: [(usize, usize); 8] =
    [(0, 1), (0, 2), (1, 3), (1, 4), (2, 3), (2, 4), (3, 5), (4, 5)];

/// A root names the block that produced it, a source the block it feeds, and an
/// isolated node no block at all.
#[test]
fn a_root_names_a_block() {
    // K({0,1},{2,3}), and 4 on its own.
    let arcs = [(0, 2), (0, 3), (1, 2), (1, 3)];
    let pg = graph_of(5, &arcs);
    let pgt = transpose_of(5, &arcs);

    let (b, msg) = seed_of(&pg, &pgt, 2, Seed::Producing, true).unwrap();
    assert_eq!((b.first_out, b.inputs.clone(), b.outputs.clone()), (2, vec![0, 1], vec![2, 3]));
    assert_eq!(msg, "seed: root 2 is an output of K(2,2) at 2");
    assert_eq!(b.name(), "K(2,2) at 2");
    assert_eq!(seed_of(&pg, &pgt, 3, Seed::Producing, true).unwrap().0.first_out, 2);

    let (b, msg) = seed_of(&pg, &pgt, 0, Seed::Producing, true).unwrap();
    assert_eq!(b.first_out, 2, "a source falls back to the block it feeds");
    assert!(msg.contains("is a source"), "{msg}");

    let (b, _) = seed_of(&pg, &pgt, 1, Seed::Consuming, true).unwrap();
    assert_eq!(b.first_out, 2);

    assert!(seed_of(&pg, &pgt, 4, Seed::Producing, true).is_err(), "isolated");
    assert!(seed_of(&pg, &pgt, 9, Seed::Producing, true).is_err(), "not in the graph");

    // An input after an output: refused whether or not blocks are checked.
    let arcs = [(0, 1), (0, 2), (3, 1), (3, 2)];
    let pg = graph_of(4, &arcs);
    let pgt = transpose_of(4, &arcs);
    let err = fetch_block(&pg, &pgt, 1, false).unwrap_err();
    assert!(err.contains("input 3"), "{err}");
}

/// A block that is not complete bipartite is refused, naming what breaks it.
#[test]
fn a_non_block_is_refused_by_name() {
    let arcs = [(0, 2), (0, 3), (1, 2)];
    let pg = graph_of(4, &arcs);
    let pgt = transpose_of(4, &arcs);
    let err = fetch_block(&pg, &pgt, 2, true).unwrap_err();
    assert!(err.contains("input 1"), "{err}");
    assert!(fetch_block(&pg, &pgt, 2, false).is_ok(), "completeness is what the check is for");

    // K({0,1},{3,4}) and one more arc into 4: every input's successors are the
    // whole of O, so only the transpose side can see it.
    let arcs = [(0, 3), (0, 4), (1, 3), (1, 4), (2, 4)];
    let pg = graph_of(5, &arcs);
    let pgt = transpose_of(5, &arcs);
    let err = fetch_block(&pg, &pgt, 3, true).unwrap_err();
    assert!(err.contains("output 4") && err.contains("predecessor 2"), "{err}");
    assert!(fetch_block(&pg, &pgt, 3, false).is_ok());
}

/// The first output is probed like any other: a predecessor that is no input of
/// the block is named there too.
#[test]
fn every_output_is_probed() {
    // Asked for through 4, whose predecessors are {0, 1}; 3 has 2 besides.
    let arcs = [(0, 3), (0, 4), (1, 3), (1, 4), (2, 3)];
    let pg = graph_of(5, &arcs);
    let pgt = transpose_of(5, &arcs);
    let err = fetch_block(&pg, &pgt, 4, true).unwrap_err();
    assert!(err.contains("output 3") && err.contains("predecessor 2"), "{err}");
}

/// A chain of three blocks, every node drawn once, nothing dropped.
#[test]
fn a_chain_of_blocks() {
    let scene = scene_of(6, &CHAIN, &[1], &BlockPrune::default(), true);
    let r = &scene.report;
    assert_eq!(r.blocks_drawn, 3);
    assert_eq!(r.nodes_drawn, 6);
    assert_eq!(r.arcs_drawn, 8, "2 + 4 + 2");
    assert_eq!((r.outside_inputs, r.outside_sources), (1, 1));
    assert_eq!((r.arcs_cross, r.arcs_stray, r.arcs_dropped, r.arcs_over_nodes), (0, 0, 0, 0));
    assert_eq!(r.sinks, 1);
    assert_eq!(r.frontier_outputs, 0);
    assert_eq!(scene.nodes.iter().filter(|p| p.graph == 3).count(), 1, "node 3 is placed once");
    assert_eq!(r.blocks_checked, 3);
    assert_eq!(r.blocks_mixed, 0);
    assert!(r.lines().ends_with("frontier: outputs_with_undrawn_consumer=0 sinks=1"));
    assert!(r.lines().contains("dropped=0 over_nodes=0\n"));
}

/// The block both branches of a diamond feed is discovered once, and the arc
/// from the other branch is a cross arc.
#[test]
fn a_diamond_makes_a_cross_arc() {
    let arcs = [(0, 1), (0, 2), (1, 3), (2, 4), (3, 5), (4, 5)];
    let scene = scene_of(6, &arcs, &[1], &BlockPrune::default(), true);
    let r = &scene.report;
    assert_eq!(r.blocks_drawn, 4);
    assert_eq!(r.arcs_drawn, 6);
    assert_eq!(r.arcs_cross, 1);
    assert_eq!(r.arcs_over_nodes, 0);
    let b3 = scene.blocks.iter().find(|b| b.first_out == 5).unwrap();
    assert_eq!(b3.inputs, vec![3, 4]);
    assert_eq!(b3.parent.map(|(_, o)| o), Some(3), "discovered through 3");
    let cross = scene.arcs.iter().find(|a| a.kind == ArcKind::Cross).unwrap();
    assert_eq!(
        (scene.nodes[cross.from as usize].graph, scene.nodes[cross.to as usize].graph),
        (4, 5)
    );
}

/// A block the budget refused leaves an outside input whose producer is drawn:
/// the arc between them is stray, and the producer is cut.
#[test]
fn a_refused_block_leaves_a_stray_arc() {
    let arcs = [(0, 1), (0, 2), (1, 3), (2, 4), (4, 5), (3, 6), (5, 6)];
    let prune = BlockPrune { max_blocks: 4, ..BlockPrune::default() };
    let scene = scene_of(7, &arcs, &[1], &prune, true);
    let r = &scene.report;
    assert_eq!(r.blocks_drawn, 4);
    assert_eq!(r.blocks_refused_by_budget, 1, "K({{4}},{{5}})");
    assert_eq!(r.arcs_stray, 1);
    assert_eq!(r.outside_from_undrawn, 1, "5, produced by the refused block");
    let stray = scene.arcs.iter().find(|a| a.kind == ArcKind::Stray).unwrap();
    assert_eq!(
        (scene.nodes[stray.from as usize].graph, scene.nodes[stray.to as usize].graph),
        (4, 5)
    );
    let four = scene.nodes.iter().find(|p| p.graph == 4).unwrap();
    assert!(four.outdeg > 0 && !four.consumed, "4 is a frontier");
    assert_eq!(r.frontier_outputs, 1);
    assert_eq!(r.blocks_beyond_depth, 0, "the refused block is counted as refused");
    assert_eq!(r.blocks_mixed, 1, "K({{3,5}},{{6}}) has 3 drawn and 5 outside");
}

/// The fanout keeps both ends of a fan and stands an ellipsis for the middle;
/// the hidden outputs are asked whether they lead anywhere; and a hidden output
/// the page consumes anyway is un-hidden, the ellipsis splitting around it.
#[test]
fn the_fanout_keeps_both_ends() {
    let arcs: Vec<(usize, usize)> = (1..=9).map(|v| (0, v)).collect();
    let prune = BlockPrune { fanout_out: Some(4), ..BlockPrune::default() };
    let scene = scene_of(10, &arcs, &[1], &prune, true);
    let r = &scene.report;
    assert_eq!(r.blocks_drawn, 1);
    assert_eq!(r.blocks_cut_by_fanout, 1);
    let mut drawn: Vec<usize> = scene
        .nodes
        .iter()
        .filter(|p| matches!(p.role, Role::Output { .. }))
        .map(|p| p.graph)
        .collect();
    drawn.sort_unstable();
    assert_eq!(drawn, [1, 2, 8, 9]);
    assert_eq!(scene.ellipses.len(), 1);
    assert_eq!(scene.ellipses[0].hidden, 5);
    assert_eq!(scene.ellipses[0].slot, 2, "between the head and the tail");
    assert_eq!((r.arcs_drawn, r.arcs_hidden_by_fanout), (4, 5));
    assert_eq!((r.outputs_hidden, r.inputs_hidden), (5, 0));
    assert_eq!(r.hidden_outputs_with_consumer, 0, "every hidden output is a sink");
    assert_eq!(r.blocks_beyond_depth, 0);

    // The same fan, its hidden outputs spent: what the ellipsis stands in front
    // of is counted.
    let mut spent = arcs.clone();
    spent.extend([(4, 10), (5, 11)]);
    let scene = scene_of(12, &spent, &[1], &prune, true);
    assert_eq!(scene.report.hidden_outputs_with_consumer, 2);
    assert_eq!(scene.report.blocks_beyond_depth, 2);

    // A diamond through a hidden output: K({4,9},{10}) is reached through the
    // kept 9, and 4 is then drawn where its producer put it, not as an outside
    // input, with an ellipsis on either side.
    let mut diamond = arcs.clone();
    diamond.extend([(4, 10), (9, 10)]);
    let scene = scene_of(11, &diamond, &[1], &prune, true);
    let r = &scene.report;
    assert_eq!(r.blocks_drawn, 2);
    assert_eq!((r.nodes_drawn, r.outputs_drawn, r.outside_inputs), (7, 6, 1));
    assert_eq!((r.arcs_drawn, r.arcs_hidden_by_fanout), (5 + 2, 4));
    assert_eq!((r.outputs_hidden, r.hidden_outputs_with_consumer), (4, 0));
    assert_eq!(r.blocks_mixed, 0);
    assert_eq!(r.arcs_cross, 0, "4 is an output of the parent block");
    let mut gaps: Vec<(usize, usize)> = scene.ellipses.iter().map(|e| (e.slot, e.hidden)).collect();
    gaps.sort_unstable();
    assert_eq!(gaps, [(2, 1), (4, 3)], "1 2 ... 4 ... 8 9");
    let four = scene.nodes.iter().find(|p| p.graph == 4).unwrap();
    assert!(matches!(four.role, Role::Output { block: 0 }));
    assert_eq!(four.slot, 3);
}

/// Where the boxes put the rows, depth by depth: inside boxes, one unit apart all
/// the way down.
#[test]
fn rows_sit_one_under_another() {
    for vertical in [true, false] {
        let scene = scene_of(6, &CHAIN, &[1], &BlockPrune::default(), vertical);
        assert_eq!(scene.vertical, vertical);
        // The seed has an input row: input at 0.5, outputs at 1.5.
        assert_eq!(depth_of(&scene, 0), 0.5);
        assert_eq!((depth_of(&scene, 1), depth_of(&scene, 2)), (1.5, 1.5));
        // K({1,2},{3,4}) has no outside inputs: one row, right under.
        assert_eq!((depth_of(&scene, 3), depth_of(&scene, 4)), (2.5, 2.5));
        assert_eq!(depth_of(&scene, 5), 3.5);
        let kinds: Vec<BoxKind> = scene.boxes.boxes.iter().map(|b| b.kind).collect();
        assert_eq!(kinds, [BoxKind::Block(0), BoxKind::Block(1), BoxKind::Block(2)]);
        assert_eq!(scene.boxes.boxes[0].rows, 2);
        assert_eq!(breadth_of(scene.boxes.boxes[0].slots), 3, "two slots, two units apart");
        assert_eq!(scene.in_rows[0], [RowSlot::Node(scene.index[&0])]);
        assert!(scene.in_rows[1].is_empty());
        assert_eq!(
            scene.out_rows[0],
            [RowSlot::Node(scene.index[&1]), RowSlot::Node(scene.index[&2])]
        );
    }
}

/// A block with drawn and outside inputs puts its outside input on the row of
/// its drawn ones, beside the parent.
#[test]
fn an_outside_input_shares_the_row_of_the_drawn_ones() {
    // K({0},{1,2}); K({1},{3}); K({2},{4,5}); K({3,4,6},{7}), 6 a source.
    let arcs = [(0, 1), (0, 2), (1, 3), (2, 4), (2, 5), (3, 7), (4, 7), (6, 7)];
    for vertical in [true, false] {
        let scene = scene_of(8, &arcs, &[1], &BlockPrune::default(), vertical);
        let r = &scene.report;
        assert_eq!((r.blocks_drawn, r.nodes_drawn, r.arcs_drawn), (4, 8, 8));
        assert_eq!((r.arcs_cross, r.blocks_mixed, r.arcs_over_nodes), (1, 1, 0));
        assert_eq!((r.outside_inputs, r.outside_sources, r.outside_from_undrawn), (2, 2, 0));
        assert_eq!(r.sinks, 2, "5 and 7");
        let t = |g: usize| depth_of(&scene, g);
        assert_eq!((t(3), t(4), t(6)), (2.5, 2.5, 2.5), "all three inputs on one row");
        assert_eq!(t(7), 3.5);
        // Right behind its parent's box, and before the next block's.
        let last = scene.blocks.iter().position(|b| b.first_out == 7).unwrap();
        let parent = scene.blocks.iter().position(|b| b.first_out == 3).unwrap();
        let other = scene.blocks.iter().position(|b| b.first_out == 4).unwrap();
        let beside = scene.boxes.in_boxes[last].unwrap();
        let seed = scene.blocks.iter().position(|b| b.parent.is_none()).unwrap();
        assert_eq!(scene.boxes.boxes[seed].children, [parent, beside, other]);
        assert_eq!(scene.boxes.boxes[parent].children, [last], "the block hangs under its parent");
    }
}

/// A seed another seed's output feeds is drawn under it, as the chain it is, with
/// the arcs between them tree arcs; the seeds say so.
#[test]
fn a_seed_reached_by_another_is_drawn_under_it() {
    let pg = graph_of(6, &CHAIN);
    let pgt = transpose_of(6, &CHAIN);
    for depth in [None, Some(0)] {
        let prune = BlockPrune { depth, ..BlockPrune::default() };
        let w = walk(&pg, &pgt, &[3, 1], &prune, Seed::Producing, true).unwrap();
        assert!(w.seeds.iter().any(|s| s.contains("drawn under it")), "{:?}", w.seeds);
        let b = w.blocks.iter().find(|b| b.first_out == 3).unwrap();
        assert_eq!(b.parent.map(|(_, o)| o), Some(1));
        assert_eq!(b.level, 1);
        let scene = lay_out_blocks(&pg, &pgt, w, true).unwrap();
        assert_eq!(scene.report.arcs_cross, 0);
        assert_eq!(depth_of(&scene, 3), 2.5, "under K({{0}},{{1,2}})");
        if depth.is_some() {
            assert_eq!(scene.report.blocks_drawn, 2);
            assert_eq!(scene.report.deepest_level, 1);
            assert_eq!(scene.report.blocks_beyond_depth, 1);
        } else {
            assert_eq!(scene.report.blocks_drawn, 3);
            assert_eq!(scene.report.deepest_level, 2);
        }
    }
}

/// A depth stops the walk and counts what lies beyond; a block on the last level
/// is drawn whole.
#[test]
fn the_depth_is_in_blocks() {
    let prune = BlockPrune { depth: Some(0), ..BlockPrune::default() };
    let scene = scene_of(6, &CHAIN, &[1], &prune, true);
    let r = &scene.report;
    assert_eq!(r.blocks_drawn, 1);
    assert_eq!(r.frontier_outputs, 2, "1 and 2 lead on");
    assert_eq!(r.blocks_beyond_depth, 1, "both to the same block");
    assert_eq!(r.arcs_drawn, 2);
    assert_eq!(r.arcs_dropped, 0);
    assert!(r.lines().contains("dropped=0"));
    assert!(r.lines().starts_with("blocks: drawn=1 deepest_level=0"));
}

/// Two roots in one block draw it once; a seed the budget cannot seat is an error
/// rather than a smaller picture.
#[test]
fn several_roots() {
    let arcs = [(0, 1), (0, 2), (3, 4)];
    let pg = graph_of(5, &arcs);
    let pgt = transpose_of(5, &arcs);
    let w =
        walk(&pg, &pgt, &[1, 2, 4], &BlockPrune::default(), Seed::Producing, true).unwrap();
    assert_eq!(w.blocks.len(), 2);
    assert!(w.seeds[1].ends_with("(already drawn)"), "{}", w.seeds[1]);
    let spent = walk(
        &pg,
        &pgt,
        &[1, 4],
        &BlockPrune { max_blocks: 1, ..BlockPrune::default() },
        Seed::Producing,
        true,
    );
    assert_eq!(
        spent.err().unwrap(),
        "the budget was spent before root 4 was seated; raise --max-blocks or --max-nodes"
    );
    // Two seeds hang side by side off the added root.
    let scene = lay_out_blocks(&pg, &pgt, w, true).unwrap();
    assert_eq!(scene.report.nodes_drawn, 5);
    assert_eq!(depth_of(&scene, 1), depth_of(&scene, 4));
    assert_eq!(scene.boxes.boxes[scene.boxes.root].kind, BoxKind::Root);
}

#[test]
fn a_walk_refuses_what_it_cannot_draw() {
    let pg = graph_of(6, &CHAIN);
    let pgt = transpose_of(6, &CHAIN);
    let say = |roots: &[usize], prune: &BlockPrune| {
        walk(&pg, &pgt, roots, prune, Seed::Producing, true).err().unwrap()
    };
    assert_eq!(say(&[], &BlockPrune::default()), "no root to draw from");
    let none = BlockPrune { max_nodes: 0, ..BlockPrune::default() };
    assert_eq!(say(&[1], &none), "a budget of 0 draws nothing");
    assert_eq!(say(&[6], &BlockPrune::default()), "node 6 is not in a graph of 6 nodes");
}

/// The budget of nodes is spent breadth first, and never overspent.
#[test]
fn budgets_are_kept() {
    let pg = graph_of(6, &CHAIN);
    let pgt = transpose_of(6, &CHAIN);
    for max_nodes in 3..12 {
        let prune = BlockPrune { max_nodes, ..BlockPrune::default() };
        let w = walk(&pg, &pgt, &[1], &prune, Seed::Producing, true).unwrap();
        let used: usize = w
            .blocks
            .iter()
            .map(|b| b.kept_in.count(b.inputs.len()) + b.kept_out.count(b.outputs.len()))
            .sum();
        assert!(used <= max_nodes, "{used} of {max_nodes}");
    }
}

#[test]
fn what_the_limits_are_called() {
    let prune = BlockPrune::default();
    assert_eq!(prune.max_blocks, DEFAULT_MAX_BLOCKS);
    assert!(prune.summary().contains("20000"), "{}", prune.summary());
}

/// The slots of a cut side: the kept entries at their places, a gap for every
/// hidden run, and un-hiding splits a gap.
#[test]
fn slots_of_a_cut_side() {
    let mut k = Kept::of(9, Some(4));
    assert_eq!(
        k.slots(9),
        [Slot::Node(0), Slot::Node(1), Slot::Gap(5), Slot::Node(7), Slot::Node(8)]
    );
    k.keep(9, 4);
    k.keep(9, 4);
    assert_eq!(k.indices(9), [0, 1, 4, 7, 8]);
    assert_eq!(
        k.slots(9),
        [
            Slot::Node(0),
            Slot::Node(1),
            Slot::Gap(2),
            Slot::Node(4),
            Slot::Gap(2),
            Slot::Node(7),
            Slot::Node(8)
        ]
    );
    assert_eq!((k.count(9), k.hidden(9)), (5, 4));
    let one = Kept::of(5, Some(1));
    assert_eq!(one.slots(5), [Slot::Node(0), Slot::Gap(4)]);
    assert_eq!(Kept::of(3, Some(4)), Kept::All);
    assert_eq!(Kept::All.slots(2), [Slot::Node(0), Slot::Node(1)]);
    assert!(k.contains(9, 4) && !k.contains(9, 3) && k.is_cut(9));
}

#[test]
fn arcs_are_kept_once_and_in_order() {
    let mut g = Adjacency::empty(4);
    assert!(g.add_arc(0, 3));
    assert!(g.add_arc(0, 1));
    assert!(!g.add_arc(0, 3), "it is there already");
    assert_eq!(g.successors(0), [1, 3]);
    assert_eq!((g.num_nodes(), g.outdegree(0), g.outdegree(3)), (4, 2, 0));
}
