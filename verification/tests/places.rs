//! Where the nodes of a drawing of blocks are, and the arcs that pass over them.

use coloring_bt_transactions::block_places::{place_blocks, settle_places, Corner, Places};
use coloring_bt_transactions::block_scene::{lay_out_blocks, Arc, ArcKind, BlockScene};
use coloring_bt_transactions::blocks::Seed;
use coloring_bt_transactions::boxes::{breadth_of, BoxKind};
use coloring_bt_transactions::crossings::{arcs_over_nodes, CLEARANCE, UNIT};
use coloring_bt_transactions::graph::Adjacency;
use coloring_bt_transactions::report::BlockPrune;
use coloring_bt_transactions::walk::walk;

fn graph_of(n: usize, arcs: &[(usize, usize)]) -> Adjacency {
    let mut g = Adjacency::empty(n);
    for &(u, v) in arcs {
        g.add_arc(u, v);
    }
    g
}

/// Lays the boxes out side by side, a unit apart, each centred over what hangs
/// under it, and answers how wide the whole is.
fn spread(scene: &BlockScene, b: usize, s: f64, t: f64, at: &mut Vec<(f64, f64)>) -> f64 {
    let tree = &scene.boxes.boxes[b];
    let root = tree.kind == BoxKind::Root;
    let own = if root { 0.0 } else { breadth_of(tree.slots) as f64 };
    let deep = if root { 0.0 } else { tree.rows as f64 };
    let mut wide = 0.0;
    for &c in &tree.children {
        if wide > 0.0 {
            wide += 1.0;
        }
        wide += spread(scene, c, s + wide, t + deep, at);
    }
    at[b] = match (tree.children.first(), tree.children.last()) {
        (Some(&first), Some(&last)) => {
            let far = at[last].0 + breadth_of(scene.boxes.boxes[last].slots) as f64;
            ((at[first].0 + far - own) / 2.0, t)
        }
        _ => (s, t),
    };
    wide.max(own)
}

fn corners_of(scene: &BlockScene) -> Vec<Corner> {
    let mut at = vec![(0.0, 0.0); scene.boxes.boxes.len()];
    spread(scene, scene.boxes.root, 0.0, 0.0, &mut at);
    at.iter()
        .map(|&(s, t)| Corner {
            breadth: (s * UNIT as f64) as i64,
            depth: (t * UNIT as f64) as i64,
        })
        .collect()
}

fn scene_of(n: usize, arcs: &[(usize, usize)], vertical: bool) -> (BlockScene, Places) {
    let reversed: Vec<(usize, usize)> = arcs.iter().map(|&(u, v)| (v, u)).collect();
    let (pg, pgt) = (graph_of(n, arcs), graph_of(n, &reversed));
    let w = walk(&pg, &pgt, &[1], &BlockPrune::default(), Seed::Producing, true).unwrap();
    assert!(w.blocks.iter().any(|b| b.parent.is_none()));
    let mut scene = lay_out_blocks(&pg, &pgt, w, vertical).unwrap();
    let (places, report) = settle_places(&scene, &corners_of(&scene)).unwrap();
    scene.report = report;
    (scene, places)
}

/// The depth and the breadth of a graph node, in node units.
fn place(scene: &BlockScene, places: &Places, g: usize) -> (f64, f64) {
    let (t, s) = places.nodes[scene.index[&g] as usize];
    (t as f64 / UNIT as f64, s as f64 / UNIT as f64)
}

const CHAIN: [(usize, usize); 8] =
    [(0, 1), (0, 2), (1, 3), (1, 4), (2, 3), (2, 4), (3, 5), (4, 5)];

/// The geometry of a chain: rows inside boxes, one unit apart all the way down,
/// siblings two units apart.
#[test]
fn rows_sit_where_the_boxes_put_them() {
    for vertical in [true, false] {
        let (scene, places) = scene_of(6, &CHAIN, vertical);
        let at = |g: usize| {
            let (t, s) = place(&scene, &places, g);
            (s, t)
        };
        // The seed has an input row: input at 0.5, outputs at 1.5.
        assert_eq!(at(0).1, 0.5);
        assert_eq!((at(1).1, at(2).1), (1.5, 1.5));
        assert_eq!((at(2).0 - at(1).0).abs(), 2.0, "siblings two units apart");
        // K({1,2},{3,4}) has no outside inputs: one row, right under.
        assert_eq!((at(3).1, at(4).1), (2.5, 2.5));
        // K({3,4},{5}) likewise.
        assert_eq!(at(5).1, 3.5);
        // The input is centred over its outputs.
        assert_eq!(at(0).0, (at(1).0 + at(2).0) / 2.0);
        let depths = places.nodes.iter().map(|p| p.0);
        assert_eq!(depths.clone().min(), Some(UNIT / 2));
        assert_eq!(depths.max(), Some(4 * UNIT - UNIT / 2));
    }
}

/// A block with drawn and outside inputs puts its outside input on the row of its
/// drawn ones, beside the parent, so that every arc spans one row and passes over
/// nothing.
#[test]
fn an_outside_input_sits_beside_the_drawn_ones() {
    // K({0},{1,2}); K({1},{3}); K({2},{4,5}); K({3,4,6},{7}), 6 a source.
    let arcs = [(0, 1), (0, 2), (1, 3), (2, 4), (2, 5), (3, 7), (4, 7), (6, 7)];
    for vertical in [true, false] {
        let (scene, places) = scene_of(8, &arcs, vertical);
        let r = &scene.report;
        assert_eq!((r.blocks_drawn, r.nodes_drawn, r.arcs_drawn), (4, 8, 8));
        assert_eq!((r.arcs_cross, r.blocks_mixed, r.arcs_over_nodes), (1, 1, 0));
        assert_eq!((r.outside_inputs, r.outside_sources, r.outside_from_undrawn), (2, 2, 0));
        assert_eq!(r.sinks, 2, "5 and 7");
        let t = |g: usize| place(&scene, &places, g).0;
        let s = |g: usize| place(&scene, &places, g).1;
        assert_eq!((t(3), t(4), t(6)), (2.5, 2.5, 2.5), "all three inputs on one row");
        assert_eq!(t(7), 3.5);
        assert_eq!(s(6) - s(3), 2.0, "beside its parent's output");
        assert!(s(4) > s(6), "and before the next block");
        assert_eq!(s(7), s(3), "the block hangs under its parent");
    }
}

/// A cross arc that skips a row is checked against what it passes over: here
/// 7 -> 9 crosses the row of 5 and 6 through 6, and 8 -> 9 misses it by exactly a
/// unit.
#[test]
fn an_arc_over_a_node_is_counted() {
    let arcs = [
        (0, 1), (0, 2),
        (1, 3), (1, 4),
        (3, 5), (3, 6), (4, 5), (4, 6),
        (5, 7), (5, 8), (6, 7), (6, 8),
        (2, 9), (7, 9), (8, 9),
    ];
    let (scene, places) = scene_of(10, &arcs, true);
    let r = &scene.report;
    assert_eq!((r.blocks_drawn, r.arcs_cross), (5, 2));
    assert_eq!(place(&scene, &places, 9).0, 2.5, "hung under the seed, where 2 is");
    assert_eq!(place(&scene, &places, 7).0, 4.5);
    assert_eq!(r.arcs_over_nodes, 1, "{:?}", scene.nodes);
}

/// A box without a corner, or one out of reach, and nothing is placed.
#[test]
fn what_is_out_of_reach_is_not_placed() {
    let (scene, _) = scene_of(6, &CHAIN, true);
    let mut corners = corners_of(&scene);
    assert!(place_blocks(&scene, &corners).is_some());
    corners[0].depth = i64::MAX;
    assert!(place_blocks(&scene, &corners).is_none());
    assert!(settle_places(&scene, &corners).is_none());
    assert!(place_blocks(&scene, &Vec::new()).is_none());
}

/// An arc that passes closer than a node's width to a mark between its ends passes
/// over it; one exactly that far away does not, and none passes over its own ends.
#[test]
fn clearance_is_strict() {
    assert_eq!(CLEARANCE, UNIT);
    let arc = |from: u32, to: u32| Arc { from, to, kind: ArcKind::Cross };
    let count = |off: i64, ellipses: &[(i64, i64)]| {
        let nodes = vec![(0, 0), (2 * UNIT, 0), (UNIT, off)];
        arcs_over_nodes(&nodes, &ellipses.to_vec(), &vec![arc(0, 1)])
    };
    assert_eq!(count(0, &[]), 1);
    assert_eq!(count(UNIT - 1, &[]), 1);
    assert_eq!(count(1 - UNIT, &[]), 1);
    assert_eq!(count(UNIT, &[]), 0);
    assert_eq!(count(-UNIT, &[]), 0);
    assert_eq!(count(UNIT, &[(UNIT, 0)]), 1, "an ellipsis is passed over too");
    assert_eq!(count(0, &[(UNIT, 0)]), 1, "an arc is counted once");
    assert_eq!(count(UNIT, &[(3 * UNIT, 0)]), 0, "nothing past its ends");
    assert_eq!(count(UNIT, &[(2 * UNIT, 1)]), 1, "nor beside them, unless as close");
}

/// A tree arc goes from a row to the next; a chain and a diamond have no arc over a
/// node.
#[test]
fn tree_arcs_span_one_row() {
    let diamond = [(0, 1), (0, 2), (1, 3), (2, 4), (3, 5), (4, 5)];
    let mixed = [(0, 1), (0, 2), (1, 3), (2, 4), (2, 5), (3, 7), (4, 7), (6, 7)];
    for (n, arcs) in [(6, &CHAIN[..]), (6, &diamond[..]), (8, &mixed[..])] {
        let (scene, places) = scene_of(n, arcs, true);
        assert_eq!(scene.report.arcs_over_nodes, 0);
        let depth = |i: u32| places.nodes[i as usize].0;
        for a in scene.arcs.iter().filter(|a| a.kind == ArcKind::Tree) {
            assert_eq!(depth(a.to) - depth(a.from), UNIT);
        }
    }
}

/// Anything as many nodes out as can be numbered has its place.
#[test]
fn a_drawing_may_be_very_wide() {
    let (scene, _) = scene_of(6, &CHAIN, true);
    let mut corners = corners_of(&scene);
    for c in &mut corners {
        c.breadth += u32::MAX as i64 * UNIT;
    }
    assert!(settle_places(&scene, &corners).is_some());
}
