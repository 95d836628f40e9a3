//! Pages: what is drawn, in which order and ink, and what is written.

use std::collections::HashSet;
use std::io::Read;

use coloring_bt_transactions::block_page;
use coloring_bt_transactions::block_scene::{lay_out_blocks, BlockScene};
use coloring_bt_transactions::blocks::Seed;
use coloring_bt_transactions::forest::{build_rooted, Prune, Tree};
use coloring_bt_transactions::graph::Adjacency;
use coloring_bt_transactions::ink::{Dash, Op, Spot, Tone, Width, BATCH};
use coloring_bt_transactions::labels::{longest_label, write_labels, Anchor, Label, Labels};
use coloring_bt_transactions::pdf::Page;
use coloring_bt_transactions::report::BlockPrune;
use coloring_bt_transactions::rows::Row;
use coloring_bt_transactions::scene::Scene;
use coloring_bt_transactions::tree_page::{self, Part};
use coloring_bt_transactions::walk::walk;
use flate2::read::ZlibDecoder;

fn graph_of(n: usize, arcs: &[(usize, usize)]) -> Adjacency {
    let mut g = Adjacency::empty(n);
    for &(u, v) in arcs {
        g.add_arc(u, v);
    }
    g
}

fn block_scene(
    n: usize,
    arcs: &[(usize, usize)],
    roots: &[usize],
    prune: &BlockPrune,
) -> BlockScene {
    let pg = graph_of(n, arcs);
    let reversed: Vec<(usize, usize)> = arcs.iter().map(|&(u, v)| (v, u)).collect();
    let pgt = graph_of(n, &reversed);
    let w = walk(&pg, &pgt, roots, prune, Seed::Producing, true).unwrap();
    lay_out_blocks(&pg, &pgt, w, true).unwrap()
}

/// The content stream of a page with these steps and labels on it, every node in
/// the same place: what is there, not where.
fn stream(ops: &[Op], labels: &[Label]) -> String {
    let mut page = Page::new("300.00".to_string(), "300.00".to_string());
    let zero = "0.00";
    let circle: Vec<String> = (0..26).map(|_| zero.to_string()).collect();
    for op in ops {
        match *op {
            Op::SetStroke(tone) => {
                let (r, g, b) = tone.rgb();
                page.set_stroke(r, g, b);
            }
            Op::SetFill(tone) => {
                let (r, g, b) = tone.rgb();
                page.set_fill(r, g, b);
            }
            Op::SetWidth(_) => page.set_line_width("0.50"),
            Op::SetDash(_) => page.set_dash("2.00", "1.50"),
            Op::Solid => page.solid(),
            Op::Segment { .. } | Op::Stub(_) => page.segment(zero, zero, zero, zero),
            Op::Circle(_) => page.circle(&circle),
            Op::Dots(_) => {
                for _ in 0..3 {
                    page.circle(&circle);
                }
            }
            Op::Stroke => page.stroke(),
            Op::Fill => page.fill(),
            Op::FillAndStroke => page.fill_and_stroke(),
        }
    }
    if !labels.is_empty() {
        let (r, g, b) = Tone::Label.rgb();
        page.set_fill(r, g, b);
    }
    for label in labels {
        page.text(zero, zero, "7.00", &label.text);
    }
    let bytes = page.write().unwrap();
    let start = bytes.windows(7).position(|w| w == b"stream\n").unwrap() + 7;
    let end = bytes.windows(10).position(|w| w == b"\nendstream").unwrap();
    let mut text = String::new();
    ZlibDecoder::new(&bytes[start..end]).read_to_string(&mut text).unwrap();
    text
}

fn block_ops(scene: &BlockScene, marks: &[usize], labels: Labels, dash_cross: bool) -> String {
    let marks: HashSet<usize> = marks.iter().copied().collect();
    let ops = block_page::draw(scene, &marks, dash_cross, true);
    stream(&ops, &write_labels(scene, labels, None))
}

const CHAIN: [(usize, usize); 8] =
    [(0, 1), (0, 2), (1, 3), (1, 4), (2, 3), (2, 4), (3, 5), (4, 5)];

/// A chain with nothing dashed carries no dash operator; a diamond's cross arc is
/// dashed only when asked; a source gets no stub and a produced outside input
/// gets one.
#[test]
fn dashes_only_where_something_is_dashed() {
    let scene = block_scene(6, &CHAIN, &[1], &BlockPrune::default());
    let ops = block_ops(&scene, &[], Labels::Nothing, false);
    assert!(!ops.contains(" d\n"), "nothing to dash: {ops}");
    assert_eq!(ops.matches("c h").count(), 6, "six nodes: {ops}");
    assert_eq!(ops.matches(" l\n").count(), 8, "eight arcs");
    assert!(!ops.contains("0.82 0.24 0.1"), "nothing was cut");

    let diamond = [(0, 1), (0, 2), (1, 3), (2, 4), (3, 5), (4, 5)];
    let scene = block_scene(6, &diamond, &[1], &BlockPrune::default());
    let solid = block_ops(&scene, &[], Labels::Nothing, false);
    assert!(!solid.contains(" d\n"), "a cross arc is solid by default: {solid}");
    let dashed = block_ops(&scene, &[], Labels::Nothing, true);
    assert_eq!(dashed.matches("] 0 d\n").count(), 2, "one dashed batch, then solid: {dashed}");

    // Rooted one block down, the seed's inputs come from an undrawn block: stubs,
    // dashed.
    let prune = BlockPrune { depth: Some(0), ..BlockPrune::default() };
    let scene = block_scene(6, &CHAIN, &[3], &prune);
    assert_eq!(scene.report.outside_from_undrawn, 2);
    let ops = block_ops(&scene, &[], Labels::Nothing, false);
    assert_eq!(ops.matches("] 0 d\n").count(), 2, "the stubs' dash and its undoing: {ops}");
    assert!(ops.contains("0.82 0.24 0.1"), "3 and 4 lead on to a block the depth stopped");
}

/// Labels are opt-in, name every node when asked, and one row at a time in
/// compact mode; a mark wears the caller's colour.
#[test]
fn labels_and_marks() {
    let scene = block_scene(6, &CHAIN, &[1], &BlockPrune::default());

    let plain = block_ops(&scene, &[], Labels::Nothing, false);
    assert!(!plain.contains("Tj") && !plain.contains("0.16 0.47 0.84"));

    let each = block_ops(&scene, &[3], Labels::Each, false);
    for g in 0..6 {
        assert!(each.contains(&format!("({g}) Tj")), "{g} is labelled: {each}");
    }
    assert!(each.contains("0.16 0.47 0.84"), "node 3 wears the mark");

    let compact = block_ops(&scene, &[], Labels::Compact, false);
    assert!(compact.contains("(0) Tj"), "{compact}");
    assert!(compact.contains("(1-2 \\(2\\)) Tj"), "one label for the output row: {compact}");
    assert!(compact.contains("(3-4 \\(2\\)) Tj"), "{compact}");
    assert!(compact.contains("(5) Tj"));
    assert_eq!(compact.matches("Tj").count(), 4, "one label a row: {compact}");

    // A row that shows one input of three says so; the count in parentheses is
    // always the block's side, never the row's.
    let merge = [(0, 1), (0, 2), (1, 3), (2, 4), (2, 5), (3, 7), (4, 7), (6, 7)];
    let scene = block_scene(8, &merge, &[1], &BlockPrune::default());
    let compact = block_ops(&scene, &[], Labels::Compact, false);
    assert!(compact.contains("(6 \\(1 of 3\\)) Tj"), "{compact}");
    let prune = BlockPrune { depth: Some(0), ..BlockPrune::default() };
    let scene = block_scene(8, &merge, &[7], &prune);
    let compact = block_ops(&scene, &[], Labels::Compact, false);
    assert!(compact.contains("(3 ... 6 \\(3\\)) Tj"), "{compact}");
}

/// A fan cut by the fanout draws its ellipsis in the cut's colour and labels it
/// with the hidden count.
#[test]
fn an_ellipsis_says_how_many() {
    let arcs: Vec<(usize, usize)> = (1..=9).map(|v| (0, v)).collect();
    let prune = BlockPrune { fanout_out: Some(4), ..BlockPrune::default() };
    let scene = block_scene(10, &arcs, &[1], &prune);
    let ops = block_ops(&scene, &[], Labels::Each, false);
    assert!(ops.contains("0.82 0.24 0.1"), "the ellipsis is in the cut's colour");
    assert!(ops.contains("(+5) Tj"), "{ops}");
    assert_eq!(ops.matches("c h").count(), 5 + 3, "five nodes and three dots");
}

/// Labels stand beside what they name, along its row, and hidden counts outward.
#[test]
fn where_labels_stand() {
    let arcs: Vec<(usize, usize)> = (1..=9).map(|v| (0, v)).collect();
    let prune = BlockPrune { fanout_out: Some(1), ..BlockPrune::default() };
    let scene = block_scene(10, &arcs, &[1], &prune);
    let labels = write_labels(&scene, Labels::Compact, Some(-3));
    let said: Vec<(Anchor, &str)> = labels.iter().map(|l| (l.anchor, l.text.as_str())).collect();
    // Of outputs 1 to 9 only the first is drawn, and the dots are the last slot.
    let zero = Spot { part: 0, node: scene.index[&0] };
    assert_eq!(
        said,
        [
            (Anchor::Outward(0, Row::Output), "+8"),
            (Anchor::Beside(zero), "3"),
            (Anchor::BesideDots(0), "4-12 (9)"),
        ]
    );
    assert_eq!(longest_label(&labels), 8);
    let each = write_labels(&scene, Labels::Each, Some(5));
    assert!(each.iter().any(|l| l.text == "-5"), "an id under the base is negative");
    assert_eq!(longest_label(&write_labels(&scene, Labels::Nothing, None)), 0);
}

/// A path is painted when it is full, and what is left of one at the end.
#[test]
fn paths_are_painted_in_batches() {
    let arcs: Vec<(usize, usize)> = (1..=BATCH + 1).map(|v| (0, v)).collect();
    let scene = block_scene(BATCH + 2, &arcs, &[1], &BlockPrune::default());
    let ops = block_page::draw(&scene, &HashSet::new(), false, false);
    let strokes: Vec<usize> = (0..ops.len()).filter(|&i| ops[i] == Op::Stroke).collect();
    assert_eq!(strokes, [2 + BATCH, 2 + BATCH + 2]);
    assert_eq!(ops[0], Op::SetStroke(Tone::Link));
    assert_eq!(ops[1], Op::SetWidth(Width::Arc));
}

fn tree_scene(
    n: usize,
    arcs: &[(usize, usize)],
    roots: &[usize],
    prune: &Prune,
) -> (Scene, HashSet<usize>) {
    let g = graph_of(n, arcs);
    let mut tree = Tree::new();
    let sampled = build_rooted(&g, &mut tree, roots, prune).unwrap();
    (Scene::of(&tree, sampled.root).unwrap(), sampled.truncated)
}

fn tree_ops(parts: Vec<Part>, marks: &[usize], labels: bool) -> String {
    let marks: HashSet<usize> = marks.iter().copied().collect();
    let ops = tree_page::draw(&parts, &marks, true);
    let labels = if labels { tree_page::write_labels(&parts) } else { vec![] };
    stream(&ops, &labels)
}

/// Five nodes make five circles and four arcs.
#[test]
fn a_page_holds_its_subtree() {
    let (scene, truncated) =
        tree_scene(5, &[(0, 1), (0, 4), (1, 2), (1, 3)], &[0], &Prune::default());
    let part = Part { scene: &scene, truncated: &truncated, flipped: false };
    let ops = tree_ops(vec![part], &[], false);
    assert_eq!(ops.matches("c h").count(), 5);
    assert_eq!(ops.matches(" l\n").count(), 4);
}

/// The cut frontier is drawn in its own colour: the page of a pruned walk names
/// it where the page of the whole subtree does not.
#[test]
fn the_cut_is_inked_apart() {
    let arcs = [(0, 1), (1, 2), (2, 3), (3, 4)];
    let render = |prune: &Prune| {
        let (scene, truncated) = tree_scene(5, &arcs, &[0], prune);
        let part = Part { scene: &scene, truncated: &truncated, flipped: false };
        tree_ops(vec![part], &[], false)
    };
    let whole = render(&Prune::default());
    let pruned = render(&Prune { depth: Some(2), ..Prune::default() });
    assert!(!whole.contains("0.82 0.24 0.1"), "nothing was cut, so nothing warns");
    assert!(pruned.contains("0.82 0.24 0.1"), "the frontier of the cut is inked apart");
}

/// A marked node wears the caller's colour, and an unmarked page carries no
/// marking ink; labels put the graph ids on the page, and only when asked.
#[test]
fn marks_and_labels_are_opt_in() {
    let (scene, truncated) = tree_scene(3, &[(0, 1), (1, 2)], &[0], &Prune::default());
    let part = || Part { scene: &scene, truncated: &truncated, flipped: false };

    let plain = tree_ops(vec![part()], &[], false);
    assert!(!plain.contains("0.16 0.47 0.84"), "no mark was asked for");
    assert!(!plain.contains("Tj"), "no label was asked for");

    let ops = tree_ops(vec![part()], &[1], true);
    assert!(ops.contains("0.16 0.47 0.84"), "node 1 wears the mark: {ops}");
    assert!(ops.contains("(0) Tj") && ops.contains("(2) Tj"), "every node is labelled: {ops}");
}

/// An hourglass draws both trees about one shared root: the root's disc appears
/// once, every other node once.
#[test]
fn an_hourglass_meets_at_its_waist() {
    // The chain 0 -> 1 -> 2 and its transpose; the waist is node 1.
    let (down, down_cut) = tree_scene(3, &[(0, 1), (1, 2)], &[1], &Prune::default());
    let (up, up_cut) = tree_scene(3, &[(1, 0), (2, 1)], &[1], &Prune::default());
    assert_eq!((down.len(), up.len()), (2, 2), "each side is the waist and one more");

    let parts = vec![
        Part { scene: &down, truncated: &down_cut, flipped: false },
        Part { scene: &up, truncated: &up_cut, flipped: true },
    ];
    let labels = tree_page::write_labels(&parts);
    let said: Vec<(Anchor, &str)> = labels.iter().map(|l| (l.anchor, l.text.as_str())).collect();
    assert_eq!(
        said,
        [
            (Anchor::Over(Spot { part: 0, node: 0 }), "1"),
            (Anchor::Under(Spot { part: 0, node: 1 }), "2"),
            (Anchor::Under(Spot { part: 1, node: 1 }), "0"),
        ]
    );
    let ops = tree_ops(parts, &[], false);
    let circles = ops.matches("c h").count();
    assert_eq!(circles, 3, "three nodes, and the waist drawn once: {ops}");
}

/// The steps of a small page, one by one.
#[test]
fn a_page_step_by_step() {
    let (scene, truncated) = tree_scene(3, &[(0, 1), (0, 2)], &[0], &Prune::default());
    let parts = vec![Part { scene: &scene, truncated: &truncated, flipped: false }];
    let at = |node: u32| Spot { part: 0, node };
    let marks = HashSet::from([2usize]);
    assert_eq!(
        tree_page::draw(&parts, &marks, true),
        [
            Op::SetStroke(Tone::Link),
            Op::SetWidth(Width::Arc),
            Op::Segment { from: at(0), to: at(1) },
            Op::Segment { from: at(0), to: at(2) },
            Op::Stroke,
            Op::SetFill(Tone::Inner),
            Op::Circle(at(0)),
            Op::Fill,
            Op::SetFill(Tone::Paper),
            Op::SetStroke(Tone::Leaf),
            Op::SetWidth(Width::Ring),
            Op::Circle(at(1)),
            Op::FillAndStroke,
            Op::SetFill(Tone::Paper),
            Op::SetStroke(Tone::Mark),
            Op::SetWidth(Width::Ring),
            Op::Circle(at(2)),
            Op::FillAndStroke,
        ]
    );
    // With no room for rings everything is filled.
    let small = tree_page::draw(&parts, &HashSet::new(), false);
    assert!(small.iter().all(|op| !matches!(op, Op::FillAndStroke | Op::SetDash(Dash::Dashed))));
}
