//! What a window shows.

use coloring_bt_transactions::forest::Tree;
use coloring_bt_transactions::quadtree::{Patch, Quadtree};
use coloring_bt_transactions::scene::Scene;
use coloring_bt_transactions::viewer::{
    count_summarised, describe_node, gather, links, page_name, panel, press, samples, sort_nodes,
    two_tone, Action, Frame, Key,
};

/// A five-node tree: a root, a child with two of its own, and a second child.
fn small() -> Scene {
    let mut tree = Tree::new();
    for v in 0..5 {
        tree.add_node(v);
    }
    for (p, c) in [(0, 1), (0, 4), (1, 2), (1, 3)] {
        tree.push_child(p, c);
    }
    Scene::of(&tree, 0).unwrap()
}

/// Leaves and the rest are drawn apart, which is the whole of what the two tones
/// have to say.
#[test]
fn the_two_tones_are_leaves_and_the_rest() {
    let scene = small();
    for i in 0..scene.len() as u32 {
        assert_eq!(two_tone(&scene, i) == 1, scene.is_leaf(i));
    }
}

#[test]
fn a_frame_sorts_its_nodes() {
    let scene = small();
    let bucket: Vec<u16> = (0..5).map(|i| two_tone(&scene, i)).collect();
    let nodes = vec![4, 3, 2, 1, 0];

    let plain = sort_nodes(&scene, &nodes, None, &bucket, 2, false);
    assert_eq!(plain.solid, [vec![1, 0], vec![4, 3, 2]]);
    assert!(plain.rings.iter().all(Vec::is_empty) && plain.selected.is_empty());

    // A leaf is a ring where there is room for one.
    let roomy = sort_nodes(&scene, &nodes, None, &bucket, 2, true);
    assert_eq!(roomy.solid, [vec![1, 0], vec![]]);
    assert_eq!(roomy.rings, [vec![], vec![4, 3, 2]]);

    // The selection is a subtree, and is left out of the buckets.
    let picked = sort_nodes(&scene, &nodes, Some(1), &bucket, 2, true);
    assert_eq!(picked.selected, [3, 2, 1]);
    assert_eq!(picked.solid, [vec![0], vec![]]);
    assert_eq!(picked.rings, [vec![], vec![4]]);

    assert_eq!(links(&scene, &nodes), [(0, 4), (1, 3), (1, 2), (0, 1)]);
}

#[test]
fn crowds_are_counted_and_the_rest_named() {
    let tree = Quadtree::over(&vec![0; 5]).unwrap();
    let patches = vec![
        Patch::Cluster { cell: 3, start: 3, end: 5 },
        Patch::Nodes { start: 1, end: 3 },
        Patch::Nodes { start: 0, end: 1 },
    ];
    let (nodes, squares) = gather(&tree, &patches);
    assert_eq!(nodes, [1, 2, 0]);
    assert_eq!(squares, [patches[0]]);
    assert_eq!(count_summarised(&squares), 2);
}

#[test]
fn a_crowd_is_sampled() {
    assert_eq!(samples(10, 13), [10, 11, 12]);
    assert_eq!(samples(0, 8), [0, 1, 2, 3, 4, 5, 6, 7]);
    assert_eq!(samples(100, 125), [100, 103, 106, 109, 112, 115, 118, 121]);
    assert!(samples(4, 4).is_empty());
}

#[test]
fn what_the_keys_do() {
    let scene = small();
    assert_eq!(press(&scene, Some(3), Key::P), (Action::Redraw, Some(1)));
    assert_eq!(press(&scene, Some(0), Key::P), (Action::Redraw, Some(0)), "a root stays selected");
    assert_eq!(press(&scene, None, Key::P), (Action::Redraw, None));
    assert_eq!(press(&scene, Some(3), Key::Escape), (Action::Redraw, None));
    assert_eq!(press(&scene, Some(3), Key::F), (Action::FrameSelection, Some(3)));
    assert_eq!(press(&scene, None, Key::Home), (Action::FrameAll, None));
    assert_eq!(press(&scene, None, Key::A).0, Action::FrameAll);
    assert_eq!(press(&scene, None, Key::Plus).0, Action::Zoom { notches: -1 });
    assert_eq!(press(&scene, None, Key::Minus).0, Action::Zoom { notches: 1 });
    assert_eq!(press(&scene, None, Key::Left).0, Action::Pan { x: 1, y: 0 });
    assert_eq!(press(&scene, None, Key::Right).0, Action::Pan { x: -1, y: 0 });
    assert_eq!(press(&scene, None, Key::Up).0, Action::Pan { x: 0, y: 1 });
    assert_eq!(press(&scene, None, Key::Down).0, Action::Pan { x: 0, y: -1 });
    assert_eq!(press(&scene, None, Key::E).0, Action::Export);
    assert_eq!(press(&scene, None, Key::Q).0, Action::Close);
    assert_eq!(press(&scene, Some(2), Key::Other), (Action::Ignore, Some(2)));
}

#[test]
fn what_the_panel_says() {
    let scene = small();
    let drawn = Frame { nodes: 5, squares: 0, summarised: 0 };
    assert_eq!(
        panel(5, 1, "80.0000", drawn),
        ("5 nodes, 1 cells".to_string(), "80.0000 px/node   showing 5 nodes".to_string())
    );
    let coarse = Frame { nodes: 3, squares: 40, summarised: 900 };
    assert_eq!(
        panel(903, 77, "1.00e-4", coarse).1,
        "1.00e-4 px/node   showing 900 nodes in 40 squares"
    );
    assert_eq!(describe_node(&scene, Some(1)), "node 1 — 3 in its subtree");
    assert_eq!(describe_node(&scene, None), "nothing selected — click a node");
}

/// Pages are numbered, so that one is never written over another.
#[test]
fn pages_have_names_of_their_own() {
    assert_eq!(page_name("page", 1), "page-001.pdf");
    assert_eq!(page_name("a/b", 42), "a/b-042.pdf");
    assert_eq!(page_name("p", 999), "p-999.pdf");
    assert_eq!(page_name("p", 1000), "p-1000.pdf");
}
