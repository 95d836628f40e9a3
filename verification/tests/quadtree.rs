//! The nodes of a drawing, sorted by where they are.

use coloring_bt_transactions::quadtree::{nearest, Patch, Quadtree, MAX_DEPTH, NO_CHILDREN};

#[derive(Clone, Copy, Debug)]
struct Rect {
    min_x: f64,
    min_y: f64,
    max_x: f64,
    max_y: f64,
}

impl Rect {
    fn new(min_x: f64, min_y: f64, max_x: f64, max_y: f64) -> Rect {
        Rect { min_x, min_y, max_x, max_y }
    }

    fn width(&self) -> f64 {
        self.max_x - self.min_x
    }

    fn centre(&self) -> (f64, f64) {
        ((self.min_x + self.max_x) / 2.0, (self.min_y + self.max_y) / 2.0)
    }

    fn intersects(&self, o: Rect) -> bool {
        self.min_x <= o.max_x && o.min_x <= self.max_x && self.min_y <= o.max_y && o.min_y <= self.max_y
    }

    fn quarter(&self, q: usize) -> Rect {
        let (cx, cy) = self.centre();
        let (min_x, max_x) = if q & 1 == 0 { (self.min_x, cx) } else { (cx, self.max_x) };
        let (min_y, max_y) = if q & 2 == 0 { (self.min_y, cy) } else { (cy, self.max_y) };
        Rect::new(min_x, min_y, max_x, max_y)
    }
}

/// A tree with the squares of its cells.
struct Index {
    tree: Quadtree,
    squares: Vec<Rect>,
    whole: Rect,
}

impl Index {
    fn over(points: &[[f64; 2]]) -> Index {
        let (mut lo, mut hi) = ([f64::INFINITY; 2], [f64::NEG_INFINITY; 2]);
        for p in points {
            for k in 0..2 {
                lo[k] = lo[k].min(p[k]);
                hi[k] = hi[k].max(p[k]);
            }
        }
        let side = (hi[0] - lo[0]).max(hi[1] - lo[1]);
        let (cx, cy) = ((lo[0] + hi[0]) / 2.0, (lo[1] + hi[1]) / 2.0);
        let grown = side / 2.0 + (side * 1e-9).max(f64::MIN_POSITIVE);
        let whole = Rect::new(cx - grown, cy - grown, cx + grown, cy + grown);
        let paths: Vec<u128> = points
            .iter()
            .map(|p| {
                let mut at = whole;
                let mut path = 0u128;
                for _ in 0..MAX_DEPTH {
                    let (cx, cy) = at.centre();
                    let q = usize::from(p[0] >= cx) | (usize::from(p[1] >= cy) << 1);
                    path = path << 2 | q as u128;
                    at = at.quarter(q);
                }
                path
            })
            .collect();
        let tree = Quadtree::over(&paths).unwrap();
        let mut squares = vec![whole; tree.cells()];
        for c in 0..tree.cells() as u32 {
            let cell = tree.cell(c).unwrap();
            if cell.children != NO_CHILDREN {
                for q in 0..4 {
                    squares[cell.children as usize + q] = squares[c as usize].quarter(q);
                }
            }
        }
        Index { tree, squares, whole }
    }

    fn visit(&self, seen: Rect, resolution: f64) -> Vec<Patch> {
        self.tree.visit(
            |c| self.squares[c as usize].intersects(seen),
            |c| self.squares[c as usize].width() <= resolution,
        )
    }

    fn nearest(&self, points: &[[f64; 2]], x: f64, y: f64, within: f64) -> Option<u32> {
        let square = Rect::new(x - within, y - within, x + within, y + within);
        let mut found = Vec::new();
        for patch in self.visit(square, 0.0) {
            if let Patch::Nodes { start, end } = patch {
                for k in start..end {
                    let i = self.tree.node(k);
                    let p = points[i as usize];
                    let d = (p[0] - x) * (p[0] - x) + (p[1] - y) * (p[1] - y);
                    found.push((d.to_bits(), i));
                }
            }
        }
        nearest(&found, (within * within).to_bits())
    }
}

fn grid(side: usize) -> Vec<[f64; 2]> {
    (0..side * side).map(|i| [(i % side) as f64, (i / side) as f64]).collect()
}

/// Every point named by a walk, whatever kind of patch it came in.
fn nodes_in(index: &Index, seen: Rect, resolution: f64) -> (Vec<u32>, u32) {
    let mut named = Vec::new();
    let mut counted = 0;
    for patch in index.visit(seen, resolution) {
        match patch {
            Patch::Nodes { start, end } => {
                named.extend((start..end).map(|k| index.tree.node(k)));
                counted += end - start;
            }
            Patch::Cluster { start, end, .. } => counted += end - start,
        }
    }
    named.sort_unstable();
    (named, counted)
}

#[test]
fn a_drawing_of_no_nodes() {
    let index = Index::over(&[]);
    assert!(index.tree.is_empty());
    assert_eq!(index.tree.cells(), 0);
    assert_eq!(nodes_in(&index, Rect::new(-1e9, -1e9, 1e9, 1e9), 0.0).0, Vec::<u32>::new());
    assert_eq!(index.nearest(&[], 0.0, 0.0, 10.0), None);
}

#[test]
fn a_drawing_that_fits_in_the_root() {
    let points = grid(3);
    let index = Index::over(&points);
    assert_eq!(index.tree.cells(), 1);
    assert_eq!(index.tree.depth(), 0);
    assert_eq!(index.tree.len(), 9);
}

#[test]
fn the_whole_drawing_comes_back_once() {
    let points = grid(40);
    let index = Index::over(&points);
    assert!(index.tree.cells() > 1, "1600 nodes do not fit in one cell");

    let (named, counted) = nodes_in(&index, index.whole, 0.0);
    assert_eq!(counted as usize, points.len());
    assert_eq!(named, (0..points.len() as u32).collect::<Vec<_>>());
}

#[test]
fn a_window_gets_what_is_in_it() {
    let points = grid(40);
    let index = Index::over(&points);

    let seen = Rect::new(10.0, 10.0, 12.0, 12.0);
    let (named, _) = nodes_in(&index, seen, 0.0);

    for x in 10..=12 {
        for y in 10..=12 {
            let i = (y * 40 + x) as u32;
            assert!(named.contains(&i), "node at ({x}, {y}) went missing");
        }
    }
    assert!(named.len() < 100, "{} nodes for a 3x3 window", named.len());
}

#[test]
fn a_window_off_the_edge_is_empty() {
    let points = grid(20);
    let index = Index::over(&points);
    let (named, counted) = nodes_in(&index, Rect::new(1e6, 1e6, 1e6 + 1.0, 1e6 + 1.0), 0.0);
    assert!(named.is_empty() && counted == 0);
}

#[test]
fn coarsening_keeps_the_count_and_drops_the_names() {
    let points = grid(64);
    let index = Index::over(&points);
    let whole = index.whole;

    let (fine, fine_total) = nodes_in(&index, whole, 0.0);
    assert_eq!(fine.len(), points.len());
    assert_eq!(fine_total as usize, points.len());

    let (coarse, coarse_total) = nodes_in(&index, whole, whole.width() / 4.0);
    assert_eq!(coarse_total as usize, points.len(), "no node is lost");
    assert!(coarse.len() < fine.len(), "and most are no longer named");
}

#[test]
fn a_coarse_walk_costs_what_the_window_costs() {
    let sparse: Vec<[f64; 2]> =
        (0..64 * 64).map(|i| [(i % 64) as f64, (i / 64) as f64]).collect();
    let crowded: Vec<[f64; 2]> = (0..256 * 256)
        .map(|i| [(i % 256) as f64 / 4.0, (i / 256) as f64 / 4.0])
        .collect();

    let patches = |points: &[[f64; 2]]| {
        let index = Index::over(points);
        index.visit(index.whole, 5.0).len()
    };

    assert_eq!(crowded.len(), 16 * sparse.len());
    let (thin, thick) = (patches(&sparse), patches(&crowded));
    assert!(thick <= 2 * thin, "{thin} patches thin, {thick} thick");
}

#[test]
fn a_click_finds_the_node_under_it() {
    let points = grid(30);
    let index = Index::over(&points);

    assert_eq!(index.nearest(&points, 7.1, 12.2, 0.5), Some(12 * 30 + 7));
    // Between four nodes, the nearest of them.
    assert_eq!(index.nearest(&points, 7.4, 12.4, 1.0), Some(12 * 30 + 7));
    // Nothing within the tolerance is nothing at all.
    assert_eq!(index.nearest(&points, 7.5, 12.5, 0.1), None);
    assert_eq!(index.nearest(&points, -50.0, -50.0, 5.0), None);
}

#[test]
fn a_long_thin_drawing() {
    let points: Vec<[f64; 2]> = (0..20_000).map(|i| [i as f64, 0.0]).collect();
    let index = Index::over(&points);

    assert_eq!(index.tree.len(), points.len());
    assert!(index.tree.depth() <= MAX_DEPTH);

    let (named, _) = nodes_in(&index, Rect::new(9_000.0, -1.0, 9_010.0, 1.0), 0.0);
    for i in 9_000..=9_010u32 {
        assert!(named.contains(&i));
    }
    assert!(named.len() < 200, "{} nodes for eleven levels", named.len());
}

#[test]
fn nodes_in_the_same_place_do_not_split_forever() {
    let points = vec![[3.0, 4.0]; 100];
    let index = Index::over(&points);

    assert_eq!(index.tree.depth(), MAX_DEPTH);
    let (_, counted) = nodes_in(&index, Rect::new(0.0, 0.0, 10.0, 10.0), 0.0);
    assert_eq!(counted, 100, "all of them are still there");
}

/// The first of two nodes as near is the one that is picked.
#[test]
fn the_first_of_two_as_near() {
    assert_eq!(nearest(&vec![(9, 4), (3, 7), (3, 8), (5, 1)], 8), Some(7));
    assert_eq!(nearest(&vec![(9, 4)], 8), None);
    assert_eq!(nearest(&vec![(8, 4)], 8), Some(4));
    assert_eq!(nearest(&vec![], 8), None);
}

/// A quarter's nodes keep their order, and the quarters come in theirs.
#[test]
fn quarters_are_stable() {
    // Seventeen nodes: one more than a cell holds. The first two bits are the
    // quarter of the whole.
    let paths: Vec<u128> = (0..17u128).map(|i| (3 - i % 4) << 94).collect();
    let tree = Quadtree::over(&paths).unwrap();
    assert_eq!(tree.cells(), 5);
    assert_eq!(tree.depth(), 1);
    let order: Vec<u32> = (0..17).map(|k| tree.node(k)).collect();
    assert_eq!(order, [3, 7, 11, 15, 2, 6, 10, 14, 1, 5, 9, 13, 0, 4, 8, 12, 16]);
    assert!(tree.cell(5).is_none());
}
