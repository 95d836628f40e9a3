//! Pixels: the grid of a drawing, its two rasters and its tiles.

use coloring_bt_transactions::forest::{build, Tree};
use coloring_bt_transactions::graph::Adjacency;
use coloring_bt_transactions::raster::{
    human, plot, thousands, tile, tile_bytes, tile_count, write_bitmap, Format, Picture, Spot,
    INNER_INK, LEAF_INK, PAPER, TILE,
};

/// The nodes as a layout places them: where each box begins, and whether it is a
/// leaf. Levels are a pixel apart and siblings two units, which is one row.
fn picture(nodes: &[(f64, f64, bool)]) -> Picture {
    let (mut min_y, mut max_y, mut max_x) = (f64::INFINITY, f64::NEG_INFINITY, f64::NEG_INFINITY);
    for &(x, y, _) in nodes {
        min_y = min_y.min(y);
        max_y = max_y.max(y + 1.0);
        max_x = max_x.max(x + 1.0);
    }
    let spots: Vec<Spot> = nodes
        .iter()
        .map(|&(x, y, leaf)| Spot {
            row: ((y + 0.5 - min_y) * 0.5) as usize,
            col: (x + 0.5) as usize,
            leaf,
        })
        .collect();
    plot(max_x.ceil() as usize, ((max_y - min_y) * 0.5).ceil() as usize, &spots).unwrap()
}

/// Two sources, a dropped arc, and a cycle promoted to a root.
fn everything() -> Picture {
    picture(&[
        (0.0, 2.5, false),
        (1.0, 1.0, false),
        (1.0, 4.0, false),
        (2.0, 0.0, true),
        (2.0, 2.0, true),
        (2.0, 4.0, true),
        (0.0, 6.0, false),
        (1.0, 6.0, true),
        (0.0, 8.0, false),
        (1.0, 8.0, true),
    ])
}

fn render(picture: &Picture) -> String {
    let mut grid = vec![vec!['.'; picture.width]; picture.height];
    for &(row, col, ink) in &picture.dots {
        grid[row as usize][col as usize] = if ink == LEAF_INK { '+' } else { '#' };
    }
    grid.into_iter().map(|r| r.into_iter().collect::<String>()).collect::<Vec<_>>().join("\n")
}

/// The picture as bytes, straight from the dots.
fn expected(picture: &Picture, zoom: usize) -> Vec<u8> {
    let (w, h) = (picture.width * zoom, picture.height * zoom);
    let mut want = vec![PAPER; w * h];
    for &(row, col, ink) in &picture.dots {
        for y in row as usize * zoom..(row as usize + 1) * zoom {
            let at = y * w + col as usize * zoom;
            want[at..at + zoom].fill(ink);
        }
    }
    want
}

fn a_pixel_for_each() {
    let picture = everything();

    assert_eq!((picture.width, picture.height), (3, 5));
    assert_eq!(picture.dots.len(), 10, "ten nodes, ten pixels");
    assert_eq!(picture.collisions, 0);

    assert_eq!(
        render(&picture),
        ".#+\n\
         #.+\n\
         .#+\n\
         #+.\n\
         #+."
    );
}

#[test]
fn tree_bitmap_a_pixel_per_node() {
    a_pixel_for_each();
}

#[test]
fn tree_jp2_a_pixel_per_node() {
    a_pixel_for_each();
}

#[test]
fn the_bitmap_is_the_grid_bit_by_bit() {
    let out = write_bitmap(&everything(), Format::Pbm, 1);

    let (header, rows) = out.split_at("P4\n3 5\n".len());
    assert_eq!(header, b"P4\n3 5\n");
    // A row is a byte, three of its bits used: .#+ #.+ .#+ ##+ ##+
    assert_eq!(rows, [0b0110_0000, 0b1010_0000, 0b0110_0000, 0b1100_0000, 0b1100_0000]);
}

#[test]
fn the_greymap_keeps_the_leaves_apart() {
    let out = write_bitmap(&everything(), Format::Pgm, 1);

    let (header, rows) = out.split_at("P5\n3 5\n255\n".len());
    assert_eq!(header, b"P5\n3 5\n255\n");
    assert_eq!(rows.len(), 3 * 5);
    assert_eq!(rows[..3], [PAPER, INNER_INK, LEAF_INK], "the first row is .#+");
    assert_eq!(rows[3..6], [INNER_INK, PAPER, LEAF_INK], "the second is #.+");
}

#[test]
fn zoom_repeats_pixels() {
    let out = write_bitmap(&everything(), Format::Pgm, 2);

    let (header, rows) = out.split_at("P5\n6 10\n255\n".len());
    assert_eq!(header, b"P5\n6 10\n255\n");
    assert_eq!(rows.len(), 6 * 10);
    // `.#+` twice as wide, and the row itself written twice.
    let first = [PAPER, PAPER, INNER_INK, INNER_INK, LEAF_INK, LEAF_INK];
    assert_eq!(rows[..6], first);
    assert_eq!(rows[6..12], first);
    assert_ne!(rows[12..18], first, "the third row is the next one, doubled");
}

#[test]
fn a_row_does_not_leak_into_the_next() {
    // A chain is one row deep and as wide as it is long.
    let chain = picture(&[(0.0, 0.0, false), (1.0, 0.0, false), (2.0, 0.0, true)]);
    assert_eq!((chain.width, chain.height), (3, 1));

    let fan =
        picture(&[(0.0, 2.0, false), (1.0, 0.0, true), (1.0, 2.0, true), (1.0, 4.0, true)]);
    assert_eq!(
        render(&fan),
        ".+\n\
         #+\n\
         .+",
        "a root over three leaves, centred on the middle one"
    );

    let out = write_bitmap(&fan, Format::Pbm, 1);
    assert_eq!(&out[out.len() - 3..], [0b0100_0000, 0b1100_0000, 0b0100_0000]);
}

#[test]
fn a_tile_is_the_picture_under_it() {
    let picture = everything();

    let whole = tile_bytes(&picture, 1, (0, 0), (3, 5));
    assert_eq!(whole.len(), 15);
    assert_eq!(&whole[..3], [PAPER, INNER_INK, LEAF_INK], "the first row is .#+");
    assert_eq!(&whole[3..6], [INNER_INK, PAPER, LEAF_INK], "the second is #.+");

    // The bottom two rows on their own are the same two rows.
    let lower = tile_bytes(&picture, 1, (0, 3), (3, 5));
    assert_eq!(lower, whole[9..]);

    // And the middle column on its own is the middle column.
    let strip = tile_bytes(&picture, 1, (1, 0), (2, 5));
    assert_eq!(strip, [INNER_INK, PAPER, INNER_INK, LEAF_INK, LEAF_INK]);
}

#[test]
fn zoom_repeats_pixels_across_tile_edges() {
    let picture = everything();
    let zoom = 2;

    let whole = tile_bytes(&picture, zoom, (0, 0), (6, 10));
    assert_eq!(whole, expected(&picture, zoom));

    // A tile edge through the middle of the first source row's block: the two
    // halves are still the row, one line each.
    let top = tile_bytes(&picture, zoom, (0, 0), (6, 1));
    let next = tile_bytes(&picture, zoom, (0, 1), (6, 2));
    assert_eq!(top, next, "both halves of a doubled row are that row");
    assert_eq!(top, &whole[..6]);
}

/// Tiles go out across and then down, and every pixel is in one of them.
#[test]
fn tiles_cover_the_picture() {
    let (w, h) = (TILE + 200, 2 * TILE);
    assert_eq!(tile_count(w, h), 4);
    let corners: Vec<(usize, usize, usize, usize, usize)> = (0..4)
        .map(|i| tile(w, h, i))
        .map(|t| (t.index, t.x0, t.y0, t.x1, t.y1))
        .collect();
    assert_eq!(
        corners,
        [
            (0, 0, 0, TILE, TILE),
            (1, TILE, 0, w, TILE),
            (2, 0, TILE, TILE, h),
            (3, TILE, TILE, w, h),
        ]
    );
}

/// Two nodes on a pixel: a node with children wins it, and the other is counted.
#[test]
fn a_pixel_two_nodes_want() {
    let spots = vec![
        Spot { row: 0, col: 1, leaf: true },
        Spot { row: 0, col: 1, leaf: false },
        Spot { row: 9, col: 9, leaf: true },
    ];
    let p = plot(2, 1, &spots).unwrap();
    assert_eq!(p.collisions, 2, "a centre past the far edge is on the last pixel");
    assert_eq!(p.dots, [(0, 1, INNER_INK)]);
    assert_eq!(plot(2, 1, &vec![]).err().unwrap(), "nothing to draw");
}

fn size(bytes: u64) -> String {
    let scaled = bytes as f64 / 1000f64.powi(thousands(bytes) as i32);
    human(bytes, &format!("{scaled:.1}"))
}

fn sizes_at_a_glance() {
    assert_eq!(size(999), "999 B");
    assert_eq!(size(1_000), "1.0 kB");
    assert_eq!(size(125_000_000), "125.0 MB");
}

#[test]
fn sizes_are_read_at_a_glance() {
    sizes_at_a_glance();
}

#[test]
fn tree_jp2_sizes_are_read_at_a_glance() {
    sizes_at_a_glance();
    assert_eq!(size(0), "0 B");
    assert_eq!(size(2_500_000_000), "2.5 GB");
    assert_eq!(size(7_000_000_000_000_000), "7000.0 TB");
}

/// Two nodes under an added root: the root is not a node and gets no pixel.
fn no_pixel_for_the_added_root() {
    let mut tree = Tree::new();
    let built = build(&Adjacency::empty(2), &mut tree).ok().unwrap();
    assert!(built.synthetic_root);

    let mut at = 0.0;
    let mut nodes = Vec::new();
    for node in tree.nodes.iter().filter(|n| n.graph.is_some()) {
        nodes.push((0.0, at, node.children.is_empty()));
        at += 2.0;
    }
    let picture = picture(&nodes);
    assert_eq!(picture.dots.len(), 2, "two nodes, two pixels");
    // Two rows rather than three: the clear unit between them is the half of a row
    // spent on every node's margin.
    assert_eq!(render(&picture), "+\n+");
}

#[test]
fn tree_bitmap_the_added_root_is_not_in_the_picture() {
    no_pixel_for_the_added_root();
}

#[test]
fn tree_jp2_the_added_root_is_not_in_the_picture() {
    no_pixel_for_the_added_root();
}
