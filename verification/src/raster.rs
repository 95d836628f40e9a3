//! A drawing as pixels: a node a pixel, on the tightest grid it fits in.
//!
//! The whole raster is mostly paper and the nodes are few, so a picture is held
//! as one `(row, column, ink)` per node. Sorting that list puts the nodes in the
//! order the rows are written, so a raster is built one row or one tile at a
//! time and never exists whole. Zooming repeats every pixel on both axes.

use vstd::prelude::*;
use vstd::string::*;
use vstd::utf8::encode_utf8;

use crate::image::end_to_end;
use crate::text::{dec, push_dec};

verus! {

/// The three tones of a picture.
pub const INNER_INK: u8 = 0x00;

pub const LEAF_INK: u8 = 0x80;

pub const PAPER: u8 = 0xff;

/// The side of the square tiles a picture is cut into.
pub const TILE: usize = 1024;

/// A node on its pixel: the row, the column, and the ink.
pub type Dot = (u32, u32, u8);

/// Dot `a` comes before dot `b`: by row, then by column, then the darker first.
pub open spec fn before(a: Dot, b: Dot) -> bool {
    a.0 < b.0 || (a.0 == b.0 && (a.1 < b.1 || (a.1 == b.1 && a.2 <= b.2)))
}

/// Dots `a` and `b` are on one pixel.
pub open spec fn together(a: Dot, b: Dot) -> bool {
    a.0 == b.0 && a.1 == b.1
}

/// Dot `a` is on a pixel before that of dot `b`, reading order.
pub open spec fn ahead(a: Dot, b: Dot) -> bool {
    a.0 < b.0 || (a.0 == b.0 && a.1 < b.1)
}

/// Dots in reading order, a pixel each.
pub open spec fn in_reading_order(dots: Seq<Dot>) -> bool {
    forall|i: int, j: int| 0 <= i < j < dots.len() ==> ahead(dots[i], dots[j])
}

/// `dots` is what is left of `all` with one dot a pixel, the darkest.
pub open spec fn one_a_pixel(dots: Seq<Dot>, all: Seq<Dot>) -> bool {
    &&& in_reading_order(dots)
    &&& forall|i: int|
        #![trigger dots[i]]
        0 <= i < dots.len() ==> all.contains(dots[i]) && forall|k: int|
            0 <= k < all.len() && together(#[trigger] all[k], dots[i]) ==> dots[i].2 <= all[k].2
    &&& forall|k: int| 0 <= k < all.len() ==> #[trigger] drawn(dots, all[k].0, all[k].1)
}

/// Whether a node is on the pixel.
pub open spec fn drawn(dots: Seq<Dot>, row: u32, col: u32) -> bool {
    exists|i: int| 0 <= i < dots.len() && (#[trigger] dots[i]).0 == row && dots[i].1 == col
}

/// The ink of a pixel: that of the node on it, or paper.
pub open spec fn ink_at(dots: Seq<Dot>, row: int, col: int) -> u8
    decreases dots.len(),
{
    if dots.len() == 0 {
        PAPER
    } else if dots.last().0 == row && dots.last().1 == col {
        dots.last().2
    } else {
        ink_at(dots.drop_last(), row, col)
    }
}

/// Whether a node is on a pixel.
pub open spec fn dotted(dots: Seq<Dot>, row: int, col: int) -> bool
    decreases dots.len(),
{
    dots.len() > 0 && ((dots.last().0 == row && dots.last().1 == col) || dotted(
        dots.drop_last(),
        row,
        col,
    ))
}

/// The drawing as pixels: what row and column each node landed on, and how big
/// the grid holding them is.
pub struct Picture {
    /// Columns and rows, in node pixels, before any zoom.
    pub width: usize,
    pub height: usize,
    /// One entry per drawn pixel, by row and column.
    pub dots: Vec<Dot>,
    /// Nodes that landed on a pixel another node already had.
    pub collisions: usize,
}

impl Picture {
    /// What holds of every picture: a column and a row at least, no more than a
    /// `u32` can count, and every dot on the grid, in reading order.
    pub open spec fn sound(&self) -> bool {
        &&& 0 < self.width <= u32::MAX
        &&& 0 < self.height <= u32::MAX
        &&& in_reading_order(self.dots@)
        &&& forall|i: int|
            #![trigger self.dots@[i]]
            0 <= i < self.dots@.len() ==> self.dots@[i].0 < self.height && self.dots@[i].1
                < self.width
    }
}

/// One node as the layout has it: the row and the column of its centre, and
/// whether it is a leaf.
#[derive(Clone, Copy, Debug, PartialEq, Eq, Structural)]
pub struct Spot {
    pub row: usize,
    pub col: usize,
    pub leaf: bool,
}

/// The pixel of a node: a centre past the far edge is on the last row or column.
pub open spec fn dot_of(spot: Spot, width: nat, height: nat) -> Dot {
    (
        (if spot.row < height { spot.row as int } else { height - 1 }) as u32,
        (if spot.col < width { spot.col as int } else { width - 1 }) as u32,
        if spot.leaf { LEAF_INK } else { INNER_INK },
    )
}

pub open spec fn too_big(width: nat, height: nat) -> Seq<char> {
    "the drawing is "@ + dec(width) + " by "@ + dec(height)
        + " pixels, which is more than this can raster"@
}

/// `sort_unstable` of the standard library on dots: the same dots, each as often
/// as before, in the order of their rows, then columns, then inks.
#[verifier::external_body]
fn sort(dots: &mut Vec<Dot>)
    ensures
        final(dots)@.to_multiset() == old(dots)@.to_multiset(),
        forall|i: int, j: int|
            0 <= i < j < final(dots)@.len() ==> before(final(dots)@[i], final(dots)@[j]),
{
    dots.sort_unstable();
}

proof fn same_dots(a: Seq<Dot>, b: Seq<Dot>)
    requires
        a.to_multiset() == b.to_multiset(),
    ensures
        a.len() == b.len(),
        forall|d: Dot| #![trigger a.contains(d)] #![trigger b.contains(d)] a.contains(d)
            <==> b.contains(d),
{
    broadcast use vstd::seq_lib::group_to_multiset_ensures;

    assert(a.len() == a.to_multiset().len());
    assert(b.len() == b.to_multiset().len());
    assert forall|d: Dot| #![trigger a.contains(d)] #![trigger b.contains(d)] a.contains(d)
        <==> b.contains(d) by {
        assert(a.contains(d) <==> a.to_multiset().count(d) > 0);
        assert(b.contains(d) <==> b.to_multiset().count(d) > 0);
    }
}

/// Puts every node on a pixel of a grid of so many columns and rows.
///
/// Of two nodes on one pixel the darker is drawn, and the other is counted.
pub fn plot(columns: usize, rows: usize, spots: &Vec<Spot>) -> (r: Result<Picture, String>)
    ensures
        ({
            let width = if columns == 0 { 1 } else { columns };
            let height = if rows == 0 { 1 } else { rows };
            match r {
                Ok(p) => {
                    &&& spots@.len() > 0
                    &&& width <= u32::MAX && height <= u32::MAX
                    &&& p.width == width && p.height == height
                    &&& p.sound()
                    &&& one_a_pixel(
                        p.dots@,
                        spots@.map_values(|s: Spot| dot_of(s, width as nat, height as nat)),
                    )
                    &&& p.collisions + p.dots@.len() == spots@.len()
                },
                Err(e) => if spots@.len() == 0 {
                    e@ == "nothing to draw"@
                } else {
                    (width > u32::MAX || height > u32::MAX) && e@ == too_big(
                        width as nat,
                        height as nat,
                    )
                },
            }
        }),
{
    if spots.len() == 0 {
        return Err("nothing to draw".to_owned());
    }
    let width: usize = if columns == 0 { 1 } else { columns };
    let height: usize = if rows == 0 { 1 } else { rows };
    if width > u32::MAX as usize || height > u32::MAX as usize {
        let mut s = "the drawing is ".to_owned();
        push_dec(&mut s, width as u64);
        s.append(" by ");
        push_dec(&mut s, height as u64);
        s.append(" pixels, which is more than this can raster");
        return Err(s);
    }
    let ghost all = spots@.map_values(|s: Spot| dot_of(s, width as nat, height as nat));
    let mut raw: Vec<Dot> = Vec::new();
    let mut i: usize = 0;
    while i < spots.len()
        invariant
            i <= spots@.len(),
            0 < width <= u32::MAX,
            0 < height <= u32::MAX,
            all == spots@.map_values(|s: Spot| dot_of(s, width as nat, height as nat)),
            raw@ == all.take(i as int),
        decreases spots@.len() - i,
    {
        let s = spots[i];
        let row: u32 = if s.row < height { s.row as u32 } else { (height - 1) as u32 };
        let col: u32 = if s.col < width { s.col as u32 } else { (width - 1) as u32 };
        let ink: u8 = if s.leaf { LEAF_INK } else { INNER_INK };
        assert(all[i as int] == dot_of(s, width as nat, height as nat));
        raw.push((row, col, ink));
        assert(raw@ =~= all.take(i + 1));
        i += 1;
    }
    assert(raw@ =~= all);
    sort(&mut raw);
    let ghost sorted = raw@;
    proof {
        same_dots(all, sorted);
    }
    let mut dots: Vec<Dot> = Vec::new();
    let mut k: usize = 0;
    while k < raw.len()
        invariant
            k <= raw@.len() == sorted.len(),
            raw@ == sorted,
            forall|i: int, j: int|
                0 <= i < j < sorted.len() ==> before(sorted[i], sorted[j]),
            dots@.len() <= k,
            k > 0 ==> dots@.len() > 0 && together(dots@.last(), sorted[k - 1]),
            in_reading_order(dots@),
            forall|i: int|
                #![trigger dots@[i]]
                0 <= i < dots@.len() ==> sorted.take(k as int).contains(dots@[i]) && forall|l: int|
                    0 <= l < sorted.len() && together(#[trigger] sorted[l], dots@[i])
                        ==> dots@[i].2 <= sorted[l].2,
            forall|l: int|
                0 <= l < k ==> #[trigger] drawn(dots@, sorted[l].0, sorted[l].1),
        decreases raw@.len() - k,
    {
        let d = raw[k];
        let ghost held = dots@;
        let n: usize = dots.len();
        let ghost one = sorted.take(k as int);
        let ghost two = sorted.take(k + 1);
        assert forall|x: Dot| one.contains(x) implies #[trigger] two.contains(x) by {
            let i = one.index_of(x);
            assert(two[i] == x);
        }
        if n > 0 && dots[n - 1].0 == d.0 && dots[n - 1].1 == d.1 {
            assert(together(dots@.last(), sorted[k as int]));
            proof {
                assert forall|l: int| 0 <= l < k + 1 implies #[trigger] drawn(
                    dots@,
                    sorted[l].0,
                    sorted[l].1,
                ) by {
                    if l == k {
                        assert(dots@[n - 1].0 == sorted[l].0);
                    }
                }
            }
        } else {
            dots.push(d);
            proof {
                let now = dots@;
                assert(two[k as int] == d);
                assert forall|i: int, j: int| 0 <= i < j < now.len() implies ahead(
                    now[i],
                    now[j],
                ) by {
                    if j == held.len() {
                        let l = one.index_of(held[i]);
                        assert(sorted[l] == held[i]);
                        assert(before(sorted[l], sorted[k as int]));
                        if i < held.len() - 1 {
                            assert(ahead(held[i], held[held.len() - 1]));
                            assert(before(sorted[k - 1], sorted[k as int]));
                        }
                    }
                }
                assert forall|i: int|
                    #![trigger now[i]]
                    0 <= i < now.len() implies two.contains(now[i]) && forall|l: int|
                    0 <= l < sorted.len() && together(#[trigger] sorted[l], now[i]) ==> now[i].2
                        <= sorted[l].2 by {
                    if i < held.len() {
                        assert(now[i] == held[i]);
                        assert(one.contains(held[i]));
                    } else {
                        assert forall|l: int|
                            0 <= l < sorted.len() && together(#[trigger] sorted[l], now[i]) implies
                            now[i].2 <= sorted[l].2 by {
                            if l < k {
                                assert(before(sorted[l], sorted[k - 1]) || l == k - 1);
                                assert(before(sorted[k - 1], sorted[k as int]));
                            } else if l > k {
                                assert(before(sorted[k as int], sorted[l]));
                            }
                        }
                    }
                }
                assert forall|l: int| 0 <= l < k + 1 implies #[trigger] drawn(
                    now,
                    sorted[l].0,
                    sorted[l].1,
                ) by {
                    if l < k {
                        assert(drawn(held, sorted[l].0, sorted[l].1));
                        let i = choose|i: int|
                            0 <= i < held.len() && (#[trigger] held[i]).0 == sorted[l].0
                                && held[i].1 == sorted[l].1;
                        assert(now[i] == held[i]);
                    } else {
                        assert(now[held.len() as int] == sorted[l]);
                    }
                }
            }
        }
        k += 1;
    }
    proof {
        assert(sorted.take(k as int) =~= sorted);
        let end = dots@;
        assert forall|i: int| #![trigger end[i]] 0 <= i < end.len() implies all.contains(end[i])
            && end[i].0 < height && end[i].1 < width && forall|l: int|
            0 <= l < all.len() && together(#[trigger] all[l], end[i]) ==> end[i].2 <= all[l].2 by {
            assert(sorted.contains(end[i]));
            assert(all.contains(end[i]));
            let x = all.index_of(end[i]);
            assert(all[x] == dot_of(spots@[x], width as nat, height as nat));
            assert forall|l: int|
                0 <= l < all.len() && together(#[trigger] all[l], end[i]) implies end[i].2
                <= all[l].2 by {
                assert(all.contains(all[l]));
                let m = sorted.index_of(all[l]);
                assert(sorted[m] == all[l]);
            }
        }
        assert forall|l: int| 0 <= l < all.len() implies #[trigger] drawn(
            end,
            all[l].0,
            all[l].1,
        ) by {
            assert(all.contains(all[l]));
            let m = sorted.index_of(all[l]);
            assert(drawn(end, sorted[m].0, sorted[m].1));
        }
    }
    let collisions: usize = raw.len() - dots.len();
    Ok(Picture { width, height, dots, collisions })
}

/// In a picture every node has a pixel to itself, in its own ink.
pub proof fn a_pixel_is_its_nodes(dots: Seq<Dot>, i: int)
    requires
        in_reading_order(dots),
        0 <= i < dots.len(),
    ensures
        ink_at(dots, dots[i].0 as int, dots[i].1 as int) == dots[i].2,
        dotted(dots, dots[i].0 as int, dots[i].1 as int),
    decreases dots.len(),
{
    if i < dots.len() - 1 {
        assert(ahead(dots[i], dots[dots.len() - 1]));
        assert(in_reading_order(dots.drop_last()));
        a_pixel_is_its_nodes(dots.drop_last(), i);
    }
}

/// A pixel no node is on is paper.
pub proof fn the_rest_is_paper(dots: Seq<Dot>, row: int, col: int)
    ensures
        dotted(dots, row, col) <==> exists|i: int|
            0 <= i < dots.len() && (#[trigger] dots[i]).0 == row && dots[i].1 == col,
        !dotted(dots, row, col) ==> ink_at(dots, row, col) == PAPER,
    decreases dots.len(),
{
    if dots.len() > 0 {
        let front = dots.drop_last();
        the_rest_is_paper(front, row, col);
        if dotted(front, row, col) {
            let i = choose|i: int|
                0 <= i < front.len() && (#[trigger] front[i]).0 == row && front[i].1 == col;
            assert(dots[i].0 == row && dots[i].1 == col);
        }
        if exists|i: int|
            0 <= i < dots.len() && (#[trigger] dots[i]).0 == row && dots[i].1 == col {
            let i = choose|i: int|
                0 <= i < dots.len() && (#[trigger] dots[i]).0 == row && dots[i].1 == col;
            if i < front.len() {
                assert(front[i].0 == row && front[i].1 == col);
            } else {
                assert(dots.last() == dots[i]);
            }
        }
    }
}

/// Only the dots of a row say anything of its pixels.
proof fn row_range_is_enough(dots: Seq<Dot>, lo: int, hi: int, row: int, col: int)
    requires
        0 <= lo <= hi <= dots.len(),
        forall|i: int| #![trigger dots[i]] 0 <= i < lo ==> dots[i].0 != row,
        forall|i: int| #![trigger dots[i]] hi <= i < dots.len() ==> dots[i].0 != row,
    ensures
        ink_at(dots.subrange(lo, hi), row, col) == ink_at(dots, row, col),
        dotted(dots.subrange(lo, hi), row, col) == dotted(dots, row, col),
    decreases dots.len(),
{
    if dots.len() > 0 {
        let front = dots.drop_last();
        assert(dots.last() == dots[dots.len() - 1]);
        if hi < dots.len() {
            assert(front.subrange(lo, hi) =~= dots.subrange(lo, hi));
            row_range_is_enough(front, lo, hi, row, col);
        } else if lo < hi {
            assert(dots.subrange(lo, hi).drop_last() =~= front.subrange(lo, hi - 1));
            assert(dots.subrange(lo, hi).last() == dots.last());
            row_range_is_enough(front, lo, hi - 1, row, col);
        } else {
            assert(dots.subrange(lo, hi) =~= Seq::empty());
            assert(front.subrange(lo - 1, hi - 1) =~= Seq::empty());
            assert(forall|i: int| #![trigger front[i]] 0 <= i < lo - 1 ==> front[i] == dots[i]);
            row_range_is_enough(front, lo - 1, hi - 1, row, col);
        }
    } else {
        assert(dots.subrange(lo, hi) =~= dots);
    }
}

/// How many dots are on rows before `row`.
fn first_on(dots: &Vec<Dot>, row: u64) -> (at: usize)
    requires
        in_reading_order(dots@),
    ensures
        at <= dots@.len(),
        forall|i: int| #![trigger dots@[i]] 0 <= i < at ==> dots@[i].0 < row,
        forall|i: int| #![trigger dots@[i]] at <= i < dots@.len() ==> dots@[i].0 >= row,
{
    let mut lo: usize = 0;
    let mut hi: usize = dots.len();
    while lo < hi
        invariant
            lo <= hi <= dots@.len(),
            in_reading_order(dots@),
            forall|i: int| #![trigger dots@[i]] 0 <= i < lo ==> dots@[i].0 < row,
            forall|i: int| #![trigger dots@[i]] hi <= i < dots@.len() ==> dots@[i].0 >= row,
        decreases hi - lo,
    {
        let mid: usize = lo + (hi - lo) / 2;
        if (dots[mid].0 as u64) < row {
            assert forall|i: int| #![trigger dots@[i]] 0 <= i <= mid implies dots@[i].0 < row by {
                if i < mid {
                    assert(ahead(dots@[i], dots@[mid as int]));
                }
            }
            lo = mid + 1;
        } else {
            assert forall|i: int| #![trigger dots@[i]] mid <= i < dots@.len() implies dots@[i].0
                >= row by {
                if i > mid {
                    assert(ahead(dots@[mid as int], dots@[i]));
                }
            }
            hi = mid;
        }
    }
    lo
}

/// A zoomed pixel is one of those of column `c` exactly where it is among the
/// `zoom` from `c * zoom` on.
proof fn zoomed(x: int, c: int, zoom: int)
    requires
        0 <= x,
        0 <= c,
        0 < zoom,
    ensures
        x / zoom == c <==> c * zoom <= x < c * zoom + zoom,
{
    vstd::arithmetic::div_mod::lemma_fundamental_div_mod(x, zoom);
    vstd::arithmetic::mul::lemma_mul_is_commutative(zoom, x / zoom);
    if c * zoom <= x < c * zoom + zoom {
        vstd::arithmetic::div_mod::lemma_fundamental_div_mod_converse(x, zoom, c, x - c * zoom);
    }
}

proof fn column_fits(c: int, width: int, zoom: int)
    requires
        0 <= c < width,
        0 < zoom,
    ensures
        0 <= c * zoom,
        c * zoom + zoom <= width * zoom,
{
    assert(0 <= c * zoom && c * zoom + zoom <= width * zoom) by (nonlinear_arith)
        requires
            0 <= c < width,
            0 < zoom,
    ;
}

/// Which of the two rasters to draw.
#[derive(Clone, Copy, Debug, PartialEq, Eq, Structural)]
pub enum Format {
    /// One bit a pixel: a node is there, or it is not.
    Pbm,
    /// One byte a pixel, which has room to say whether the node is a leaf.
    Pgm,
}

impl Format {
    /// The header, which both formats put in front of the picture as text.
    pub open spec fn front(self, width: nat, height: nat) -> Seq<char> {
        match self {
            Format::Pbm => "P4\n"@ + dec(width) + " "@ + dec(height) + "\n"@,
            Format::Pgm => "P5\n"@ + dec(width) + " "@ + dec(height) + "\n255\n"@,
        }
    }

    /// Bytes one row takes.
    pub open spec fn bytes(self, width: nat) -> nat {
        match self {
            Format::Pbm => (width + 7) / 8,
            Format::Pgm => width,
        }
    }

    /// The header, which both formats put in front of the picture as text.
    pub fn header(self, width: usize, height: usize) -> (s: String)
        ensures
            s@ == self.front(width as nat, height as nat),
    {
        match self {
            Format::Pbm => {
                let mut s = "P4\n".to_owned();
                push_dec(&mut s, width as u64);
                s.append(" ");
                push_dec(&mut s, height as u64);
                s.append("\n");
                s
            },
            Format::Pgm => {
                let mut s = "P5\n".to_owned();
                push_dec(&mut s, width as u64);
                s.append(" ");
                push_dec(&mut s, height as u64);
                s.append("\n255\n");
                s
            },
        }
    }

    /// Bytes one row of `width` pixels takes.
    pub fn row_bytes(self, width: usize) -> (n: usize)
        ensures
            n == self.bytes(width as nat),
    {
        match self {
            Format::Pbm => width / 8 + if width % 8 == 0 { 0 } else { 1 },
            Format::Pgm => width,
        }
    }
}

/// The bit of a pixel in a packed row: the leftmost pixel in the most
/// significant bit.
pub open spec fn bit_at(row: Seq<u8>, x: int) -> bool {
    (row[x / 8] >> ((7 - x % 8) as u8)) & 1 == 1
}

/// Row `r` of a picture, every pixel `zoom` times: a byte a pixel in its ink, or
/// a bit that says whether a node is there, the bits past the last pixel clear.
pub open spec fn is_row(row: Seq<u8>, p: Picture, format: Format, zoom: nat, r: int) -> bool {
    let width = p.width * zoom;
    &&& row.len() == format.bytes(width as nat)
    &&& match format {
        Format::Pgm => forall|x: int|
            0 <= x < width ==> #[trigger] row[x] == ink_at(p.dots@, r, x / zoom as int),
        Format::Pbm => forall|x: int|
            0 <= x < 8 * row.len() ==> (#[trigger] bit_at(row, x) <==> x < width && dotted(
                p.dots@,
                r,
                x / zoom as int,
            )),
    }
}

proof fn bit_is_set(b: u8, k: u8, j: u8)
    requires
        k < 8,
        j < 8,
    ensures
        (((b | (0x80u8 >> k)) >> ((7 - j) as u8)) & 1 == 1) <==> j == k || (b >> ((7 - j) as u8))
            & 1 == 1,
{
    let i: u8 = (7 - j) as u8;
    assert(i ^ 7u8 == j) by (bit_vector)
        requires
            i < 8,
            j < 8,
            i + j == 7,
    ;
    assert((((b | (0x80u8 >> k)) >> i) & 1 == 1) <==> i ^ 7u8 == k || (b >> i) & 1 == 1)
        by (bit_vector)
        requires
            k < 8,
            i < 8,
    ;
}

proof fn no_bit_of_nothing(i: u8)
    requires
        i < 8,
    ensures
        (0u8 >> i) & 1 != 1,
{
    assert((0u8 >> i) & 1 != 1) by (bit_vector)
        requires
            i < 8,
    ;
}

/// Row `r` of a picture as a greymap has it.
fn grey_row(p: &Picture, zoom: usize, r: usize) -> (row: Vec<u8>)
    requires
        p.sound(),
        zoom > 0,
        p.width * zoom <= usize::MAX,
        r < p.height,
    ensures
        is_row(row@, *p, Format::Pgm, zoom as nat, r as int),
{
    let width: usize = p.width * zoom;
    let mut row: Vec<u8> = Vec::new();
    let mut i: usize = 0;
    while i < width
        invariant
            i <= width,
            row@.len() == i,
            forall|x: int| 0 <= x < i ==> #[trigger] row@[x] == PAPER,
        decreases width - i,
    {
        row.push(PAPER);
        i += 1;
    }
    let lo: usize = first_on(&p.dots, r as u64);
    let hi: usize = first_on(&p.dots, r as u64 + 1);
    assert(lo <= hi) by {
        if lo > hi {
            assert(p.dots@[hi as int].0 < r);
        }
    }
    let mut k: usize = lo;
    assert(p.dots@.subrange(lo as int, lo as int) =~= Seq::empty());
    while k < hi
        invariant
            lo <= k <= hi <= p.dots@.len(),
            p.sound(),
            zoom > 0,
            width == p.width * zoom,
            r < p.height,
            forall|i: int| #![trigger p.dots@[i]] lo <= i < hi ==> p.dots@[i].0 == r,
            row@.len() == width,
            forall|x: int|
                0 <= x < width ==> #[trigger] row@[x] == ink_at(
                    p.dots@.subrange(lo as int, k as int),
                    r as int,
                    x / zoom as int,
                ),
        decreases hi - k,
    {
        let ghost done = p.dots@.subrange(lo as int, k as int);
        let ghost next = p.dots@.subrange(lo as int, k + 1);
        let (_, col, ink) = p.dots[k];
        assert(p.dots@[k as int].0 == r);
        proof {
            assert(next.drop_last() =~= done);
            column_fits(col as int, p.width as int, zoom as int);
        }
        let from: usize = col as usize * zoom;
        let ghost held = row@;
        let mut x: usize = from;
        while x < from + zoom
            invariant
                from <= x <= from + zoom <= width,
                row@.len() == width == held.len(),
                forall|y: int|
                    0 <= y < width ==> #[trigger] row@[y] == if from <= y < x {
                        ink
                    } else {
                        held[y]
                    },
            decreases from + zoom - x,
        {
            row[x] = ink;
            x += 1;
        }
        proof {
            assert forall|y: int| 0 <= y < width implies #[trigger] row@[y] == ink_at(
                next,
                r as int,
                y / zoom as int,
            ) by {
                zoomed(y, col as int, zoom as int);
                assert(held[y] == ink_at(done, r as int, y / zoom as int));
            }
        }
        k += 1;
    }
    proof {
        assert forall|x: int| 0 <= x < width implies #[trigger] row@[x] == ink_at(
            p.dots@,
            r as int,
            x / zoom as int,
        ) by {
            row_range_is_enough(p.dots@, lo as int, hi as int, r as int, x / zoom as int);
        }
    }
    row
}

/// Row `r` of a picture as a bitmap has it.
fn bit_row(p: &Picture, zoom: usize, r: usize) -> (row: Vec<u8>)
    requires
        p.sound(),
        zoom > 0,
        p.width * zoom <= usize::MAX,
        r < p.height,
    ensures
        is_row(row@, *p, Format::Pbm, zoom as nat, r as int),
{
    let width: usize = p.width * zoom;
    let bytes: usize = Format::Pbm.row_bytes(width);
    let mut row: Vec<u8> = Vec::new();
    let mut i: usize = 0;
    while i < bytes
        invariant
            i <= bytes,
            row@.len() == i,
            forall|x: int| 0 <= x < i ==> #[trigger] row@[x] == 0,
        decreases bytes - i,
    {
        row.push(0);
        i += 1;
    }
    let lo: usize = first_on(&p.dots, r as u64);
    let hi: usize = first_on(&p.dots, r as u64 + 1);
    assert(lo <= hi) by {
        if lo > hi {
            assert(p.dots@[hi as int].0 < r);
        }
    }
    let mut k: usize = lo;
    proof {
        assert(p.dots@.subrange(lo as int, lo as int) =~= Seq::empty());
        assert forall|x: int| 0 <= x < 8 * bytes implies !#[trigger] bit_at(row@, x) by {
            no_bit_of_nothing((7 - x % 8) as u8);
            assert(row@[x / 8] == 0);
        }
    }
    while k < hi
        invariant
            lo <= k <= hi <= p.dots@.len(),
            p.sound(),
            zoom > 0,
            width == p.width * zoom,
            bytes == (width + 7) / 8,
            r < p.height,
            forall|i: int| #![trigger p.dots@[i]] lo <= i < hi ==> p.dots@[i].0 == r,
            row@.len() == bytes,
            forall|x: int|
                0 <= x < 8 * bytes ==> (#[trigger] bit_at(row@, x) <==> x < width && dotted(
                    p.dots@.subrange(lo as int, k as int),
                    r as int,
                    x / zoom as int,
                )),
        decreases hi - k,
    {
        let ghost done = p.dots@.subrange(lo as int, k as int);
        let ghost next = p.dots@.subrange(lo as int, k + 1);
        let (_, col, _) = p.dots[k];
        assert(p.dots@[k as int].0 == r);
        proof {
            assert(next.drop_last() =~= done);
            column_fits(col as int, p.width as int, zoom as int);
        }
        let from: usize = col as usize * zoom;
        let ghost held = row@;
        let mut x: usize = from;
        while x < from + zoom
            invariant
                from <= x <= from + zoom <= width,
                bytes == (width + 7) / 8,
                row@.len() == bytes,
                forall|y: int|
                    0 <= y < 8 * bytes ==> (#[trigger] bit_at(row@, y) <==> from <= y < x || bit_at(
                        held,
                        y,
                    )),
            decreases from + zoom - x,
        {
            let ghost now = row@;
            let old_byte: u8 = row[x / 8];
            let bit: u8 = (x % 8) as u8;
            row[x / 8] = old_byte | (0x80u8 >> bit);
            proof {
                assert forall|y: int| 0 <= y < 8 * bytes implies (#[trigger] bit_at(row@, y)
                    <==> from <= y < x + 1 || bit_at(held, y)) by {
                    assert(bit_at(now, y) <==> from <= y < x || bit_at(held, y));
                    if y / 8 == x / 8 {
                        bit_is_set(old_byte, bit, (y % 8) as u8);
                    }
                }
            }
            x += 1;
        }
        proof {
            assert forall|y: int| 0 <= y < 8 * bytes implies (#[trigger] bit_at(row@, y) <==> y
                < width && dotted(next, r as int, y / zoom as int)) by {
                zoomed(y, col as int, zoom as int);
                assert(bit_at(held, y) <==> y < width && dotted(
                    done,
                    r as int,
                    y / zoom as int,
                ));
            }
        }
        k += 1;
    }
    proof {
        assert forall|x: int| 0 <= x < 8 * bytes implies (#[trigger] bit_at(row@, x) <==> x < width
            && dotted(p.dots@, r as int, x / zoom as int)) by {
            row_range_is_enough(p.dots@, lo as int, hi as int, r as int, x / zoom as int);
        }
    }
    row
}

/// Row `r` of a picture, every pixel `zoom` times across.
pub fn bitmap_row(p: &Picture, format: Format, zoom: usize, r: usize) -> (row: Vec<u8>)
    requires
        p.sound(),
        zoom > 0,
        p.width * zoom <= usize::MAX,
        r < p.height,
    ensures
        is_row(row@, *p, format, zoom as nat, r as int),
{
    match format {
        Format::Pbm => bit_row(p, zoom, r),
        Format::Pgm => grey_row(p, zoom, r),
    }
}

/// The file of a picture: the header, then the rows from the top, each `zoom`
/// times.
pub open spec fn is_bitmap(file: Seq<u8>, p: Picture, format: Format, zoom: nat) -> bool {
    exists|lines: Seq<Seq<u8>>|
        {
            &&& file == encode_utf8(
                format.front((p.width * zoom) as nat, (p.height * zoom) as nat),
            ) + #[trigger] end_to_end(lines)
            &&& lines.len() == p.height * zoom
            &&& forall|y: int|
                0 <= y < lines.len() ==> is_row(#[trigger] lines[y], p, format, zoom, y / zoom as int)
        }
}

/// Writes the picture, every pixel repeated `zoom` times on each axis.
pub fn write_bitmap(p: &Picture, format: Format, zoom: usize) -> (out: Vec<u8>)
    requires
        p.sound(),
        zoom > 0,
        p.width * zoom <= usize::MAX,
        p.height * zoom <= usize::MAX,
    ensures
        is_bitmap(out@, *p, format, zoom as nat),
{
    let width: usize = p.width * zoom;
    let height: usize = p.height * zoom;
    let mut out: Vec<u8> = Vec::new();
    let header = format.header(width, height);
    out.extend_from_slice(header.as_str().as_bytes());
    let ghost front = encode_utf8(format.front(width as nat, height as nat));
    let ghost mut lines: Seq<Seq<u8>> = Seq::empty();
    assert(out@ =~= front + end_to_end(lines));
    let mut r: usize = 0;
    while r < p.height
        invariant
            r <= p.height,
            p.sound(),
            zoom > 0,
            width == p.width * zoom,
            height == p.height * zoom,
            lines.len() == r * zoom,
            out@ == front + end_to_end(lines),
            forall|y: int|
                0 <= y < lines.len() ==> is_row(
                    #[trigger] lines[y],
                    *p,
                    format,
                    zoom as nat,
                    y / zoom as int,
                ),
        decreases p.height - r,
    {
        let row = bitmap_row(p, format, zoom, r);
        let ghost first = lines.len();
        let mut z: usize = 0;
        while z < zoom
            invariant
                z <= zoom,
                r < p.height,
                zoom > 0,
                first == r * zoom,
                lines.len() == first + z,
                out@ == front + end_to_end(lines),
                is_row(row@, *p, format, zoom as nat, r as int),
                forall|y: int|
                    0 <= y < lines.len() ==> is_row(
                        #[trigger] lines[y],
                        *p,
                        format,
                        zoom as nat,
                        y / zoom as int,
                    ),
            decreases zoom - z,
        {
            out.extend_from_slice(row.as_slice());
            proof {
                let more = lines.push(row@);
                assert(more.drop_last() =~= lines);
                assert(out@ =~= front + end_to_end(more));
                zoomed(first + z, r as int, zoom as int);
                assert forall|y: int| 0 <= y < more.len() implies is_row(
                    #[trigger] more[y],
                    *p,
                    format,
                    zoom as nat,
                    y / zoom as int,
                ) by {
                    if y < lines.len() {
                        assert(more[y] == lines[y]);
                    }
                }
                lines = more;
            }
            z += 1;
        }
        assert((r + 1) * zoom == r * zoom + zoom) by (nonlinear_arith);
        r += 1;
    }
    out
}

proof fn one_place(i: int, j: int, k: int, l: int, w: int, h: int)
    requires
        0 <= i < w,
        0 <= k < w,
        0 <= j < h,
        0 <= l < h,
    ensures
        0 <= j * w + i < w * h,
        j * w + i == l * w + k ==> i == k && j == l,
{
    assert(0 <= j * w + i < w * h) by (nonlinear_arith)
        requires
            0 <= i < w,
            0 <= j < h,
    ;
    if j * w + i == l * w + k {
        vstd::arithmetic::div_mod::lemma_fundamental_div_mod_converse(j * w + i, w, j, i);
        vstd::arithmetic::div_mod::lemma_fundamental_div_mod_converse(l * w + k, w, l, k);
    }
}

/// The bytes of the zoomed picture from `(x0, y0)` up to but not including
/// `(x1, y1)`, row after row, a byte a pixel.
pub open spec fn is_tile(
    tile: Seq<u8>,
    p: Picture,
    zoom: int,
    x0: int,
    y0: int,
    x1: int,
    y1: int,
) -> bool {
    &&& tile.len() == (x1 - x0) * (y1 - y0)
    &&& forall|i: int, j: int|
        #![trigger tile[j * (x1 - x0) + i]]
        0 <= i < x1 - x0 && 0 <= j < y1 - y0 ==> tile[j * (x1 - x0) + i] == ink_at(
            p.dots@,
            (y0 + j) / zoom,
            (x0 + i) / zoom,
        )
}

/// The pixel at `(i, j)` of a tile under way shows the dots from `lo` up to `k`.
spec fn shows(
    tile: Seq<u8>,
    dots: Seq<Dot>,
    zoom: int,
    x0: int,
    y0: int,
    w: int,
    i: int,
    j: int,
) -> bool {
    tile[j * w + i] == ink_at(dots, (y0 + j) / zoom, (x0 + i) / zoom)
}

/// One tile of the zoomed picture, as an encoder wants it: row-major, a byte a
/// pixel. `(x0, y0)` is the tile's corner in zoomed pixels and `(x1, y1)` one
/// past its far corner.
pub fn tile_bytes(p: &Picture, zoom: usize, corner: (usize, usize), far: (usize, usize)) -> (tile:
    Vec<u8>)
    requires
        p.sound(),
        zoom > 0,
        corner.0 < far.0 <= p.width * zoom,
        corner.1 < far.1 <= p.height * zoom,
        p.width * zoom <= usize::MAX,
        p.height * zoom <= usize::MAX,
        (far.0 - corner.0) * (far.1 - corner.1) <= usize::MAX,
    ensures
        is_tile(
            tile@,
            *p,
            zoom as int,
            corner.0 as int,
            corner.1 as int,
            far.0 as int,
            far.1 as int,
        ),
{
    let (x0, y0) = corner;
    let (x1, y1) = far;
    let w: usize = x1 - x0;
    let h: usize = y1 - y0;
    let size: usize = w * h;
    let mut tile: Vec<u8> = Vec::new();
    let mut n: usize = 0;
    while n < size
        invariant
            n <= size,
            tile@.len() == n,
            forall|i: int| 0 <= i < n ==> #[trigger] tile@[i] == PAPER,
        decreases size - n,
    {
        tile.push(PAPER);
        n += 1;
    }
    let top: usize = y0 / zoom;
    let bottom: usize = (y1 - 1) / zoom;
    let lo: usize = first_on(&p.dots, top as u64);
    proof {
        vstd::arithmetic::div_mod::lemma_div_is_ordered(y0 as int, y1 - 1, zoom as int);
        zoomed(y1 - 1, bottom as int, zoom as int);
        if bottom >= p.height {
            assert(bottom * zoom >= p.height * zoom) by (nonlinear_arith)
                requires
                    bottom >= p.height,
                    zoom > 0,
            ;
        }
        assert(bottom < p.height);
    }
    let hi: usize = first_on(&p.dots, bottom as u64 + 1);
    assert(lo <= hi) by {
        if lo > hi {
            assert(p.dots@[hi as int].0 < top);
        }
    }
    let mut k: usize = lo;
    proof {
        assert(p.dots@.subrange(lo as int, lo as int) =~= Seq::empty());
        assert forall|i: int, j: int| 0 <= i < w && 0 <= j < h implies #[trigger] shows(
            tile@,
            p.dots@.subrange(lo as int, lo as int),
            zoom as int,
            x0 as int,
            y0 as int,
            w as int,
            i,
            j,
        ) by {
            one_place(i, j, i, j, w as int, h as int);
        }
    }
    while k < hi
        invariant
            lo <= k <= hi <= p.dots@.len(),
            p.sound(),
            zoom > 0,
            p.width * zoom <= usize::MAX,
            p.height * zoom <= usize::MAX,
            w == x1 - x0,
            h == y1 - y0,
            x0 < x1,
            y0 < y1,
            tile@.len() == w * h <= usize::MAX,
            forall|i: int, j: int|
                0 <= i < w && 0 <= j < h ==> #[trigger] shows(
                    tile@,
                    p.dots@.subrange(lo as int, k as int),
                    zoom as int,
                    x0 as int,
                    y0 as int,
                    w as int,
                    i,
                    j,
                ),
        decreases hi - k,
    {
        let ghost done = p.dots@.subrange(lo as int, k as int);
        let ghost next = p.dots@.subrange(lo as int, k + 1);
        let (row, col, ink) = p.dots[k];
        proof {
            assert(next.drop_last() =~= done);
            assert(p.dots@[k as int].0 < p.height && p.dots@[k as int].1 < p.width);
            column_fits(col as int, p.width as int, zoom as int);
            column_fits(row as int, p.height as int, zoom as int);
        }
        // The block of zoomed pixels this node covers, clipped to the tile.
        let left: usize = col as usize * zoom;
        let above: usize = row as usize * zoom;
        let bx0: usize = if left < x0 { x0 } else { left };
        let bx1: usize = if left + zoom < x1 { left + zoom } else { x1 };
        let by0: usize = if above < y0 { y0 } else { above };
        let by1: usize = if above + zoom < y1 { above + zoom } else { y1 };
        let ghost held = tile@;
        let mut y: usize = by0;
        while y < by1
            invariant
                by0 <= y,
                y <= by1 || y == by0,
                y0 <= by0,
                by1 <= y1,
                x0 <= bx0,
                bx1 <= x1,
                w == x1 - x0,
                h == y1 - y0,
                held.len() == tile@.len() == w * h <= usize::MAX,
                forall|i: int, j: int|
                    #![trigger tile@[j * w + i]]
                    0 <= i < w && 0 <= j < h ==> tile@[j * w + i] == if bx0 <= x0 + i < bx1 && by0
                        <= y0 + j < y {
                        ink
                    } else {
                        held[j * w + i]
                    },
            decreases by1 - y,
        {
            let mut x: usize = bx0;
            while x < bx1
                invariant
                    by0 <= y < by1,
                    bx0 <= x,
                    y0 <= by0,
                    by1 <= y1,
                    x0 <= bx0,
                    bx1 <= x1,
                    w == x1 - x0,
                    h == y1 - y0,
                    held.len() == tile@.len() == w * h <= usize::MAX,
                    forall|i: int, j: int|
                        #![trigger tile@[j * w + i]]
                        0 <= i < w && 0 <= j < h ==> tile@[j * w + i] == if bx0 <= x0 + i < bx1
                            && (by0 <= y0 + j < y || (y0 + j == y && x0 + i < x)) {
                            ink
                        } else {
                            held[j * w + i]
                        },
                decreases bx1 - x,
            {
                let ghost now = tile@;
                let ghost i0 = x - x0;
                let ghost j0 = y - y0;
                proof {
                    one_place(i0, j0, i0, j0, w as int, h as int);
                    assert(0 <= j0 * w <= j0 * w + i0) by (nonlinear_arith)
                        requires
                            0 <= j0,
                            0 <= i0,
                            0 <= w,
                    ;
                }
                let at: usize = (y - y0) * w + (x - x0);
                tile[at] = ink;
                proof {
                    assert forall|i: int, j: int|
                        #![trigger tile@[j * w + i]]
                        0 <= i < w && 0 <= j < h implies tile@[j * w + i] == if bx0 <= x0 + i < bx1
                        && (by0 <= y0 + j < y || (y0 + j == y && x0 + i < x + 1)) {
                        ink
                    } else {
                        held[j * w + i]
                    } by {
                        one_place(i, j, i0, j0, w as int, h as int);
                        assert(now[j * w + i] == if bx0 <= x0 + i < bx1 && (by0 <= y0 + j < y || (
                        y0 + j == y && x0 + i < x)) {
                            ink
                        } else {
                            held[j * w + i]
                        });
                    }
                }
                x += 1;
            }
            y += 1;
        }
        proof {
            assert forall|i: int, j: int| 0 <= i < w && 0 <= j < h implies #[trigger] shows(
                tile@,
                next,
                zoom as int,
                x0 as int,
                y0 as int,
                w as int,
                i,
                j,
            ) by {
                assert(shows(held, done, zoom as int, x0 as int, y0 as int, w as int, i, j));
                zoomed(x0 + i, col as int, zoom as int);
                zoomed(y0 + j, row as int, zoom as int);
                assert(tile@[j * w + i] == if bx0 <= x0 + i < bx1 && by0 <= y0 + j < by1 {
                    ink
                } else {
                    held[j * w + i]
                });
            }
        }
        k += 1;
    }
    proof {
        assert forall|i: int, j: int|
            #![trigger tile@[j * (x1 - x0) + i]]
            0 <= i < x1 - x0 && 0 <= j < y1 - y0 implies tile@[j * (x1 - x0) + i] == ink_at(
            p.dots@,
            (y0 + j) / zoom as int,
            (x0 + i) / zoom as int,
        ) by {
            assert(shows(
                tile@,
                p.dots@.subrange(lo as int, hi as int),
                zoom as int,
                x0 as int,
                y0 as int,
                w as int,
                i,
                j,
            ));
            vstd::arithmetic::div_mod::lemma_div_is_ordered(y0 as int, y0 + j, zoom as int);
            vstd::arithmetic::div_mod::lemma_div_is_ordered(y0 + j, y1 - 1, zoom as int);
            row_range_is_enough(
                p.dots@,
                lo as int,
                hi as int,
                (y0 + j) / zoom as int,
                (x0 + i) / zoom as int,
            );
        }
    }
    tile
}

/// One of the squares a picture is cut into: its number and its corners.
#[derive(Clone, Copy, Debug, PartialEq, Eq, Structural)]
pub struct Tile {
    pub index: usize,
    pub x0: usize,
    pub y0: usize,
    pub x1: usize,
    pub y1: usize,
}

/// How many tiles go across, or down, so many pixels.
pub open spec fn tiles_along(pixels: nat) -> nat {
    (pixels + (TILE - 1) as nat) / TILE as nat
}

/// The `index`th tile, counting across and then down: a square, clipped at the
/// far edges.
pub open spec fn tile_of(width: nat, height: nat, index: nat) -> Tile {
    let tx = index % tiles_along(width);
    let ty = index / tiles_along(width);
    Tile {
        index: index as usize,
        x0: (tx * TILE) as usize,
        y0: (ty * TILE) as usize,
        x1: (if (tx + 1) * TILE < width { (tx + 1) * TILE } else { width as int }) as usize,
        y1: (if (ty + 1) * TILE < height { (ty + 1) * TILE } else { height as int }) as usize,
    }
}

/// How many tiles go across, or down, so many pixels.
fn count_along(pixels: usize) -> (n: usize)
    ensures
        n == tiles_along(pixels as nat),
{
    pixels / TILE + if pixels % TILE == 0 { 0 } else { 1 }
}

/// How many tiles a picture is cut into.
pub fn tile_count(width: usize, height: usize) -> (n: usize)
    requires
        tiles_along(width as nat) * tiles_along(height as nat) <= usize::MAX,
    ensures
        n == tiles_along(width as nat) * tiles_along(height as nat),
{
    count_along(width) * count_along(height)
}

proof fn along(t: int, pixels: int)
    requires
        0 <= t < tiles_along(pixels as nat),
        0 < pixels,
    ensures
        t * TILE < pixels,
        pixels <= tiles_along(pixels as nat) * TILE,
{
}

/// The `index`th tile of a picture: across and then down, the order an encoder
/// counts them in.
pub fn tile(width: usize, height: usize, index: usize) -> (t: Tile)
    requires
        0 < width,
        0 < height,
        width <= usize::MAX - TILE,
        height <= usize::MAX - TILE,
        index < tiles_along(width as nat) * tiles_along(height as nat),
    ensures
        t == tile_of(width as nat, height as nat, index as nat),
        t.x0 < t.x1 <= width,
        t.y0 < t.y1 <= height,
        t.x1 - t.x0 <= TILE,
        t.y1 - t.y0 <= TILE,
{
    let across: usize = count_along(width);
    let tx: usize = index % across;
    let ty: usize = index / across;
    proof {
        let down = tiles_along(height as nat) as int;
        assert(ty < down) by (nonlinear_arith)
            requires
                index < across * down,
                ty == index / across,
                0 < across,
        ;
        along(tx as int, width as int);
        along(ty as int, height as int);
    }
    let x0: usize = tx * TILE;
    let y0: usize = ty * TILE;
    let x1: usize = if x0 + TILE < width { x0 + TILE } else { width };
    let y1: usize = if y0 + TILE < height { y0 + TILE } else { height };
    Tile { index, x0, y0, x1, y1 }
}

/// The tiles of a picture cover it, and none of them another: every pixel is in
/// exactly one of them, the one its row and column say.
pub proof fn every_pixel_is_in_one_tile(width: nat, height: nat, x: int, y: int, index: nat)
    requires
        0 <= x < width <= usize::MAX,
        0 <= y < height <= usize::MAX,
        index < tiles_along(width) * tiles_along(height),
    ensures
        ({
            let t = tile_of(width, height, index);
            (t.x0 <= x < t.x1 && t.y0 <= y < t.y1) <==> index == (y / TILE as int) * tiles_along(
                width,
            ) + x / TILE as int
        }),
{
    let across = tiles_along(width) as int;
    let down = tiles_along(height) as int;
    let tx = index as int % across;
    let ty = index as int / across;
    let cx = x / TILE as int;
    let cy = y / TILE as int;
    assert(0 <= cx < across);
    assert(0 <= ty < down) by (nonlinear_arith)
        requires
            index < across * down,
            ty == index as int / across,
            0 < across,
    ;
    along(tx, width as int);
    along(ty, height as int);
    vstd::arithmetic::div_mod::lemma_fundamental_div_mod(index as int, across);
    vstd::arithmetic::mul::lemma_mul_is_commutative(across, ty);
    if index == cy * across + cx {
        vstd::arithmetic::div_mod::lemma_fundamental_div_mod_converse(
            index as int,
            across,
            cy,
            cx,
        );
    }
}

/// The largest unit there is at least one of in so many bytes, up to `TB`.
pub open spec fn unit(bytes: u64) -> Seq<char> {
    if bytes < 1_000 {
        "B"@
    } else if bytes < 1_000_000 {
        "kB"@
    } else if bytes < 1_000_000_000 {
        "MB"@
    } else if bytes < 1_000_000_000_000 {
        "GB"@
    } else {
        "TB"@
    }
}

/// How often a size is divided by a thousand to come to its unit.
pub fn thousands(bytes: u64) -> (n: usize)
    ensures
        n == if bytes < 1_000 {
            0int
        } else if bytes < 1_000_000 {
            1
        } else if bytes < 1_000_000_000 {
            2
        } else if bytes < 1_000_000_000_000 {
            3
        } else {
            4
        },
{
    if bytes < 1_000 {
        0
    } else if bytes < 1_000_000 {
        1
    } else if bytes < 1_000_000_000 {
        2
    } else if bytes < 1_000_000_000_000 {
        3
    } else {
        4
    }
}

/// So many bytes as something a person can read at a glance: the bytes
/// themselves below a thousand, else `scaled`, the size in its unit to one
/// decimal, with the unit.
pub fn human(bytes: u64, scaled: &str) -> (s: String)
    ensures
        s@ == (if bytes < 1_000 { dec(bytes as nat) } else { scaled@ }) + " "@ + unit(bytes),
{
    let mut s = String::new();
    let n: usize = thousands(bytes);
    if n == 0 {
        push_dec(&mut s, bytes);
    } else {
        s.append(scaled);
    }
    assert(s@ =~= if bytes < 1_000 { dec(bytes as nat) } else { scaled@ });
    s.append(" ");
    match n {
        0 => s.append("B"),
        1 => s.append("kB"),
        2 => s.append("MB"),
        3 => s.append("GB"),
        _ => s.append("TB"),
    }
    s
}

} // verus!
