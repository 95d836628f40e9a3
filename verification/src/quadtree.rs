//! The nodes of a drawing, sorted by where they are.
//!
//! A tree of squares: quarter the drawing's square, keep quartering wherever
//! more than [`CAPACITY`] nodes land together, and a query walks only the cells
//! a window overlaps. The tree stores no coordinates: it stores a permutation of
//! the nodes in which every cell's are contiguous, and asks whoever has the
//! coordinates which cells a window overlaps.
//!
//! Where a node is comes in as its *path*: the quarter of the drawing it falls
//! in, the quarter of that quarter, and so on for [`MAX_DEPTH`] levels, two bits
//! each, the outermost highest. Bit 0 of a quarter is "right of centre" and bit 1
//! is "below it".
//!
//! Subdivision is spatial, so neither the build nor a walk is ever deeper than
//! [`MAX_DEPTH`] cells.

use vstd::prelude::*;

verus! {

/// How many nodes a cell may hold before it is quartered.
pub const CAPACITY: usize = 16;

/// How far the subdivision will go before it gives up and leaves a cell large:
/// nodes in one place can be quartered forever and stay together.
pub const MAX_DEPTH: usize = 48;

/// Marks a cell with nothing under it: it is a leaf.
pub const NO_CHILDREN: u32 = u32::MAX;

/// A cell of the tree: a range of the permutation, which describes the whole
/// subtree, and the first of its four consecutive quarters.
#[derive(Clone, Copy, Debug, PartialEq, Eq, Structural)]
pub struct Cell {
    pub start: u32,
    pub len: u32,
    pub children: u32,
}

impl Cell {
    /// Whether a place of the permutation is one of the cell's.
    pub open spec fn holds(self, p: int) -> bool {
        self.start <= p < self.start + self.len
    }
}

/// The quarter a node falls in, of the cell at `depth` that holds it.
pub open spec fn quarter_of(path: u128, depth: nat) -> u8 {
    ((path >> ((2 * (47 - depth)) as u128)) & 3) as u8
}

/// The numbers below `n`, in order.
pub open spec fn numbers(n: nat) -> Seq<u32> {
    Seq::new(n, |i: int| i as u32)
}

/// Those of `points` that fall in quarter `q` of their cell at `depth`, in order.
pub open spec fn part(points: Seq<u32>, paths: Seq<u128>, depth: nat, q: int) -> Seq<u32>
    decreases points.len(),
{
    if points.len() == 0 {
        Seq::empty()
    } else {
        let front = part(points.drop_last(), paths, depth, q);
        if quarter_of(paths[points.last() as int], depth) == q {
            front.push(points.last())
        } else {
            front
        }
    }
}

/// `points` sorted into the four quarters of their cell, those of a quarter in
/// the order they were.
pub open spec fn by_quarter(points: Seq<u32>, paths: Seq<u128>, depth: nat) -> Seq<u32> {
    part(points, paths, depth, 0) + part(points, paths, depth, 1) + part(points, paths, depth, 2)
        + part(points, paths, depth, 3)
}

/// Whether a cell at `depth` with so many nodes is quartered.
pub open spec fn crowded(len: nat, depth: nat) -> bool {
    len > CAPACITY && depth < MAX_DEPTH
}

/// The nodes of a cell at `depth`, permuted so that the nodes of each cell under
/// it are contiguous.
pub open spec fn arranged(points: Seq<u32>, paths: Seq<u128>, depth: nat) -> Seq<u32>
    decreases MAX_DEPTH - depth,
{
    if crowded(points.len(), depth) {
        arranged(part(points, paths, depth, 0), paths, depth + 1) + arranged(
            part(points, paths, depth, 1),
            paths,
            depth + 1,
        ) + arranged(part(points, paths, depth, 2), paths, depth + 1) + arranged(
            part(points, paths, depth, 3),
            paths,
            depth + 1,
        )
    } else {
        points
    }
}

/// How many cells there are under a cell at `depth`, itself not counted.
pub open spec fn cells_under(points: Seq<u32>, paths: Seq<u128>, depth: nat) -> nat
    decreases MAX_DEPTH - depth,
{
    if crowded(points.len(), depth) {
        4 + cells_under(part(points, paths, depth, 0), paths, depth + 1) + cells_under(
            part(points, paths, depth, 1),
            paths,
            depth + 1,
        ) + cells_under(part(points, paths, depth, 2), paths, depth + 1) + cells_under(
            part(points, paths, depth, 3),
            paths,
            depth + 1,
        )
    } else {
        0
    }
}

/// The larger of two depths.
pub open spec fn deeper(a: nat, b: nat) -> nat {
    if a < b {
        b
    } else {
        a
    }
}

/// The depth of the deepest cell with nodes in it, under a cell at `depth` or
/// that cell itself.
pub open spec fn bottom(points: Seq<u32>, paths: Seq<u128>, depth: nat) -> nat
    decreases MAX_DEPTH - depth,
{
    if points.len() == 0 {
        0
    } else if crowded(points.len(), depth) {
        deeper(
            deeper(
                bottom(part(points, paths, depth, 0), paths, depth + 1),
                bottom(part(points, paths, depth, 1), paths, depth + 1),
            ),
            deeper(
                bottom(part(points, paths, depth, 2), paths, depth + 1),
                bottom(part(points, paths, depth, 3), paths, depth + 1),
            ),
        )
    } else {
        depth
    }
}

/// The cell at index `at` is the one at `depth` over `points`, whose first place
/// in the permutation is `start`; every cell under it has an index from `low` on.
pub open spec fn is_cell(
    cells: Seq<Cell>,
    at: int,
    low: int,
    start: int,
    points: Seq<u32>,
    paths: Seq<u128>,
    depth: nat,
) -> bool
    decreases MAX_DEPTH - depth,
{
    let c = cells[at];
    &&& 0 <= at < low <= cells.len()
    &&& c.start == start
    &&& c.len == points.len()
    &&& if crowded(points.len(), depth) {
        let k = c.children as int;
        let p0 = part(points, paths, depth, 0);
        let p1 = part(points, paths, depth, 1);
        let p2 = part(points, paths, depth, 2);
        let p3 = part(points, paths, depth, 3);
        &&& low <= k
        &&& is_cell(cells, k, k + 4, start, p0, paths, depth + 1)
        &&& is_cell(cells, k + 1, k + 4, start + p0.len(), p1, paths, depth + 1)
        &&& is_cell(cells, k + 2, k + 4, start + p0.len() + p1.len(), p2, paths, depth + 1)
        &&& is_cell(
            cells,
            k + 3,
            k + 4,
            start + p0.len() + p1.len() + p2.len(),
            p3,
            paths,
            depth + 1,
        )
    } else {
        c.children == NO_CHILDREN
    }
}

/// The four quarters of a cell hold its nodes, end to end.
pub open spec fn quartered(cells: Seq<Cell>, at: int) -> bool {
    let c = cells[at];
    let k = c.children as int;
    &&& k + 3 < cells.len()
    &&& cells[k].start == c.start
    &&& cells[k + 1].start == cells[k].start + cells[k].len
    &&& cells[k + 2].start == cells[k + 1].start + cells[k + 1].len
    &&& cells[k + 3].start == cells[k + 2].start + cells[k + 2].len
    &&& c.start + c.len == cells[k + 3].start + cells[k + 3].len
}

/// The cell at `at` and every cell under it is its quarters, if it has any, and
/// none is deeper than the limit.
pub open spec fn shaped(cells: Seq<Cell>, at: int, depth: nat) -> bool
    decreases MAX_DEPTH - depth,
{
    &&& 0 <= at < cells.len()
    &&& cells[at].children != NO_CHILDREN ==> {
        let k = cells[at].children as int;
        &&& depth < MAX_DEPTH
        &&& quartered(cells, at)
        &&& shaped(cells, k, depth + 1)
        &&& shaped(cells, k + 1, depth + 1)
        &&& shaped(cells, k + 2, depth + 1)
        &&& shaped(cells, k + 3, depth + 1)
    }
}

proof fn three_bits(x: u128)
    ensures
        (x & 3) < 4,
{
    assert((x & 3) < 4) by (bit_vector);
}

proof fn multiset_concat(a: Seq<u32>, b: Seq<u32>)
    ensures
        (a + b).to_multiset() == a.to_multiset().add(b.to_multiset()),
{
    vstd::seq_lib::lemma_multiset_commutative(a, b);
}

proof fn multiset_push(s: Seq<u32>, x: u32)
    ensures
        s.push(x).to_multiset() == s.to_multiset().insert(x),
{
    broadcast use vstd::seq_lib::group_to_multiset_ensures;

}

/// Sorting into quarters loses nothing and adds nothing.
pub proof fn quarters_hold_the_points(points: Seq<u32>, paths: Seq<u128>, depth: nat)
    ensures
        by_quarter(points, paths, depth).to_multiset() == points.to_multiset(),
        part(points, paths, depth, 0).len() + part(points, paths, depth, 1).len() + part(
            points,
            paths,
            depth,
            2,
        ).len() + part(points, paths, depth, 3).len() == points.len(),
    decreases points.len(),
{
    let p0 = part(points, paths, depth, 0);
    let p1 = part(points, paths, depth, 1);
    let p2 = part(points, paths, depth, 2);
    let p3 = part(points, paths, depth, 3);
    multiset_concat(p0, p1);
    multiset_concat(p0 + p1, p2);
    multiset_concat(p0 + p1 + p2, p3);
    if points.len() == 0 {
        assert(by_quarter(points, paths, depth) =~= points);
    } else {
        let f = points.drop_last();
        let x = points.last();
        three_bits(paths[x as int] >> ((2 * (47 - depth)) as u128));
        quarters_hold_the_points(f, paths, depth);
        let f0 = part(f, paths, depth, 0);
        let f1 = part(f, paths, depth, 1);
        let f2 = part(f, paths, depth, 2);
        let f3 = part(f, paths, depth, 3);
        multiset_concat(f0, f1);
        multiset_concat(f0 + f1, f2);
        multiset_concat(f0 + f1 + f2, f3);
        multiset_push(f0, x);
        multiset_push(f1, x);
        multiset_push(f2, x);
        multiset_push(f3, x);
        multiset_push(f, x);
        assert(points =~= f.push(x));
        assert(by_quarter(points, paths, depth).to_multiset() =~= by_quarter(
            f,
            paths,
            depth,
        ).to_multiset().insert(x));
    }
}

/// Arranging nodes into cells loses nothing and adds nothing.
pub proof fn an_arrangement_is_a_permutation(points: Seq<u32>, paths: Seq<u128>, depth: nat)
    ensures
        arranged(points, paths, depth).to_multiset() == points.to_multiset(),
        arranged(points, paths, depth).len() == points.len(),
    decreases MAX_DEPTH - depth,
{
    if crowded(points.len(), depth) {
        let p0 = part(points, paths, depth, 0);
        let p1 = part(points, paths, depth, 1);
        let p2 = part(points, paths, depth, 2);
        let p3 = part(points, paths, depth, 3);
        quarters_hold_the_points(points, paths, depth);
        multiset_concat(p0, p1);
        multiset_concat(p0 + p1, p2);
        multiset_concat(p0 + p1 + p2, p3);
        an_arrangement_is_a_permutation(p0, paths, depth + 1);
        an_arrangement_is_a_permutation(p1, paths, depth + 1);
        an_arrangement_is_a_permutation(p2, paths, depth + 1);
        an_arrangement_is_a_permutation(p3, paths, depth + 1);
        let a0 = arranged(p0, paths, depth + 1);
        let a1 = arranged(p1, paths, depth + 1);
        let a2 = arranged(p2, paths, depth + 1);
        let a3 = arranged(p3, paths, depth + 1);
        multiset_concat(a0, a1);
        multiset_concat(a0 + a1, a2);
        multiset_concat(a0 + a1 + a2, a3);
    }
}

/// A tree is never deeper than the limit.
pub proof fn the_depth_is_bounded(points: Seq<u32>, paths: Seq<u128>, depth: nat)
    requires
        depth <= MAX_DEPTH,
    ensures
        bottom(points, paths, depth) <= MAX_DEPTH,
    decreases MAX_DEPTH - depth,
{
    if crowded(points.len(), depth) {
        the_depth_is_bounded(part(points, paths, depth, 0), paths, depth + 1);
        the_depth_is_bounded(part(points, paths, depth, 1), paths, depth + 1);
        the_depth_is_bounded(part(points, paths, depth, 2), paths, depth + 1);
        the_depth_is_bounded(part(points, paths, depth, 3), paths, depth + 1);
    }
}

/// How many cells a tree can come to: four for every seventeen nodes, at every
/// depth.
pub proof fn the_cells_are_few(points: Seq<u32>, paths: Seq<u128>, depth: nat)
    requires
        depth <= MAX_DEPTH,
    ensures
        17 * cells_under(points, paths, depth) <= 4 * (MAX_DEPTH - depth) * points.len(),
    decreases MAX_DEPTH - depth,
{
    let n = points.len() as int;
    if crowded(points.len(), depth) {
        let p0 = part(points, paths, depth, 0);
        let p1 = part(points, paths, depth, 1);
        let p2 = part(points, paths, depth, 2);
        let p3 = part(points, paths, depth, 3);
        quarters_hold_the_points(points, paths, depth);
        the_cells_are_few(p0, paths, depth + 1);
        the_cells_are_few(p1, paths, depth + 1);
        the_cells_are_few(p2, paths, depth + 1);
        the_cells_are_few(p3, paths, depth + 1);
        let l = 4 * (MAX_DEPTH - depth - 1);
        assert(l * p0.len() + l * p1.len() + l * p2.len() + l * p3.len() == l * n)
            by (nonlinear_arith)
            requires
                p0.len() + p1.len() + p2.len() + p3.len() == n,
        ;
        assert(4 * (MAX_DEPTH - depth) * n == l * n + 4 * n) by (nonlinear_arith)
            requires
                l == 4 * (MAX_DEPTH - depth - 1),
        ;
    } else {
        assert(4 * (MAX_DEPTH - depth) * n >= 0) by (nonlinear_arith)
            requires
                MAX_DEPTH - depth >= 0,
                n >= 0,
        ;
    }
}

/// What a cell is depends only on that cell and on those from `low` on.
proof fn same_cells(
    cells: Seq<Cell>,
    more: Seq<Cell>,
    at: int,
    low: int,
    start: int,
    points: Seq<u32>,
    paths: Seq<u128>,
    depth: nat,
)
    requires
        is_cell(cells, at, low, start, points, paths, depth),
        cells.len() <= more.len(),
        cells[at] == more[at],
        forall|i: int| low <= i < cells.len() ==> #[trigger] cells[i] == more[i],
    ensures
        is_cell(more, at, low, start, points, paths, depth),
    decreases MAX_DEPTH - depth,
{
    if crowded(points.len(), depth) {
        let k = cells[at].children as int;
        let p0 = part(points, paths, depth, 0);
        let p1 = part(points, paths, depth, 1);
        let p2 = part(points, paths, depth, 2);
        let p3 = part(points, paths, depth, 3);
        let s1 = start + p0.len();
        let s2 = s1 + p1.len();
        let s3 = s2 + p2.len();
        assert(is_cell(cells, k, k + 4, start, p0, paths, depth + 1));
        assert(k + 4 <= cells.len());
        assert(cells[k] == more[k] && cells[k + 1] == more[k + 1]);
        assert(cells[k + 2] == more[k + 2] && cells[k + 3] == more[k + 3]);
        same_cells(cells, more, k, k + 4, start, p0, paths, depth + 1);
        same_cells(cells, more, k + 1, k + 4, s1, p1, paths, depth + 1);
        same_cells(cells, more, k + 2, k + 4, s2, p2, paths, depth + 1);
        same_cells(cells, more, k + 3, k + 4, s3, p3, paths, depth + 1);
    }
}

/// The nodes of a cell: its range of the permutation.
pub open spec fn points_of(cell: Cell, order: Seq<u32>) -> Seq<u32> {
    order.subrange(cell.start as int, cell.start + cell.len)
}

/// Every one of `points` has a path.
pub open spec fn placed(points: Seq<u32>, paths: Seq<u128>) -> bool {
    forall|i: int| 0 <= i < points.len() ==> #[trigger] points[i] < paths.len()
}

/// `order` with the stretch from `start` on replaced.
pub open spec fn spliced(order: Seq<u32>, start: int, middle: Seq<u32>) -> Seq<u32> {
    order.subrange(0, start) + middle + order.subrange(start + middle.len(), order.len() as int)
}

proof fn part_placed(points: Seq<u32>, paths: Seq<u128>, depth: nat, q: int)
    requires
        placed(points, paths),
    ensures
        placed(part(points, paths, depth, q), paths),
    decreases points.len(),
{
    if points.len() > 0 {
        let f = points.drop_last();
        assert forall|i: int| 0 <= i < f.len() implies #[trigger] f[i] < paths.len() by {
            assert(points[i] < paths.len());
        }
        part_placed(f, paths, depth, q);
        assert(points[points.len() - 1] < paths.len());
    }
}

/// Appends the nodes of a stretch that fall in one quarter.
fn gather(
    scratch: &mut Vec<u32>,
    order: &Vec<u32>,
    start: usize,
    len: usize,
    paths: &Vec<u128>,
    depth: usize,
    q: u8,
)
    requires
        start + len <= order@.len(),
        placed(order@.subrange(start as int, start + len), paths@),
        depth < MAX_DEPTH,
    ensures
        final(scratch)@ == old(scratch)@ + part(
            order@.subrange(start as int, start + len),
            paths@,
            depth as nat,
            q as int,
        ),
{
    let ghost points = order@.subrange(start as int, start + len);
    let shift: u128 = (2 * (47 - depth)) as u128;
    let mut i: usize = 0;
    proof {
        assert(scratch@ =~= scratch@ + part(points.take(0), paths@, depth as nat, q as int));
    }
    while i < len
        invariant
            i <= len,
            start + len <= order@.len(),
            order.len() == order@.len(),
            points == order@.subrange(start as int, start + len),
            placed(points, paths@),
            depth < MAX_DEPTH,
            shift == 2 * (47 - depth),
            scratch@ == old(scratch)@ + part(points.take(i as int), paths@, depth as nat, q as int),
        decreases len - i,
    {
        let at: u32 = order[start + i];
        assert(points[i as int] == at);
        proof {
            assert(points.take(i + 1).drop_last() =~= points.take(i as int));
            assert(points.take(i + 1).last() == at);
            three_bits(paths@[at as int] >> shift);
        }
        if ((paths[at as usize] >> shift) & 3) as u8 == q {
            scratch.push(at);
        }
        i += 1;
        assert(scratch@ =~= old(scratch)@ + part(
            points.take(i as int),
            paths@,
            depth as nat,
            q as int,
        ));
    }
    assert(points.take(len as int) =~= points);
}

/// Sorts a stretch of the permutation into quarters, and says how many fell in
/// the first three.
fn sort_quarters(
    order: &mut Vec<u32>,
    start: usize,
    len: usize,
    paths: &Vec<u128>,
    depth: usize,
) -> (counts: (usize, usize, usize))
    requires
        start + len <= old(order)@.len(),
        placed(old(order)@.subrange(start as int, start + len), paths@),
        depth < MAX_DEPTH,
    ensures
        ({
            let points = old(order)@.subrange(start as int, start + len);
            &&& final(order)@ == spliced(
                old(order)@,
                start as int,
                by_quarter(points, paths@, depth as nat),
            )
            &&& counts.0 == part(points, paths@, depth as nat, 0).len()
            &&& counts.1 == part(points, paths@, depth as nat, 1).len()
            &&& counts.2 == part(points, paths@, depth as nat, 2).len()
        }),
{
    let ghost points = order@.subrange(start as int, start + len);
    let mut scratch: Vec<u32> = Vec::with_capacity(len);
    gather(&mut scratch, order, start, len, paths, depth, 0);
    let first: usize = scratch.len();
    gather(&mut scratch, order, start, len, paths, depth, 1);
    let second: usize = scratch.len() - first;
    gather(&mut scratch, order, start, len, paths, depth, 2);
    let third: usize = scratch.len() - first - second;
    gather(&mut scratch, order, start, len, paths, depth, 3);
    let ghost sorted = by_quarter(points, paths@, depth as nat);
    proof {
        assert(scratch@ =~= sorted);
        quarters_hold_the_points(points, paths@, depth as nat);
    }
    let mut i: usize = 0;
    while i < len
        invariant
            i <= len,
            len == sorted.len(),
            scratch@ == sorted,
            order@.len() == old(order)@.len(),
            start + len <= order@.len(),
            order.len() == order@.len(),
            forall|j: int|
                #![trigger order@[j]]
                0 <= j < order@.len() ==> order@[j] == if start <= j < start + i {
                    sorted[j - start]
                } else {
                    old(order)@[j]
                },
        decreases len - i,
    {
        order.set(start + i, scratch[i]);
        i += 1;
    }
    assert(order@ =~= spliced(old(order)@, start as int, sorted));
    (first, second, third)
}

/// Whether one list of cells goes on from another: the same cells but for the
/// one at `at`, which may have been quartered, and more after them.
spec fn grown(before: Seq<Cell>, after: Seq<Cell>, at: int) -> bool {
    &&& before.len() <= after.len()
    &&& forall|i: int|
        #![trigger after[i]]
        0 <= i < before.len() && i != at ==> after[i] == before[i]
    &&& after[at].start == before[at].start
    &&& after[at].len == before[at].len
}

/// A cell whose cells are from `low` on has them from anything lower on.
proof fn lower(
    cells: Seq<Cell>,
    at: int,
    low: int,
    down: int,
    start: int,
    points: Seq<u32>,
    paths: Seq<u128>,
    depth: nat,
)
    requires
        is_cell(cells, at, low, start, points, paths, depth),
        at < down <= low,
    ensures
        is_cell(cells, at, down, start, points, paths, depth),
{
}

/// Rearranging four neighbouring stretches one after another, the last first,
/// rearranges all of them.
proof fn splices(
    before: Seq<u32>,
    start: int,
    p: (Seq<u32>, Seq<u32>, Seq<u32>, Seq<u32>),
    a: (Seq<u32>, Seq<u32>, Seq<u32>, Seq<u32>),
)
    requires
        0 <= start,
        start + p.0.len() + p.1.len() + p.2.len() + p.3.len() <= before.len(),
        a.0.len() == p.0.len(),
        a.1.len() == p.1.len(),
        a.2.len() == p.2.len(),
        a.3.len() == p.3.len(),
    ensures
        ({
            let s1 = start + p.0.len();
            let s2 = s1 + p.1.len();
            let s3 = s2 + p.2.len();
            let o0 = spliced(before, start, p.0 + p.1 + p.2 + p.3);
            let o1 = spliced(o0, s3, a.3);
            let o2 = spliced(o1, s2, a.2);
            let o3 = spliced(o2, s1, a.1);
            let o4 = spliced(o3, start, a.0);
            &&& o0.len() == before.len()
            &&& o1.len() == before.len()
            &&& o2.len() == before.len()
            &&& o3.len() == before.len()
            &&& o0.subrange(s3, s3 + p.3.len()) == p.3
            &&& o1.subrange(s2, s2 + p.2.len()) == p.2
            &&& o2.subrange(s1, s1 + p.1.len()) == p.1
            &&& o3.subrange(start, start + p.0.len()) == p.0
            &&& o4 == spliced(before, start, a.0 + a.1 + a.2 + a.3)
        }),
{
    let s1 = start + p.0.len();
    let s2 = s1 + p.1.len();
    let s3 = s2 + p.2.len();
    let o0 = spliced(before, start, p.0 + p.1 + p.2 + p.3);
    let o1 = spliced(o0, s3, a.3);
    let o2 = spliced(o1, s2, a.2);
    let o3 = spliced(o2, s1, a.1);
    let o4 = spliced(o3, start, a.0);
    assert(o0.subrange(s3, s3 + p.3.len()) =~= p.3);
    assert(o1.subrange(s2, s2 + p.2.len()) =~= p.2);
    assert(o2.subrange(s1, s1 + p.1.len()) =~= p.1);
    assert(o3.subrange(start, start + p.0.len()) =~= p.0);
    assert(o4 =~= spliced(before, start, a.0 + a.1 + a.2 + a.3));
}

/// Quarters a cell, and the cells under it, as far as they are crowded. Stops
/// where there would be more cells than can be numbered.
#[verifier::rlimit(60)]
fn open(
    cells: &mut Vec<Cell>,
    order: &mut Vec<u32>,
    levels: &mut usize,
    paths: &Vec<u128>,
    at: usize,
    depth: usize,
) -> (fits: bool)
    requires
        at < old(cells)@.len() < NO_CHILDREN,
        old(cells)@[at as int].children == NO_CHILDREN,
        old(cells)@[at as int].start + old(cells)@[at as int].len <= old(order)@.len(),
        old(order)@.len() <= u32::MAX,
        placed(points_of(old(cells)@[at as int], old(order)@), paths@),
        depth <= MAX_DEPTH,
    ensures
        ({
            let cell = old(cells)@[at as int];
            let points = points_of(cell, old(order)@);
            let under = cells_under(points, paths@, depth as nat);
            &&& fits == (old(cells)@.len() + under < NO_CHILDREN)
            &&& fits ==> {
                &&& final(cells)@.len() == old(cells)@.len() + under
                &&& grown(old(cells)@, final(cells)@, at as int)
                &&& is_cell(
                    final(cells)@,
                    at as int,
                    old(cells)@.len() as int,
                    cell.start as int,
                    points,
                    paths@,
                    depth as nat,
                )
                &&& final(order)@ == spliced(
                    old(order)@,
                    cell.start as int,
                    arranged(points, paths@, depth as nat),
                )
                &&& *final(levels) == deeper(
                    *old(levels) as nat,
                    bottom(points, paths@, depth as nat),
                )
            }
        }),
    decreases MAX_DEPTH - depth,
{
    let cell = cells[at];
    let start: usize = cell.start as usize;
    let len: usize = cell.len as usize;
    let ghost points = points_of(cell, order@);
    let ghost d = depth as nat;
    if len <= CAPACITY || depth >= MAX_DEPTH {
        if len > 0 && *levels < depth {
            *levels = depth;
        }
        assert(order@ =~= spliced(order@, start as int, points));
        return true;
    }
    let first: usize = cells.len();
    if first >= (NO_CHILDREN - 4) as usize {
        return false;
    }
    let ghost before = order@;
    let (n0, n1, n2) = sort_quarters(order, start, len, paths, depth);
    let ghost p0 = part(points, paths@, d, 0);
    let ghost p1 = part(points, paths@, d, 1);
    let ghost p2 = part(points, paths@, d, 2);
    let ghost p3 = part(points, paths@, d, 3);
    proof {
        quarters_hold_the_points(points, paths@, d);
        part_placed(points, paths@, d, 0);
        part_placed(points, paths@, d, 1);
        part_placed(points, paths@, d, 2);
        part_placed(points, paths@, d, 3);
    }
    let n3: usize = len - n0 - n1 - n2;
    let s1: usize = start + n0;
    let s2: usize = s1 + n1;
    let s3: usize = s2 + n2;
    cells.set(at, Cell { start: cell.start, len: cell.len, children: first as u32 });
    cells.push(Cell { start: cell.start, len: n0 as u32, children: NO_CHILDREN });
    cells.push(Cell { start: s1 as u32, len: n1 as u32, children: NO_CHILDREN });
    cells.push(Cell { start: s2 as u32, len: n2 as u32, children: NO_CHILDREN });
    cells.push(Cell { start: s3 as u32, len: n3 as u32, children: NO_CHILDREN });
    let ghost k = first as int;
    let ghost c0 = cells@;
    proof {
        an_arrangement_is_a_permutation(p0, paths@, d + 1);
        an_arrangement_is_a_permutation(p1, paths@, d + 1);
        an_arrangement_is_a_permutation(p2, paths@, d + 1);
        an_arrangement_is_a_permutation(p3, paths@, d + 1);
        splices(
            before,
            start as int,
            (p0, p1, p2, p3),
            (
                arranged(p0, paths@, d + 1),
                arranged(p1, paths@, d + 1),
                arranged(p2, paths@, d + 1),
                arranged(p3, paths@, d + 1),
            ),
        );
    }
    if !open(cells, order, levels, paths, first + 3, depth + 1) {
        return false;
    }
    let ghost c1 = cells@;
    if !open(cells, order, levels, paths, first + 2, depth + 1) {
        return false;
    }
    let ghost c2 = cells@;
    proof {
        lower(c2, k + 2, c1.len() as int, k + 4, s2 as int, p2, paths@, d + 1);
        same_cells(c1, c2, k + 3, k + 4, s3 as int, p3, paths@, d + 1);
    }
    if !open(cells, order, levels, paths, first + 1, depth + 1) {
        return false;
    }
    let ghost c3 = cells@;
    proof {
        lower(c3, k + 1, c2.len() as int, k + 4, s1 as int, p1, paths@, d + 1);
        same_cells(c2, c3, k + 3, k + 4, s3 as int, p3, paths@, d + 1);
        same_cells(c2, c3, k + 2, k + 4, s2 as int, p2, paths@, d + 1);
    }
    if !open(cells, order, levels, paths, first, depth + 1) {
        return false;
    }
    proof {
        let c4 = cells@;
        lower(c4, k, c3.len() as int, k + 4, start as int, p0, paths@, d + 1);
        same_cells(c3, c4, k + 3, k + 4, s3 as int, p3, paths@, d + 1);
        same_cells(c3, c4, k + 2, k + 4, s2 as int, p2, paths@, d + 1);
        same_cells(c3, c4, k + 1, k + 4, s1 as int, p1, paths@, d + 1);
        assert(grown(c0, c1, k + 3) && grown(c1, c2, k + 2));
        assert(grown(c2, c3, k + 1) && grown(c3, c4, k));
    }
    true
}

/// Cells that are what they should be are well shaped.
proof fn cells_are_shaped(
    cells: Seq<Cell>,
    at: int,
    low: int,
    start: int,
    points: Seq<u32>,
    paths: Seq<u128>,
    depth: nat,
)
    requires
        is_cell(cells, at, low, start, points, paths, depth),
        cells.len() < NO_CHILDREN,
    ensures
        shaped(cells, at, depth),
    decreases MAX_DEPTH - depth,
{
    if crowded(points.len(), depth) {
        let k = cells[at].children as int;
        let p0 = part(points, paths, depth, 0);
        let p1 = part(points, paths, depth, 1);
        let p2 = part(points, paths, depth, 2);
        let p3 = part(points, paths, depth, 3);
        let s1 = start + p0.len();
        let s2 = s1 + p1.len();
        let s3 = s2 + p2.len();
        quarters_hold_the_points(points, paths, depth);
        cells_are_shaped(cells, k, k + 4, start, p0, paths, depth + 1);
        cells_are_shaped(cells, k + 1, k + 4, s1, p1, paths, depth + 1);
        cells_are_shaped(cells, k + 2, k + 4, s2, p2, paths, depth + 1);
        cells_are_shaped(cells, k + 3, k + 4, s3, p3, paths, depth + 1);
        assert(is_cell(cells, k, k + 4, start, p0, paths, depth + 1));
        assert(is_cell(cells, k + 1, k + 4, s1, p1, paths, depth + 1));
        assert(is_cell(cells, k + 2, k + 4, s2, p2, paths, depth + 1));
        assert(is_cell(cells, k + 3, k + 4, s3, p3, paths, depth + 1));
        assert(quartered(cells, at));
    }
}

/// The nodes of a drawing, in a tree of squares.
pub struct Quadtree {
    cells: Vec<Cell>,
    order: Vec<u32>,
    depth: usize,
}

/// What holds of the cells over `n` nodes: there are some where there are nodes,
/// the first is the whole drawing, and all are well shaped.
pub open spec fn cells_sound(cells: Seq<Cell>, n: nat) -> bool {
    &&& cells.len() < NO_CHILDREN
    &&& n <= u32::MAX
    &&& n == 0 ==> cells.len() == 0
    &&& n > 0 ==> shaped(cells, 0, 0) && cells[0].start == 0 && cells[0].len == n
}

impl Quadtree {
    /// The cells.
    pub closed spec fn squares(&self) -> Seq<Cell> {
        self.cells@
    }

    /// The nodes, permuted so that each cell's are contiguous.
    pub closed spec fn permutation(&self) -> Seq<u32> {
        self.order@
    }

    #[verifier::type_invariant]
    spec fn sound(self) -> bool {
        &&& cells_sound(self.cells@, self.order@.len())
        &&& self.order@.to_multiset() == numbers(self.order@.len()).to_multiset()
    }

    /// Indexes nodes by the paths to where they are, unless there would be more
    /// cells than can be numbered.
    pub fn over(paths: &Vec<u128>) -> (tree: Option<Quadtree>)
        requires
            paths@.len() <= u32::MAX,
        ensures
            tree is Some <==> 1 + cells_under(numbers(paths@.len()), paths@, 0) < NO_CHILDREN,
            tree matches Some(t) ==> {
                let all = numbers(paths@.len());
                &&& t.permutation() == arranged(all, paths@, 0)
                &&& t.levels() == bottom(all, paths@, 0)
                &&& all.len() == 0 ==> t.squares().len() == 0
                &&& all.len() > 0 ==> t.squares().len() == 1 + cells_under(all, paths@, 0)
                    && is_cell(t.squares(), 0, 1, 0, all, paths@, 0)
                &&& cells_sound(t.squares(), all.len())
            },
    {
        let n: usize = paths.len();
        let mut order: Vec<u32> = Vec::with_capacity(n);
        let mut i: usize = 0;
        while i < n
            invariant
                i <= n <= u32::MAX,
                order@ == numbers(i as nat),
            decreases n - i,
        {
            order.push(i as u32);
            i += 1;
            assert(order@ =~= numbers(i as nat));
        }
        let ghost all = numbers(n as nat);
        let mut cells: Vec<Cell> = Vec::new();
        let mut depth: usize = 0;
        proof {
            an_arrangement_is_a_permutation(all, paths@, 0);
        }
        if n > 0 {
            cells.push(Cell { start: 0, len: n as u32, children: NO_CHILDREN });
            assert(points_of(cells@[0], order@) =~= all);
            if !open(&mut cells, &mut order, &mut depth, paths, 0, 0) {
                return None;
            }
            proof {
                assert(order@ =~= arranged(all, paths@, 0));
                cells_are_shaped(cells@, 0, 1, 0, all, paths@, 0);
            }
        } else {
            assert(all =~= arranged(all, paths@, 0));
        }
        Some(Quadtree { cells, order, depth })
    }

    /// How deep the tree got.
    pub closed spec fn levels(&self) -> nat {
        self.depth as nat
    }

    /// How many nodes are indexed.
    pub fn len(&self) -> (n: usize)
        ensures
            n == self.permutation().len(),
    {
        self.order.len()
    }

    /// Whether nothing is indexed.
    pub fn is_empty(&self) -> (empty: bool)
        ensures
            empty == (self.permutation().len() == 0),
    {
        self.order.len() == 0
    }

    /// How many cells the tree has.
    pub fn cells(&self) -> (n: usize)
        ensures
            n == self.squares().len(),
    {
        self.cells.len()
    }

    /// How deep it got.
    pub fn depth(&self) -> (d: usize)
        ensures
            d == self.levels(),
    {
        self.depth
    }

    /// One of the cells, if there are that many.
    pub fn cell(&self, at: u32) -> (c: Option<Cell>)
        ensures
            c is Some <==> at < self.squares().len(),
            c matches Some(cell) ==> cell == self.squares()[at as int],
    {
        if (at as usize) < self.cells.len() {
            Some(self.cells[at as usize])
        } else {
            None
        }
    }

    /// The node at one place of the permutation.
    pub fn node(&self, at: u32) -> (i: u32)
        requires
            at < self.permutation().len(),
        ensures
            i == self.permutation()[at as int],
            i < self.permutation().len(),
    {
        proof {
            use_type_invariant(&*self);
            let order = self.order@;
            let all = numbers(order.len());
            broadcast use vstd::seq_lib::group_to_multiset_ensures;

            assert(order.contains(order[at as int]));
            assert(all.to_multiset().count(order[at as int]) > 0);
            assert(all.contains(order[at as int]));
        }
        self.order[at as usize]
    }
}

/// What a walk stopped at: a range of the permutation.
#[derive(Clone, Copy, Debug, PartialEq, Eq, Structural)]
pub enum Patch {
    /// These nodes, to be drawn one by one.
    Nodes { start: u32, end: u32 },
    /// So many nodes, somewhere in the square of this cell, not worth naming one
    /// by one.
    Cluster { cell: u32, start: u32, end: u32 },
}

impl Patch {
    /// Whether a place of the permutation is in the patch.
    pub open spec fn holds(self, p: int) -> bool {
        match self {
            Patch::Nodes { start, end } => start <= p < end,
            Patch::Cluster { start, end, .. } => start <= p < end,
        }
    }

    /// How many nodes the patch stands for.
    pub open spec fn size(self) -> int {
        match self {
            Patch::Nodes { start, end } => end - start,
            Patch::Cluster { start, end, .. } => end - start,
        }
    }
}

/// The patches are of places there are.
pub open spec fn in_order(patches: Seq<Patch>, n: nat) -> bool {
    forall|i: int|
        0 <= i < patches.len() ==> match #[trigger] patches[i] {
            Patch::Nodes { start, end } => start <= end <= n,
            Patch::Cluster { start, end, .. } => start <= end <= n,
        }
}

/// Four walks, one after another.
pub open spec fn four(o: (Seq<Patch>, Seq<Patch>, Seq<Patch>, Seq<Patch>)) -> Seq<Patch> {
    o.0 + o.1 + o.2 + o.3
}

/// Whether `out` is what a walk of a cell hands back: nothing for a cell without
/// nodes or one that is not seen, the nodes of a leaf, the whole of a cell that
/// is narrow enough not to be opened, and otherwise what the four quarters hand
/// back, the last first. What is seen and what is narrow is as the two questions
/// are answered.
pub open spec fn is_walk<S: Fn(u32) -> bool, N: Fn(u32) -> bool>(
    cells: Seq<Cell>,
    at: int,
    depth: nat,
    seen: S,
    narrow: N,
    out: Seq<Patch>,
) -> bool
    decreases MAX_DEPTH - depth,
{
    let c = cells[at];
    let k = c.children as int;
    let end = (c.start + c.len) as u32;
    if c.len == 0 {
        out == Seq::<Patch>::empty()
    } else {
        ||| seen.ensures((at as u32,), false) && out == Seq::<Patch>::empty()
        ||| seen.ensures((at as u32,), true) && if c.children == NO_CHILDREN {
            out == seq![Patch::Nodes { start: c.start, end }]
        } else {
            ||| narrow.ensures((at as u32,), true) && out == seq![
                Patch::Cluster { cell: at as u32, start: c.start, end },
            ]
            ||| narrow.ensures((at as u32,), false) && depth < MAX_DEPTH && exists|
                o: (Seq<Patch>, Seq<Patch>, Seq<Patch>, Seq<Patch>),
            |
                {
                    &&& out == #[trigger] four(o)
                    &&& is_walk(cells, k + 3, depth + 1, seen, narrow, o.0)
                    &&& is_walk(cells, k + 2, depth + 1, seen, narrow, o.1)
                    &&& is_walk(cells, k + 1, depth + 1, seen, narrow, o.2)
                    &&& is_walk(cells, k, depth + 1, seen, narrow, o.3)
                }
        }
    }
}

impl Quadtree {
    /// What a walk of the whole tree hands back, at the coarseness asked for.
    /// `seen` says whether the square of a cell meets the window, and `narrow`
    /// whether it is too small to be worth opening.
    pub fn visit<S: Fn(u32) -> bool, N: Fn(u32) -> bool>(&self, seen: S, narrow: N) -> (out: Vec<
        Patch,
    >)
        requires
            forall|c: u32| c < self.squares().len() ==> seen.requires((c,)) && narrow.requires((c,)),
        ensures
            self.squares().len() == 0 ==> out@.len() == 0,
            self.squares().len() > 0 ==> is_walk(self.squares(), 0, 0, seen, narrow, out@),
            in_order(out@, self.permutation().len()),
            self.permutation().len() <= u32::MAX,
    {
        proof {
            use_type_invariant(&*self);
        }
        let mut out: Vec<Patch> = Vec::new();
        if self.cells.len() > 0 {
            self.visit_cell(0, 0, &seen, &narrow, &mut out);
            assert(out@ =~= out@.skip(0));
            proof {
                a_walk_is_of_places(self.cells@, 0, 0, seen, narrow, out@, self.order@.len());
            }
        }
        out
    }

    fn visit_cell<S: Fn(u32) -> bool, N: Fn(u32) -> bool>(
        &self,
        at: u32,
        depth: usize,
        seen: &S,
        narrow: &N,
        out: &mut Vec<Patch>,
    )
        requires
            shaped(self.squares(), at as int, depth as nat),
            depth <= MAX_DEPTH,
            self.squares().len() < NO_CHILDREN,
            self.squares()[at as int].start + self.squares()[at as int].len <= u32::MAX,
            forall|c: u32| c < self.squares().len() ==> seen.requires((c,)) && narrow.requires((c,)),
        ensures
            old(out)@.len() <= final(out)@.len(),
            final(out)@.take(old(out)@.len() as int) == old(out)@,
            is_walk(
                self.squares(),
                at as int,
                depth as nat,
                *seen,
                *narrow,
                final(out)@.skip(old(out)@.len() as int),
            ),
        decreases MAX_DEPTH - depth,
    {
        let cell = self.cells[at as usize];
        let ghost before = out@;
        let ghost n = before.len() as int;
        assert(out@.take(n) =~= before);
        assert(out@.skip(n) =~= Seq::<Patch>::empty());
        if cell.len == 0 {
            return ;
        }
        if !seen(at) {
            return ;
        }
        let end: u32 = cell.start + cell.len;
        if cell.children == NO_CHILDREN {
            out.push(Patch::Nodes { start: cell.start, end });
            assert(out@.take(n) =~= before);
            assert(out@.skip(n) =~= seq![Patch::Nodes { start: cell.start, end }]);
        } else if narrow(at) {
            out.push(Patch::Cluster { cell: at, start: cell.start, end });
            assert(out@.take(n) =~= before);
            assert(out@.skip(n) =~= seq![Patch::Cluster { cell: at, start: cell.start, end }]);
        } else {
            let k: u32 = cell.children;
            assert(quartered(self.squares(), at as int));
            self.visit_cell(k + 3, depth + 1, seen, narrow, out);
            let ghost o1 = out@;
            self.visit_cell(k + 2, depth + 1, seen, narrow, out);
            let ghost o2 = out@;
            self.visit_cell(k + 1, depth + 1, seen, narrow, out);
            let ghost o3 = out@;
            self.visit_cell(k, depth + 1, seen, narrow, out);
            proof {
                let o = (
                    o1.skip(n),
                    o2.skip(o1.len() as int),
                    o3.skip(o2.len() as int),
                    out@.skip(o3.len() as int),
                );
                walks_join(before, o1, o2, o3, out@);
                assert(out@.skip(n) == four(o));
            }
        }
    }
}

proof fn walks_join(
    before: Seq<Patch>,
    o1: Seq<Patch>,
    o2: Seq<Patch>,
    o3: Seq<Patch>,
    o4: Seq<Patch>,
)
    requires
        before.len() <= o1.len() <= o2.len() <= o3.len() <= o4.len(),
        o1.take(before.len() as int) == before,
        o2.take(o1.len() as int) == o1,
        o3.take(o2.len() as int) == o2,
        o4.take(o3.len() as int) == o3,
    ensures
        o4.take(before.len() as int) == before,
        o4.skip(before.len() as int) == four(
            (
                o1.skip(before.len() as int),
                o2.skip(o1.len() as int),
                o3.skip(o2.len() as int),
                o4.skip(o3.len() as int),
            ),
        ),
{
    let n = before.len() as int;
    assert(forall|i: int| 0 <= i < o3.len() ==> o4[i] == o4.take(o3.len() as int)[i]);
    assert(forall|i: int| 0 <= i < o2.len() ==> o3[i] == o3.take(o2.len() as int)[i]);
    assert(forall|i: int| 0 <= i < o1.len() ==> o2[i] == o2.take(o1.len() as int)[i]);
    assert(forall|i: int| 0 <= i < n ==> o1[i] == o1.take(n)[i]);
    assert(o4.take(n) =~= before);
    assert(o4.skip(n) =~= four(
        (
            o1.skip(n),
            o2.skip(o1.len() as int),
            o3.skip(o2.len() as int),
            o4.skip(o3.len() as int),
        ),
    ));
}

/// How many of the patches a place of the permutation is in.
pub open spec fn times(out: Seq<Patch>, p: int) -> nat
    decreases out.len(),
{
    if out.len() == 0 {
        0
    } else {
        times(out.drop_last(), p) + if out.last().holds(p) {
            1nat
        } else {
            0
        }
    }
}

/// How many nodes the patches stand for.
pub open spec fn total(out: Seq<Patch>) -> int
    decreases out.len(),
{
    if out.len() == 0 {
        0
    } else {
        total(out.drop_last()) + out.last().size()
    }
}

proof fn sums_join(a: Seq<Patch>, b: Seq<Patch>, p: int)
    ensures
        times(a + b, p) == times(a, p) + times(b, p),
        total(a + b) == total(a) + total(b),
    decreases b.len(),
{
    if b.len() == 0 {
        assert(a + b =~= a);
    } else {
        sums_join(a, b.drop_last(), p);
        assert((a + b).drop_last() =~= a + b.drop_last());
        assert((a + b).last() == b.last());
    }
}

proof fn sums_of_four(o: (Seq<Patch>, Seq<Patch>, Seq<Patch>, Seq<Patch>), p: int)
    ensures
        times(four(o), p) == times(o.0, p) + times(o.1, p) + times(o.2, p) + times(o.3, p),
        total(four(o)) == total(o.0) + total(o.1) + total(o.2) + total(o.3),
{
    sums_join(o.0, o.1, p);
    sums_join(o.0 + o.1, o.2, p);
    sums_join(o.0 + o.1 + o.2, o.3, p);
}

proof fn sums_of_one(patch: Patch, p: int)
    ensures
        times(seq![patch], p) == if patch.holds(p) {
            1nat
        } else {
            0
        },
        total(seq![patch]) == patch.size(),
{
    assert(seq![patch].drop_last() =~= Seq::<Patch>::empty());
    assert(times(Seq::<Patch>::empty(), p) == 0);
    assert(total(Seq::<Patch>::empty()) == 0);
}

proof fn a_walk_is_of_places<S: Fn(u32) -> bool, N: Fn(u32) -> bool>(
    cells: Seq<Cell>,
    at: int,
    depth: nat,
    seen: S,
    narrow: N,
    out: Seq<Patch>,
    n: nat,
)
    requires
        shaped(cells, at, depth),
        cells[at].start + cells[at].len <= n <= u32::MAX,
        is_walk(cells, at, depth, seen, narrow, out),
    ensures
        in_order(out, n),
    decreases MAX_DEPTH - depth,
{
    let c = cells[at];
    let k = c.children as int;
    let end = (c.start + c.len) as u32;
    if c.len > 0 && c.children != NO_CHILDREN && out != Seq::<Patch>::empty() && out != seq![
        Patch::Cluster { cell: at as u32, start: c.start, end },
    ] {
        let o = choose|o: (Seq<Patch>, Seq<Patch>, Seq<Patch>, Seq<Patch>)|
            {
                &&& out == #[trigger] four(o)
                &&& is_walk(cells, k + 3, depth + 1, seen, narrow, o.0)
                &&& is_walk(cells, k + 2, depth + 1, seen, narrow, o.1)
                &&& is_walk(cells, k + 1, depth + 1, seen, narrow, o.2)
                &&& is_walk(cells, k, depth + 1, seen, narrow, o.3)
            };
        assert(quartered(cells, at));
        a_walk_is_of_places(cells, k + 3, depth + 1, seen, narrow, o.0, n);
        a_walk_is_of_places(cells, k + 2, depth + 1, seen, narrow, o.1, n);
        a_walk_is_of_places(cells, k + 1, depth + 1, seen, narrow, o.2, n);
        a_walk_is_of_places(cells, k, depth + 1, seen, narrow, o.3, n);
        let (x, y, z) = (o.0.len(), o.1.len(), o.2.len());
        assert forall|i: int| 0 <= i < out.len() implies match #[trigger] out[i] {
            Patch::Nodes { start, end } => start <= end <= n,
            Patch::Cluster { start, end, .. } => start <= end <= n,
        } by {
            if i < x {
                assert(out[i] == o.0[i]);
            } else if i < x + y {
                assert(out[i] == o.1[i - x]);
            } else if i < x + y + z {
                assert(out[i] == o.2[i - x - y]);
            } else {
                assert(out[i] == o.3[i - x - y - z]);
            }
        }
    }
}

/// A walk names a node at most once, and none that is not under the cell it
/// walks. A node is missed only if a cell that holds it is not seen: where every
/// cell that holds it is, the walk has it exactly once, whatever is narrow.
pub proof fn a_walk_has_what_is_seen_once<S: Fn(u32) -> bool, N: Fn(u32) -> bool>(
    cells: Seq<Cell>,
    at: int,
    depth: nat,
    seen: S,
    narrow: N,
    out: Seq<Patch>,
    p: int,
)
    requires
        shaped(cells, at, depth),
        cells.len() < NO_CHILDREN,
        cells[at].start + cells[at].len <= u32::MAX,
        is_walk(cells, at, depth, seen, narrow, out),
    ensures
        times(out, p) <= 1,
        !cells[at].holds(p) ==> times(out, p) == 0,
        cells[at].holds(p) && (forall|c: u32|
            c < cells.len() && (#[trigger] cells[c as int]).holds(p) ==> !seen.ensures((c,), false))
            ==> times(out, p) == 1,
    decreases MAX_DEPTH - depth,
{
    let c = cells[at];
    let k = c.children as int;
    let end = (c.start + c.len) as u32;
    assert(times(Seq::<Patch>::empty(), p) == 0);
    if c.len > 0 {
        sums_of_one(Patch::Nodes { start: c.start, end }, p);
        sums_of_one(Patch::Cluster { cell: at as u32, start: c.start, end }, p);
        assert(cells[(at as u32) as int] == c);
        if c.children != NO_CHILDREN && out != Seq::<Patch>::empty() && out != seq![
            Patch::Cluster { cell: at as u32, start: c.start, end },
        ] {
            let o = choose|o: (Seq<Patch>, Seq<Patch>, Seq<Patch>, Seq<Patch>)|
                {
                    &&& out == #[trigger] four(o)
                    &&& is_walk(cells, k + 3, depth + 1, seen, narrow, o.0)
                    &&& is_walk(cells, k + 2, depth + 1, seen, narrow, o.1)
                    &&& is_walk(cells, k + 1, depth + 1, seen, narrow, o.2)
                    &&& is_walk(cells, k, depth + 1, seen, narrow, o.3)
                };
            sums_of_four(o, p);
            assert(quartered(cells, at));
            a_walk_has_what_is_seen_once(cells, k + 3, depth + 1, seen, narrow, o.0, p);
            a_walk_has_what_is_seen_once(cells, k + 2, depth + 1, seen, narrow, o.1, p);
            a_walk_has_what_is_seen_once(cells, k + 1, depth + 1, seen, narrow, o.2, p);
            a_walk_has_what_is_seen_once(cells, k, depth + 1, seen, narrow, o.3, p);
        } else if out == Seq::<Patch>::empty() && !seen.ensures((at as u32,), false) {
            if c.children != NO_CHILDREN {
                let o = choose|o: (Seq<Patch>, Seq<Patch>, Seq<Patch>, Seq<Patch>)|
                    {
                        &&& out == #[trigger] four(o)
                        &&& is_walk(cells, k + 3, depth + 1, seen, narrow, o.0)
                        &&& is_walk(cells, k + 2, depth + 1, seen, narrow, o.1)
                        &&& is_walk(cells, k + 1, depth + 1, seen, narrow, o.2)
                        &&& is_walk(cells, k, depth + 1, seen, narrow, o.3)
                    };
                assert(out != seq![Patch::Cluster { cell: at as u32, start: c.start, end }]) by {
                    assert(seq![
                        Patch::Cluster { cell: at as u32, start: c.start, end },
                    ].len() == 1);
                }
                sums_of_four(o, p);
                assert(quartered(cells, at));
                a_walk_has_what_is_seen_once(cells, k + 3, depth + 1, seen, narrow, o.0, p);
                a_walk_has_what_is_seen_once(cells, k + 2, depth + 1, seen, narrow, o.1, p);
                a_walk_has_what_is_seen_once(cells, k + 1, depth + 1, seen, narrow, o.2, p);
                a_walk_has_what_is_seen_once(cells, k, depth + 1, seen, narrow, o.3, p);
            } else {
                assert(seq![Patch::Nodes { start: c.start, end }].len() == 1);
            }
        }
    }
}

/// A walk that sees everything stands for every node, however coarse it is; one
/// for which nothing is narrow names every one of them.
pub proof fn a_summary_stands_for_every_node<S: Fn(u32) -> bool, N: Fn(u32) -> bool>(
    cells: Seq<Cell>,
    at: int,
    depth: nat,
    seen: S,
    narrow: N,
    out: Seq<Patch>,
)
    requires
        shaped(cells, at, depth),
        cells.len() < NO_CHILDREN,
        cells[at].start + cells[at].len <= u32::MAX,
        is_walk(cells, at, depth, seen, narrow, out),
        forall|c: u32| c < cells.len() ==> !seen.ensures((c,), false),
    ensures
        total(out) == cells[at].len,
        (forall|c: u32| c < cells.len() ==> !narrow.ensures((c,), true)) ==> forall|i: int|
            0 <= i < out.len() ==> (#[trigger] out[i]) is Nodes,
    decreases MAX_DEPTH - depth,
{
    let c = cells[at];
    let k = c.children as int;
    let end = (c.start + c.len) as u32;
    let whole = Patch::Cluster { cell: at as u32, start: c.start, end };
    assert(total(Seq::<Patch>::empty()) == 0);
    if c.len > 0 {
        sums_of_one(Patch::Nodes { start: c.start, end }, 0);
        sums_of_one(whole, 0);
        assert(!seen.ensures((at as u32,), false));
        if c.children != NO_CHILDREN && !(narrow.ensures((at as u32,), true) && out == seq![whole])
        {
            let o = choose|o: (Seq<Patch>, Seq<Patch>, Seq<Patch>, Seq<Patch>)|
                {
                    &&& out == #[trigger] four(o)
                    &&& is_walk(cells, k + 3, depth + 1, seen, narrow, o.0)
                    &&& is_walk(cells, k + 2, depth + 1, seen, narrow, o.1)
                    &&& is_walk(cells, k + 1, depth + 1, seen, narrow, o.2)
                    &&& is_walk(cells, k, depth + 1, seen, narrow, o.3)
                };
            sums_of_four(o, 0);
            assert(quartered(cells, at));
            a_summary_stands_for_every_node(cells, k + 3, depth + 1, seen, narrow, o.0);
            a_summary_stands_for_every_node(cells, k + 2, depth + 1, seen, narrow, o.1);
            a_summary_stands_for_every_node(cells, k + 1, depth + 1, seen, narrow, o.2);
            a_summary_stands_for_every_node(cells, k, depth + 1, seen, narrow, o.3);
        }
    }
}

/// Whether an entry is what a click finds: within the limit, nearer than all
/// before it and no farther than any after it.
pub open spec fn is_nearest(found: Seq<(u64, u32)>, limit: u64, i: int) -> bool {
    &&& 0 <= i < found.len()
    &&& found[i].0 <= limit
    &&& forall|j: int| 0 <= j < i ==> found[i].0 < (#[trigger] found[j]).0
    &&& forall|j: int| i < j < found.len() ==> found[i].0 <= (#[trigger] found[j]).0
}

/// The nearest of the nodes found, if one is within the limit: each comes with
/// how far it is, and of two as near the first is taken.
pub fn nearest(found: &Vec<(u64, u32)>, limit: u64) -> (node: Option<u32>)
    ensures
        node matches Some(n) ==> exists|i: int| #[trigger]
            is_nearest(found@, limit, i) && found@[i].1 == n,
        node is None <==> forall|i: int| 0 <= i < found@.len() ==> (#[trigger] found@[i]).0 > limit,
{
    let mut best: Option<usize> = None;
    let mut i: usize = 0;
    while i < found.len()
        invariant
            i <= found@.len(),
            best matches Some(b) ==> b < i && is_nearest(found@.take(i as int), limit, b as int),
            best is None ==> forall|j: int| 0 <= j < i ==> (#[trigger] found@[j]).0 > limit,
        decreases found@.len() - i,
    {
        let (d, _) = found[i];
        let closer = match best {
            None => d <= limit,
            Some(b) => d < found[b].0,
        };
        let ghost was = found@.take(i as int);
        assert(forall|j: int| #![trigger found@[j]] 0 <= j < i ==> found@[j] == was[j]);
        if closer {
            proof {
                let now = found@.take(i + 1);
                assert forall|j: int| 0 <= j < i implies now[i as int].0 < (#[trigger] now[j]).0 by {
                    assert(now[j] == found@[j] && found@[j] == was[j]);
                }
            }
            best = Some(i);
        } else if let Some(b) = best {
            proof {
                let now = found@.take(i + 1);
                assert forall|j: int| b < j < now.len() implies now[b as int].0 <= (
                #[trigger] now[j]).0 by {
                    if j < i {
                        assert(now[j] == was[j]);
                    }
                }
                assert forall|j: int| 0 <= j < b implies now[b as int].0 < (#[trigger] now[j]).0 by {
                    assert(now[j] == was[j]);
                }
                assert(now[b as int] == was[b as int]);
                assert(is_nearest(now, limit, b as int));
            }
        }
        i += 1;
    }
    assert(found@.take(found@.len() as int) =~= found@);
    match best {
        None => None,
        Some(b) => {
            assert(is_nearest(found@, limit, b as int));
            Some(found[b].1)
        },
    }
}

} // verus!
