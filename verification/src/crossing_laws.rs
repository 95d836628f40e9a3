//! What it is for an arc to pass over something, and what the labels of an input row
//! speak of.

use vstd::prelude::*;

use crate::block_scene::Arc;
use crate::crossings::{aside, line_of, passes_over, passing, place, Line, Mark, CLEARANCE, UNIT};
use crate::labels::outside;
use crate::rows::{Placed, Role};
use crate::slot_laws::how_many;

verus! {

/// A mark is one of the two ends.
pub open spec fn is_an_end(line: Line, m: Mark) -> bool {
    m.node is Some && (m.node == line.top.node || m.node == line.foot.node)
}

/// A line from one row to another passes over a mark exactly if the mark's row is one
/// that it meets, the place where it meets it is less than a node from the mark to
/// either side, and the mark is no end of it. `meets` is how far along the row that is,
/// times how deep the line is.
pub proof fn a_line_passes_over_what_it_meets(line: Line, m: Mark)
    requires
        line.top.depth < line.foot.depth,
    ensures
        ({
            let deep = line.foot.depth - line.top.depth;
            let meets = line.top.breadth * deep + (line.foot.breadth - line.top.breadth) * (m.depth
                - line.top.depth);
            passes_over(line, m) <==> {
                &&& line.top.depth <= m.depth <= line.foot.depth
                &&& (m.breadth - UNIT) * deep < meets < (m.breadth + UNIT) * deep
                &&& !is_an_end(line, m)
            }
        }),
{
    let deep = line.foot.depth - line.top.depth;
    let over = (line.foot.breadth - line.top.breadth) * (m.depth - line.top.depth);
    let (b, t, c) = (m.breadth as int, line.top.breadth as int, CLEARANCE as int);
    assert((b - t) * deep == b * deep - t * deep) by (nonlinear_arith);
    assert((b - c) * deep == b * deep - c * deep) by (nonlinear_arith);
    assert((b + c) * deep == b * deep + c * deep) by (nonlinear_arith);
    assert(-c * deep == -(c * deep)) by (nonlinear_arith);
    assert(aside(line, m.depth as int, b) == (b - t) * deep - over);
    assert(c == UNIT);
}

/// A line along a row passes over the marks strictly between its ends.
pub proof fn a_line_along_a_row_passes_over_what_is_between(line: Line, m: Mark)
    requires
        line.top.depth == line.foot.depth,
    ensures
        passes_over(line, m) <==> {
            &&& m.depth == line.top.depth
            &&& {
                ||| line.top.breadth < m.breadth < line.foot.breadth
                ||| line.foot.breadth < m.breadth < line.top.breadth
            }
            &&& !is_an_end(line, m)
        },
{
}

/// Which way an arc goes makes no difference to what it passes over.
pub proof fn an_arc_passes_over_the_same_either_way(a: Mark, b: Mark, m: Mark)
    ensures
        passes_over(line_of(a, b), m) <==> passes_over(line_of(b, a), m),
        line_of(a, b).top.depth <= line_of(a, b).foot.depth,
        line_of(a, b) == (Line { top: a, foot: b }) || line_of(a, b) == (Line { top: b, foot: a }),
{
}

/// As many arcs pass over something as pass over any of the marks, each counted once.
pub proof fn each_arc_that_passes_is_counted(
    nodes: Seq<(i64, i64)>,
    marks: Seq<Mark>,
    arcs: Seq<Arc>,
)
    ensures
        passing(nodes, marks, arcs) == how_many(
            arcs.len(),
            |x: int|
                exists|i: int|
                    0 <= i < marks.len() && passes_over(
                        line_of(place(nodes, arcs[x].from), place(nodes, arcs[x].to)),
                        #[trigger] marks[i],
                    ),
        ),
    decreases arcs.len(),
{
    if arcs.len() > 0 {
        let f = arcs.drop_last();
        each_arc_that_passes_is_counted(nodes, marks, f);
        crate::slot_laws::same_many(
            f.len(),
            |x: int|
                exists|i: int|
                    0 <= i < marks.len() && passes_over(
                        line_of(place(nodes, f[x].from), place(nodes, f[x].to)),
                        #[trigger] marks[i],
                    ),
            |x: int|
                exists|i: int|
                    0 <= i < marks.len() && passes_over(
                        line_of(place(nodes, arcs[x].from), place(nodes, arcs[x].to)),
                        #[trigger] marks[i],
                    ),
        );
    }
}

/// A node is an outside input of block `bi`.
pub open spec fn is_outside_of(p: Placed, bi: int) -> bool {
    p.role matches Role::Outside { block, .. } && block == bi
}

/// The label of an input row has the number of the outside inputs of the block, and the
/// least and the greatest of them.
pub proof fn a_label_has_the_ends_of_its_row(nodes: Seq<Placed>, bi: int)
    ensures
        ({
            let (n, low, high) = outside(nodes, bi);
            &&& n == how_many(nodes.len(), |i: int| is_outside_of(nodes[i], bi))
            &&& forall|i: int|
                0 <= i < nodes.len() && is_outside_of(#[trigger] nodes[i], bi) ==> n > 0 && low
                    <= nodes[i].graph <= high
            &&& n > 0 ==> exists|i: int|
                0 <= i < nodes.len() && is_outside_of(#[trigger] nodes[i], bi) && nodes[i].graph
                    == low
            &&& n > 0 ==> exists|i: int|
                0 <= i < nodes.len() && is_outside_of(#[trigger] nodes[i], bi) && nodes[i].graph
                    == high
        }),
    decreases nodes.len(),
{
    if nodes.len() > 0 {
        let f = nodes.drop_last();
        let k = nodes.len() - 1;
        a_label_has_the_ends_of_its_row(f, bi);
        crate::slot_laws::same_many(
            f.len(),
            |i: int| is_outside_of(f[i], bi),
            |i: int| is_outside_of(nodes[i], bi),
        );
        let (n, low, high) = outside(f, bi);
        let (m, least, most) = outside(nodes, bi);
        assert forall|i: int|
            0 <= i < nodes.len() && is_outside_of(#[trigger] nodes[i], bi) implies m > 0 && least
            <= nodes[i].graph <= most by {
            if i < k {
                assert(f[i] == nodes[i]);
            }
        }
        if n > 0 {
            let a = choose|i: int|
                0 <= i < f.len() && is_outside_of(#[trigger] f[i], bi) && f[i].graph == low;
            let b = choose|i: int|
                0 <= i < f.len() && is_outside_of(#[trigger] f[i], bi) && f[i].graph == high;
            assert(nodes[a] == f[a] && nodes[b] == f[b]);
        }
        assert(nodes[k] == nodes.last());
    }
}

} // verus!
