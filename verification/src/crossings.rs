//! Arcs that pass over what they do not end at.
//!
//! Rows are the only places anything is drawn, so an arc can only pass over
//! something where it meets a row: at the breadth where it crosses, or, for an
//! arc along a row, anywhere strictly between its ends. Marks are kept in order
//! along their rows and found by bisection, so a mesh of a million arcs that each
//! span one row costs a million lookups.
//!
//! Places are in fractions of a node, [`UNIT`] of them to the node.

use vstd::prelude::*;

use crate::block_scene::Arc;

verus! {

/// How many fractions a node is across.
pub const UNIT: i64 = 0x100_0000;

/// How close to a mark an arc may cross the mark's row before it is counted as
/// passing over it: half a slot, which is a node.
pub const CLEARANCE: i64 = 0x100_0000;

/// As far out as a place can be: sixteen times as many nodes as can be numbered.
pub const FAR: i64 = 0x1000_0000_0000_0000;

/// A mark on a row: a node, or an ellipsis, which is none.
#[derive(Clone, Copy, Debug, PartialEq, Eq, Structural)]
pub struct Mark {
    /// How far along the depth of the drawing its row is.
    pub depth: i64,
    /// How far along its row it is.
    pub breadth: i64,
    pub node: Option<u32>,
}

/// Whether a place is within reach.
pub open spec fn near(m: Mark) -> bool {
    -FAR <= m.depth <= FAR && -FAR <= m.breadth <= FAR
}

/// Whether all places are within reach.
pub open spec fn all_near(marks: Seq<Mark>) -> bool {
    forall|i: int| 0 <= i < marks.len() ==> near(#[trigger] marks[i])
}

/// An arc from one place to another that is no less deep.
#[derive(Clone, Copy, Debug, PartialEq, Eq, Structural)]
pub struct Line {
    pub top: Mark,
    pub foot: Mark,
}

/// How far a place on the row at `depth` is to the side of where the line
/// crosses that row, times how deep the line is.
pub open spec fn aside(line: Line, depth: int, breadth: int) -> int {
    (breadth - line.top.breadth) * (line.foot.depth - line.top.depth) - (line.foot.breadth
        - line.top.breadth) * (depth - line.top.depth)
}

/// Whether a place on a row that the line meets is past the near edge of what the
/// line covers of it.
pub open spec fn past_edge(line: Line, depth: int, breadth: int) -> bool {
    let deep = line.foot.depth - line.top.depth;
    if deep == 0 {
        line.top.breadth < breadth || line.foot.breadth < breadth
    } else {
        aside(line, depth, breadth) > -CLEARANCE * deep
    }
}

/// Whether it is before the far edge.
pub open spec fn before_edge(line: Line, depth: int, breadth: int) -> bool {
    let deep = line.foot.depth - line.top.depth;
    if deep == 0 {
        breadth < line.top.breadth || breadth < line.foot.breadth
    } else {
        aside(line, depth, breadth) < CLEARANCE * deep
    }
}

/// Whether a mark is one of the ends of a line.
pub open spec fn ends(line: Line, m: Mark) -> bool {
    m.node is Some && (m.node == line.top.node || m.node == line.foot.node)
}

/// Whether a line passes over a mark: it meets the mark's row, close to the mark
/// or on both sides of it, and does not end at it.
pub open spec fn passes_over(line: Line, m: Mark) -> bool {
    &&& line.top.depth <= m.depth <= line.foot.depth
    &&& past_edge(line, m.depth as int, m.breadth as int)
    &&& before_edge(line, m.depth as int, m.breadth as int)
    &&& !ends(line, m)
}

/// Whether a line passes over any of the marks.
pub open spec fn passes_over_any(line: Line, marks: Seq<Mark>) -> bool {
    exists|i: int| 0 <= i < marks.len() && passes_over(line, #[trigger] marks[i])
}

/// The line of an arc between two nodes.
pub open spec fn line_of(a: Mark, b: Mark) -> Line {
    if a.depth <= b.depth {
        Line { top: a, foot: b }
    } else {
        Line { top: b, foot: a }
    }
}

/// Where a node is, with its number.
pub open spec fn place(nodes: Seq<(i64, i64)>, i: u32) -> Mark {
    Mark { depth: nodes[i as int].0, breadth: nodes[i as int].1, node: Some(i) }
}

/// How many of the arcs pass over a mark.
pub open spec fn passing(nodes: Seq<(i64, i64)>, marks: Seq<Mark>, arcs: Seq<Arc>) -> nat
    decreases arcs.len(),
{
    if arcs.len() == 0 {
        0
    } else {
        let a = arcs.last();
        passing(nodes, marks, arcs.drop_last()) + if passes_over_any(
            line_of(place(nodes, a.from), place(nodes, a.to)),
            marks,
        ) {
            1nat
        } else {
            0
        }
    }
}

/// Whether one mark comes before another, row by row and along the row, or at the
/// same place.
pub open spec fn comes_first(a: Mark, b: Mark) -> bool {
    a.depth < b.depth || a.depth == b.depth && a.breadth <= b.breadth
}

/// The marks are in order.
pub open spec fn in_order(marks: Seq<Mark>) -> bool {
    forall|i: int, j: int|
        0 <= i < j < marks.len() ==> comes_first(#[trigger] marks[i], #[trigger] marks[j])
}

fn merge(a: &Vec<Mark>, b: &Vec<Mark>) -> (out: Vec<Mark>)
    requires
        in_order(a@),
        in_order(b@),
    ensures
        in_order(out@),
        forall|m: Mark| #[trigger] out@.contains(m) <==> a@.contains(m) || b@.contains(m),
{
    let mut out: Vec<Mark> = Vec::new();
    let mut i: usize = 0;
    let mut j: usize = 0;
    while i < a.len() || j < b.len()
        invariant
            i <= a@.len(),
            j <= b@.len(),
            in_order(a@),
            in_order(b@),
            in_order(out@),
            forall|x: int, k: int|
                0 <= x < out@.len() && i <= k < a@.len() ==> comes_first(
                    #[trigger] out@[x],
                    #[trigger] a@[k],
                ),
            forall|x: int, k: int|
                0 <= x < out@.len() && j <= k < b@.len() ==> comes_first(
                    #[trigger] out@[x],
                    #[trigger] b@[k],
                ),
            forall|x: int|
                0 <= x < out@.len() ==> a@.contains(#[trigger] out@[x]) || b@.contains(out@[x]),
            forall|k: int| 0 <= k < i ==> out@.contains(#[trigger] a@[k]),
            forall|k: int| 0 <= k < j ==> out@.contains(#[trigger] b@[k]),
        decreases a@.len() - i + b@.len() - j,
    {
        let from_a = if i >= a.len() {
            false
        } else if j >= b.len() {
            true
        } else {
            a[i].depth < b[j].depth || a[i].depth == b[j].depth && a[i].breadth <= b[j].breadth
        };
        let ghost before = out@;
        if from_a {
            let m = a[i];
            out.push(m);
            assert(out@[before.len() as int] == m);
            assert(a@.contains(m));
            i += 1;
        } else {
            let m = b[j];
            out.push(m);
            assert(out@[before.len() as int] == m);
            assert(b@.contains(m));
            j += 1;
        }
        assert forall|x: usize| #![trigger before[x as int]] x < before.len() implies out@[x as int]
            == before[x as int] by {}
        assert forall|k: int| 0 <= k < i implies out@.contains(#[trigger] a@[k]) by {
            if before.contains(a@[k]) {
                let x = before.index_of(a@[k]);
                assert(out@[x] == a@[k]);
            }
        }
        assert forall|k: int| 0 <= k < j implies out@.contains(#[trigger] b@[k]) by {
            if before.contains(b@[k]) {
                let x = before.index_of(b@[k]);
                assert(out@[x] == b@[k]);
            }
        }
    }
    assert forall|m: Mark| #[trigger] out@.contains(m) <==> a@.contains(m) || b@.contains(m) by {
        if out@.contains(m) {
            let x = out@.index_of(m);
            assert(out@[x] == m);
        }
        if a@.contains(m) {
            let k = a@.index_of(m);
            assert(out@.contains(a@[k]));
        }
        if b@.contains(m) {
            let k = b@.index_of(m);
            assert(out@.contains(b@[k]));
        }
    }
    out
}

/// The marks from `from` to `to`, in order.
fn sort(marks: &Vec<Mark>, from: usize, to: usize) -> (out: Vec<Mark>)
    requires
        from <= to <= marks@.len(),
    ensures
        in_order(out@),
        forall|m: Mark| #[trigger]
            out@.contains(m) <==> marks@.subrange(from as int, to as int).contains(m),
    decreases to - from,
{
    let ghost all = marks@.subrange(from as int, to as int);
    if to - from < 2 {
        let mut out: Vec<Mark> = Vec::new();
        if from < to {
            out.push(marks[from]);
        }
        assert(out@ =~= all);
        return out;
    }
    let mid: usize = from + (to - from) / 2;
    let a = sort(marks, from, mid);
    let b = sort(marks, mid, to);
    let out = merge(&a, &b);
    proof {
        let left = marks@.subrange(from as int, mid as int);
        let right = marks@.subrange(mid as int, to as int);
        assert(all =~= left + right);
        assert forall|m: Mark| #[trigger] out@.contains(m) <==> all.contains(m) by {
            if left.contains(m) {
                let k = left.index_of(m);
                assert(all[k] == m);
            }
            if right.contains(m) {
                let k = right.index_of(m);
                assert(all[left.len() + k] == m);
            }
            if all.contains(m) {
                let k = all.index_of(m);
                if k < left.len() {
                    assert(left[k] == m);
                } else {
                    assert(right[k - left.len()] == m);
                }
            }
            assert(a@.contains(m) <==> left.contains(m));
            assert(b@.contains(m) <==> right.contains(m));
        }
    }
    out
}

/// The first of the marks, which are in order, that is at least so deep.
fn first_at(marks: &Vec<Mark>, depth: i64) -> (at: usize)
    requires
        in_order(marks@),
    ensures
        at <= marks@.len(),
        forall|i: int| 0 <= i < at ==> (#[trigger] marks@[i]).depth < depth,
        forall|i: int| at <= i < marks@.len() ==> (#[trigger] marks@[i]).depth >= depth,
{
    let mut lo: usize = 0;
    let mut hi: usize = marks.len();
    while lo < hi
        invariant
            lo <= hi <= marks@.len(),
            in_order(marks@),
            forall|i: int| 0 <= i < lo ==> (#[trigger] marks@[i]).depth < depth,
            forall|i: int| hi <= i < marks@.len() ==> (#[trigger] marks@[i]).depth >= depth,
        decreases hi - lo,
    {
        let mid: usize = lo + (hi - lo) / 2;
        if marks[mid].depth < depth {
            assert forall|i: int| 0 <= i < mid + 1 implies (#[trigger] marks@[i]).depth
                < depth by {
                if i < mid {
                    assert(comes_first(marks@[i], marks@[mid as int]));
                }
            }
            lo = mid + 1;
        } else {
            assert forall|i: int| mid <= i < marks@.len() implies (#[trigger] marks@[i]).depth
                >= depth by {
                if i > mid {
                    assert(comes_first(marks@[mid as int], marks@[i]));
                }
            }
            hi = mid;
        }
    }
    lo
}

proof fn products_are_small(a: int, b: int)
    requires
        -2 * FAR <= a <= 2 * FAR,
        -2 * FAR <= b <= 2 * FAR,
    ensures
        -4 * FAR * FAR <= a * b <= 4 * FAR * FAR,
{
    assert(a * b <= 4 * FAR * FAR && a * b >= -4 * FAR * FAR) by (nonlinear_arith)
        requires
            -2 * FAR <= a <= 2 * FAR,
            -2 * FAR <= b <= 2 * FAR,
    ;
}

fn is_past_edge(line: &Line, depth: i64, breadth: i64) -> (b: bool)
    requires
        near(line.top),
        near(line.foot),
        line.top.depth <= line.foot.depth,
        -FAR <= depth <= FAR,
        -FAR <= breadth <= FAR,
    ensures
        b == past_edge(*line, depth as int, breadth as int),
{
    let deep: i128 = line.foot.depth as i128 - line.top.depth as i128;
    if deep == 0 {
        line.top.breadth < breadth || line.foot.breadth < breadth
    } else {
        proof {
            products_are_small(breadth - line.top.breadth, deep as int);
            products_are_small(line.foot.breadth - line.top.breadth, depth - line.top.depth);
            products_are_small(CLEARANCE as int, deep as int);
        }
        (breadth as i128 - line.top.breadth as i128) * deep - (line.foot.breadth as i128
            - line.top.breadth as i128) * (depth as i128 - line.top.depth as i128) > -(
        CLEARANCE as i128 * deep)
    }
}

fn is_before_edge(line: &Line, depth: i64, breadth: i64) -> (b: bool)
    requires
        near(line.top),
        near(line.foot),
        line.top.depth <= line.foot.depth,
        -FAR <= depth <= FAR,
        -FAR <= breadth <= FAR,
    ensures
        b == before_edge(*line, depth as int, breadth as int),
{
    let deep: i128 = line.foot.depth as i128 - line.top.depth as i128;
    if deep == 0 {
        breadth < line.top.breadth || breadth < line.foot.breadth
    } else {
        proof {
            products_are_small(breadth - line.top.breadth, deep as int);
            products_are_small(line.foot.breadth - line.top.breadth, depth - line.top.depth);
            products_are_small(CLEARANCE as int, deep as int);
        }
        (breadth as i128 - line.top.breadth as i128) * deep - (line.foot.breadth as i128
            - line.top.breadth as i128) * (depth as i128 - line.top.depth as i128)
            < CLEARANCE as i128 * deep
    }
}

/// Further along a row is past the near edge if anything before it is, and before
/// the far edge only if everything before it is.
proof fn edges_in_order(line: Line, depth: int, a: int, b: int)
    requires
        line.top.depth <= line.foot.depth,
        a <= b,
    ensures
        past_edge(line, depth, a) ==> past_edge(line, depth, b),
        before_edge(line, depth, b) ==> before_edge(line, depth, a),
{
    let deep = line.foot.depth - line.top.depth;
    let s = line.top.breadth as int;
    assert((a - s) * deep <= (b - s) * deep) by (nonlinear_arith)
        requires
            a <= b,
            deep >= 0,
    ;
}

/// The first mark of a row, which is `from` to `to` of the marks, that is past the
/// near edge.
fn first_past(marks: &Vec<Mark>, line: &Line, depth: i64, from: usize, to: usize) -> (at: usize)
    requires
        in_order(marks@),
        all_near(marks@),
        near(line.top),
        near(line.foot),
        line.top.depth <= line.foot.depth,
        from <= to <= marks@.len(),
        -FAR <= depth <= FAR,
        forall|i: int| from <= i < to ==> (#[trigger] marks@[i]).depth == depth,
    ensures
        from <= at <= to,
        forall|i: int|
            from <= i < at ==> !past_edge(
                *line,
                depth as int,
                (#[trigger] marks@[i]).breadth as int,
            ),
        forall|i: int|
            at <= i < to ==> past_edge(*line, depth as int, (#[trigger] marks@[i]).breadth as int),
{
    let mut lo: usize = from;
    let mut hi: usize = to;
    while lo < hi
        invariant
            from <= lo <= hi <= to <= marks@.len(),
            in_order(marks@),
            all_near(marks@),
            near(line.top),
            near(line.foot),
            line.top.depth <= line.foot.depth,
            -FAR <= depth <= FAR,
            forall|i: int| from <= i < to ==> (#[trigger] marks@[i]).depth == depth,
            forall|i: int|
                from <= i < lo ==> !past_edge(
                    *line,
                    depth as int,
                    (#[trigger] marks@[i]).breadth as int,
                ),
            forall|i: int|
                hi <= i < to ==> past_edge(
                    *line,
                    depth as int,
                    (#[trigger] marks@[i]).breadth as int,
                ),
        decreases hi - lo,
    {
        let mid: usize = lo + (hi - lo) / 2;
        assert(near(marks@[mid as int]));
        if is_past_edge(line, depth, marks[mid].breadth) {
            assert forall|i: int| mid <= i < to implies past_edge(
                *line,
                depth as int,
                (#[trigger] marks@[i]).breadth as int,
            ) by {
                if i > mid {
                    assert(marks@[mid as int].depth == depth && marks@[i].depth == depth);
                    assert(comes_first(marks@[mid as int], marks@[i]));
                    edges_in_order(
                        *line,
                        depth as int,
                        marks@[mid as int].breadth as int,
                        marks@[i].breadth as int,
                    );
                }
            }
            hi = mid;
        } else {
            assert forall|i: int| from <= i < mid + 1 implies !past_edge(
                *line,
                depth as int,
                (#[trigger] marks@[i]).breadth as int,
            ) by {
                if i < mid {
                    assert(marks@[mid as int].depth == depth && marks@[i].depth == depth);
                    assert(comes_first(marks@[i], marks@[mid as int]));
                    edges_in_order(
                        *line,
                        depth as int,
                        marks@[i].breadth as int,
                        marks@[mid as int].breadth as int,
                    );
                }
            }
            lo = mid + 1;
        }
    }
    lo
}

/// Whether a line passes over a mark of one row, which is `from` to `to` of the
/// marks.
fn crosses_row(marks: &Vec<Mark>, line: &Line, from: usize, to: usize) -> (b: bool)
    requires
        in_order(marks@),
        all_near(marks@),
        near(line.top),
        near(line.foot),
        from < to <= marks@.len(),
        line.top.depth <= marks@[from as int].depth <= line.foot.depth,
        forall|i: int| from <= i < to ==> (#[trigger] marks@[i]).depth == marks@[from as int].depth,
    ensures
        b == (exists|i: int| from <= i < to && passes_over(*line, #[trigger] marks@[i])),
{
    let depth: i64 = marks[from].depth;
    assert(near(marks@[from as int]));
    let mut k: usize = first_past(marks, line, depth, from, to);
    while k < to
        invariant
            from <= k <= to <= marks@.len(),
            in_order(marks@),
            all_near(marks@),
            near(line.top),
            near(line.foot),
            line.top.depth <= depth <= line.foot.depth,
            -FAR <= depth <= FAR,
            forall|i: int| from <= i < to ==> (#[trigger] marks@[i]).depth == depth,
            forall|i: int| from <= i < k ==> !passes_over(*line, #[trigger] marks@[i]),
            forall|i: int|
                k <= i < to ==> past_edge(
                    *line,
                    depth as int,
                    (#[trigger] marks@[i]).breadth as int,
                ),
        decreases to - k,
    {
        let m = marks[k];
        assert(near(marks@[k as int]));
        if !is_before_edge(line, depth, m.breadth) {
            assert forall|i: int| from <= i < to implies !passes_over(*line, #[trigger] marks@[i]) by {
                if i > k {
                    assert(marks@[k as int].depth == depth && marks@[i].depth == depth);
                    assert(comes_first(marks@[k as int], marks@[i]));
                    edges_in_order(
                        *line,
                        depth as int,
                        m.breadth as int,
                        marks@[i].breadth as int,
                    );
                }
            }
            return false;
        }
        let own = m.node.is_some() && (same_node(m.node, line.top.node) || same_node(
            m.node,
            line.foot.node,
        ));
        if !own {
            assert(passes_over(*line, marks@[k as int]));
            return true;
        }
        k += 1;
    }
    false
}

fn same_node(a: Option<u32>, b: Option<u32>) -> (same: bool)
    ensures
        same == (a == b),
{
    match (a, b) {
        (Some(x), Some(y)) => x == y,
        (None, None) => true,
        _ => false,
    }
}

/// Whether a line passes over any of the marks, which are in order.
fn crosses(marks: &Vec<Mark>, line: &Line) -> (b: bool)
    requires
        in_order(marks@),
        all_near(marks@),
        near(line.top),
        near(line.foot),
        line.top.depth <= line.foot.depth,
    ensures
        b == passes_over_any(*line, marks@),
{
    let n: usize = marks.len();
    let mut p: usize = first_at(marks, line.top.depth);
    while p < n && marks[p].depth <= line.foot.depth
        invariant
            p <= n == marks@.len(),
            in_order(marks@),
            all_near(marks@),
            near(line.top),
            near(line.foot),
            line.top.depth <= line.foot.depth,
            forall|i: int| p <= i < n ==> (#[trigger] marks@[i]).depth >= line.top.depth,
            forall|i: int| 0 <= i < p ==> !passes_over(*line, #[trigger] marks@[i]),
        decreases n - p,
    {
        let depth: i64 = marks[p].depth;
        assert(near(marks@[p as int]));
        let end: usize = first_at(marks, depth + 1);
        assert(p < end) by {
            if end <= p {
                assert(marks@[p as int].depth >= depth + 1);
            }
        }
        assert forall|i: int| p <= i < end implies (#[trigger] marks@[i]).depth == depth by {
            if i > p {
                assert(comes_first(marks@[p as int], marks@[i]));
            }
        }
        if crosses_row(marks, line, p, end) {
            return true;
        }
        p = end;
    }
    assert forall|i: int| 0 <= i < n implies !passes_over(*line, #[trigger] marks@[i]) by {
        if i > p {
            assert(comes_first(marks@[p as int], marks@[i]));
        }
    }
    false
}

/// How many of the arcs cross a row close to a node or an ellipsis they do not end
/// at. `nodes` has the depth and the breadth of every node, `ellipses` those of
/// every ellipsis.
pub fn arcs_over_nodes(nodes: &Vec<(i64, i64)>, ellipses: &Vec<(i64, i64)>, arcs: &Vec<Arc>) -> (
n: u64)
    requires
        nodes@.len() <= u32::MAX,
        all_near(all_marks(nodes@, ellipses@)),
        forall|i: int|
            0 <= i < arcs@.len() ==> (#[trigger] arcs@[i]).from < nodes@.len() && arcs@[i].to
                < nodes@.len(),
    ensures
        n == passing(nodes@, all_marks(nodes@, ellipses@), arcs@),
{
    let ghost wanted = all_marks(nodes@, ellipses@);
    let mut marks: Vec<Mark> = Vec::new();
    let mut i: usize = 0;
    while i < nodes.len()
        invariant
            i <= nodes@.len() <= u32::MAX,
            wanted == all_marks(nodes@, ellipses@),
            marks@ == wanted.take(i as int),
        decreases nodes@.len() - i,
    {
        marks.push(Mark { depth: nodes[i].0, breadth: nodes[i].1, node: Some(i as u32) });
        i += 1;
        assert(marks@ =~= wanted.take(i as int));
    }
    let mut k: usize = 0;
    while k < ellipses.len()
        invariant
            k <= ellipses@.len(),
            wanted == all_marks(nodes@, ellipses@),
            marks@ == wanted.take(nodes@.len() + k),
        decreases ellipses@.len() - k,
    {
        marks.push(Mark { depth: ellipses[k].0, breadth: ellipses[k].1, node: None });
        k += 1;
        assert(marks@ =~= wanted.take(nodes@.len() + k));
    }
    assert(marks@ =~= wanted);
    let sorted = sort(&marks, 0, marks.len());
    proof {
        assert(marks@.subrange(0, marks@.len() as int) =~= wanted);
        assert forall|i: int| 0 <= i < sorted@.len() implies near(#[trigger] sorted@[i]) by {
            assert(sorted@.contains(sorted@[i]));
            let x = wanted.index_of(sorted@[i]);
            assert(near(wanted[x]));
        }
    }
    let mut n: u64 = 0;
    let mut a: usize = 0;
    while a < arcs.len()
        invariant
            a <= arcs@.len(),
            n <= a,
            wanted == all_marks(nodes@, ellipses@),
            all_near(wanted),
            nodes@.len() <= u32::MAX,
            forall|i: int|
                0 <= i < arcs@.len() ==> (#[trigger] arcs@[i]).from < nodes@.len() && arcs@[i].to
                    < nodes@.len(),
            in_order(sorted@),
            all_near(sorted@),
            forall|m: Mark| #[trigger] sorted@.contains(m) <==> wanted.contains(m),
            n == passing(nodes@, wanted, arcs@.take(a as int)),
        decreases arcs@.len() - a,
    {
        let arc = arcs[a];
        let (f, t) = (nodes[arc.from as usize], nodes[arc.to as usize]);
        let from = Mark { depth: f.0, breadth: f.1, node: Some(arc.from) };
        let to = Mark { depth: t.0, breadth: t.1, node: Some(arc.to) };
        proof {
            assert(wanted[arc.from as int] == from);
            assert(wanted[arc.to as int] == to);
            assert(arcs@.take(a + 1).drop_last() =~= arcs@.take(a as int));
            assert(arcs@.take(a + 1).last() == arc);
        }
        let line = if from.depth <= to.depth {
            Line { top: from, foot: to }
        } else {
            Line { top: to, foot: from }
        };
        proof {
            if passes_over_any(line, sorted@) {
                let x = choose|x: int|
                    0 <= x < sorted@.len() && passes_over(line, #[trigger] sorted@[x]);
                assert(sorted@.contains(sorted@[x]));
                let y = wanted.index_of(sorted@[x]);
                assert(passes_over(line, wanted[y]));
            }
            if passes_over_any(line, wanted) {
                let y = choose|y: int|
                    0 <= y < wanted.len() && passes_over(line, #[trigger] wanted[y]);
                assert(sorted@.contains(wanted[y]));
                let x = sorted@.index_of(wanted[y]);
                assert(passes_over(line, sorted@[x]));
            }
        }
        if crosses(&sorted, &line) {
            n += 1;
        }
        a += 1;
    }
    assert(arcs@.take(arcs@.len() as int) =~= arcs@);
    n
}

/// Everything on the rows: the nodes by their numbers, and the ellipses.
pub open spec fn all_marks(nodes: Seq<(i64, i64)>, ellipses: Seq<(i64, i64)>) -> Seq<Mark> {
    Seq::new(
        nodes.len() + ellipses.len(),
        |i: int|
            if i < nodes.len() {
                place(nodes, i as u32)
            } else {
                Mark {
                    depth: ellipses[i - nodes.len()].0,
                    breadth: ellipses[i - nodes.len()].1,
                    node: None,
                }
            },
    )
}

/// Whether a mark is the end of a line, or clear of it along the row.
pub open spec fn clear_of(m: Mark, end: Mark) -> bool {
    m.node == end.node || m.breadth - end.breadth >= CLEARANCE || end.breadth - m.breadth
        >= CLEARANCE
}

/// Only an arc that skips a row can pass over anything: one between neighbouring
/// rows, clear of everything beside its ends, passes over nothing.
pub proof fn an_arc_between_neighbouring_rows_passes_over_nothing(line: Line, marks: Seq<Mark>)
    requires
        line.top.depth < line.foot.depth,
        line.top.node is Some,
        line.foot.node is Some,
        forall|i: int|
            0 <= i < marks.len() ==> {
                ||| (#[trigger] marks[i]).depth < line.top.depth
                ||| marks[i].depth == line.top.depth && clear_of(marks[i], line.top)
                ||| marks[i].depth == line.foot.depth && clear_of(marks[i], line.foot)
                ||| marks[i].depth > line.foot.depth
            },
    ensures
        !passes_over_any(line, marks),
{
    let deep = line.foot.depth - line.top.depth;
    assert forall|i: int| 0 <= i < marks.len() implies !passes_over(line, #[trigger] marks[i]) by {
        let m = marks[i];
        let across = line.foot.breadth - line.top.breadth;
        let off = m.breadth - line.top.breadth;
        if m.depth == line.top.depth {
            assert(across * 0 == 0);
            assert(aside(line, m.depth as int, m.breadth as int) == off * deep);
            assert(off >= CLEARANCE ==> off * deep >= CLEARANCE * deep) by (nonlinear_arith)
                requires
                    deep > 0,
            ;
            assert(off <= -CLEARANCE ==> off * deep <= -CLEARANCE * deep) by (nonlinear_arith)
                requires
                    deep > 0,
            ;
        } else if m.depth == line.foot.depth {
            let past = m.breadth - line.foot.breadth;
            assert(off * deep - across * deep == past * deep) by (nonlinear_arith)
                requires
                    off - across == past,
            ;
            assert(past >= CLEARANCE ==> past * deep >= CLEARANCE * deep) by (nonlinear_arith)
                requires
                    deep > 0,
            ;
            assert(past <= -CLEARANCE ==> past * deep <= -CLEARANCE * deep) by (nonlinear_arith)
                requires
                    deep > 0,
            ;
        }
    }
}

} // verus!
