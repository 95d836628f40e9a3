//! How far the arcs of a drawing of blocks reach.

use vstd::prelude::*;

use crate::block_places::{ground, Corner, Ground};
use crate::block_scene::{
    arc_of, block_arcs, drawn_arcs, fan, laid_out, strays, strays_into, Arc, ArcKind, BlockScene,
    SceneView,
};
use crate::blocks::BlockView;
use crate::boxes::{
    beside, block_box, box_row, box_tree, has_in_box, in_box, in_boxes_before, kids_of,
    outside_box, outside_boxes, outside_boxes_count, seeds_of, whole_row, BoxView,
};
use crate::budget_laws::{shows_in, shows_out};
use crate::crossings::UNIT;
use crate::graph::Lists;
use crate::kept::{ascending, shown_is_exact, span, Slot};
use crate::node_laws::{is_drawn, slots_keep_roles, who_is_drawn_where};
use crate::report::Report;
use crate::rows::{
    node_of_is_in, output_nodes, outputs_of, seat_slot, seat_slots,
    seated_inputs, Placed, Role, RowSlot, Seating,
};
use crate::settle::{all_blocks, ascending_filter, hangs, parents_within};
use crate::settle_laws::fits_after;
use crate::walk_laws::{a_parent_comes_first, linked};

verus! {

/// The ground of a drawing: its boxes, which of them have outside inputs, and how
/// long its rows are.
pub open spec fn is_ground_of(gr: Ground, scene: SceneView) -> bool {
    &&& gr.boxes == scene.boxes
    &&& gr.corners.len() == scene.boxes.len()
    &&& gr.in_boxes.len() == scene.blocks.len()
    &&& forall|c: int|
        0 <= c < scene.blocks.len() ==> #[trigger] gr.in_boxes[c] == if has_in_box(
            scene.blocks,
            scene.in_rows,
            c,
        ) {
            Some(in_box(scene.blocks, scene.in_rows, c))
        } else {
            None
        }
    &&& gr.in_rows.len() == scene.blocks.len()
    &&& gr.out_rows.len() == scene.blocks.len()
}

/// Box `c` hangs under box `b`.
pub open spec fn is_box_under(boxes: Seq<BoxView>, b: int, c: usize) -> bool {
    0 <= b < boxes.len() && boxes[b].children.contains(c)
}

/// Every box begins where the one it hangs under ends.
pub open spec fn stacked(gr: Ground) -> bool {
    forall|b: int, c: usize| #[trigger]
        is_box_under(gr.boxes, b, c) ==> c < gr.corners.len() && gr.corners[c as int].depth
            == gr.corners[b].depth + gr.boxes[b].rows * UNIT
}

/// How deep a node is.
pub open spec fn depth_of(gr: Ground, p: Placed) -> int {
    (gr.node(p)->0).0
}

/// Every node that is an outside input of a block is on an input row.
spec fn on_rows(nodes: Seq<Placed>, rows: Seq<Seq<RowSlot>>) -> bool {
    forall|i: int|
        0 <= i < nodes.len() ==> ((#[trigger] nodes[i]).role matches Role::Outside { block, .. }
            ==> block < rows.len() && rows[block as int].len() > 0)
}

/// The same, but for the block in hand, whose row is still to be laid.
spec fn on_rows_but(nodes: Seq<Placed>, rows: Seq<Seq<RowSlot>>, row: Seq<RowSlot>) -> bool {
    forall|i: int|
        0 <= i < nodes.len() ==> ((#[trigger] nodes[i]).role matches Role::Outside { block, .. }
            ==> {
            ||| block < rows.len() && rows[block as int].len() > 0
            ||| block == rows.len() && row.len() > 0
        })
}

proof fn seating_is_on_rows(
    g: Lists,
    t: Lists,
    b: BlockView,
    bi: int,
    st: Seating,
    slots: Seq<Slot>,
    k: int,
    rows: Seq<Seq<RowSlot>>,
)
    requires
        0 <= bi == rows.len() <= u32::MAX,
        on_rows_but(st.nodes, rows, st.row),
    ensures
        ({
            let end = seat_slots(g, t, b, bi, st, slots, k);
            on_rows_but(end.nodes, rows, end.row)
        }),
    decreases slots.len() - k,
{
    if k < slots.len() {
        let next = seat_slot(g, t, b, bi, st, slots[k]);
        if let Slot::Node(ii) = slots[k] {
            node_of_is_in(st.nodes, b.inputs[ii as int]);
        }
        assert forall|i: int| 0 <= i < next.nodes.len() implies ((
        #[trigger] next.nodes[i]).role matches Role::Outside { block, .. } ==> {
            ||| block < rows.len() && rows[block as int].len() > 0
            ||| block == rows.len() && next.row.len() > 0
        }) by {
            if i < st.nodes.len() {
                assert(next.nodes[i].role == st.nodes[i].role);
            }
        }
        seating_is_on_rows(g, t, b, bi, next, slots, k + 1, rows);
    }
}

proof fn outputs_are_outputs(g: Lists, blocks: Seq<BlockView>)
    ensures
        forall|i: int|
            0 <= i < output_nodes(g, blocks).len() ==> (#[trigger] output_nodes(
                g,
                blocks,
            )[i]).role is Output,
    decreases blocks.len(),
{
    if blocks.len() > 0 {
        outputs_are_outputs(g, blocks.drop_last());
        let front = output_nodes(g, blocks.drop_last());
        let back = outputs_of(g, blocks.last(), blocks.len() - 1);
        let all = output_nodes(g, blocks);
        assert forall|i: int| 0 <= i < all.len() implies (#[trigger] all[i]).role is Output by {
            if i < front.len() {
                assert(all[i] == front[i]);
            } else {
                assert(all[i] == back[i - front.len()]);
            }
        }
    }
}

proof fn seated_is_on_rows(g: Lists, t: Lists, blocks: Seq<BlockView>, count: nat)
    requires
        count <= blocks.len() <= u32::MAX,
    ensures
        seated_inputs(g, t, blocks, count).in_rows.len() == count,
        on_rows(
            seated_inputs(g, t, blocks, count).nodes,
            seated_inputs(g, t, blocks, count).in_rows,
        ),
    decreases count,
{
    if count == 0 {
        outputs_are_outputs(g, blocks);
    } else {
        seated_is_on_rows(g, t, blocks, (count - 1) as nat);
        let st = seated_inputs(g, t, blocks, (count - 1) as nat);
        let b = blocks[count - 1];
        let start = Seating { nodes: st.nodes, row: Seq::empty(), drawn: 0 };
        let slots = b.kept_in.row(b.inputs.len());
        seating_is_on_rows(g, t, b, count - 1, start, slots, 0, st.in_rows);
        let end = seated_inputs(g, t, blocks, count);
        let one = seat_slots(g, t, b, count - 1, start, slots, 0);
        assert(end.in_rows == st.in_rows.push(one.row));
        assert forall|i: int| 0 <= i < end.nodes.len() implies ((
        #[trigger] end.nodes[i]).role matches Role::Outside { block, .. } ==> block
            < end.in_rows.len() && end.in_rows[block as int].len() > 0) by {
            assert(one.nodes[i].role == end.nodes[i].role);
        }
    }
}

/// An arc of a block's, from a kept input to a kept output.
pub(crate) open spec fn is_own_arc(
    nodes: Seq<Placed>,
    blocks: Seq<BlockView>,
    a: Arc,
    bi: int,
    k: int,
    j: int,
) -> bool {
    &&& 0 <= bi < blocks.len()
    &&& 0 <= k < blocks[bi].kept_in.shown(blocks[bi].inputs.len()).len()
    &&& 0 <= j < blocks[bi].kept_out.shown(blocks[bi].outputs.len()).len()
    &&& a == arc_of(
        nodes,
        blocks[bi],
        bi,
        blocks[bi].kept_in.shown(blocks[bi].inputs.len())[k],
        j,
    )
}

spec fn is_some_own_arc(nodes: Seq<Placed>, blocks: Seq<BlockView>, a: Arc) -> bool {
    exists|bi: int, k: int, j: int| #[trigger] is_own_arc(nodes, blocks, a, bi, k, j)
}

proof fn block_arcs_are_own(nodes: Seq<Placed>, blocks: Seq<BlockView>, bi: int, n: nat)
    requires
        0 <= bi < blocks.len(),
        n <= blocks[bi].kept_in.shown(blocks[bi].inputs.len()).len(),
    ensures
        forall|x: int|
            0 <= x < block_arcs(nodes, blocks[bi], bi, n).len() ==> is_some_own_arc(
                nodes,
                blocks,
                #[trigger] block_arcs(nodes, blocks[bi], bi, n)[x],
            ),
    decreases n,
{
    if n > 0 {
        block_arcs_are_own(nodes, blocks, bi, (n - 1) as nat);
        let b = blocks[bi];
        let front = block_arcs(nodes, b, bi, (n - 1) as nat);
        let back = fan(nodes, b, bi, b.kept_in.shown(b.inputs.len())[n - 1]);
        let all = block_arcs(nodes, b, bi, n);
        assert forall|x: int| 0 <= x < all.len() implies is_some_own_arc(
            nodes,
            blocks,
            #[trigger] all[x],
        ) by {
            if x < front.len() {
                assert(all[x] == front[x]);
            } else {
                let j = x - front.len();
                assert(all[x] == back[j]);
                assert(is_own_arc(nodes, blocks, all[x], bi, n - 1, j));
            }
        }
    }
}

proof fn drawn_arcs_are_own(nodes: Seq<Placed>, blocks: Seq<BlockView>, count: nat)
    requires
        count <= blocks.len(),
    ensures
        forall|x: int|
            0 <= x < drawn_arcs(nodes, blocks, count).len() ==> is_some_own_arc(
                nodes,
                blocks,
                #[trigger] drawn_arcs(nodes, blocks, count)[x],
            ),
    decreases count,
{
    if count > 0 {
        drawn_arcs_are_own(nodes, blocks, (count - 1) as nat);
        let b = blocks[count - 1];
        let n = b.kept_in.shown(b.inputs.len()).len();
        block_arcs_are_own(nodes, blocks, count - 1, n);
        let front = drawn_arcs(nodes, blocks, (count - 1) as nat);
        let back = block_arcs(nodes, b, count - 1, n);
        let all = drawn_arcs(nodes, blocks, count);
        assert forall|x: int| 0 <= x < all.len() implies is_some_own_arc(
            nodes,
            blocks,
            #[trigger] all[x],
        ) by {
            if x < front.len() {
                assert(all[x] == front[x]);
            } else {
                assert(all[x] == back[x - front.len()]);
            }
        }
    }
}

proof fn strays_into_are_stray(nodes: Seq<Placed>, from: Seq<usize>, to: int, k: nat)
    ensures
        forall|x: int|
            0 <= x < strays_into(nodes, from, to, k).len() ==> (#[trigger] strays_into(
                nodes,
                from,
                to,
                k,
            )[x]).kind == ArcKind::Stray,
    decreases k,
{
    if k > 0 {
        strays_into_are_stray(nodes, from, to, (k - 1) as nat);
    }
}

pub(crate) proof fn strays_are_stray(t: Lists, nodes: Seq<Placed>, count: nat)
    ensures
        forall|x: int|
            0 <= x < strays(t, nodes, count).len() ==> (#[trigger] strays(t, nodes, count)[x]).kind
                == ArcKind::Stray,
    decreases count,
{
    if count > 0 {
        strays_are_stray(t, nodes, (count - 1) as nat);
        let from = t[nodes[count - 1].graph as int];
        strays_into_are_stray(nodes, from, count - 1, from.len());
        let front = strays(t, nodes, (count - 1) as nat);
        let back = strays_into(nodes, from, count - 1, from.len());
        let all = strays(t, nodes, count);
        assert forall|x: int| 0 <= x < all.len() implies (#[trigger] all[x]).kind
            == ArcKind::Stray by {
            if x < front.len() {
                assert(all[x] == front[x]);
            } else {
                assert(all[x] == back[x - front.len()]);
            }
        }
    }
}

/// The boxes of a drawing, by their numbers.
pub(crate) proof fn boxes_by_number(
    blocks: Seq<BlockView>,
    in_rows: Seq<Seq<RowSlot>>,
    out_rows: Seq<Seq<RowSlot>>,
    c: int,
)
    requires
        0 <= c < blocks.len() <= u32::MAX,
        box_tree(blocks, in_rows, out_rows).len() <= usize::MAX,
    ensures
        c < box_tree(blocks, in_rows, out_rows).len(),
        box_tree(blocks, in_rows, out_rows)[c] == block_box(blocks, in_rows, out_rows, c),
        has_in_box(blocks, in_rows, c) ==> in_box(blocks, in_rows, c) < box_tree(
            blocks,
            in_rows,
            out_rows,
        ).len() && box_tree(blocks, in_rows, out_rows)[in_box(blocks, in_rows, c) as int]
            == outside_box(blocks, in_rows, c),
{
    let own = Seq::new(blocks.len(), |bi: int| block_box(blocks, in_rows, out_rows, bi));
    let outs = outside_boxes(blocks, in_rows, blocks.len());
    assert((own + outs)[c] == own[c]);
    if has_in_box(blocks, in_rows, c) {
        outside_boxes_count(blocks, in_rows, c as nat);
        outside_box_at(blocks, in_rows, c, blocks.len());
        let at = in_boxes_before(blocks, in_rows, c as nat);
        assert((own + outs)[blocks.len() as int + at] == outs[at as int]);
    }
}

pub(crate) proof fn outside_box_at(
    blocks: Seq<BlockView>,
    in_rows: Seq<Seq<RowSlot>>,
    c: int,
    count: nat,
)
    requires
        0 <= c < count,
        has_in_box(blocks, in_rows, c),
    ensures
        ({
            let at = in_boxes_before(blocks, in_rows, c as nat);
            &&& at < outside_boxes(blocks, in_rows, count).len()
            &&& outside_boxes(blocks, in_rows, count)[at as int] == outside_box(blocks, in_rows, c)
        }),
    decreases count,
{
    outside_boxes_count(blocks, in_rows, c as nat);
    if c < count - 1 {
        outside_box_at(blocks, in_rows, c, (count - 1) as nat);
    }
}

pub(crate) proof fn beside_has(
    blocks: Seq<BlockView>,
    in_rows: Seq<Seq<RowSlot>>,
    kids: Seq<usize>,
    early: bool,
    x: int,
    k: nat,
)
    requires
        0 <= x < k <= kids.len(),
        in_rows[kids[x] as int].len() > 0,
        early == (2 * x < kids.len() - 1),
    ensures
        beside(blocks, in_rows, kids, early, k).contains(
            in_box(blocks, in_rows, kids[x] as int),
        ),
    decreases k,
{
    let all = beside(blocks, in_rows, kids, early, k);
    let front = beside(blocks, in_rows, kids, early, (k - 1) as nat);
    let want = in_box(blocks, in_rows, kids[x] as int);
    if x == k - 1 {
        assert(all[front.len() as int] == want);
    } else {
        beside_has(blocks, in_rows, kids, early, x, (k - 1) as nat);
        let i = front.index_of(want);
        assert(all[i] == want);
    }
}

/// A row of boxes has the box of every block on its list, and the input boxes of
/// what hangs under them.
pub(crate) proof fn row_has(
    blocks: Seq<BlockView>,
    in_rows: Seq<Seq<RowSlot>>,
    list: Seq<usize>,
    x: int,
    k: nat,
)
    requires
        0 <= x < k <= list.len(),
    ensures
        box_row(blocks, in_rows, list, k).contains(list[x]),
        forall|y: int|
            0 <= y < kids_of(blocks, list[x] as int).len() && in_rows[(#[trigger] kids_of(
                blocks,
                list[x] as int,
            )[y]) as int].len() > 0 ==> box_row(blocks, in_rows, list, k).contains(
                in_box(blocks, in_rows, kids_of(blocks, list[x] as int)[y] as int),
            ),
    decreases k,
{
    let p = list[k - 1];
    let kids = kids_of(blocks, p as int);
    let front = box_row(blocks, in_rows, list, (k - 1) as nat);
    let early = beside(blocks, in_rows, kids, true, kids.len());
    let late = beside(blocks, in_rows, kids, false, kids.len());
    let all = box_row(blocks, in_rows, list, k);
    assert(all == front + early.push(p) + late);
    if x == k - 1 {
        assert(all[front.len() as int + early.len()] == p);
        assert forall|y: int|
            0 <= y < kids.len() && in_rows[(#[trigger] kids[y]) as int].len()
                > 0 implies all.contains(in_box(blocks, in_rows, kids[y] as int)) by {
            let want = in_box(blocks, in_rows, kids[y] as int);
            let is_early = 2 * y < kids.len() - 1;
            beside_has(blocks, in_rows, kids, is_early, y, kids.len());
            if is_early {
                let i = early.index_of(want);
                assert(all[front.len() + i] == want);
            } else {
                let i = late.index_of(want);
                assert(all[front.len() + early.len() + 1 + i] == want);
            }
        }
    } else {
        row_has(blocks, in_rows, list, x, (k - 1) as nat);
        let mine = kids_of(blocks, list[x] as int);
        let i = front.index_of(list[x]);
        assert(all[i] == list[x]);
        assert forall|y: int|
            0 <= y < mine.len() && in_rows[(#[trigger] mine[y]) as int].len() > 0 implies all.contains(
            in_box(blocks, in_rows, mine[y] as int),
        ) by {
            let want = in_box(blocks, in_rows, mine[y] as int);
            let i = front.index_of(want);
            assert(all[i] == want);
        }
    }
}

pub(crate) proof fn span_has(n: int, c: usize)
    requires
        0 <= c < n <= usize::MAX,
    ensures
        span(0, n).contains(c),
        ascending(span(0, n)),
{
    assert(span(0, n)[c as int] == c);
}

/// The box of a block begins where the box of the block it hangs under ends.
proof fn a_child_begins_where_its_parent_ends(gr: Ground, scene: SceneView, c: int, p: int)
    requires
        is_ground_of(gr, scene),
        scene.boxes == box_tree(scene.blocks, scene.in_rows, scene.out_rows),
        scene.boxes.len() <= usize::MAX,
        stacked(gr),
        0 <= c < scene.blocks.len() <= u32::MAX,
        0 <= p < scene.blocks.len(),
        hangs(scene.blocks, c, p),
    ensures
        gr.corners[c].depth == gr.corners[p].depth + gr.boxes[p].rows * UNIT,
{
    let blocks = scene.blocks;
    let kids = kids_of(blocks, p);
    boxes_by_number(blocks, scene.in_rows, scene.out_rows, p);
    span_has(blocks.len() as int, c as usize);
    ascending_filter(span(0, blocks.len() as int), |x: usize| hangs(blocks, x as int, p));
    assert(kids.contains(c as usize));
    let x = kids.index_of(c as usize);
    row_has(blocks, scene.in_rows, kids, x, kids.len());
    assert(is_box_under(gr.boxes, p, c as usize));
}

/// The box of a block's outside inputs begins where the box of the block it hangs
/// under does.
proof fn an_input_box_begins_with_the_parent(gr: Ground, scene: SceneView, c: int, p: int)
    requires
        is_ground_of(gr, scene),
        scene.boxes == box_tree(scene.blocks, scene.in_rows, scene.out_rows),
        scene.boxes.len() <= usize::MAX,
        stacked(gr),
        parents_within(scene.blocks),
        0 <= c < scene.blocks.len() <= u32::MAX,
        0 <= p < scene.blocks.len(),
        hangs(scene.blocks, c, p),
        scene.in_rows[c].len() > 0,
    ensures
        gr.corners[in_box(scene.blocks, scene.in_rows, c) as int].depth == gr.corners[p].depth,
{
    let blocks = scene.blocks;
    let want = in_box(blocks, scene.in_rows, c);
    let kids = kids_of(blocks, p);
    assert(has_in_box(blocks, scene.in_rows, c));
    span_has(blocks.len() as int, c as usize);
    ascending_filter(span(0, blocks.len() as int), |x: usize| hangs(blocks, x as int, p));
    assert(kids.contains(c as usize));
    let y = kids.index_of(c as usize);
    assert(kids[y] == c);
    span_has(blocks.len() as int, p as usize);
    match blocks[p].parent {
        Some((q, _)) => {
            let above = kids_of(blocks, q as int);
            ascending_filter(span(0, blocks.len() as int), |x: usize| hangs(blocks, x as int, q as int));
            assert(hangs(blocks, p, q as int));
            assert(above.contains(p as usize));
            let x = above.index_of(p as usize);
            row_has(blocks, scene.in_rows, above, x, above.len());
            boxes_by_number(blocks, scene.in_rows, scene.out_rows, q as int);
            assert(is_box_under(gr.boxes, q as int, p as usize));
            assert(is_box_under(gr.boxes, q as int, want));
        },
        None => {
            let seeds = seeds_of(blocks);
            ascending_filter(
                span(0, blocks.len() as int),
                |x: usize| blocks[x as int].parent is None,
            );
            assert(seeds.contains(p as usize));
            let x = seeds.index_of(p as usize);
            row_has(blocks, scene.in_rows, seeds, x, seeds.len());
            let top = whole_row(blocks, scene.in_rows, seeds);
            let i = top.index_of(p as usize);
            let j = top.index_of(want);
            boxes_by_number(blocks, scene.in_rows, scene.out_rows, c);
            outside_boxes_count(blocks, scene.in_rows, c as nat);
            outside_box_at(blocks, scene.in_rows, c, blocks.len());
            assert(top[i] == p && top[j] == want && want >= blocks.len());
            let root = scene.boxes.len() - 1;
            assert(gr.boxes[root].children == top);
            assert(is_box_under(gr.boxes, root, p as usize));
            assert(is_box_under(gr.boxes, root, want));
        },
    }
}

/// A tree arc spans one row, once every box begins where the one it hangs under
/// ends: it goes from a row to the next.
pub proof fn a_tree_arc_spans_one_row(
    g: Lists,
    t: Lists,
    blocks: Seq<BlockView>,
    report: Report,
    vertical: bool,
    gr: Ground,
    x: int,
)
    requires
        linked(g, t, blocks),
        all_blocks(blocks),
        blocks.len() <= u32::MAX,
        laid_out(g, t, blocks, report, vertical).nodes.len() <= u32::MAX,
        is_ground_of(gr, laid_out(g, t, blocks, report, vertical)),
        gr.boxes.len() <= usize::MAX,
        stacked(gr),
        0 <= x < laid_out(g, t, blocks, report, vertical).arcs.len(),
        laid_out(g, t, blocks, report, vertical).arcs[x].kind == ArcKind::Tree,
    ensures
        ({
            let scene = laid_out(g, t, blocks, report, vertical);
            let a = scene.arcs[x];
            &&& a.from < scene.nodes.len()
            &&& a.to < scene.nodes.len()
            &&& gr.node(scene.nodes[a.from as int]) is Some
            &&& gr.node(scene.nodes[a.to as int]) is Some
            &&& depth_of(gr, scene.nodes[a.to as int]) == depth_of(
                gr,
                scene.nodes[a.from as int],
            ) + UNIT
        }),
{
    let scene = laid_out(g, t, blocks, report, vertical);
    let nodes = scene.nodes;
    let a = scene.arcs[x];
    let own = drawn_arcs(nodes, blocks, blocks.len());
    strays_are_stray(t, nodes, nodes.len());
    drawn_arcs_are_own(nodes, blocks, blocks.len());
    if x >= own.len() {
        assert(scene.arcs[x] == strays(t, nodes, nodes.len())[x - own.len()]);
    }
    assert(a == own[x]);
    let (bi, k, j) = choose|bi: int, k: int, j: int| #[trigger]
        is_own_arc(nodes, blocks, a, bi, k, j);
    let b = blocks[bi];
    fits_after(blocks, bi, bi);
    shown_is_exact(b.kept_in, b.inputs.len() as usize);
    shown_is_exact(b.kept_out, b.outputs.len() as usize);
    let ii = b.kept_in.shown(b.inputs.len())[k];
    let oi = b.kept_out.shown(b.outputs.len())[j];
    let (u, v) = (b.inputs[ii as int], b.outputs[oi as int]);
    who_is_drawn_where(g, t, blocks, report, vertical);
    assert(b.kept_in.shown(b.inputs.len()).contains(ii));
    assert(b.kept_out.shown(b.outputs.len()).contains(oi));
    assert(shows_in(blocks, u, bi, ii as int));
    assert(shows_out(blocks, v, bi, oi as int));
    assert(is_drawn(nodes, u));
    assert(is_drawn(nodes, v));
    node_of_is_in(nodes, u);
    node_of_is_in(nodes, v);
    let from = nodes[a.from as int];
    let to = nodes[a.to as int];
    assert(from.graph == u && to.graph == v);
    assert(shows_out(blocks, nodes[a.to as int].graph, bi, oi as int));
    assert(to.role == (Role::Output { block: bi as u32 }));
    boxes_by_number(blocks, scene.in_rows, scene.out_rows, bi);
    let st = seated_inputs(g, t, blocks, blocks.len());
    seated_is_on_rows(g, t, blocks, blocks.len());
    slots_keep_roles(st.nodes, scene.in_rows, scene.out_rows, blocks.len());
    assert(from.role == st.nodes[a.from as int].role);
    assert(parents_within(blocks)) by {
        assert forall|i: int| 0 <= i < blocks.len() implies ((
        #[trigger] blocks[i]).parent matches Some((p, _)) ==> p < blocks.len()) by {
            a_parent_comes_first(g, t, blocks, i);
        }
    }
    a_parent_comes_first(g, t, blocks, bi);
    match from.role {
        Role::Output { block } => {
            assert(hangs(blocks, bi, block as int));
            boxes_by_number(blocks, scene.in_rows, scene.out_rows, block as int);
            a_child_begins_where_its_parent_ends(gr, scene, bi, block as int);
        },
        Role::Outside { block, .. } => {
            assert(block == bi);
            if let Some((p, _)) = b.parent {
                boxes_by_number(blocks, scene.in_rows, scene.out_rows, p as int);
                assert(hangs(blocks, bi, p as int));
                a_child_begins_where_its_parent_ends(gr, scene, bi, p as int);
                an_input_box_begins_with_the_parent(gr, scene, bi, p as int);
            }
        },
    }
}

/// The ground that places are worked out from is that of the drawing it is made of.
pub proof fn the_ground_is_of_its_drawing(scene: BlockScene, corners: Seq<Corner>)
    requires
        corners.len() == scene.boxes.boxes@.len(),
        scene.in_rows@.len() == scene.blocks@.len(),
        scene.out_rows@.len() == scene.blocks@.len(),
        scene.boxes.in_boxes@.len() == scene.blocks@.len(),
        forall|c: int|
            0 <= c < scene.blocks@.len() ==> #[trigger] scene.boxes.in_boxes@[c] == if has_in_box(
                scene@.blocks,
                scene@.in_rows,
                c,
            ) {
                Some(in_box(scene@.blocks, scene@.in_rows, c))
            } else {
                None
            },
    ensures
        is_ground_of(ground(scene, corners), scene@),
{
    assert(ground(scene, corners).boxes =~= scene@.boxes);
}

} // verus!
