//! What holds of every drawing of blocks.

use vstd::prelude::*;

use crate::block_scene::{
    arc_of, block_arcs, count_arcs, count_nodes, drawn_arcs, fan, laid_out, slot_row, slotted, strays,
    strays_into, with_slot, Arc, ArcKind,
};
use crate::blocks::BlockView;
use crate::graph::Lists;
use crate::kept::{shown_is_exact, Slot};
use crate::report::Report;
use crate::rows::{
    node_of, node_of_is_in, node_of_same_graphs, output_nodes, outputs_of, seat_slot,
    seat_slots, seated_inputs, shown_inputs_are_nodes, shown_outputs_are_nodes, Placed,
    RowSlot, Seating,
};
use crate::settle::all_blocks;
use crate::walk_laws::{complete, linked, outputs_are_of_one_block};

verus! {

/// No graph node is drawn twice.
pub open spec fn once(nodes: Seq<Placed>) -> bool {
    forall|i: int, j: int|
        0 <= i < j < nodes.len() ==> (#[trigger] nodes[i]).graph != (#[trigger] nodes[j]).graph
}

/// The same graph nodes, in the same order.
spec fn same_graphs(a: Seq<Placed>, b: Seq<Placed>) -> bool {
    &&& a.len() == b.len()
    &&& forall|i: int| 0 <= i < a.len() ==> (#[trigger] a[i]).graph == b[i].graph
}

proof fn side_fits(b: BlockView)
    requires
        b.is_block(),
    ensures
        b.inputs.len() <= usize::MAX,
        b.outputs.len() <= usize::MAX,
{
    crate::kept::ascending_fits(b.inputs, 0, b.first_out as int);
}

/// Every node of the outputs of the first blocks is an output of one of them, and
/// none is there twice.
pub(crate) proof fn outputs_once(g: Lists, t: Lists, blocks: Seq<BlockView>, n: int)
    requires
        linked(g, t, blocks),
        all_blocks(blocks),
        0 <= n <= blocks.len(),
    ensures
        once(output_nodes(g, blocks.take(n))),
        forall|k: int|
            0 <= k < output_nodes(g, blocks.take(n)).len() ==> is_output(
                blocks,
                n,
                (#[trigger] output_nodes(g, blocks.take(n))[k]).graph,
            ),
    decreases n,
{
    if n > 0 {
        outputs_once(g, t, blocks, n - 1);
        let front = output_nodes(g, blocks.take(n - 1));
        let b = blocks[n - 1];
        assert(b.is_block());
        side_fits(b);
        let last = outputs_of(g, b, n - 1);
        let all = output_nodes(g, blocks.take(n));
        assert(blocks.take(n).drop_last() =~= blocks.take(n - 1));
        assert(blocks.take(n).last() == b);
        assert(all == front + last);
        let shown = b.kept_out.shown(b.outputs.len());
        shown_is_exact(b.kept_out, b.outputs.len() as usize);
        assert forall|k: int| 0 <= k < all.len() implies is_output(
            blocks,
            n,
            (#[trigger] all[k]).graph,
        ) by {
            if k < front.len() {
                assert(all[k] == front[k]);
                let i = choose|i: int|
                    0 <= i < n - 1 && (#[trigger] blocks[i]).outputs.contains(front[k].graph);
                assert(blocks[i].outputs.contains(all[k].graph));
            } else {
                let j = k - front.len();
                assert(all[k] == last[j]);
                assert(shown[j] < b.outputs.len());
                assert(b.outputs[shown[j] as int] == all[k].graph);
                assert(blocks[n - 1].outputs.contains(all[k].graph));
            }
        }
        assert forall|i: int, j: int| 0 <= i < j < all.len() implies (#[trigger] all[i]).graph != (
        #[trigger] all[j]).graph by {
            if j < front.len() {
                assert(all[i] == front[i] && all[j] == front[j]);
            } else {
                let y = j - front.len();
                assert(all[j] == last[y]);
                assert(shown[y] < b.outputs.len());
                assert(b.outputs[shown[y] as int] == all[j].graph);
                if i < front.len() {
                    assert(all[i] == front[i]);
                    let a = choose|a: int|
                        0 <= a < n - 1 && (#[trigger] blocks[a]).outputs.contains(front[i].graph);
                    if all[i].graph == all[j].graph {
                        outputs_are_of_one_block(g, t, blocks, a, n - 1, all[i].graph);
                    }
                } else {
                    let x = i - front.len();
                    assert(all[i] == last[x]);
                    assert(shown[x] < shown[y]);
                    assert(b.outputs[shown[x] as int] == all[i].graph);
                }
            }
        }
    } else {
        assert(blocks.take(0).len() == 0);
    }
}

/// A graph node is an output of one of the first blocks.
pub(crate) open spec fn is_output(blocks: Seq<BlockView>, n: int, u: usize) -> bool {
    exists|i: int| 0 <= i < n && (#[trigger] blocks[i]).outputs.contains(u)
}

proof fn seat_slots_once(
    g: Lists,
    t: Lists,
    b: BlockView,
    bi: int,
    st: Seating,
    slots: Seq<Slot>,
    k: int,
)
    requires
        once(st.nodes),
    ensures
        once(seat_slots(g, t, b, bi, st, slots, k).nodes),
    decreases slots.len() - k,
{
    if k < slots.len() {
        let next = seat_slot(g, t, b, bi, st, slots[k]);
        if let Slot::Node(ii) = slots[k] {
            let u = b.inputs[ii as int];
            node_of_is_in(st.nodes, u);
            match node_of(st.nodes, u) {
                Some(at) => {
                    assert forall|i: int, j: int| 0 <= i < j < next.nodes.len() implies (
                    #[trigger] next.nodes[i]).graph != (#[trigger] next.nodes[j]).graph by {
                        assert(st.nodes[i].graph != st.nodes[j].graph);
                    }
                },
                None => {
                    assert forall|i: int, j: int| 0 <= i < j < next.nodes.len() implies (
                    #[trigger] next.nodes[i]).graph != (#[trigger] next.nodes[j]).graph by {
                        assert(next.nodes[i] == st.nodes[i]);
                        if j < st.nodes.len() {
                            assert(next.nodes[j] == st.nodes[j]);
                        } else {
                            assert(st.nodes[i].graph != u);
                        }
                    }
                },
            }
        }
        seat_slots_once(g, t, b, bi, next, slots, k + 1);
    }
}

proof fn seated_once(g: Lists, t: Lists, blocks: Seq<BlockView>, count: nat)
    requires
        linked(g, t, blocks),
        all_blocks(blocks),
    ensures
        once(seated_inputs(g, t, blocks, count).nodes),
    decreases count,
{
    if count == 0 {
        outputs_once(g, t, blocks, blocks.len() as int);
        assert(blocks.take(blocks.len() as int) =~= blocks);
    } else {
        seated_once(g, t, blocks, (count - 1) as nat);
        let st = seated_inputs(g, t, blocks, (count - 1) as nat);
        let b = blocks[count - 1];
        seat_slots_once(
            g,
            t,
            b,
            st.in_rows.len() as int,
            Seating { nodes: st.nodes, row: Seq::empty(), drawn: 0 },
            b.kept_in.row(b.inputs.len()),
            0,
        );
    }
}

proof fn slot_row_same(nodes: Seq<Placed>, row: Seq<RowSlot>, k: int)
    ensures
        same_graphs(nodes, slot_row(nodes, row, k)),
    decreases row.len() - k,
{
    if k < row.len() {
        match row[k] {
            RowSlot::Node(i) => {
                slot_row_same(with_slot(nodes, i as int, k), row, k + 1);
                let next = with_slot(nodes, i as int, k);
                let end = slot_row(nodes, row, k);
                assert forall|j: int| 0 <= j < nodes.len() implies (#[trigger] nodes[j]).graph
                    == end[j].graph by {
                    assert(next[j].graph == end[j].graph);
                }
            },
            RowSlot::Gap(_) => slot_row_same(nodes, row, k + 1),
        }
    }
}

proof fn slotted_same(
    nodes: Seq<Placed>,
    in_rows: Seq<Seq<RowSlot>>,
    out_rows: Seq<Seq<RowSlot>>,
    count: nat,
)
    ensures
        same_graphs(nodes, slotted(nodes, in_rows, out_rows, count)),
    decreases count,
{
    if count > 0 {
        slotted_same(nodes, in_rows, out_rows, (count - 1) as nat);
        let a = slotted(nodes, in_rows, out_rows, (count - 1) as nat);
        slot_row_same(a, out_rows[count - 1], 0);
        let b = slot_row(a, out_rows[count - 1], 0);
        slot_row_same(b, in_rows[count - 1], 0);
        let c = slotted(nodes, in_rows, out_rows, count);
        assert forall|j: int| 0 <= j < nodes.len() implies (#[trigger] nodes[j]).graph
            == c[j].graph by {
            assert(nodes[j].graph == a[j].graph);
            assert(a[j].graph == b[j].graph);
            assert(b[j].graph == c[j].graph);
        }
    }
}

/// A drawing of linked blocks draws no graph node twice: consecutive blocks chain
/// through the nodes they share.
pub proof fn a_node_is_drawn_once(
    g: Lists,
    t: Lists,
    blocks: Seq<BlockView>,
    report: Report,
    vertical: bool,
)
    requires
        linked(g, t, blocks),
        all_blocks(blocks),
    ensures
        once(laid_out(g, t, blocks, report, vertical).nodes),
{
    seated_once(g, t, blocks, blocks.len());
    let scene = laid_out(g, t, blocks, report, vertical);
    let st = seated_inputs(g, t, blocks, blocks.len());
    slotted_same(st.nodes, scene.in_rows, scene.out_rows, blocks.len());
    assert forall|i: int, j: int| 0 <= i < j < scene.nodes.len() implies (
    #[trigger] scene.nodes[i]).graph != (#[trigger] scene.nodes[j]).graph by {
        assert(st.nodes[i].graph == scene.nodes[i].graph);
        assert(st.nodes[j].graph == scene.nodes[j].graph);
    }
}

/// How many arcs go from a kept input to a kept output of the same block.
pub open spec fn arcs_kept(blocks: Seq<BlockView>, count: nat) -> int
    decreases count,
{
    if count == 0 {
        0
    } else {
        let b = blocks[count - 1];
        arcs_kept(blocks, (count - 1) as nat) + b.kept_in.count(b.inputs.len())
            * b.kept_out.count(b.outputs.len())
    }
}

/// How many of the arcs belong to a drawn block.
pub open spec fn owned(arcs: Seq<Arc>) -> nat {
    count_arcs(arcs, ArcKind::Tree) + count_arcs(arcs, ArcKind::Cross)
}

proof fn counts_join(a: Seq<Arc>, b: Seq<Arc>, kind: ArcKind)
    ensures
        count_arcs(a + b, kind) == count_arcs(a, kind) + count_arcs(b, kind),
    decreases b.len(),
{
    if b.len() == 0 {
        assert(a + b =~= a);
    } else {
        counts_join(a, b.drop_last(), kind);
        assert((a + b).drop_last() =~= a + b.drop_last());
    }
}

proof fn owned_join(a: Seq<Arc>, b: Seq<Arc>)
    ensures
        owned(a + b) == owned(a) + owned(b),
{
    counts_join(a, b, ArcKind::Tree);
    counts_join(a, b, ArcKind::Cross);
}

proof fn all_owned(arcs: Seq<Arc>)
    requires
        forall|i: int| 0 <= i < arcs.len() ==> (#[trigger] arcs[i]).kind != ArcKind::Stray,
    ensures
        owned(arcs) == arcs.len(),
    decreases arcs.len(),
{
    if arcs.len() > 0 {
        let f = arcs.drop_last();
        assert forall|i: int| 0 <= i < f.len() implies (#[trigger] f[i]).kind
            != ArcKind::Stray by {
            assert(arcs[i].kind != ArcKind::Stray);
        }
        all_owned(f);
        assert(arcs[arcs.len() - 1].kind != ArcKind::Stray);
    }
}

proof fn none_owned(arcs: Seq<Arc>)
    requires
        forall|i: int| 0 <= i < arcs.len() ==> (#[trigger] arcs[i]).kind == ArcKind::Stray,
    ensures
        owned(arcs) == 0,
    decreases arcs.len(),
{
    if arcs.len() > 0 {
        let f = arcs.drop_last();
        assert forall|i: int| 0 <= i < f.len() implies (#[trigger] f[i]).kind
            == ArcKind::Stray by {
            assert(arcs[i].kind == ArcKind::Stray);
        }
        none_owned(f);
        assert(arcs[arcs.len() - 1].kind == ArcKind::Stray);
    }
}

proof fn block_arcs_owned(nodes: Seq<Placed>, b: BlockView, bi: int, k: nat)
    ensures
        owned(block_arcs(nodes, b, bi, k)) == k * b.kept_out.shown(b.outputs.len()).len(),
    decreases k,
{
    let m = b.kept_out.shown(b.outputs.len()).len();
    if k > 0 {
        block_arcs_owned(nodes, b, bi, (k - 1) as nat);
        let ii = b.kept_in.shown(b.inputs.len())[k - 1];
        let last = fan(nodes, b, bi, ii);
        assert forall|i: int| 0 <= i < last.len() implies (#[trigger] last[i]).kind
            != ArcKind::Stray by {
            assert(last[i] == arc_of(nodes, b, bi, ii, i));
        }
        all_owned(last);
        owned_join(block_arcs(nodes, b, bi, (k - 1) as nat), last);
        assert((k - 1) * m + m == k * m) by (nonlinear_arith);
    } else {
        assert(0 * m == 0) by (nonlinear_arith);
    }
}

proof fn drawn_arcs_owned(nodes: Seq<Placed>, blocks: Seq<BlockView>, count: nat)
    requires
        all_blocks(blocks),
        count <= blocks.len(),
    ensures
        owned(drawn_arcs(nodes, blocks, count)) == arcs_kept(blocks, count),
    decreases count,
{
    if count > 0 {
        drawn_arcs_owned(nodes, blocks, (count - 1) as nat);
        let b = blocks[count - 1];
        assert(b.is_block());
        side_fits(b);
        shown_is_exact(b.kept_in, b.inputs.len() as usize);
        shown_is_exact(b.kept_out, b.outputs.len() as usize);
        let k = b.kept_in.shown(b.inputs.len()).len();
        block_arcs_owned(nodes, b, count - 1, k);
        owned_join(
            drawn_arcs(nodes, blocks, (count - 1) as nat),
            block_arcs(nodes, b, count - 1, k),
        );
    }
}

proof fn strays_into_stray(nodes: Seq<Placed>, predecessors: Seq<usize>, to: int, k: nat)
    ensures
        forall|i: int|
            0 <= i < strays_into(nodes, predecessors, to, k).len() ==> (
            #[trigger] strays_into(nodes, predecessors, to, k)[i]).kind == ArcKind::Stray,
    decreases k,
{
    if k > 0 {
        strays_into_stray(nodes, predecessors, to, (k - 1) as nat);
    }
}

proof fn strays_owned(t: Lists, nodes: Seq<Placed>, count: nat)
    ensures
        owned(strays(t, nodes, count)) == 0,
    decreases count,
{
    if count > 0 {
        strays_owned(t, nodes, (count - 1) as nat);
        let from = t[nodes[count - 1].graph as int];
        let more = strays_into(nodes, from, count - 1, from.len());
        strays_into_stray(nodes, from, count - 1, from.len());
        none_owned(more);
        owned_join(strays(t, nodes, (count - 1) as nat), more);
    }
}

/// Nothing is dropped: of every drawn block a drawing has the arc from every kept
/// input to every kept output, and besides those only arcs of blocks that are not
/// drawn.
pub proof fn every_arc_of_a_block_is_drawn(
    g: Lists,
    t: Lists,
    blocks: Seq<BlockView>,
    report: Report,
    vertical: bool,
)
    requires
        all_blocks(blocks),
    ensures
        ({
            let scene = laid_out(g, t, blocks, report, vertical);
            &&& owned(scene.arcs) == arcs_kept(blocks, blocks.len())
            &&& scene.arcs.len() == owned(scene.arcs) + count_arcs(scene.arcs, ArcKind::Stray)
        }),
{
    let scene = laid_out(g, t, blocks, report, vertical);
    drawn_arcs_owned(scene.nodes, blocks, blocks.len());
    strays_owned(t, scene.nodes, scene.nodes.len());
    owned_join(
        drawn_arcs(scene.nodes, blocks, blocks.len()),
        strays(t, scene.nodes, scene.nodes.len()),
    );
    kinds_are_all(scene.arcs);
}

proof fn kinds_are_all(arcs: Seq<Arc>)
    ensures
        arcs.len() == owned(arcs) + count_arcs(arcs, ArcKind::Stray),
    decreases arcs.len(),
{
    if arcs.len() > 0 {
        kinds_are_all(arcs.drop_last());
    }
}

/// Where nothing is hidden, the drawing has all the arcs of its blocks.
pub proof fn whole_blocks_are_drawn_whole(blocks: Seq<BlockView>, count: nat)
    requires
        count <= blocks.len(),
        forall|i: int|
            0 <= i < blocks.len() ==> (#[trigger] blocks[i]).kept_in.count(blocks[i].inputs.len())
                == blocks[i].inputs.len() && blocks[i].kept_out.count(blocks[i].outputs.len())
                == blocks[i].outputs.len(),
    ensures
        arcs_kept(blocks, count) == crate::walk::total_arcs(blocks.take(count as int)),
    decreases count,
{
    if count > 0 {
        whole_blocks_are_drawn_whole(blocks, (count - 1) as nat);
        assert(blocks.take(count as int).drop_last() =~= blocks.take(count - 1));
        let b = blocks[count - 1];
        assert(b.kept_in.count(b.inputs.len()) == b.inputs.len());
    }
}

/// An arc of the page: its ends are nodes of the page, and the graph has it.
pub open spec fn is_graph_arc(g: Lists, nodes: Seq<Placed>, a: Arc) -> bool {
    &&& a.from < nodes.len()
    &&& a.to < nodes.len()
    &&& g[nodes[a.from as int].graph as int].contains(nodes[a.to as int].graph)
}

proof fn block_arcs_are_arcs(
    g: Lists,
    t: Lists,
    nodes: Seq<Placed>,
    blocks: Seq<BlockView>,
    bi: int,
    k: nat,
)
    requires
        linked(g, t, blocks),
        all_blocks(blocks),
        0 <= bi < blocks.len(),
        same_graphs(seated_inputs(g, t, blocks, blocks.len()).nodes, nodes),
        nodes.len() <= u32::MAX,
        k <= blocks[bi].kept_in.shown(blocks[bi].inputs.len()).len(),
    ensures
        forall|i: int|
            0 <= i < block_arcs(nodes, blocks[bi], bi, k).len() ==> is_graph_arc(
                g,
                nodes,
                #[trigger] block_arcs(nodes, blocks[bi], bi, k)[i],
            ),
    decreases k,
{
    if k > 0 {
        let b = blocks[bi];
        block_arcs_are_arcs(g, t, nodes, blocks, bi, (k - 1) as nat);
        assert(b.is_block());
        assert(complete(g, t, b));
        side_fits(b);
        shown_is_exact(b.kept_in, b.inputs.len() as usize);
        shown_is_exact(b.kept_out, b.outputs.len() as usize);
        let ins = b.kept_in.shown(b.inputs.len());
        let outs = b.kept_out.shown(b.outputs.len());
        let ii = ins[k - 1];
        let seats = seated_inputs(g, t, blocks, blocks.len()).nodes;
        assert(ins.contains(ii));
        shown_inputs_are_nodes(g, t, blocks, bi, ii);
        node_of_same_graphs(seats, nodes, b.inputs[ii as int]);
        node_of_is_in(nodes, b.inputs[ii as int]);
        let last = fan(nodes, b, bi, ii);
        let front = block_arcs(nodes, b, bi, (k - 1) as nat);
        let all = block_arcs(nodes, b, bi, k);
        assert forall|i: int| 0 <= i < all.len() implies is_graph_arc(g, nodes, #[trigger] all[i]) by {
            if i < front.len() {
                assert(all[i] == front[i]);
            } else {
                let j = i - front.len();
                assert(all[i] == arc_of(nodes, b, bi, ii, j));
                let oi = outs[j];
                assert(outs.contains(oi));
                shown_outputs_are_nodes(g, t, blocks, bi, oi);
                node_of_same_graphs(seats, nodes, b.outputs[oi as int]);
                node_of_is_in(nodes, b.outputs[oi as int]);
                assert(g[b.inputs[ii as int] as int] == b.outputs);
                assert(b.outputs.contains(b.outputs[oi as int]));
            }
        }
    }
}

proof fn drawn_arcs_are_arcs(
    g: Lists,
    t: Lists,
    nodes: Seq<Placed>,
    blocks: Seq<BlockView>,
    count: nat,
)
    requires
        linked(g, t, blocks),
        all_blocks(blocks),
        count <= blocks.len(),
        same_graphs(seated_inputs(g, t, blocks, blocks.len()).nodes, nodes),
        nodes.len() <= u32::MAX,
    ensures
        forall|i: int|
            0 <= i < drawn_arcs(nodes, blocks, count).len() ==> is_graph_arc(
                g,
                nodes,
                #[trigger] drawn_arcs(nodes, blocks, count)[i],
            ),
    decreases count,
{
    if count > 0 {
        drawn_arcs_are_arcs(g, t, nodes, blocks, (count - 1) as nat);
        let b = blocks[count - 1];
        let k = b.kept_in.shown(b.inputs.len()).len();
        block_arcs_are_arcs(g, t, nodes, blocks, count - 1, k);
        let front = drawn_arcs(nodes, blocks, (count - 1) as nat);
        let last = block_arcs(nodes, b, count - 1, k);
        let all = drawn_arcs(nodes, blocks, count);
        assert forall|i: int| 0 <= i < all.len() implies is_graph_arc(g, nodes, #[trigger] all[i]) by {
            if i < front.len() {
                assert(all[i] == front[i]);
            } else {
                assert(all[i] == last[i - front.len()]);
            }
        }
    }
}

/// Every arc a drawing of linked blocks has of a drawn block is an arc of the
/// graph between two nodes of the drawing.
pub proof fn a_drawn_arc_is_an_arc(
    g: Lists,
    t: Lists,
    blocks: Seq<BlockView>,
    report: Report,
    vertical: bool,
    i: int,
)
    requires
        linked(g, t, blocks),
        all_blocks(blocks),
        laid_out(g, t, blocks, report, vertical).nodes.len() <= u32::MAX,
        0 <= i < laid_out(g, t, blocks, report, vertical).arcs.len(),
        laid_out(g, t, blocks, report, vertical).arcs[i].kind != ArcKind::Stray,
    ensures
        is_graph_arc(
            g,
            laid_out(g, t, blocks, report, vertical).nodes,
            laid_out(g, t, blocks, report, vertical).arcs[i],
        ),
{
    let scene = laid_out(g, t, blocks, report, vertical);
    let st = seated_inputs(g, t, blocks, blocks.len());
    slotted_same(st.nodes, scene.in_rows, scene.out_rows, blocks.len());
    drawn_arcs_are_arcs(g, t, scene.nodes, blocks, blocks.len());
    let front = drawn_arcs(scene.nodes, blocks, blocks.len());
    let rest = strays(t, scene.nodes, scene.nodes.len());
    if i < front.len() {
        assert(scene.arcs[i] == front[i]);
    } else {
        strays_are_stray(t, scene.nodes, scene.nodes.len());
        assert(scene.arcs[i] == rest[i - front.len()]);
    }
}

proof fn strays_are_stray(t: Lists, nodes: Seq<Placed>, count: nat)
    ensures
        forall|i: int|
            0 <= i < strays(t, nodes, count).len() ==> (#[trigger] strays(
                t,
                nodes,
                count,
            )[i]).kind == ArcKind::Stray,
    decreases count,
{
    if count > 0 {
        strays_are_stray(t, nodes, (count - 1) as nat);
        let from = t[nodes[count - 1].graph as int];
        strays_into_stray(nodes, from, count - 1, from.len());
        let front = strays(t, nodes, (count - 1) as nat);
        let more = strays_into(nodes, from, count - 1, from.len());
        let all = strays(t, nodes, count);
        assert forall|i: int| 0 <= i < all.len() implies (#[trigger] all[i]).kind
            == ArcKind::Stray by {
            if i < front.len() {
                assert(all[i] == front[i]);
            } else {
                assert(all[i] == more[i - front.len()]);
            }
        }
    }
}

/// The ends of an arc are nodes of the page.
pub open spec fn ends_at_nodes(nodes: Seq<Placed>, a: Arc) -> bool {
    a.from < nodes.len() && a.to < nodes.len()
}

proof fn block_arcs_end(
    g: Lists,
    t: Lists,
    nodes: Seq<Placed>,
    blocks: Seq<BlockView>,
    bi: int,
    k: nat,
)
    requires
        0 <= bi < blocks.len(),
        same_graphs(seated_inputs(g, t, blocks, blocks.len()).nodes, nodes),
        nodes.len() <= u32::MAX,
        k <= blocks[bi].kept_in.shown(blocks[bi].inputs.len()).len(),
    ensures
        forall|i: int|
            0 <= i < block_arcs(nodes, blocks[bi], bi, k).len() ==> ends_at_nodes(
                nodes,
                #[trigger] block_arcs(nodes, blocks[bi], bi, k)[i],
            ),
    decreases k,
{
    if k > 0 {
        let b = blocks[bi];
        block_arcs_end(g, t, nodes, blocks, bi, (k - 1) as nat);
        let ins = b.kept_in.shown(b.inputs.len());
        let outs = b.kept_out.shown(b.outputs.len());
        let ii = ins[k - 1];
        let seats = seated_inputs(g, t, blocks, blocks.len()).nodes;
        assert(ins.contains(ii));
        shown_inputs_are_nodes(g, t, blocks, bi, ii);
        node_of_same_graphs(seats, nodes, b.inputs[ii as int]);
        node_of_is_in(nodes, b.inputs[ii as int]);
        let front = block_arcs(nodes, b, bi, (k - 1) as nat);
        let all = block_arcs(nodes, b, bi, k);
        assert forall|i: int| 0 <= i < all.len() implies ends_at_nodes(nodes, #[trigger] all[i]) by {
            if i < front.len() {
                assert(all[i] == front[i]);
            } else {
                let j = i - front.len();
                assert(all[i] == arc_of(nodes, b, bi, ii, j));
                let oi = outs[j];
                assert(outs.contains(oi));
                shown_outputs_are_nodes(g, t, blocks, bi, oi);
                node_of_same_graphs(seats, nodes, b.outputs[oi as int]);
                node_of_is_in(nodes, b.outputs[oi as int]);
            }
        }
    }
}

proof fn drawn_arcs_end(
    g: Lists,
    t: Lists,
    nodes: Seq<Placed>,
    blocks: Seq<BlockView>,
    count: nat,
)
    requires
        count <= blocks.len(),
        same_graphs(seated_inputs(g, t, blocks, blocks.len()).nodes, nodes),
        nodes.len() <= u32::MAX,
    ensures
        forall|i: int|
            0 <= i < drawn_arcs(nodes, blocks, count).len() ==> ends_at_nodes(
                nodes,
                #[trigger] drawn_arcs(nodes, blocks, count)[i],
            ),
    decreases count,
{
    if count > 0 {
        drawn_arcs_end(g, t, nodes, blocks, (count - 1) as nat);
        let b = blocks[count - 1];
        let k = b.kept_in.shown(b.inputs.len()).len();
        block_arcs_end(g, t, nodes, blocks, count - 1, k);
        let front = drawn_arcs(nodes, blocks, (count - 1) as nat);
        let last = block_arcs(nodes, b, count - 1, k);
        let all = drawn_arcs(nodes, blocks, count);
        assert forall|i: int| 0 <= i < all.len() implies ends_at_nodes(nodes, #[trigger] all[i]) by {
            if i < front.len() {
                assert(all[i] == front[i]);
            } else {
                assert(all[i] == last[i - front.len()]);
            }
        }
    }
}

proof fn strays_into_end(nodes: Seq<Placed>, predecessors: Seq<usize>, to: int, k: nat)
    requires
        0 <= to < nodes.len() <= u32::MAX,
    ensures
        forall|i: int|
            0 <= i < strays_into(nodes, predecessors, to, k).len() ==> ends_at_nodes(
                nodes,
                #[trigger] strays_into(nodes, predecessors, to, k)[i],
            ),
    decreases k,
{
    if k > 0 {
        strays_into_end(nodes, predecessors, to, (k - 1) as nat);
        node_of_is_in(nodes, predecessors[k - 1]);
        let front = strays_into(nodes, predecessors, to, (k - 1) as nat);
        let all = strays_into(nodes, predecessors, to, k);
        assert forall|i: int| 0 <= i < all.len() implies ends_at_nodes(nodes, #[trigger] all[i]) by {
            if i < front.len() {
                assert(all[i] == front[i]);
            }
        }
    }
}

proof fn strays_end(t: Lists, nodes: Seq<Placed>, count: nat)
    requires
        count <= nodes.len() <= u32::MAX,
    ensures
        forall|i: int|
            0 <= i < strays(t, nodes, count).len() ==> ends_at_nodes(
                nodes,
                #[trigger] strays(t, nodes, count)[i],
            ),
    decreases count,
{
    if count > 0 {
        strays_end(t, nodes, (count - 1) as nat);
        let from = t[nodes[count - 1].graph as int];
        strays_into_end(nodes, from, count - 1, from.len());
        let front = strays(t, nodes, (count - 1) as nat);
        let more = strays_into(nodes, from, count - 1, from.len());
        let all = strays(t, nodes, count);
        assert forall|i: int| 0 <= i < all.len() implies ends_at_nodes(nodes, #[trigger] all[i]) by {
            if i < front.len() {
                assert(all[i] == front[i]);
            } else {
                assert(all[i] == more[i - front.len()]);
            }
        }
    }
}

/// Both ends of every arc of a drawing are nodes of it.
pub proof fn arcs_end_at_nodes(
    g: Lists,
    t: Lists,
    blocks: Seq<BlockView>,
    report: Report,
    vertical: bool,
    i: int,
)
    requires
        laid_out(g, t, blocks, report, vertical).nodes.len() <= u32::MAX,
        0 <= i < laid_out(g, t, blocks, report, vertical).arcs.len(),
    ensures
        ends_at_nodes(
            laid_out(g, t, blocks, report, vertical).nodes,
            laid_out(g, t, blocks, report, vertical).arcs[i],
        ),
{
    let scene = laid_out(g, t, blocks, report, vertical);
    let st = seated_inputs(g, t, blocks, blocks.len());
    slotted_same(st.nodes, scene.in_rows, scene.out_rows, blocks.len());
    drawn_arcs_end(g, t, scene.nodes, blocks, blocks.len());
    strays_end(t, scene.nodes, scene.nodes.len());
    let front = drawn_arcs(scene.nodes, blocks, blocks.len());
    let rest = strays(t, scene.nodes, scene.nodes.len());
    if i < front.len() {
        assert(scene.arcs[i] == front[i]);
    } else {
        assert(scene.arcs[i] == rest[i - front.len()]);
    }
}

/// Every node drawn is an output of a block or an outside input, and every outside
/// input is a source or made by a block that is not drawn.
pub proof fn every_node_is_an_output_or_comes_from_outside(nodes: Seq<Placed>)
    ensures
        ({
            let c = count_nodes(nodes);
            &&& c.outputs + c.sources + c.undrawn == nodes.len()
            &&& c.sinks + c.frontier <= nodes.len()
        }),
    decreases nodes.len(),
{
    if nodes.len() > 0 {
        every_node_is_an_output_or_comes_from_outside(nodes.drop_last());
    }
}

} // verus!
