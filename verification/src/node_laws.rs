//! Who is drawn where in a drawing of blocks, and what its report adds up to.

use vstd::prelude::*;

use crate::block_scene::{laid_out, slot_row, slotted, with_slot};
use crate::blocks::{wrapped, BlockView, Seed};
use crate::budget_laws::{is_shown, linked_blocks_are_blocks, shows_in, shows_out};
use crate::graph::{well_formed, Lists};
use crate::kept::{shown_is_exact, Slot};
use crate::report::{BlockPrune, Report};
use crate::rows::{
    indexes, is_index, node_of, node_of_is_in, output_nodes, outputs_are_placed, outputs_of, outside,
    row_names_entries,
    seat_slot, seat_slots, seated_inputs, shown_inputs_are_nodes, shown_outputs_are_nodes, Placed,
    Producer, Role, RowSlot, Seating,
};
use crate::scene_laws::{
    a_node_is_drawn_once, arcs_kept, every_arc_of_a_block_is_drawn,
    every_node_is_an_output_or_comes_from_outside, once,
};
use crate::settle::{all_blocks, unhidden};
use crate::settle_laws::{apart, fits_after, linked_blocks_are_apart, settling_keeps_blocks};
use crate::walk::{found, total_arcs, walked};
use crate::walk_laws::{a_walk_is_linked_and_within_its_budgets, linked, transposed};

verus! {

/// Block `b` keeps node `v` as an output.
pub open spec fn keeps_output(blocks: Seq<BlockView>, v: usize, b: int) -> bool {
    exists|j: int| #[trigger] shows_out(blocks, v, b, j)
}

/// Block `b` keeps node `v` as an input.
pub open spec fn keeps_input(blocks: Seq<BlockView>, v: usize, b: int) -> bool {
    exists|i: int| #[trigger] shows_in(blocks, v, b, i)
}

/// A node is where it belongs: a kept output of a block on that block's output row,
/// or a kept input of a block that no block keeps as an output, on that block's
/// input row, a source if nothing leads to it.
pub open spec fn belongs(t: Lists, blocks: Seq<BlockView>, p: Placed) -> bool {
    match p.role {
        Role::Output { block } => keeps_output(blocks, p.graph, block as int),
        Role::Outside { block, producer } => {
            &&& keeps_input(blocks, p.graph, block as int)
            &&& forall|b: int| !#[trigger] keeps_output(blocks, p.graph, b)
            &&& producer == if t[p.graph as int].len() == 0 {
                Producer::Source
            } else {
                Producer::Undrawn
            }
        },
    }
}

/// A graph node is drawn.
pub open spec fn is_drawn(nodes: Seq<Placed>, v: usize) -> bool {
    exists|i: int| 0 <= i < nodes.len() && (#[trigger] nodes[i]).graph == v
}

pub(crate) open spec fn all_belong(t: Lists, blocks: Seq<BlockView>, nodes: Seq<Placed>) -> bool {
    forall|i: int| 0 <= i < nodes.len() ==> belongs(t, blocks, #[trigger] nodes[i])
}

/// Every kept output is drawn.
pub(crate) open spec fn outputs_drawn(blocks: Seq<BlockView>, nodes: Seq<Placed>) -> bool {
    forall|v: usize, b: int, j: int| #[trigger]
        shows_out(blocks, v, b, j) ==> is_drawn(nodes, v)
}

proof fn outputs_belong(g: Lists, t: Lists, blocks: Seq<BlockView>, n: int)
    requires
        all_blocks(blocks),
        blocks.len() <= u32::MAX,
        0 <= n <= blocks.len(),
    ensures
        all_belong(t, blocks, output_nodes(g, blocks.take(n))),
    decreases n,
{
    let all = output_nodes(g, blocks.take(n));
    if n > 0 {
        outputs_belong(g, t, blocks, n - 1);
        let front = output_nodes(g, blocks.take(n - 1));
        let b = blocks[n - 1];
        fits_after(blocks, n - 1, n - 1);
        assert(blocks.take(n).drop_last() =~= blocks.take(n - 1));
        assert(blocks.take(n).last() == b);
        let last = outputs_of(g, b, n - 1);
        assert(all == front + last);
        shown_is_exact(b.kept_out, b.outputs.len() as usize);
        let shown = b.kept_out.shown(b.outputs.len());
        assert forall|i: int| 0 <= i < all.len() implies belongs(
            t,
            blocks,
            #[trigger] all[i],
        ) by {
            if i < front.len() {
                assert(all[i] == front[i]);
            } else {
                let k = i - front.len();
                assert(all[i] == last[k]);
                assert(shown.contains(shown[k]));
                let block = (n - 1) as u32;
                assert(all[i].role == (Role::Output { block }));
                assert(shows_out(blocks, all[i].graph, block as int, shown[k] as int));
                assert(keeps_output(blocks, all[i].graph, block as int));
            }
        }
    }
}

proof fn seating_belongs(
    g: Lists,
    t: Lists,
    blocks: Seq<BlockView>,
    bi: int,
    st: Seating,
    slots: Seq<Slot>,
    k: int,
)
    requires
        0 <= bi < blocks.len() <= u32::MAX,
        0 <= k,
        all_belong(t, blocks, st.nodes),
        outputs_drawn(blocks, st.nodes),
        forall|j: int|
            0 <= j < slots.len() ==> (#[trigger] slots[j] matches Slot::Node(ii) ==> ii
                < blocks[bi].inputs.len() && blocks[bi].kept_in.keeps(
                blocks[bi].inputs.len(),
                ii as int,
            )),
    ensures
        ({
            let end = seat_slots(g, t, blocks[bi], bi, st, slots, k).nodes;
            all_belong(t, blocks, end) && outputs_drawn(blocks, end)
        }),
    decreases slots.len() - k,
{
    if k < slots.len() {
        let b = blocks[bi];
        let next = seat_slot(g, t, b, bi, st, slots[k]);
        if let Slot::Node(ii) = slots[k] {
            let u = b.inputs[ii as int];
            node_of_is_in(st.nodes, u);
            assert(shows_in(blocks, u, bi, ii as int));
            assert forall|i: int| 0 <= i < next.nodes.len() implies belongs(
                t,
                blocks,
                #[trigger] next.nodes[i],
            ) by {
                if i < st.nodes.len() {
                    assert(belongs(t, blocks, st.nodes[i]));
                    assert(next.nodes[i].graph == st.nodes[i].graph);
                    assert(next.nodes[i].role == st.nodes[i].role);
                } else {
                    let block = bi as u32;
                    assert(shows_in(blocks, u, block as int, ii as int));
                    assert(next.nodes[i] == outside(g, t, bi, u));
                    assert(keeps_input(blocks, u, block as int));
                    assert forall|x: int| !#[trigger] keeps_output(blocks, u, x) by {
                        if keeps_output(blocks, u, x) {
                            let j = choose|j: int| #[trigger] shows_out(blocks, u, x, j);
                            assert(is_drawn(st.nodes, u));
                        }
                    }
                }
            }
            assert forall|v: usize, x: int, j: int| #[trigger]
                shows_out(blocks, v, x, j) implies is_drawn(next.nodes, v) by {
                assert(is_drawn(st.nodes, v));
                let i = choose|i: int| 0 <= i < st.nodes.len() && (#[trigger] st.nodes[i]).graph == v;
                assert(next.nodes[i].graph == v);
            }
        }
        seating_belongs(g, t, blocks, bi, next, slots, k + 1);
    }
}

pub(crate) proof fn seated_belong(g: Lists, t: Lists, blocks: Seq<BlockView>, count: nat)
    requires
        all_blocks(blocks),
        count <= blocks.len() <= u32::MAX,
    ensures
        all_belong(t, blocks, seated_inputs(g, t, blocks, count).nodes),
        outputs_drawn(blocks, seated_inputs(g, t, blocks, count).nodes),
        seated_inputs(g, t, blocks, count).in_rows.len() == count,
    decreases count,
{
    if count == 0 {
        outputs_belong(g, t, blocks, blocks.len() as int);
        assert(blocks.take(blocks.len() as int) =~= blocks);
        let nodes = output_nodes(g, blocks);
        assert forall|v: usize, b: int, j: int| #[trigger]
            shows_out(blocks, v, b, j) implies is_drawn(nodes, v) by {
            fits_after(blocks, b, b);
            shown_is_exact(blocks[b].kept_out, blocks[b].outputs.len() as usize);
            outputs_are_placed(g, blocks, b, j as usize);
            node_of_is_in(nodes, v);
        }
    } else {
        seated_belong(g, t, blocks, (count - 1) as nat);
        let st = seated_inputs(g, t, blocks, (count - 1) as nat);
        let b = blocks[count - 1];
        fits_after(blocks, count - 1, count - 1);
        let n = b.inputs.len();
        shown_is_exact(b.kept_in, n as usize);
        row_names_entries(b.kept_in.shown(n), -1, n as int);
        let slots = b.kept_in.row(n);
        assert forall|j: int| 0 <= j < slots.len() implies (
        #[trigger] slots[j] matches Slot::Node(ii) ==> ii < n && b.kept_in.keeps(n, ii as int)) by {
            if let Slot::Node(ii) = slots[j] {
                assert(b.kept_in.shown(n).contains(ii));
            }
        }
        seating_belongs(
            g,
            t,
            blocks,
            count - 1,
            Seating { nodes: st.nodes, row: Seq::empty(), drawn: 0 },
            slots,
            0,
        );
    }
}

/// The same graph nodes in the same places of the page, whatever their slots.
pub open spec fn same_roles(a: Seq<Placed>, b: Seq<Placed>) -> bool {
    &&& a.len() == b.len()
    &&& forall|i: int|
        0 <= i < a.len() ==> (#[trigger] b[i]).graph == a[i].graph && b[i].role == a[i].role
}

proof fn slot_row_keeps_roles(nodes: Seq<Placed>, row: Seq<RowSlot>, k: int)
    ensures
        same_roles(nodes, slot_row(nodes, row, k)),
    decreases row.len() - k,
{
    if k < row.len() {
        match row[k] {
            RowSlot::Node(i) => {
                let next = with_slot(nodes, i as int, k);
                slot_row_keeps_roles(next, row, k + 1);
                let end = slot_row(nodes, row, k);
                assert forall|j: int| 0 <= j < nodes.len() implies (#[trigger] end[j]).graph
                    == nodes[j].graph && end[j].role == nodes[j].role by {
                    assert(end[j].graph == next[j].graph);
                }
            },
            RowSlot::Gap(_) => slot_row_keeps_roles(nodes, row, k + 1),
        }
    }
}

pub(crate) proof fn slots_keep_roles(
    nodes: Seq<Placed>,
    in_rows: Seq<Seq<RowSlot>>,
    out_rows: Seq<Seq<RowSlot>>,
    count: nat,
)
    ensures
        same_roles(nodes, slotted(nodes, in_rows, out_rows, count)),
    decreases count,
{
    if count > 0 {
        slots_keep_roles(nodes, in_rows, out_rows, (count - 1) as nat);
        let a = slotted(nodes, in_rows, out_rows, (count - 1) as nat);
        slot_row_keeps_roles(a, out_rows[count - 1], 0);
        let b = slot_row(a, out_rows[count - 1], 0);
        slot_row_keeps_roles(b, in_rows[count - 1], 0);
        let c = slotted(nodes, in_rows, out_rows, count);
        assert forall|j: int| 0 <= j < nodes.len() implies (#[trigger] c[j]).graph
            == nodes[j].graph && c[j].role == nodes[j].role by {
            assert(c[j].graph == b[j].graph && b[j].graph == a[j].graph);
        }
    }
}

/// Who is drawn where: the drawn nodes are exactly those that a block keeps on one
/// of its sides, each of them once. A kept output of a block is on that block's
/// output row; any other is an outside input of a block that keeps it, a source if
/// nothing leads to it.
pub proof fn who_is_drawn_where(
    g: Lists,
    t: Lists,
    blocks: Seq<BlockView>,
    report: Report,
    vertical: bool,
)
    requires
        linked(g, t, blocks),
        all_blocks(blocks),
        blocks.len() <= u32::MAX,
    ensures
        ({
            let nodes = laid_out(g, t, blocks, report, vertical).nodes;
            &&& once(nodes)
            &&& forall|v: usize| #[trigger] is_drawn(nodes, v) <==> is_shown(blocks, v)
            &&& forall|k: int| 0 <= k < nodes.len() ==> belongs(t, blocks, #[trigger] nodes[k])
            &&& forall|k: int, b: int, j: int|
                0 <= k < nodes.len() && #[trigger] shows_out(blocks, nodes[k].graph, b, j)
                    ==> nodes[k].role == (Role::Output { block: b as u32 })
        }),
{
    let scene = laid_out(g, t, blocks, report, vertical);
    let nodes = scene.nodes;
    let st = seated_inputs(g, t, blocks, blocks.len());
    a_node_is_drawn_once(g, t, blocks, report, vertical);
    linked_blocks_are_apart(g, t, blocks);
    seated_belong(g, t, blocks, blocks.len());
    slots_keep_roles(st.nodes, scene.in_rows, scene.out_rows, blocks.len());
    assert forall|k: int| 0 <= k < nodes.len() implies belongs(t, blocks, #[trigger] nodes[k]) by {
        assert(belongs(t, blocks, st.nodes[k]));
        assert(nodes[k].graph == st.nodes[k].graph && nodes[k].role == st.nodes[k].role);
    }
    assert forall|v: usize| #[trigger] is_drawn(nodes, v) <==> is_shown(blocks, v) by {
        if is_drawn(nodes, v) {
            let i = choose|i: int| 0 <= i < nodes.len() && (#[trigger] nodes[i]).graph == v;
            assert(belongs(t, blocks, nodes[i]));
        }
        if is_shown(blocks, v) {
            node_of_is_in(st.nodes, v);
            if exists|b: int, i: int| shows_in(blocks, v, b, i) {
                let (b, i) = choose|b: int, i: int| shows_in(blocks, v, b, i);
                fits_after(blocks, b, b);
                shown_is_exact(blocks[b].kept_in, blocks[b].inputs.len() as usize);
                shown_inputs_are_nodes(g, t, blocks, b, i as usize);
            } else {
                let (b, j) = choose|b: int, j: int| shows_out(blocks, v, b, j);
                fits_after(blocks, b, b);
                shown_is_exact(blocks[b].kept_out, blocks[b].outputs.len() as usize);
                shown_outputs_are_nodes(g, t, blocks, b, j as usize);
            }
            let i = node_of(st.nodes, v)->0;
            assert(nodes[i].graph == v);
        }
    }
    assert forall|k: int, b: int, j: int|
        0 <= k < nodes.len() && #[trigger] shows_out(blocks, nodes[k].graph, b, j) implies nodes[k].role
        == (Role::Output { block: b as u32 }) by {
        assert(belongs(t, blocks, nodes[k]));
        let v = nodes[k].graph;
        assert(keeps_output(blocks, v, b));
        if let Role::Output { block } = nodes[k].role {
            let x = choose|x: int| #[trigger] shows_out(blocks, v, block as int, x);
            assert(blocks[b].outputs.contains(v));
            assert(blocks[block as int].outputs.contains(v));
        }
    }
}

/// The index has every node of a drawing that draws none twice, and nothing else.
pub proof fn an_index_has_every_node(index: Map<usize, u32>, nodes: Seq<Placed>)
    requires
        is_index(index, nodes),
        once(nodes),
        nodes.len() <= u32::MAX,
    ensures
        index.dom().finite(),
        index.len() == nodes.len(),
        forall|i: int|
            0 <= i < nodes.len() ==> index.contains_key((#[trigger] nodes[i]).graph)
                && index[nodes[i].graph] == i,
{
    let graphs = Seq::new(nodes.len(), |i: int| nodes[i].graph);
    assert(graphs.no_duplicates()) by {
        assert forall|i: int, j: int|
            0 <= i < graphs.len() && 0 <= j < graphs.len() && i != j implies graphs[i]
            != graphs[j] by {
            if i < j {
                assert(nodes[i].graph != nodes[j].graph);
            } else {
                assert(nodes[j].graph != nodes[i].graph);
            }
        }
    }
    assert forall|i: int| 0 <= i < nodes.len() implies index.contains_key(
        (#[trigger] nodes[i]).graph,
    ) && index[nodes[i].graph] == i by {
        let u = nodes[i].graph;
        assert(indexes(index, nodes, u));
        node_of_is_in(nodes, u);
        let k = node_of(nodes, u)->0;
        if k < i {
            assert(nodes[k].graph != nodes[i].graph);
        } else if i < k {
            assert(nodes[i].graph != nodes[k].graph);
        }
    }
    graphs.unique_seq_to_set();
    assert(index.dom() =~= graphs.to_set()) by {
        assert forall|u: usize| index.dom().contains(u) <==> graphs.to_set().contains(u) by {
            assert(indexes(index, nodes, u));
            node_of_is_in(nodes, u);
            if index.contains_key(u) {
                let k = node_of(nodes, u)->0;
                assert(graphs[k] == u);
            }
            if graphs.contains(u) {
                let k = graphs.index_of(u);
                assert(nodes[k].graph == u);
            }
        }
    }
}

proof fn kept_arcs_are_few(blocks: Seq<BlockView>, count: nat)
    requires
        all_blocks(blocks),
        count <= blocks.len(),
    ensures
        0 <= arcs_kept(blocks, count) <= total_arcs(blocks.take(count as int)),
    decreases count,
{
    if count > 0 {
        kept_arcs_are_few(blocks, (count - 1) as nat);
        assert(blocks.take(count as int).drop_last() =~= blocks.take(count - 1));
        let b = blocks[count - 1];
        fits_after(blocks, count - 1, count - 1);
        shown_is_exact(b.kept_in, b.inputs.len() as usize);
        shown_is_exact(b.kept_out, b.outputs.len() as usize);
        let (i, o) = (b.kept_in.count(b.inputs.len()), b.kept_out.count(b.outputs.len()));
        assert(0 <= i * o <= b.inputs.len() * b.outputs.len()) by (nonlinear_arith)
            requires
                i <= b.inputs.len(),
                o <= b.outputs.len(),
        ;
    }
}

/// What the report of a drawing adds up to: the arcs of the drawn blocks are those
/// that are drawn and those that the fanout hid, none is dropped, and the arcs drawn
/// are those between what the blocks keep; every node is an output or an outside
/// input, and every outside input a source or made by a block that is not drawn.
pub proof fn a_report_adds_up(
    g: Lists,
    t: Lists,
    roots: Seq<usize>,
    prune: BlockPrune,
    mode: Seed,
    vertical: bool,
)
    requires
        well_formed(g),
        well_formed(t),
        g.len() == t.len() <= usize::MAX,
        transposed(g, t),
        walked(g, t, roots, prune, mode, true) is Ok,
        total_arcs((walked(g, t, roots, prune, mode, true)->Ok_0).blocks) <= u64::MAX,
        ({
            let w = walked(g, t, roots, prune, mode, true)->Ok_0;
            laid_out(g, t, w.blocks, w.report, vertical).nodes.len() <= u32::MAX
        }),
    ensures
        ({
            let w = walked(g, t, roots, prune, mode, true)->Ok_0;
            let r = laid_out(g, t, w.blocks, w.report, vertical).report;
            &&& r.arcs_in_drawn_blocks == total_arcs(w.blocks)
            &&& r.arcs_drawn == arcs_kept(w.blocks, w.blocks.len())
            &&& r.arcs_drawn + r.arcs_hidden_by_fanout == r.arcs_in_drawn_blocks
            &&& r.arcs_dropped == 0
            &&& r.outputs_drawn + r.outside_inputs == r.nodes_drawn
            &&& r.outside_sources + r.outside_from_undrawn == r.outside_inputs
        }),
{
    let w = walked(g, t, roots, prune, mode, true)->Ok_0;
    let scene = laid_out(g, t, w.blocks, w.report, vertical);
    a_walk_has_blocks(g, t, roots, prune, mode);
    every_arc_of_a_block_is_drawn(g, t, w.blocks, w.report, vertical);
    every_node_is_an_output_or_comes_from_outside(scene.nodes);
    kept_arcs_are_few(w.blocks, w.blocks.len());
    assert(w.blocks.take(w.blocks.len() as int) =~= w.blocks);
    vstd::arithmetic::div_mod::lemma_small_mod(total_arcs(w.blocks), 0x1_0000_0000_0000_0000);
    assert(w.report.arcs_in_drawn_blocks == wrapped(total_arcs(w.blocks)));
}

/// The blocks of a walk are blocks, and no two of them share an output or an input.
pub proof fn a_walk_has_blocks(
    g: Lists,
    t: Lists,
    roots: Seq<usize>,
    prune: BlockPrune,
    mode: Seed,
)
    requires
        well_formed(g),
        well_formed(t),
        g.len() == t.len() <= usize::MAX,
        transposed(g, t),
    ensures
        walked(g, t, roots, prune, mode, true) matches Ok(w) ==> all_blocks(w.blocks) && apart(
            w.blocks,
        ),
{
    a_walk_is_linked_and_within_its_budgets(g, t, roots, prune, mode);
    if let Ok(st) = found(g, t, roots, prune, mode, true) {
        let w = walked(g, t, roots, prune, mode, true)->Ok_0;
        linked_blocks_are_blocks(g, t, prune, st.blocks);
        settling_keeps_blocks(st.blocks);
        let end = unhidden(st.blocks);
        assert forall|i: int| 0 <= i < w.blocks.len() implies (
        #[trigger] w.blocks[i]).is_block() by {
            assert(end[i].is_block());
        }
        linked_blocks_are_apart(g, t, w.blocks);
    }
}

} // verus!
