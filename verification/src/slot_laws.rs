//! Where the nodes and the ellipses of a drawing of blocks are on its rows, and what
//! its report counts.

use vstd::prelude::*;

use crate::block_scene::{
    count_arcs, count_nodes, laid_out, marks, row_marks, same_but_slots, slot_row, slotted,
    with_slot, Arc, ArcKind,
};
use crate::blocks::BlockView;
use crate::budget_laws::shows_out;
use crate::graph::{successor_list, well_formed, Lists};
use crate::kept::{ascending_fits, row_after, row_width, shown_is_exact, Slot};
use crate::kind_laws::{an_arc_is_of_its_kind, found_where_drawn, is_tree_arc};
use crate::node_laws::{belongs, keeps_input, keeps_output, who_is_drawn_where};
use crate::report::Report;
use crate::row_laws::{
    a_row_stands_right, all_are_seated, all_hidden, all_stand_for, has_its_nodes, is_known,
    is_on_its_row, is_row, is_seated, is_some_output, is_taken_before, mixed_before,
    stands_right,
};
use crate::rows::{
    node_of_is_in, out_row, row_has_entries, seated_inputs, shown_outputs_are_nodes, Ellipsis,
    Placed, Producer, Role, Row, RowSlot,
};
use crate::settle::all_blocks;
use crate::settle_laws::fits_after;
use crate::walk_laws::{complete, linked};

verus! {

/// Node `i` is at place `x` of a row.
pub open spec fn is_at(row: Seq<RowSlot>, i: int, x: int) -> bool {
    0 <= x < row.len() && (row[x] matches RowSlot::Node(j) && j == i)
}

proof fn slot_row_is_right(nodes: Seq<Placed>, row: Seq<RowSlot>, k: int)
    requires
        0 <= k <= row.len(),
        forall|i: int, x: int, y: int| #[trigger]
            is_at(row, i, x) && #[trigger] is_at(row, i, y) ==> x == y,
    ensures
        same_but_slots(nodes, slot_row(nodes, row, k)),
        forall|i: int, x: int|
            0 <= i < nodes.len() && k <= x && #[trigger] is_at(row, i, x) ==> slot_row(
                nodes,
                row,
                k,
            )[i].slot == x as usize,
        forall|i: int|
            0 <= i < nodes.len() && (forall|x: int| k <= x ==> !#[trigger] is_at(row, i, x))
                ==> #[trigger] slot_row(nodes, row, k)[i] == nodes[i],
    decreases row.len() - k,
{
    if k < row.len() {
        let end = slot_row(nodes, row, k);
        match row[k] {
            RowSlot::Node(at) => {
                let next = with_slot(nodes, at as int, k);
                slot_row_is_right(next, row, k + 1);
                assert forall|i: int| #![trigger end[i]] 0 <= i < nodes.len() implies end[i] == (
                Placed { slot: end[i].slot, ..nodes[i] }) by {
                    assert(end[i] == (Placed { slot: end[i].slot, ..next[i] }));
                }
                assert forall|i: int, x: int|
                    0 <= i < nodes.len() && k <= x && #[trigger] is_at(
                        row,
                        i,
                        x,
                    ) implies end[i].slot == x as usize by {
                    if x == k {
                        assert(i == at);
                        assert forall|y: int| k + 1 <= y implies !#[trigger] is_at(row, i, y) by {
                            assert(is_at(row, i, k));
                        }
                        assert(end[i] == next[i]);
                    }
                }
                assert forall|i: int|
                    0 <= i < nodes.len() && (forall|x: int|
                        k <= x ==> !#[trigger] is_at(row, i, x)) implies #[trigger] end[i]
                    == nodes[i] by {
                    assert(!is_at(row, i, k));
                    assert(i != at);
                    assert(next[i] == nodes[i]);
                    assert(end[i] == next[i]);
                }
            },
            RowSlot::Gap(_) => {
                slot_row_is_right(nodes, row, k + 1);
                assert forall|i: int, x: int|
                    0 <= i < nodes.len() && k <= x && #[trigger] is_at(
                        row,
                        i,
                        x,
                    ) implies end[i].slot == x as usize by {
                    assert(x != k);
                }
            },
        }
    }
}

/// Which rows a node is on.
spec fn is_on_out(out_rows: Seq<Seq<RowSlot>>, b: int, i: int, x: int) -> bool {
    is_at(out_rows[b], i, x)
}

spec fn is_on_in(in_rows: Seq<Seq<RowSlot>>, b: int, i: int, x: int) -> bool {
    is_at(in_rows[b], i, x)
}

/// Every node on a row is of the block that the row is of, and is there once.
spec fn are_rows_of(
    nodes: Seq<Placed>,
    in_rows: Seq<Seq<RowSlot>>,
    out_rows: Seq<Seq<RowSlot>>,
    count: int,
) -> bool {
    &&& forall|b: int, i: int, x: int|
        0 <= b < count && #[trigger] is_on_out(out_rows, b, i, x) ==> i < nodes.len() && (
        nodes[i].role matches Role::Output { block } && block == b)
    &&& forall|b: int, i: int, x: int|
        0 <= b < count && #[trigger] is_on_in(in_rows, b, i, x) ==> i < nodes.len() && (
        nodes[i].role matches Role::Outside { block, .. } && block == b)
    &&& forall|b: int, i: int, x: int, y: int|
        0 <= b < count && #[trigger] is_on_out(out_rows, b, i, x) && #[trigger] is_on_out(
            out_rows,
            b,
            i,
            y,
        ) ==> x == y
    &&& forall|b: int, i: int, x: int, y: int|
        0 <= b < count && #[trigger] is_on_in(in_rows, b, i, x) && #[trigger] is_on_in(
            in_rows,
            b,
            i,
            y,
        ) ==> x == y
}

#[verifier::rlimit(40)]
proof fn slotting_is_right(
    nodes: Seq<Placed>,
    in_rows: Seq<Seq<RowSlot>>,
    out_rows: Seq<Seq<RowSlot>>,
    count: nat,
)
    requires
        are_rows_of(nodes, in_rows, out_rows, count as int),
    ensures
        same_but_slots(nodes, slotted(nodes, in_rows, out_rows, count)),
        forall|b: int, i: int, x: int|
            0 <= b < count && #[trigger] is_on_out(out_rows, b, i, x) ==> slotted(
                nodes,
                in_rows,
                out_rows,
                count,
            )[i].slot == x as usize,
        forall|b: int, i: int, x: int|
            0 <= b < count && #[trigger] is_on_in(in_rows, b, i, x) ==> slotted(
                nodes,
                in_rows,
                out_rows,
                count,
            )[i].slot == x as usize,
    decreases count,
{
    if count > 0 {
        let c = count - 1;
        slotting_is_right(nodes, in_rows, out_rows, (count - 1) as nat);
        let a = slotted(nodes, in_rows, out_rows, (count - 1) as nat);
        let outs = out_rows[c];
        let ins = in_rows[c];
        let b = slot_row(a, outs, 0);
        let end = slot_row(b, ins, 0);
        assert forall|i: int, x: int, y: int| #[trigger]
            is_at(outs, i, x) && #[trigger] is_at(outs, i, y) implies x == y by {
            assert(is_on_out(out_rows, c, i, x) && is_on_out(out_rows, c, i, y));
        }
        assert forall|i: int, x: int, y: int| #[trigger]
            is_at(ins, i, x) && #[trigger] is_at(ins, i, y) implies x == y by {
            assert(is_on_in(in_rows, c, i, x) && is_on_in(in_rows, c, i, y));
        }
        slot_row_is_right(a, outs, 0);
        slot_row_is_right(b, ins, 0);
        assert forall|i: int| #![trigger end[i]] 0 <= i < nodes.len() implies end[i] == (Placed {
            slot: end[i].slot,
            ..nodes[i]
        }) by {
            assert(b[i] == (Placed { slot: b[i].slot, ..a[i] }));
            assert(a[i] == (Placed { slot: a[i].slot, ..nodes[i] }));
            assert(end[i] == (Placed { slot: end[i].slot, ..b[i] }));
        }
        assert forall|q: int, i: int, x: int|
            0 <= q < count && #[trigger] is_on_out(out_rows, q, i, x) implies end[i].slot
            == x as usize by {
            assert forall|y: int| 0 <= y implies !#[trigger] is_at(ins, i, y) by {
                if is_at(ins, i, y) {
                    assert(is_on_in(in_rows, c, i, y));
                }
            }
            assert(0 <= i < nodes.len()) by {
                assert(is_at(out_rows[q], i, x));
            }
            assert(end[i] == b[i]);
            if q == c {
                assert(is_at(outs, i, x));
            } else {
                assert forall|y: int| 0 <= y implies !#[trigger] is_at(outs, i, y) by {
                    if is_at(outs, i, y) {
                        assert(is_on_out(out_rows, c, i, y));
                    }
                }
                assert(b[i] == a[i]);
            }
        }
        assert forall|q: int, i: int, x: int|
            0 <= q < count && #[trigger] is_on_in(in_rows, q, i, x) implies end[i].slot
            == x as usize by {
            assert(0 <= i < nodes.len()) by {
                assert(is_at(in_rows[q], i, x));
            }
            if q == c {
                assert(is_at(ins, i, x));
            } else {
                assert forall|y: int| 0 <= y implies !#[trigger] is_at(ins, i, y) by {
                    if is_at(ins, i, y) {
                        assert(is_on_in(in_rows, c, i, y));
                    }
                }
                assert forall|y: int| 0 <= y implies !#[trigger] is_at(outs, i, y) by {
                    if is_at(outs, i, y) {
                        assert(is_on_out(out_rows, c, i, y));
                    }
                }
                assert(end[i] == b[i]);
                assert(b[i] == a[i]);
            }
        }
    }
}

/// Place `k` of an output row: the node of the output where the entries before it end,
/// which is kept, or a run of outputs that are not.
pub open spec fn is_output_row_at(
    nodes: Seq<Placed>,
    b: BlockView,
    row: Seq<RowSlot>,
    k: int,
) -> bool {
    let e = all_stand_for(row.take(k)) as int;
    let n = b.outputs.len();
    match row[k] {
        RowSlot::Node(i) => {
            &&& i < nodes.len()
            &&& e < n
            &&& nodes[i as int].graph == b.outputs[e]
            &&& b.kept_out.keeps(n, e)
        },
        RowSlot::Gap(h) => {
            &&& h > 0
            &&& e + h <= n
            &&& forall|j: int| e <= j < e + h ==> !#[trigger] b.kept_out.keeps(n, j)
            &&& k + 1 < row.len() ==> row[k + 1] is Node
        },
    }
}

proof fn widths_agree(nodes: Seq<Placed>, b: BlockView, k: int)
    requires
        0 <= k <= out_row(nodes, b).len(),
    ensures
        all_stand_for(out_row(nodes, b).take(k)) == row_width(
            b.kept_out.row(b.outputs.len()).take(k),
        ),
    decreases k,
{
    let row = out_row(nodes, b);
    let slots = b.kept_out.row(b.outputs.len());
    if k > 0 {
        widths_agree(nodes, b, k - 1);
        assert(row.take(k).drop_last() =~= row.take(k - 1));
        assert(slots.take(k).drop_last() =~= slots.take(k - 1));
    }
}

proof fn an_output_row_is_right(
    g: Lists,
    t: Lists,
    blocks: Seq<BlockView>,
    bi: int,
    nodes: Seq<Placed>,
)
    requires
        all_blocks(blocks),
        0 <= bi < blocks.len(),
        nodes == seated_inputs(g, t, blocks, blocks.len()).nodes,
        nodes.len() <= u32::MAX,
    ensures
        all_stand_for(out_row(nodes, blocks[bi])) == blocks[bi].outputs.len(),
        forall|k: int|
            0 <= k < out_row(nodes, blocks[bi]).len() ==> #[trigger] is_output_row_at(
                nodes,
                blocks[bi],
                out_row(nodes, blocks[bi]),
                k,
            ),
{
    let b = blocks[bi];
    let n = b.outputs.len();
    let row = out_row(nodes, b);
    let slots = b.kept_out.row(n);
    let shown = b.kept_out.shown(n);
    fits_after(blocks, bi, bi);
    shown_is_exact(b.kept_out, n as usize);
    a_row_stands_right(shown, -1, n as int);
    widths_agree(nodes, b, row.len() as int);
    assert(row.take(row.len() as int) =~= row);
    assert(slots.take(row.len() as int) =~= slots);
    assert forall|k: int| 0 <= k < row.len() implies #[trigger] is_output_row_at(
        nodes,
        b,
        row,
        k,
    ) by {
        assert(stands_right(slots, shown, -1, k));
        widths_agree(nodes, b, k);
        widths_agree(nodes, b, k + 1);
        assert(slots.take(k + 1).drop_last() =~= slots.take(k));
        crate::row_laws::gaps_within(slots, k + 1);
        let e = all_stand_for(row.take(k)) as int;
        match slots[k] {
            Slot::Node(oi) => {
                shown_outputs_are_nodes(g, t, blocks, bi, oi);
                node_of_is_in(nodes, b.outputs[oi as int]);
            },
            Slot::Gap(h) => {
                assert forall|j: int| e <= j < e + h implies !#[trigger] b.kept_out.keeps(n, j) by {
                    assert(!shown.contains(j as usize));
                }
            },
        }
    }
}

/// The output rows of a drawing. Each stands for all the outputs of its block, in
/// order: a node for each that is kept, an ellipsis for each run of those that are not.
pub proof fn an_output_row_stands_for_the_outputs(
    g: Lists,
    t: Lists,
    blocks: Seq<BlockView>,
    report: Report,
    vertical: bool,
    bi: int,
)
    requires
        linked(g, t, blocks),
        all_blocks(blocks),
        0 <= bi < blocks.len() <= u32::MAX,
        laid_out(g, t, blocks, report, vertical).nodes.len() <= u32::MAX,
    ensures
        ({
            let scene = laid_out(g, t, blocks, report, vertical);
            let row = scene.out_rows[bi];
            &&& all_stand_for(row) == blocks[bi].outputs.len()
            &&& forall|k: int|
                0 <= k < row.len() ==> #[trigger] is_output_row_at(
                    scene.nodes,
                    blocks[bi],
                    row,
                    k,
                )
        }),
{
    let scene = laid_out(g, t, blocks, report, vertical);
    let st = seated_inputs(g, t, blocks, blocks.len());
    rows_are_rows(g, t, blocks, report, vertical);
    slotting_is_right(st.nodes, st.in_rows, scene.out_rows, blocks.len());
    an_output_row_is_right(g, t, blocks, bi, st.nodes);
    let row = scene.out_rows[bi];
    assert forall|k: int| 0 <= k < row.len() implies #[trigger] is_output_row_at(
        scene.nodes,
        blocks[bi],
        row,
        k,
    ) by {
        assert(is_output_row_at(st.nodes, blocks[bi], row, k));
        if let RowSlot::Node(i) = row[k] {
            assert(scene.nodes[i as int].graph == st.nodes[i as int].graph);
        }
    }
}

proof fn seats_are_few(
    g: Lists,
    t: Lists,
    blocks: Seq<BlockView>,
    report: Report,
    vertical: bool,
)
    ensures
        seated_inputs(g, t, blocks, blocks.len()).nodes.len() == laid_out(
            g,
            t,
            blocks,
            report,
            vertical,
        ).nodes.len(),
        crate::node_laws::same_roles(
            seated_inputs(g, t, blocks, blocks.len()).nodes,
            laid_out(g, t, blocks, report, vertical).nodes,
        ),
{
    let scene = laid_out(g, t, blocks, report, vertical);
    let st = seated_inputs(g, t, blocks, blocks.len());
    crate::node_laws::slots_keep_roles(st.nodes, scene.in_rows, scene.out_rows, blocks.len());
}

#[verifier::rlimit(40)]
proof fn rows_are_rows(
    g: Lists,
    t: Lists,
    blocks: Seq<BlockView>,
    report: Report,
    vertical: bool,
)
    requires
        linked(g, t, blocks),
        all_blocks(blocks),
        blocks.len() <= u32::MAX,
        laid_out(g, t, blocks, report, vertical).nodes.len() <= u32::MAX,
    ensures
        ({
            let st = seated_inputs(g, t, blocks, blocks.len());
            let scene = laid_out(g, t, blocks, report, vertical);
            &&& is_seated(g, t, blocks, st, blocks.len())
            &&& are_rows_of(st.nodes, st.in_rows, scene.out_rows, blocks.len() as int)
        }),
{
    let scene = laid_out(g, t, blocks, report, vertical);
    let st = seated_inputs(g, t, blocks, blocks.len());
    seats_are_few(g, t, blocks, report, vertical);
    all_are_seated(g, t, blocks, blocks.len());
    who_is_drawn_where(g, t, blocks, report, vertical);
    assert forall|b: int, i: int, x: int|
        0 <= b < blocks.len() && #[trigger] is_on_out(scene.out_rows, b, i, x) implies i
        < st.nodes.len() && (st.nodes[i].role matches Role::Output { block } && block == b) by {
        an_output_row_is_right(g, t, blocks, b, st.nodes);
        let row = scene.out_rows[b];
        assert(is_at(row, i, x));
        assert(is_output_row_at(st.nodes, blocks[b], row, x));
        let e = all_stand_for(row.take(x)) as int;
        assert(scene.nodes[i].graph == st.nodes[i].graph);
        assert(shows_out(blocks, scene.nodes[i].graph, b, e));
    }
    assert forall|b: int, i: int, x: int|
        0 <= b < blocks.len() && #[trigger] is_on_in(st.in_rows, b, i, x) implies i
        < st.nodes.len() && (st.nodes[i].role matches Role::Outside { block, .. } && block
        == b) by {
        assert(is_at(st.in_rows[b], i, x));
        assert(has_its_nodes(st.nodes, st.in_rows[b], b));
        assert(st.in_rows[b][x] is Node);
    }
    assert forall|b: int, i: int, x: int, y: int|
        0 <= b < blocks.len() && #[trigger] is_on_out(scene.out_rows, b, i, x) && #[trigger]
        is_on_out(scene.out_rows, b, i, y) implies x == y by {
        an_output_row_is_right(g, t, blocks, b, st.nodes);
        let row = scene.out_rows[b];
        assert(is_at(row, i, x) && is_at(row, i, y));
        one_place_per_output(st.nodes, blocks, b, row, i, x, y);
    }
    assert forall|b: int, i: int, x: int, y: int|
        0 <= b < blocks.len() && #[trigger] is_on_in(st.in_rows, b, i, x) && #[trigger] is_on_in(
            st.in_rows,
            b,
            i,
            y,
        ) implies x == y by {
        let row = st.in_rows[b];
        assert(is_at(row, i, x) && is_at(row, i, y));
        assert(is_row(row, 0, st.nodes.len() as int));
        if x < y {
            assert(match (row[x], row[y]) {
                (RowSlot::Node(i), RowSlot::Node(j)) => i < j,
                _ => true,
            });
        } else if y < x {
            assert(match (row[y], row[x]) {
                (RowSlot::Node(i), RowSlot::Node(j)) => i < j,
                _ => true,
            });
        }
    }
}

proof fn stands_more(row: Seq<RowSlot>, x: int, y: int)
    requires
        0 <= x < y <= row.len(),
        row[x] is Node,
    ensures
        all_stand_for(row.take(x)) < all_stand_for(row.take(y)),
    decreases y,
{
    assert(row.take(y).drop_last() =~= row.take(y - 1));
    if x < y - 1 {
        stands_more(row, x, y - 1);
    }
}

proof fn one_place_per_output(
    nodes: Seq<Placed>,
    blocks: Seq<BlockView>,
    b: int,
    row: Seq<RowSlot>,
    i: int,
    x: int,
    y: int,
)
    requires
        all_blocks(blocks),
        0 <= b < blocks.len(),
        forall|k: int|
            0 <= k < row.len() ==> #[trigger] is_output_row_at(nodes, blocks[b], row, k),
        is_at(row, i, x),
        is_at(row, i, y),
    ensures
        x == y,
{
    assert(blocks[b].is_block());
    assert(is_output_row_at(nodes, blocks[b], row, x));
    assert(is_output_row_at(nodes, blocks[b], row, y));
    let e = all_stand_for(row.take(x)) as int;
    let f = all_stand_for(row.take(y)) as int;
    assert(blocks[b].outputs[e] == blocks[b].outputs[f]);
    assert(e == f);
    if x < y {
        stands_more(row, x, y);
    } else if y < x {
        stands_more(row, y, x);
    }
}

/// An input row of a drawing: its ellipses hide as many inputs as the block does not
/// keep, none of them nothing and no two next to each other, and its nodes come in the
/// order in which they were numbered.
pub proof fn an_input_row_hides_what_is_not_kept(
    g: Lists,
    t: Lists,
    blocks: Seq<BlockView>,
    report: Report,
    vertical: bool,
    bi: int,
)
    requires
        linked(g, t, blocks),
        all_blocks(blocks),
        0 <= bi < blocks.len() <= u32::MAX,
        laid_out(g, t, blocks, report, vertical).nodes.len() <= u32::MAX,
    ensures
        ({
            let scene = laid_out(g, t, blocks, report, vertical);
            let row = scene.in_rows[bi];
            let b = blocks[bi];
            &&& scene.in_rows.len() == blocks.len()
            &&& all_hidden(row) + b.kept_in.count(b.inputs.len()) == b.inputs.len()
            &&& is_row(row, 0, scene.nodes.len() as int)
        }),
{
    let st = seated_inputs(g, t, blocks, blocks.len());
    rows_are_rows(g, t, blocks, report, vertical);
    seats_are_few(g, t, blocks, report, vertical);
    assert(is_row(st.in_rows[bi], 0, st.nodes.len() as int));
}

/// Every node is at its slot of its row, and nowhere else: an output on the output row
/// of its block, an outside input on the input row of its block.
#[verifier::rlimit(40)]
pub proof fn a_node_is_at_its_slot(
    g: Lists,
    t: Lists,
    blocks: Seq<BlockView>,
    report: Report,
    vertical: bool,
    i: int,
    bi: int,
    x: int,
)
    requires
        linked(g, t, blocks),
        all_blocks(blocks),
        blocks.len() <= u32::MAX,
        laid_out(g, t, blocks, report, vertical).nodes.len() <= u32::MAX,
        0 <= i < laid_out(g, t, blocks, report, vertical).nodes.len(),
        0 <= bi < blocks.len(),
        laid_out(g, t, blocks, report, vertical).in_rows[bi].len() <= usize::MAX,
        laid_out(g, t, blocks, report, vertical).out_rows[bi].len() <= usize::MAX,
    ensures
        ({
            let scene = laid_out(g, t, blocks, report, vertical);
            let p = scene.nodes[i];
            &&& is_at(scene.out_rows[bi], i, x) <==> p.role == (Role::Output { block: bi as u32 })
                && p.slot == x
            &&& is_at(scene.in_rows[bi], i, x) <==> (p.role matches Role::Outside { block, .. }
                && block == bi) && p.slot == x
        }),
{
    let scene = laid_out(g, t, blocks, report, vertical);
    let st = seated_inputs(g, t, blocks, blocks.len());
    rows_are_rows(g, t, blocks, report, vertical);
    seats_are_few(g, t, blocks, report, vertical);
    slotting_is_right(st.nodes, st.in_rows, scene.out_rows, blocks.len());
    let p = scene.nodes[i];
    assert(p == (Placed { slot: p.slot, ..st.nodes[i] }));
    if is_at(scene.out_rows[bi], i, x) {
        assert(is_on_out(scene.out_rows, bi, i, x));
    }
    if is_at(scene.in_rows[bi], i, x) {
        assert(is_on_in(st.in_rows, bi, i, x));
    }
    if p.role matches Role::Outside { block, .. } && block == bi {
        assert(is_on_its_row(st.nodes[i], st.in_rows, i));
        let row = st.in_rows[bi];
        let y = choose|y: int|
            0 <= y < row.len() && (#[trigger] row[y] matches RowSlot::Node(j) && j == i);
        assert(is_at(row, i, y));
        assert(is_on_in(st.in_rows, bi, i, y));
        assert(p.slot == y);
    }
    if p.role == (Role::Output { block: bi as u32 }) {
        an_output_is_on_its_row(g, t, blocks, report, vertical, i, bi);
        let row = scene.out_rows[bi];
        let y = choose|y: int| #[trigger] is_at(row, i, y);
        assert(is_on_out(scene.out_rows, bi, i, y));
        assert(p.slot == y);
    }
}

proof fn an_output_is_on_its_row(
    g: Lists,
    t: Lists,
    blocks: Seq<BlockView>,
    report: Report,
    vertical: bool,
    i: int,
    bi: int,
)
    requires
        linked(g, t, blocks),
        all_blocks(blocks),
        blocks.len() <= u32::MAX,
        laid_out(g, t, blocks, report, vertical).nodes.len() <= u32::MAX,
        0 <= i < laid_out(g, t, blocks, report, vertical).nodes.len(),
        0 <= bi < blocks.len(),
        laid_out(g, t, blocks, report, vertical).nodes[i].role == (Role::Output {
            block: bi as u32,
        }),
    ensures
        exists|y: int| #[trigger]
            is_at(laid_out(g, t, blocks, report, vertical).out_rows[bi], i, y),
{
    let scene = laid_out(g, t, blocks, report, vertical);
    let st = seated_inputs(g, t, blocks, blocks.len());
    rows_are_rows(g, t, blocks, report, vertical);
    seats_are_few(g, t, blocks, report, vertical);
    who_is_drawn_where(g, t, blocks, report, vertical);
    let b = blocks[bi];
    let n = b.outputs.len();
    assert(belongs(t, blocks, scene.nodes[i]));
    let v = scene.nodes[i].graph;
    let j = choose|j: int| #[trigger] shows_out(blocks, v, bi, j);
    fits_after(blocks, bi, bi);
    shown_is_exact(b.kept_out, n as usize);
    let shown = b.kept_out.shown(n);
    assert(shown.contains(j as usize));
    row_has_entries(shown, -1, n as int, j as usize);
    let y = choose|y: int|
        0 <= y < row_after(shown, -1, n as int).len() && #[trigger] row_after(
            shown,
            -1,
            n as int,
        )[y] == Slot::Node(j as usize);
    assert(st.nodes[i].graph == v);
    found_where_drawn(st.nodes, i);
    assert(is_at(scene.out_rows[bi], i, y));
}

/// A node has as many successors as the graph says, and counts as consumed exactly if
/// a block keeps it as an input.
pub proof fn a_node_is_what_the_graph_says(
    g: Lists,
    t: Lists,
    blocks: Seq<BlockView>,
    report: Report,
    vertical: bool,
    i: int,
)
    requires
        well_formed(g),
        g.len() <= usize::MAX,
        linked(g, t, blocks),
        all_blocks(blocks),
        blocks.len() <= u32::MAX,
        laid_out(g, t, blocks, report, vertical).nodes.len() <= u32::MAX,
        0 <= i < laid_out(g, t, blocks, report, vertical).nodes.len(),
    ensures
        ({
            let p = laid_out(g, t, blocks, report, vertical).nodes[i];
            &&& p.outdeg == g[p.graph as int].len()
            &&& p.consumed <==> exists|b: int| #[trigger] keeps_input(blocks, p.graph, b)
        }),
{
    let scene = laid_out(g, t, blocks, report, vertical);
    let st = seated_inputs(g, t, blocks, blocks.len());
    rows_are_rows(g, t, blocks, report, vertical);
    slotting_is_right(st.nodes, st.in_rows, scene.out_rows, blocks.len());
    who_is_drawn_where(g, t, blocks, report, vertical);
    let p = scene.nodes[i];
    assert(p == (Placed { slot: p.slot, ..st.nodes[i] }));
    assert(is_known(g, blocks, st.nodes[i], blocks.len() as int));
    assert(belongs(t, blocks, p));
    let u = p.graph;
    match p.role {
        Role::Output { block } => {
            let j = choose|j: int| #[trigger] shows_out(blocks, u, block as int, j);
            assert(complete(g, t, blocks[block as int]));
            assert(blocks[block as int].outputs[j] < g.len());
        },
        Role::Outside { block, .. } => {
            let j = choose|j: int| #[trigger]
                crate::budget_laws::shows_in(blocks, u, block as int, j);
            assert(complete(g, t, blocks[block as int]));
            assert(blocks[block as int].inputs[j] < g.len());
        },
    }
    assert(successor_list(g[u as int], g.len()));
    ascending_fits(g[u as int], 0, g.len() as int);
    if is_taken_before(blocks, u, blocks.len() as int) {
        let b = choose|b: int| 0 <= b < blocks.len() && #[trigger] keeps_input(blocks, u, b);
        assert(keeps_input(blocks, u, b));
    }
    if exists|b: int| #[trigger] keeps_input(blocks, u, b) {
        let b = choose|b: int| #[trigger] keeps_input(blocks, u, b);
        let j = choose|j: int| #[trigger] crate::budget_laws::shows_in(blocks, u, b, j);
        assert(is_taken_before(blocks, u, blocks.len() as int));
    }
}

/// An ellipsis stands where a row has a gap.
pub open spec fn marks_a_gap(
    in_rows: Seq<Seq<RowSlot>>,
    out_rows: Seq<Seq<RowSlot>>,
    e: Ellipsis,
    count: int,
) -> bool {
    let row = if e.row == Row::Input {
        in_rows[e.block as int]
    } else {
        out_rows[e.block as int]
    };
    e.block < count && e.slot < row.len() && row[e.slot as int] == RowSlot::Gap(e.hidden)
}

proof fn row_marks_are_right(row: Seq<RowSlot>, bi: int, which: Row, k: nat)
    requires
        k <= row.len() <= usize::MAX,
        0 <= bi <= u32::MAX,
    ensures
        row_marks(row, bi, which, k).no_duplicates(),
        forall|e: Ellipsis| #[trigger]
            row_marks(row, bi, which, k).contains(e) <==> e.block == bi && e.row == which && e.slot
                < k && row[e.slot as int] == RowSlot::Gap(e.hidden),
    decreases k,
{
    if k > 0 {
        row_marks_are_right(row, bi, which, (k - 1) as nat);
        let front = row_marks(row, bi, which, (k - 1) as nat);
        let all = row_marks(row, bi, which, k);
        if let RowSlot::Gap(hidden) = row[k - 1] {
            let e = Ellipsis { hidden, block: bi as u32, row: which, slot: (k - 1) as usize };
            assert(all == front.push(e));
            assert(!front.contains(e));
            assert forall|x: int, y: int|
                0 <= x < all.len() && 0 <= y < all.len() && x != y implies all[x] != all[y] by {
                if x < front.len() {
                    assert(front.contains(front[x]));
                }
                if y < front.len() {
                    assert(front.contains(front[y]));
                }
            }
            assert forall|f: Ellipsis| #[trigger]
                all.contains(f) <==> f.block == bi && f.row == which && f.slot < k
                    && row[f.slot as int] == RowSlot::Gap(f.hidden) by {
                if all.contains(f) {
                    let x = all.index_of(f);
                    if x < front.len() {
                        assert(front.contains(front[x]));
                    }
                }
                if f.block == bi && f.row == which && f.slot < k && row[f.slot as int]
                    == RowSlot::Gap(f.hidden) {
                    if f.slot < k - 1 {
                        assert(front.contains(f));
                        let x = front.index_of(f);
                        assert(all[x] == f);
                    } else {
                        assert(f == e);
                        assert(all[all.len() - 1] == e);
                    }
                }
            }
        } else {
            assert(all == front);
        }
    }
}

proof fn joined_lists(a: Seq<Ellipsis>, b: Seq<Ellipsis>)
    requires
        a.no_duplicates(),
        b.no_duplicates(),
        forall|e: Ellipsis| #[trigger] a.contains(e) ==> !b.contains(e),
    ensures
        (a + b).no_duplicates(),
        forall|e: Ellipsis| #[trigger] (a + b).contains(e) <==> a.contains(e) || b.contains(e),
{
    let all = a + b;
    assert forall|x: int, y: int|
        0 <= x < all.len() && 0 <= y < all.len() && x != y implies all[x] != all[y] by {
        if x < a.len() {
            assert(a.contains(all[x]));
        } else {
            assert(b[x - a.len()] == all[x]);
            assert(b.contains(all[x]));
        }
        if y < a.len() {
            assert(a.contains(all[y]));
        } else {
            assert(b[y - a.len()] == all[y]);
            assert(b.contains(all[y]));
        }
    }
    assert forall|e: Ellipsis| #[trigger] all.contains(e) <==> a.contains(e) || b.contains(e) by {
        if a.contains(e) {
            assert(all[a.index_of(e)] == e);
        }
        if b.contains(e) {
            assert(all[a.len() + b.index_of(e)] == e);
        }
        if all.contains(e) {
            let x = all.index_of(e);
            if x >= a.len() {
                assert(b[x - a.len()] == e);
            }
        }
    }
}

proof fn marks_are_right(in_rows: Seq<Seq<RowSlot>>, out_rows: Seq<Seq<RowSlot>>, count: nat)
    requires
        count <= u32::MAX,
        forall|b: int|
            0 <= b < count ==> (#[trigger] in_rows[b]).len() <= usize::MAX && out_rows[b].len()
                <= usize::MAX,
    ensures
        marks(in_rows, out_rows, count).no_duplicates(),
        forall|e: Ellipsis| #[trigger]
            marks(in_rows, out_rows, count).contains(e) <==> marks_a_gap(
                in_rows,
                out_rows,
                e,
                count as int,
            ),
    decreases count,
{
    if count > 0 {
        let c = count - 1;
        marks_are_right(in_rows, out_rows, (count - 1) as nat);
        assert(in_rows[c].len() <= usize::MAX);
        let front = marks(in_rows, out_rows, (count - 1) as nat);
        let (outs, ins) = (out_rows[c], in_rows[c]);
        row_marks_are_right(outs, c, Row::Output, outs.len());
        row_marks_are_right(ins, c, Row::Input, ins.len());
        let a = row_marks(outs, c, Row::Output, outs.len());
        let b = row_marks(ins, c, Row::Input, ins.len());
        joined_lists(front, a);
        joined_lists(front + a, b);
    }
}

/// A drawing has an ellipsis for every gap of its rows, at the gap's slot and hiding as
/// many, each of them once, and no other.
pub proof fn an_ellipsis_is_where_a_gap_is(
    g: Lists,
    t: Lists,
    blocks: Seq<BlockView>,
    report: Report,
    vertical: bool,
    e: Ellipsis,
)
    requires
        blocks.len() <= u32::MAX,
        forall|b: int|
            0 <= b < blocks.len() ==> (#[trigger] laid_out(
                g,
                t,
                blocks,
                report,
                vertical,
            ).in_rows[b]).len() <= usize::MAX && laid_out(
                g,
                t,
                blocks,
                report,
                vertical,
            ).out_rows[b].len() <= usize::MAX,
    ensures
        ({
            let scene = laid_out(g, t, blocks, report, vertical);
            &&& scene.ellipses.no_duplicates()
            &&& scene.ellipses.contains(e) <==> marks_a_gap(
                scene.in_rows,
                scene.out_rows,
                e,
                blocks.len() as int,
            )
        }),
{
    let scene = laid_out(g, t, blocks, report, vertical);
    marks_are_right(scene.in_rows, scene.out_rows, blocks.len());
}

/// How many of the first `n` numbers are such.
pub open spec fn how_many(n: nat, p: spec_fn(int) -> bool) -> nat
    decreases n,
{
    if n == 0 {
        0
    } else {
        how_many((n - 1) as nat, p) + if p(n - 1) {
            1nat
        } else {
            0nat
        }
    }
}

pub(crate) proof fn same_many(n: nat, p: spec_fn(int) -> bool, q: spec_fn(int) -> bool)
    requires
        forall|i: int| 0 <= i < n ==> (#[trigger] p(i) <==> q(i)),
    ensures
        how_many(n, p) == how_many(n, q),
        how_many(n, p) <= n,
    decreases n,
{
    if n > 0 {
        same_many((n - 1) as nat, p, q);
        assert(p(n - 1) <==> q(n - 1));
    }
}

proof fn counts_are_counts(nodes: Seq<Placed>)
    ensures
        ({
            let c = count_nodes(nodes);
            let n = nodes.len();
            &&& c.outputs == how_many(n, |i: int| nodes[i].role is Output)
            &&& c.sources == how_many(
                n,
                |i: int| nodes[i].role is Outside && nodes[i].role->producer is Source,
            )
            &&& c.undrawn == how_many(
                n,
                |i: int| nodes[i].role is Outside && nodes[i].role->producer is Undrawn,
            )
            &&& c.sinks == how_many(n, |i: int| nodes[i].outdeg == 0)
            &&& c.frontier == how_many(n, |i: int| nodes[i].outdeg > 0 && !nodes[i].consumed)
        }),
    decreases nodes.len(),
{
    if nodes.len() > 0 {
        let f = nodes.drop_last();
        let n = f.len();
        counts_are_counts(f);
        same_many(n, |i: int| f[i].role is Output, |i: int| nodes[i].role is Output);
        same_many(
            n,
            |i: int| f[i].role is Outside && f[i].role->producer is Source,
            |i: int| nodes[i].role is Outside && nodes[i].role->producer is Source,
        );
        same_many(
            n,
            |i: int| f[i].role is Outside && f[i].role->producer is Undrawn,
            |i: int| nodes[i].role is Outside && nodes[i].role->producer is Undrawn,
        );
        same_many(n, |i: int| f[i].outdeg == 0, |i: int| nodes[i].outdeg == 0);
        same_many(
            n,
            |i: int| f[i].outdeg > 0 && !f[i].consumed,
            |i: int| nodes[i].outdeg > 0 && !nodes[i].consumed,
        );
    }
}

proof fn arcs_are_counted(arcs: Seq<Arc>, kind: ArcKind)
    ensures
        count_arcs(arcs, kind) == how_many(arcs.len(), |x: int| arcs[x].kind == kind),
    decreases arcs.len(),
{
    if arcs.len() > 0 {
        let f = arcs.drop_last();
        arcs_are_counted(f, kind);
        same_many(f.len(), |x: int| f[x].kind == kind, |x: int| arcs[x].kind == kind);
    }
}

/// What the report of a drawing counts of its nodes: those that a block on the page
/// made, those that nothing made, those that another block made, those that lead
/// nowhere, and those that lead on but not to a block on the page; and the blocks that
/// have inputs from the page and others.
#[verifier::rlimit(40)]
pub proof fn a_report_counts_the_nodes(
    g: Lists,
    t: Lists,
    blocks: Seq<BlockView>,
    report: Report,
    vertical: bool,
)
    requires
        well_formed(g),
        g.len() == t.len() <= usize::MAX,
        linked(g, t, blocks),
        all_blocks(blocks),
        blocks.len() <= u32::MAX,
        laid_out(g, t, blocks, report, vertical).nodes.len() <= u32::MAX,
    ensures
        ({
            let scene = laid_out(g, t, blocks, report, vertical);
            let nodes = scene.nodes;
            let n = nodes.len();
            let r = scene.report;
            &&& r.nodes_drawn == n
            &&& r.outputs_drawn == how_many(n, |i: int| is_some_output(blocks, nodes[i].graph))
            &&& r.outside_inputs == how_many(n, |i: int| !is_some_output(blocks, nodes[i].graph))
            &&& r.outside_sources == how_many(n, |i: int| t[nodes[i].graph as int].len() == 0)
            &&& r.outside_from_undrawn == how_many(
                n,
                |i: int|
                    !is_some_output(blocks, nodes[i].graph) && t[nodes[i].graph as int].len() > 0,
            )
            &&& r.sinks == how_many(n, |i: int| g[nodes[i].graph as int].len() == 0)
            &&& r.frontier_outputs == how_many(
                n,
                |i: int|
                    g[nodes[i].graph as int].len() > 0 && !is_some_input(blocks, nodes[i].graph),
            )
            &&& r.blocks_mixed == mixed_before(blocks, blocks.len())
        }),
{
    let scene = laid_out(g, t, blocks, report, vertical);
    let nodes = scene.nodes;
    let n = nodes.len();
    counts_are_counts(nodes);
    who_is_drawn_where(g, t, blocks, report, vertical);
    rows_are_rows(g, t, blocks, report, vertical);
    mixed_are_few(blocks, blocks.len());
    assert forall|i: int| 0 <= i < n implies is_told_right(g, t, blocks, #[trigger] nodes[i]) by {
        a_node_is_what_the_graph_says(g, t, blocks, report, vertical, i);
        told_right(g, t, blocks, nodes, i);
    }
    same_many(
        n,
        |i: int| nodes[i].role is Output,
        |i: int| is_some_output(blocks, nodes[i].graph),
    );
    same_many(
        n,
        |i: int| nodes[i].role is Outside && nodes[i].role->producer is Source,
        |i: int| t[nodes[i].graph as int].len() == 0,
    );
    same_many(
        n,
        |i: int| nodes[i].role is Outside && nodes[i].role->producer is Undrawn,
        |i: int| !is_some_output(blocks, nodes[i].graph) && t[nodes[i].graph as int].len() > 0,
    );
    same_many(
        n,
        |i: int| nodes[i].outdeg == 0,
        |i: int| g[nodes[i].graph as int].len() == 0,
    );
    same_many(
        n,
        |i: int| nodes[i].outdeg > 0 && !nodes[i].consumed,
        |i: int| g[nodes[i].graph as int].len() > 0 && !is_some_input(blocks, nodes[i].graph),
    );
    let source = |i: int| t[nodes[i].graph as int].len() == 0;
    let other = |i: int|
        !is_some_output(blocks, nodes[i].graph) && t[nodes[i].graph as int].len() > 0;
    let outer = |i: int| !is_some_output(blocks, nodes[i].graph);
    assert forall|i: int| 0 <= i < n implies (#[trigger] outer(i) <==> source(i) || other(i)) && !(
    source(i) && other(i)) by {
        assert(is_told_right(g, t, blocks, nodes[i]));
    }
    split_count(n, outer, source, other);
    same_many(n, outer, outer);
}

/// Some block keeps a node as an input.
pub open spec fn is_some_input(blocks: Seq<BlockView>, u: usize) -> bool {
    exists|b: int| #[trigger] keeps_input(blocks, u, b)
}

proof fn split_count(
    n: nat,
    all: spec_fn(int) -> bool,
    a: spec_fn(int) -> bool,
    b: spec_fn(int) -> bool,
)
    requires
        forall|i: int|
            0 <= i < n ==> (#[trigger] all(i) <==> a(i) || b(i)) && !(a(i) && b(i)),
    ensures
        how_many(n, all) == how_many(n, a) + how_many(n, b),
    decreases n,
{
    if n > 0 {
        split_count((n - 1) as nat, all, a, b);
        assert(all(n - 1) <==> a(n - 1) || b(n - 1));
    }
}

spec fn is_told_right(g: Lists, t: Lists, blocks: Seq<BlockView>, p: Placed) -> bool {
    &&& p.role is Output <==> is_some_output(blocks, p.graph)
    &&& p.role is Output ==> t[p.graph as int].len() > 0
    &&& p.role is Outside ==> p.role->producer == if t[p.graph as int].len() == 0 {
        Producer::Source
    } else {
        Producer::Undrawn
    }
    &&& p.outdeg == g[p.graph as int].len()
    &&& p.consumed <==> is_some_input(blocks, p.graph)
}

proof fn told_right(
    g: Lists,
    t: Lists,
    blocks: Seq<BlockView>,
    nodes: Seq<Placed>,
    i: int,
)
    requires
        linked(g, t, blocks),
        0 <= i < nodes.len(),
        belongs(t, blocks, nodes[i]),
        nodes[i].outdeg == g[nodes[i].graph as int].len(),
        nodes[i].consumed <==> exists|b: int| #[trigger] keeps_input(blocks, nodes[i].graph, b),
    ensures
        is_told_right(g, t, blocks, nodes[i]),
{
    let p = nodes[i];
    match p.role {
        Role::Output { block } => {
            assert(keeps_output(blocks, p.graph, block as int));
            let j = choose|j: int| #[trigger] shows_out(blocks, p.graph, block as int, j);
            assert(complete(g, t, blocks[block as int]));
            assert(t[blocks[block as int].outputs[j] as int] == blocks[block as int].inputs);
        },
        Role::Outside { block, .. } => {},
    }
}

proof fn mixed_are_few(blocks: Seq<BlockView>, count: nat)
    ensures
        mixed_before(blocks, count) <= count,
    decreases count,
{
    if count > 0 {
        mixed_are_few(blocks, (count - 1) as nat);
    }
}

/// What the report of a drawing counts of its arcs: those into an output of a block on
/// the page, those of them that come neither from the block above nor from an outside
/// input of the same block, and those into an outside input.
pub proof fn a_report_counts_the_arcs(
    g: Lists,
    t: Lists,
    blocks: Seq<BlockView>,
    report: Report,
    vertical: bool,
)
    requires
        well_formed(t),
        g.len() == t.len() <= usize::MAX,
        linked(g, t, blocks),
        all_blocks(blocks),
        blocks.len() <= u32::MAX,
        laid_out(g, t, blocks, report, vertical).nodes.len() <= u32::MAX,
        laid_out(g, t, blocks, report, vertical).arcs.len() <= u64::MAX,
    ensures
        ({
            let scene = laid_out(g, t, blocks, report, vertical);
            let (nodes, arcs) = (scene.nodes, scene.arcs);
            let n = arcs.len();
            let r = scene.report;
            &&& r.arcs_drawn == how_many(n, |x: int| nodes[arcs[x].to as int].role is Output)
            &&& r.arcs_stray == how_many(n, |x: int| nodes[arcs[x].to as int].role is Outside)
            &&& r.arcs_cross == how_many(n, |x: int| is_cross(blocks, nodes, arcs[x]))
        }),
{
    let scene = laid_out(g, t, blocks, report, vertical);
    let (nodes, arcs) = (scene.nodes, scene.arcs);
    let n = arcs.len();
    arcs_are_counted(arcs, ArcKind::Tree);
    arcs_are_counted(arcs, ArcKind::Cross);
    arcs_are_counted(arcs, ArcKind::Stray);
    let tree = |x: int| arcs[x].kind == ArcKind::Tree;
    let cross = |x: int| arcs[x].kind == ArcKind::Cross;
    let stray = |x: int| arcs[x].kind == ArcKind::Stray;
    let drawn = |x: int| nodes[arcs[x].to as int].role is Output;
    let outer = |x: int| nodes[arcs[x].to as int].role is Outside;
    let over = |x: int| is_cross(blocks, nodes, arcs[x]);
    assert forall|x: int| 0 <= x < n implies (#[trigger] drawn(x) <==> tree(x) || cross(x)) && !(
    tree(x) && cross(x)) && (stray(x) <==> outer(x)) && (cross(x) <==> over(x)) by {
        an_arc_is_of_its_kind(g, t, blocks, report, vertical, x);
    }
    split_count(n, drawn, tree, cross);
    same_many(n, drawn, drawn);
    assert forall|x: int| 0 <= x < n implies (#[trigger] stray(x) <==> outer(x)) by {
        assert(drawn(x) <==> tree(x) || cross(x));
    }
    same_many(n, stray, outer);
    assert forall|x: int| 0 <= x < n implies (#[trigger] cross(x) <==> over(x)) by {
        assert(drawn(x) <==> tree(x) || cross(x));
    }
    same_many(n, cross, over);
}

/// An arc goes into an output, neither from the block above nor from an outside input
/// of the same block.
pub open spec fn is_cross(blocks: Seq<BlockView>, nodes: Seq<Placed>, a: Arc) -> bool {
    nodes[a.to as int].role matches Role::Output { block } && !is_tree_arc(
        nodes[a.from as int],
        blocks[block as int],
        block as int,
    )
}

} // verus!
