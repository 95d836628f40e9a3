//! Who is drawn where: the nodes of a drawing of blocks, and the rows they sit
//! on.
//!
//! Roles are settled after the walk. Every kept output of every drawn block is
//! a node on that block's output row. An input of a drawn block is then either
//! one of those, drawn once where its producer put it, or an outside input: a
//! node whose producing block is not on the page, on the block's input row. A
//! run of hidden entries is an ellipsis at a slot of its own.

use std::collections::HashMap;

use vstd::prelude::*;

use crate::blocks::{Block, BlockView};
use crate::graph::{Graph, Lists};
use crate::kept::{
    a_row_stands_for_the_side, ascending_fits, gap, row_after, row_width, row_width_concat, shown_is_exact,
    slot_width, Slot,
};
use crate::settle::all_blocks;
use crate::walk::views;

verus! {

broadcast use vstd::std_specs::hash::group_hash_axioms;

/// Who made an outside input.
#[derive(Clone, Copy, Debug, PartialEq, Eq, Structural)]
pub enum Producer {
    /// Nothing: a true source.
    Source,
    /// A block that is not drawn.
    Undrawn,
}

/// Where a drawn node sits and what it is.
#[derive(Clone, Copy, Debug, PartialEq, Eq, Structural)]
pub enum Role {
    /// Output of drawn block `block`, on its output row.
    Output { block: u32 },
    /// Input of drawn block `block` that no drawn block put on the page, on
    /// that block's input row.
    Outside { block: u32, producer: Producer },
}

/// One drawn node: the identity of a graph node on the page.
#[derive(Clone, Copy, Debug, PartialEq, Eq, Structural)]
pub struct Placed {
    pub graph: usize,
    pub role: Role,
    /// Its place on its row, ellipsis slots included.
    pub slot: usize,
    pub outdeg: usize,
    /// A kept input of a drawn block: it has drawn out-arcs.
    pub consumed: bool,
}

/// Which row of a block a mark sits on.
#[derive(Clone, Copy, Debug, PartialEq, Eq, Structural)]
pub enum Row {
    Input,
    Output,
}

/// A mark standing for a hidden run, at a slot of its own.
#[derive(Clone, Copy, Debug, PartialEq, Eq, Structural)]
pub struct Ellipsis {
    pub hidden: usize,
    pub block: u32,
    pub row: Row,
    pub slot: usize,
}

/// One place on a row as it is drawn: a node by index, or an ellipsis.
#[derive(Clone, Copy, Debug, PartialEq, Eq, Structural)]
pub enum RowSlot {
    Node(u32),
    Gap(usize),
}

/// The latest of the nodes that stands for graph node `u`.
pub open spec fn node_of(nodes: Seq<Placed>, u: usize) -> Option<int>
    decreases nodes.len(),
{
    if nodes.len() == 0 {
        None
    } else if nodes.last().graph == u {
        Some(nodes.len() - 1)
    } else {
        node_of(nodes.drop_last(), u)
    }
}

/// The nodes of the kept outputs of block `bi`, which is `b`, in order.
pub open spec fn outputs_of(g: Lists, b: BlockView, bi: int) -> Seq<Placed> {
    let shown = b.kept_out.shown(b.outputs.len());
    Seq::new(
        shown.len(),
        |k: int|
            {
                let o = b.outputs[shown[k] as int];
                Placed {
                    graph: o,
                    role: Role::Output { block: bi as u32 },
                    slot: 0,
                    outdeg: g[o as int].len() as usize,
                    consumed: false,
                }
            },
    )
}

/// The nodes of the kept outputs of the blocks, block by block.
pub open spec fn output_nodes(g: Lists, blocks: Seq<BlockView>) -> Seq<Placed>
    decreases blocks.len(),
{
    if blocks.len() == 0 {
        Seq::empty()
    } else {
        output_nodes(g, blocks.drop_last()) + outputs_of(g, blocks.last(), blocks.len() - 1)
    }
}

/// Where the seating of inputs stands: the nodes so far, the input row of the
/// block in hand, and how many of its inputs were drawn already.
pub struct Seating {
    pub nodes: Seq<Placed>,
    pub row: Seq<RowSlot>,
    pub drawn: nat,
}

/// A hidden run at the end of a row: one gap with the gap before it.
pub open spec fn with_gap(row: Seq<RowSlot>, hidden: usize) -> Seq<RowSlot> {
    match row.last() {
        RowSlot::Gap(before) if row.len() > 0 => row.update(
            row.len() - 1,
            RowSlot::Gap((before + hidden) as usize),
        ),
        _ => row.push(RowSlot::Gap(hidden)),
    }
}

/// The outside input `u` of block `bi`.
pub open spec fn outside(g: Lists, t: Lists, bi: int, u: usize) -> Placed {
    Placed {
        graph: u,
        role: Role::Outside {
            block: bi as u32,
            producer: if t[u as int].len() == 0 { Producer::Source } else { Producer::Undrawn },
        },
        slot: 0,
        outdeg: g[u as int].len() as usize,
        consumed: true,
    }
}

/// The seating after one slot of the input side of block `bi`, which is `b`: a
/// hidden run is a gap of the row, a node that is drawn already is consumed,
/// any other is an outside input on the row.
pub open spec fn seat_slot(
    g: Lists,
    t: Lists,
    b: BlockView,
    bi: int,
    st: Seating,
    slot: Slot,
) -> Seating {
    match slot {
        Slot::Gap(hidden) => Seating { row: with_gap(st.row, hidden), ..st },
        Slot::Node(ii) => {
            let u = b.inputs[ii as int];
            match node_of(st.nodes, u) {
                Some(i) => Seating {
                    nodes: st.nodes.update(i, Placed { consumed: true, ..st.nodes[i] }),
                    drawn: st.drawn + 1,
                    ..st
                },
                None => Seating {
                    nodes: st.nodes.push(outside(g, t, bi, u)),
                    row: st.row.push(RowSlot::Node(st.nodes.len() as u32)),
                    ..st
                },
            }
        },
    }
}

/// The seating after the slots from the `k`th on.
pub open spec fn seat_slots(
    g: Lists,
    t: Lists,
    b: BlockView,
    bi: int,
    st: Seating,
    slots: Seq<Slot>,
    k: int,
) -> Seating
    decreases slots.len() - k,
{
    if k >= slots.len() {
        st
    } else {
        seat_slots(g, t, b, bi, seat_slot(g, t, b, bi, st, slots[k]), slots, k + 1)
    }
}

/// The seating of the inputs of block `bi`, which is `b`, on top of `nodes`.
pub open spec fn seat_block(
    g: Lists,
    t: Lists,
    nodes: Seq<Placed>,
    b: BlockView,
    bi: int,
) -> Seating {
    seat_slots(
        g,
        t,
        b,
        bi,
        Seating { nodes, row: Seq::empty(), drawn: 0 },
        b.kept_in.row(b.inputs.len()),
        0,
    )
}

/// The nodes and the input rows once every block has its inputs, and how many
/// blocks have both drawn inputs and an input row.
pub struct Seated {
    pub nodes: Seq<Placed>,
    pub in_rows: Seq<Seq<RowSlot>>,
    pub mixed: nat,
}

/// The seating with the inputs of the next block done.
pub open spec fn seat_next(g: Lists, t: Lists, st: Seated, b: BlockView) -> Seated {
    let one = seat_block(g, t, st.nodes, b, st.in_rows.len() as int);
    Seated {
        nodes: one.nodes,
        in_rows: st.in_rows.push(one.row),
        mixed: st.mixed + if one.drawn > 0 && one.row.len() > 0 { 1nat } else { 0nat },
    }
}

/// The seating of the inputs of the first blocks, one after another, on top of
/// the outputs of all of them.
pub open spec fn seated_inputs(g: Lists, t: Lists, blocks: Seq<BlockView>, count: nat) -> Seated
    decreases count,
{
    if count == 0 {
        Seated { nodes: output_nodes(g, blocks), in_rows: Seq::empty(), mixed: 0 }
    } else {
        seat_next(
            g,
            t,
            seated_inputs(g, t, blocks, (count - 1) as nat),
            blocks[count - 1],
        )
    }
}

/// The output row of a block: every kept output as its node, a gap for every
/// hidden run.
pub open spec fn out_row(nodes: Seq<Placed>, b: BlockView) -> Seq<RowSlot> {
    let slots = b.kept_out.row(b.outputs.len());
    Seq::new(
        slots.len(),
        |k: int|
            match slots[k] {
                Slot::Node(oi) => RowSlot::Node(
                    node_of(nodes, b.outputs[oi as int])->0 as u32,
                ),
                Slot::Gap(hidden) => RowSlot::Gap(hidden),
            },
    )
}

pub(crate) proof fn node_of_is_in(nodes: Seq<Placed>, u: usize)
    ensures
        match node_of(nodes, u) {
            Some(i) => 0 <= i < nodes.len() && nodes[i].graph == u,
            None => forall|i: int| 0 <= i < nodes.len() ==> (#[trigger] nodes[i]).graph != u,
        },
    decreases nodes.len(),
{
    if nodes.len() > 0 && nodes.last().graph != u {
        let init = nodes.drop_last();
        node_of_is_in(init, u);
        if node_of(init, u) is None {
            assert forall|i: int| 0 <= i < nodes.len() implies (#[trigger] nodes[i]).graph != u by {
                if i < init.len() {
                    assert(init[i].graph != u);
                }
            }
        }
    }
}

proof fn node_of_after_push(nodes: Seq<Placed>, p: Placed, u: usize)
    ensures
        node_of(nodes.push(p), u) == if p.graph == u {
            Some(nodes.len() as int)
        } else {
            node_of(nodes, u)
        },
{
    assert(nodes.push(p).drop_last() =~= nodes);
}

/// A node's place does not depend on anything but the graph nodes it stands
/// among.
pub(crate) proof fn node_of_same_graphs(a: Seq<Placed>, b: Seq<Placed>, u: usize)
    requires
        a.len() == b.len(),
        forall|i: int| 0 <= i < a.len() ==> (#[trigger] a[i]).graph == b[i].graph,
    ensures
        node_of(a, u) == node_of(b, u),
    decreases a.len(),
{
    if a.len() > 0 {
        assert(a.last().graph == b.last().graph);
        assert forall|i: int| 0 <= i < a.drop_last().len() implies (
        #[trigger] a.drop_last()[i]).graph == b.drop_last()[i].graph by {
            assert(a[i].graph == b[i].graph);
        }
        node_of_same_graphs(a.drop_last(), b.drop_last(), u);
    }
}

/// The index says of graph node `u` what the nodes say.
pub open spec fn indexes(index: Map<usize, u32>, nodes: Seq<Placed>, u: usize) -> bool {
    match node_of(nodes, u) {
        Some(i) => index.contains_key(u) && index[u] == i,
        None => !index.contains_key(u),
    }
}

/// The index says what the nodes say, of every graph node.
pub open spec fn is_index(index: Map<usize, u32>, nodes: Seq<Placed>) -> bool {
    forall|u: usize| #[trigger] indexes(index, nodes, u)
}

proof fn index_grows(index: Map<usize, u32>, nodes: Seq<Placed>, p: Placed, i: u32)
    requires
        is_index(index, nodes),
        i == nodes.len(),
    ensures
        is_index(index.insert(p.graph, i), nodes.push(p)),
{
    let after = index.insert(p.graph, i);
    assert forall|u: usize| #[trigger] indexes(after, nodes.push(p), u) by {
        node_of_after_push(nodes, p, u);
        assert(indexes(index, nodes, u));
    }
}

proof fn index_stays(index: Map<usize, u32>, a: Seq<Placed>, b: Seq<Placed>)
    requires
        is_index(index, a),
        a.len() == b.len(),
        forall|i: int| 0 <= i < a.len() ==> (#[trigger] a[i]).graph == b[i].graph,
    ensures
        is_index(index, b),
{
    assert forall|u: usize| #[trigger] indexes(index, b, u) by {
        assert(indexes(index, a, u));
        node_of_same_graphs(a, b, u);
    }
}

/// The walk's blocks, fit to be drawn: blocks of a graph of `n` nodes, numbered
/// by a `u32`.
pub open spec fn drawable(blocks: Seq<BlockView>, n: nat) -> bool {
    &&& all_blocks(blocks)
    &&& blocks.len() <= u32::MAX
    &&& forall|i: int| 0 <= i < blocks.len() ==> (#[trigger] blocks[i]).within(n)
}

/// The nodes so far with the first outputs of the next block.
spec fn outputs_upto(g: Lists, blocks: Seq<BlockView>, bi: int, k: int) -> Seq<Placed> {
    output_nodes(g, blocks.take(bi)) + outputs_of(g, blocks[bi], bi).take(k)
}

proof fn more_outputs(g: Lists, blocks: Seq<BlockView>, bi: int)
    requires
        0 <= bi <= blocks.len(),
    ensures
        output_nodes(g, blocks.take(bi)).len() <= output_nodes(g, blocks).len(),
    decreases blocks.len() - bi,
{
    if bi < blocks.len() {
        assert(blocks.take(bi + 1).drop_last() =~= blocks.take(bi));
        more_outputs(g, blocks, bi + 1);
    } else {
        assert(blocks.take(bi) =~= blocks);
    }
}

pub(crate) proof fn more_seated(
    g: Lists,
    t: Lists,
    b: BlockView,
    bi: int,
    st: Seating,
    slots: Seq<Slot>,
    k: int,
)
    requires
        0 <= k,
    ensures
        st.nodes.len() <= seat_slots(g, t, b, bi, st, slots, k).nodes.len(),
    decreases slots.len() - k,
{
    if k < slots.len() {
        if let Slot::Node(ii) = slots[k] {
            node_of_is_in(st.nodes, b.inputs[ii as int]);
        }
        more_seated(g, t, b, bi, seat_slot(g, t, b, bi, st, slots[k]), slots, k + 1);
    }
}

pub(crate) proof fn more_inputs(g: Lists, t: Lists, blocks: Seq<BlockView>, i: nat, j: nat)
    requires
        i <= j,
    ensures
        seated_inputs(g, t, blocks, i).nodes.len() <= seated_inputs(g, t, blocks, j).nodes.len(),
    decreases j - i,
{
    if i < j {
        more_inputs(g, t, blocks, i, (j - 1) as nat);
        let st = seated_inputs(g, t, blocks, (j - 1) as nat);
        let b = blocks[j - 1];
        more_seated(
            g,
            t,
            b,
            st.in_rows.len() as int,
            Seating { nodes: st.nodes, row: Seq::empty(), drawn: 0 },
            b.kept_in.row(b.inputs.len()),
            0,
        );
    }
}

/// Every kept output of every block as a node, or nothing where there are more
/// than a `u32` can number.
fn place_outputs<G: Graph>(pg: &G, blocks: &Vec<Block>) -> (r: Option<
    (Vec<Placed>, HashMap<usize, u32>),
>)
    requires
        drawable(views(blocks@), pg.lists().len()),
    ensures
        match r {
            Some((nodes, index)) => nodes@ == output_nodes(pg.lists(), views(blocks@)) && is_index(
                index@,
                nodes@,
            ) && nodes@.len() <= u32::MAX,
            None => output_nodes(pg.lists(), views(blocks@)).len() > u32::MAX,
        },
{
    let ghost g = pg.lists();
    let ghost all = views(blocks@);
    let mut nodes: Vec<Placed> = Vec::new();
    let mut index: HashMap<usize, u32> = HashMap::new();
    let mut bi: usize = 0;
    assert(is_index(index@, nodes@)) by {
        assert forall|u: usize| #[trigger] indexes(index@, nodes@, u) by {}
    }
    assert(nodes@ =~= output_nodes(g, all.take(0)));
    while bi < blocks.len()
        invariant
            bi <= blocks@.len(),
            g == pg.lists(),
            all == views(blocks@),
            drawable(all, g.len()),
            nodes@ == output_nodes(g, all.take(bi as int)),
            nodes@.len() <= u32::MAX,
            is_index(index@, nodes@),
        decreases blocks@.len() - bi,
    {
        let ghost b = all[bi as int];
        assert(b == blocks@[bi as int]@);
        assert(b.is_block() && b.within(g.len()));
        let n: usize = blocks[bi].outputs.len();
        let kept = blocks[bi].kept_out.indices(n);
        proof {
            shown_is_exact(b.kept_out, n);
            assert(all.take(bi + 1).drop_last() =~= all.take(bi as int));
            assert(all.take(bi + 1).last() == b);
        }
        let mut k: usize = 0;
        assert(nodes@ =~= outputs_upto(g, all, bi as int, 0));
        while k < kept.len()
            invariant
                k <= kept@.len(),
                bi < blocks@.len(),
                blocks@.len() <= u32::MAX,
                g == pg.lists(),
                all == views(blocks@),
                b == all[bi as int],
                b.within(g.len()),
                n == b.outputs.len(),
                kept@ == b.kept_out.shown(n as nat),
                forall|i: int| 0 <= i < kept@.len() ==> #[trigger] kept@[i] < n,
                output_nodes(g, all.take(bi + 1)) == output_nodes(g, all.take(bi as int))
                    + outputs_of(g, b, bi as int),
                outputs_of(g, b, bi as int).len() == kept@.len(),
                nodes@ == outputs_upto(g, all, bi as int, k as int),
                nodes@.len() <= u32::MAX,
                is_index(index@, nodes@),
            decreases kept@.len() - k,
        {
            if nodes.len() >= u32::MAX as usize {
                proof {
                    assert(output_nodes(g, all.take(bi + 1)).len() > u32::MAX);
                    more_outputs(g, all, bi + 1);
                }
                return None;
            }
            let oi: usize = kept[k];
            assert(b.outputs[oi as int] < g.len());
            let o: usize = blocks[bi].outputs[oi];
            let p = Placed {
                graph: o,
                role: Role::Output { block: bi as u32 },
                slot: 0,
                outdeg: pg.outdegree(o),
                consumed: false,
            };
            let i: u32 = nodes.len() as u32;
            proof {
                index_grows(index@, nodes@, p, i);
            }
            index.insert(o, i);
            let ghost held = nodes@;
            nodes.push(p);
            assert(outputs_of(g, b, bi as int)[k as int] == p);
            assert(nodes@ =~= outputs_upto(g, all, bi as int, k + 1));
            k += 1;
        }
        proof {
            assert(outputs_of(g, b, bi as int).take(k as int) =~= outputs_of(g, b, bi as int));
        }
        bi += 1;
    }
    assert(all.take(bi as int) =~= all);
    Some((nodes, index))
}

proof fn width_upto(slots: Seq<Slot>, k: int)
    requires
        0 <= k <= slots.len(),
    ensures
        row_width(slots.take(k)) <= row_width(slots),
        k < slots.len() ==> row_width(slots.take(k + 1)) == row_width(slots.take(k)) + slot_width(
            slots[k],
        ),
{
    row_width_concat(slots.take(k), slots.skip(k));
    assert(slots.take(k) + slots.skip(k) =~= slots);
    if k < slots.len() {
        assert(slots.take(k + 1).drop_last() =~= slots.take(k));
    }
}

/// The inputs of block `bi` on top of the nodes so far: its input row, and
/// whether any of its inputs was drawn already; or nothing where there are more
/// nodes than a `u32` can number.
fn seat_one<G: Graph, T: Graph>(
    pg: &G,
    pgt: &T,
    b: &Block,
    bi: usize,
    nodes: &mut Vec<Placed>,
    index: &mut HashMap<usize, u32>,
) -> (r: Option<(Vec<RowSlot>, bool)>)
    requires
        b@.is_block(),
        b@.within(pg.lists().len()),
        pg.lists().len() == pgt.lists().len(),
        bi < u32::MAX,
        is_index(old(index)@, old(nodes)@),
        old(nodes)@.len() <= u32::MAX,
    ensures
        ({
            let one = seat_block(pg.lists(), pgt.lists(), old(nodes)@, b@, bi as int);
            match r {
                Some((row, drawn)) => final(nodes)@ == one.nodes && row@ == one.row && drawn == (
                one.drawn > 0) && is_index(final(index)@, final(nodes)@) && final(nodes)@.len()
                    <= u32::MAX,
                None => one.nodes.len() > u32::MAX,
            }
        }),
{
    let ghost g = pg.lists();
    let ghost t = pgt.lists();
    let ghost one = seat_block(g, t, nodes@, b@, bi as int);
    let n: usize = b.inputs.len();
    let slots = b.kept_in.slots(n);
    proof {
        shown_is_exact(b@.kept_in, n);
        a_row_stands_for_the_side(b@.kept_in, n);
        row_names_entries(b@.kept_in.shown(n as nat), -1, n as int);
    }
    let mut row: Vec<RowSlot> = Vec::new();
    let mut drawn: bool = false;
    let ghost mut seen: nat = 0;
    let mut k: usize = 0;
    while k < slots.len()
        invariant
            k <= slots@.len(),
            g == pg.lists(),
            t == pgt.lists(),
            g.len() == t.len(),
            n == b@.inputs.len(),
            b@.within(g.len()),
            bi < u32::MAX,
            row_width(slots@) == n,
            forall|i: int|
                0 <= i < slots@.len() ==> (#[trigger] slots@[i] matches Slot::Node(ii) ==> ii < n),
            is_index(index@, nodes@),
            nodes@.len() <= u32::MAX,
            drawn == (seen > 0),
            one == seat_block(g, t, old(nodes)@, b@, bi as int),
            row@.len() > 0 && row@.last() is Gap ==> row@.last()->Gap_0 <= row_width(
                slots@.take(k as int),
            ),
            one == seat_slots(
                g,
                t,
                b@,
                bi as int,
                Seating { nodes: nodes@, row: row@, drawn: seen },
                slots@,
                k as int,
            ),
        decreases slots@.len() - k,
    {
        let ghost st = Seating { nodes: nodes@, row: row@, drawn: seen };
        proof {
            width_upto(slots@, k as int);
            width_upto(slots@, k + 1);
        }
        match slots[k] {
            Slot::Gap(hidden) => {
                let at: usize = row.len();
                let mut before: Option<usize> = None;
                if at > 0 {
                    if let RowSlot::Gap(g0) = row[at - 1] {
                        before = Some(g0);
                    }
                }
                match before {
                    Some(g0) => {
                        row[at - 1] = RowSlot::Gap(g0 + hidden);
                    },
                    None => {
                        row.push(RowSlot::Gap(hidden));
                    },
                }
                assert(row@ =~= with_gap(st.row, hidden));
            },
            Slot::Node(ii) => {
                assert(b@.inputs[ii as int] < g.len());
                let u: usize = b.inputs[ii];
                proof {
                    assert(indexes(index@, nodes@, u));
                    node_of_is_in(nodes@, u);
                }
                match index.get(&u) {
                    Some(found) => {
                        let i: usize = *found as usize;
                        nodes[i].consumed = true;
                        drawn = true;
                        proof {
                            seen = seen + 1;
                            index_stays(index@, st.nodes, nodes@);
                            assert(nodes@ =~= st.nodes.update(
                                i as int,
                                Placed { consumed: true, ..st.nodes[i as int] },
                            ));
                        }
                    },
                    None => {
                        if nodes.len() >= u32::MAX as usize {
                            proof {
                                let next = seat_slot(g, t, b@, bi as int, st, slots@[k as int]);
                                assert(next.nodes.len() == st.nodes.len() + 1);
                                more_seated(g, t, b@, bi as int, next, slots@, k + 1);
                                assert(one == seat_slots(
                                    g,
                                    t,
                                    b@,
                                    bi as int,
                                    next,
                                    slots@,
                                    k + 1,
                                ));
                            }
                            return None;
                        }
                        let producer = if pgt.outdegree(u) == 0 {
                            Producer::Source
                        } else {
                            Producer::Undrawn
                        };
                        let p = Placed {
                            graph: u,
                            role: Role::Outside { block: bi as u32, producer },
                            slot: 0,
                            outdeg: pg.outdegree(u),
                            consumed: true,
                        };
                        let i: u32 = nodes.len() as u32;
                        proof {
                            index_grows(index@, nodes@, p, i);
                        }
                        index.insert(u, i);
                        nodes.push(p);
                        row.push(RowSlot::Node(i));
                    },
                }
            },
        }
        k += 1;
    }
    Some((row, drawn))
}

pub(crate) proof fn row_names_entries(shown: Seq<usize>, last: int, n: int)
    requires
        forall|j: int| 0 <= j < shown.len() ==> #[trigger] shown[j] < n,
    ensures
        forall|i: int|
            0 <= i < row_after(shown, last, n).len() ==> (#[trigger] row_after(
                shown,
                last,
                n,
            )[i] matches Slot::Node(ii) ==> ii < n && shown.contains(ii)),
    decreases shown.len(),
{
    if shown.len() > 0 {
        let rest = shown.drop_first();
        assert forall|j: int| 0 <= j < rest.len() implies #[trigger] rest[j] < n by {
            assert(shown[j + 1] < n);
        }
        row_names_entries(rest, shown[0] as int, n);
        let row = row_after(shown, last, n);
        let front = gap(shown[0] - last - 1);
        let tail = row_after(rest, shown[0] as int, n);
        assert forall|i: int| 0 <= i < row.len() implies (#[trigger] row[i] matches Slot::Node(ii)
            ==> ii < n && shown.contains(ii)) by {
            if i > front.len() {
                assert(row[i] == tail[i - front.len() - 1]);
                if let Slot::Node(ii) = row[i] {
                    let j = rest.index_of(ii);
                    assert(shown[j + 1] == ii);
                }
            } else if i == front.len() {
                assert(shown[0] < n);
                assert(row[i] == Slot::Node(shown[0]));
            }
        }
    }
}

/// Rows as mathematical values.
pub open spec fn row_views(rows: Seq<Vec<RowSlot>>) -> Seq<Seq<RowSlot>> {
    rows.map_values(|row: Vec<RowSlot>| row@)
}

/// The nodes of a drawing with their rows, before slots are given out.
pub struct Rows {
    pub nodes: Vec<Placed>,
    pub index: HashMap<usize, u32>,
    pub in_rows: Vec<Vec<RowSlot>>,
    pub out_rows: Vec<Vec<RowSlot>>,
    /// How many blocks have both drawn inputs and an input row.
    pub mixed: usize,
}

/// The output rows of the blocks.
pub open spec fn out_rows_of(nodes: Seq<Placed>, blocks: Seq<BlockView>) -> Seq<Seq<RowSlot>> {
    Seq::new(blocks.len(), |i: int| out_row(nodes, blocks[i]))
}

/// Settles the roles and the rows, or nothing where there are more nodes than a
/// `u32` can number.
pub fn settle_rows<G: Graph, T: Graph>(pg: &G, pgt: &T, blocks: &Vec<Block>) -> (r: Option<Rows>)
    requires
        drawable(views(blocks@), pg.lists().len()),
        pg.lists().len() == pgt.lists().len(),
    ensures
        ({
            let all = views(blocks@);
            let st = seated_inputs(pg.lists(), pgt.lists(), all, all.len());
            match r {
                Some(rows) => {
                    &&& rows.nodes@ == st.nodes
                    &&& st.nodes.len() <= u32::MAX
                    &&& is_index(rows.index@, rows.nodes@)
                    &&& row_views(rows.in_rows@) == st.in_rows
                    &&& row_views(rows.out_rows@) == out_rows_of(st.nodes, all)
                    &&& rows.mixed == st.mixed
                    &&& st.mixed <= all.len()
                },
                None => st.nodes.len() > u32::MAX,
            }
        }),
{
    let ghost g = pg.lists();
    let ghost t = pgt.lists();
    let ghost all = views(blocks@);
    let (mut nodes, mut index) = match place_outputs(pg, blocks) {
        Some(placed) => placed,
        None => {
            proof {
                more_inputs(g, t, all, 0, all.len());
            }
            return None;
        },
    };
    let mut in_rows: Vec<Vec<RowSlot>> = Vec::new();
    let mut mixed: usize = 0;
    let mut bi: usize = 0;
    assert(row_views(in_rows@) =~= Seq::empty());
    while bi < blocks.len()
        invariant
            bi <= blocks@.len(),
            g == pg.lists(),
            t == pgt.lists(),
            g.len() == t.len(),
            all == views(blocks@),
            drawable(all, g.len()),
            nodes@ == seated_inputs(g, t, all, bi as nat).nodes,
            nodes@.len() <= u32::MAX,
            is_index(index@, nodes@),
            row_views(in_rows@) == seated_inputs(g, t, all, bi as nat).in_rows,
            in_rows@.len() == bi,
            mixed == seated_inputs(g, t, all, bi as nat).mixed,
            mixed <= bi,
        decreases blocks@.len() - bi,
    {
        assert(all[bi as int] == blocks@[bi as int]@);
        assert(all[bi as int].is_block() && all[bi as int].within(g.len()));
        let ghost held = in_rows@;
        match seat_one(pg, pgt, &blocks[bi], bi, &mut nodes, &mut index) {
            Some((row, drawn)) => {
                if drawn && row.len() > 0 {
                    mixed += 1;
                }
                let ghost rv = row@;
                in_rows.push(row);
                assert(row_views(in_rows@) =~= row_views(held).push(rv));
            },
            None => {
                proof {
                    more_inputs(g, t, all, (bi + 1) as nat, all.len());
                }
                return None;
            },
        }
        bi += 1;
    }
    let mut out_rows: Vec<Vec<RowSlot>> = Vec::new();
    let mut k: usize = 0;
    while k < blocks.len()
        invariant
            k <= blocks@.len(),
            all == views(blocks@),
            drawable(all, g.len()),
            is_index(index@, nodes@),
            nodes@.len() <= u32::MAX,
            nodes@ == seated_inputs(g, t, all, all.len()).nodes,
            out_rows@.len() == k,
            forall|i: int|
                0 <= i < k ==> (#[trigger] out_rows@[i])@ == out_row(nodes@, all[i]),
        decreases blocks@.len() - k,
    {
        let ghost b = all[k as int];
        assert(b == blocks@[k as int]@);
        assert(b.is_block());
        let n: usize = blocks[k].outputs.len();
        let slots = blocks[k].kept_out.slots(n);
        proof {
            shown_is_exact(b.kept_out, n);
            row_names_entries(b.kept_out.shown(n as nat), -1, n as int);
        }
        let mut row: Vec<RowSlot> = Vec::new();
        let mut j: usize = 0;
        while j < slots.len()
            invariant
                j <= slots@.len(),
                k < blocks@.len(),
                all == views(blocks@),
                drawable(all, g.len()),
                b == all[k as int],
                n == b.outputs.len(),
                slots@ == b.kept_out.row(n as nat),
                is_index(index@, nodes@),
                nodes@.len() <= u32::MAX,
                nodes@ == seated_inputs(g, t, all, all.len()).nodes,
                forall|i: int|
                    0 <= i < slots@.len() ==> (#[trigger] slots@[i] matches Slot::Node(ii) ==> ii
                        < n && b.kept_out.shown(n as nat).contains(ii)),
                row@ == out_row(nodes@, b).take(j as int),
            decreases slots@.len() - j,
        {
            match slots[j] {
                Slot::Node(oi) => {
                    assert(slots@[j as int] is Node);
                    let o: usize = blocks[k].outputs[oi];
                    proof {
                        shown_outputs_are_nodes(g, t, all, k as int, oi);
                        assert(indexes(index@, nodes@, o));
                        node_of_is_in(nodes@, o);
                    }
                    let i: u32 = *index.get(&o).unwrap();
                    row.push(RowSlot::Node(i));
                },
                Slot::Gap(hidden) => {
                    row.push(RowSlot::Gap(hidden));
                },
            }
            assert(row@ =~= out_row(nodes@, b).take(j + 1));
            j += 1;
        }
        assert(row@ =~= out_row(nodes@, b));
        out_rows.push(row);
        k += 1;
    }
    assert(row_views(out_rows@) =~= out_rows_of(nodes@, all));
    Some(Rows { nodes, index, in_rows, out_rows, mixed })
}

/// A graph node that is among the nodes stays among them as inputs are seated.
proof fn seating_keeps_slots(
    g: Lists,
    t: Lists,
    b: BlockView,
    bi: int,
    st: Seating,
    slots: Seq<Slot>,
    k: int,
    u: usize,
)
    requires
        0 <= k,
        node_of(st.nodes, u) is Some,
    ensures
        node_of(seat_slots(g, t, b, bi, st, slots, k).nodes, u) is Some,
    decreases slots.len() - k,
{
    if k < slots.len() {
        let next = seat_slot(g, t, b, bi, st, slots[k]);
        if let Slot::Node(ii) = slots[k] {
            let v = b.inputs[ii as int];
            node_of_is_in(st.nodes, v);
            match node_of(st.nodes, v) {
                Some(i) => {
                    node_of_same_graphs(st.nodes, next.nodes, u);
                },
                None => {
                    node_of_after_push(st.nodes, outside(g, t, bi, v), u);
                },
            }
        }
        seating_keeps_slots(g, t, b, bi, next, slots, k + 1, u);
    }
}

proof fn node_of_in_concat(a: Seq<Placed>, b: Seq<Placed>, u: usize)
    requires
        node_of(a, u) is Some || exists|i: int| 0 <= i < b.len() && (#[trigger] b[i]).graph == u,
    ensures
        node_of(a + b, u) is Some,
    decreases b.len(),
{
    if b.len() == 0 {
        assert(a + b =~= a);
    } else {
        assert((a + b).drop_last() =~= a + b.drop_last());
        if b.last().graph != u {
            if !(node_of(a, u) is Some) {
                let i = choose|i: int| 0 <= i < b.len() && (#[trigger] b[i]).graph == u;
                assert(b.drop_last()[i].graph == u);
            }
            node_of_in_concat(a, b.drop_last(), u);
        }
    }
}

/// Every kept output of every drawn block is a node of the drawing.
pub(crate) proof fn shown_outputs_are_nodes(
    g: Lists,
    t: Lists,
    blocks: Seq<BlockView>,
    bi: int,
    oi: usize,
)
    requires
        0 <= bi < blocks.len(),
        blocks[bi].kept_out.shown(blocks[bi].outputs.len()).contains(oi),
    ensures
        node_of(
            seated_inputs(g, t, blocks, blocks.len()).nodes,
            blocks[bi].outputs[oi as int],
        ) is Some,
{
    outputs_are_placed(g, blocks, bi, oi);
    later_seating_keeps(g, t, blocks, 0, blocks.len(), blocks[bi].outputs[oi as int]);
}

pub(crate) proof fn outputs_are_placed(g: Lists, blocks: Seq<BlockView>, bi: int, oi: usize)
    requires
        0 <= bi < blocks.len(),
        blocks[bi].kept_out.shown(blocks[bi].outputs.len()).contains(oi),
    ensures
        node_of(output_nodes(g, blocks), blocks[bi].outputs[oi as int]) is Some,
    decreases blocks.len(),
{
    let u = blocks[bi].outputs[oi as int];
    let front = output_nodes(g, blocks.drop_last());
    let back = outputs_of(g, blocks.last(), blocks.len() - 1);
    if bi == blocks.len() - 1 {
        let k = blocks[bi].kept_out.shown(blocks[bi].outputs.len()).index_of(oi);
        assert(back[k].graph == u);
    } else {
        outputs_are_placed(g, blocks.drop_last(), bi, oi);
    }
    node_of_in_concat(front, back, u);
}

/// Every node on the row is one of `n` nodes.
pub open spec fn row_within(row: Seq<RowSlot>, n: nat) -> bool {
    forall|j: int|
        0 <= j < row.len() ==> (#[trigger] row[j] matches RowSlot::Node(i) ==> i < n)
}

proof fn seated_row_within(
    g: Lists,
    t: Lists,
    b: BlockView,
    bi: int,
    st: Seating,
    slots: Seq<Slot>,
    k: int,
)
    requires
        0 <= k,
        row_within(st.row, st.nodes.len()),
        seat_slots(g, t, b, bi, st, slots, k).nodes.len() <= u32::MAX,
    ensures
        ({
            let end = seat_slots(g, t, b, bi, st, slots, k);
            row_within(end.row, end.nodes.len())
        }),
    decreases slots.len() - k,
{
    if k < slots.len() {
        let next = seat_slot(g, t, b, bi, st, slots[k]);
        more_seated(g, t, b, bi, st, slots, k);
        more_seated(g, t, b, bi, next, slots, k + 1);
        if let Slot::Node(ii) = slots[k] {
            node_of_is_in(st.nodes, b.inputs[ii as int]);
        }
        assert(row_within(next.row, next.nodes.len())) by {
            assert forall|j: int| 0 <= j < next.row.len() implies (
            #[trigger] next.row[j] matches RowSlot::Node(i) ==> i < next.nodes.len()) by {
                if j < st.row.len() {
                    assert(st.row[j] matches RowSlot::Node(i) ==> i < st.nodes.len());
                }
            }
        }
        seated_row_within(g, t, b, bi, next, slots, k + 1);
    }
}

/// The input rows hold nodes of the drawing.
pub(crate) proof fn in_rows_within(g: Lists, t: Lists, blocks: Seq<BlockView>, count: nat)
    requires
        seated_inputs(g, t, blocks, count).nodes.len() <= u32::MAX,
    ensures
        ({
            let st = seated_inputs(g, t, blocks, count);
            &&& st.in_rows.len() == count
            &&& forall|i: int|
                0 <= i < st.in_rows.len() ==> row_within(#[trigger] st.in_rows[i], st.nodes.len())
        }),
    decreases count,
{
    if count > 0 {
        let before = seated_inputs(g, t, blocks, (count - 1) as nat);
        let st = seated_inputs(g, t, blocks, count);
        let b = blocks[count - 1];
        let start = Seating { nodes: before.nodes, row: Seq::empty(), drawn: 0 };
        let slots = b.kept_in.row(b.inputs.len());
        more_inputs(g, t, blocks, (count - 1) as nat, count);
        in_rows_within(g, t, blocks, (count - 1) as nat);
        seated_row_within(g, t, b, before.in_rows.len() as int, start, slots, 0);
        assert forall|i: int| 0 <= i < st.in_rows.len() implies row_within(
            #[trigger] st.in_rows[i],
            st.nodes.len(),
        ) by {
            if i < count - 1 {
                assert(row_within(before.in_rows[i], before.nodes.len()));
                assert forall|j: int| 0 <= j < st.in_rows[i].len() implies (
                #[trigger] st.in_rows[i][j] matches RowSlot::Node(x) ==> x < st.nodes.len()) by {
                    assert(before.in_rows[i][j] matches RowSlot::Node(x) ==> x
                        < before.nodes.len());
                }
            }
        }
    }
}

/// The output rows hold nodes of the drawing.
pub(crate) proof fn out_rows_within(g: Lists, t: Lists, blocks: Seq<BlockView>)
    requires
        all_blocks(blocks),
        blocks.len() <= u32::MAX,
        seated_inputs(g, t, blocks, blocks.len()).nodes.len() <= u32::MAX,
    ensures
        ({
            let nodes = seated_inputs(g, t, blocks, blocks.len()).nodes;
            forall|i: int|
                0 <= i < blocks.len() ==> row_within(
                    #[trigger] out_rows_of(nodes, blocks)[i],
                    nodes.len(),
                )
        }),
{
    let nodes = seated_inputs(g, t, blocks, blocks.len()).nodes;
    assert forall|i: int| 0 <= i < blocks.len() implies row_within(
        #[trigger] out_rows_of(nodes, blocks)[i],
        nodes.len(),
    ) by {
        let b = blocks[i];
        assert(b.is_block());
        let n = b.outputs.len() as usize;
        shown_is_exact(b.kept_out, n);
        row_names_entries(b.kept_out.shown(n as nat), -1, n as int);
        let slots = b.kept_out.row(b.outputs.len());
        let row = out_row(nodes, b);
        assert forall|j: int| 0 <= j < row.len() implies (
        #[trigger] row[j] matches RowSlot::Node(x) ==> x < nodes.len()) by {
            assert(slots[j] matches Slot::Node(ii) ==> ii < n);
            if let Slot::Node(oi) = slots[j] {
                shown_outputs_are_nodes(g, t, blocks, i, oi);
                node_of_is_in(nodes, b.outputs[oi as int]);
            }
        }
    }
}

pub(crate) proof fn row_has_entries(shown: Seq<usize>, last: int, n: int, ii: usize)
    requires
        shown.contains(ii),
    ensures
        exists|j: int|
            0 <= j < row_after(shown, last, n).len() && #[trigger] row_after(shown, last, n)[j]
                == Slot::Node(ii),
    decreases shown.len(),
{
    let row = row_after(shown, last, n);
    let front = gap(shown[0] - last - 1);
    if shown[0] == ii {
        assert(row[front.len() as int] == Slot::Node(ii));
    } else {
        let rest = shown.drop_first();
        let k = shown.index_of(ii);
        assert(rest[k - 1] == ii);
        row_has_entries(rest, shown[0] as int, n, ii);
        let tail = row_after(rest, shown[0] as int, n);
        let j = choose|j: int| 0 <= j < tail.len() && #[trigger] tail[j] == Slot::Node(ii);
        assert(row[front.len() + 1 + j] == Slot::Node(ii));
    }
}

proof fn seated_slot_is_node(
    g: Lists,
    t: Lists,
    b: BlockView,
    bi: int,
    st: Seating,
    slots: Seq<Slot>,
    k: int,
    j: int,
)
    requires
        0 <= k <= j < slots.len(),
        slots[j] is Node,
    ensures
        node_of(
            seat_slots(g, t, b, bi, st, slots, k).nodes,
            b.inputs[slots[j]->Node_0 as int],
        ) is Some,
    decreases slots.len() - k,
{
    let next = seat_slot(g, t, b, bi, st, slots[k]);
    if j == k {
        let u = b.inputs[slots[j]->Node_0 as int];
        node_of_is_in(st.nodes, u);
        match node_of(st.nodes, u) {
            Some(i) => {
                node_of_same_graphs(st.nodes, next.nodes, u);
            },
            None => {
                node_of_after_push(st.nodes, outside(g, t, bi, u), u);
            },
        }
        seating_keeps_slots(g, t, b, bi, next, slots, k + 1, u);
    } else {
        seated_slot_is_node(g, t, b, bi, next, slots, k + 1, j);
    }
}

proof fn later_seating_keeps(
    g: Lists,
    t: Lists,
    blocks: Seq<BlockView>,
    from: nat,
    to: nat,
    u: usize,
)
    requires
        from <= to,
        node_of(seated_inputs(g, t, blocks, from).nodes, u) is Some,
    ensures
        node_of(seated_inputs(g, t, blocks, to).nodes, u) is Some,
    decreases to,
{
    if from < to {
        later_seating_keeps(g, t, blocks, from, (to - 1) as nat, u);
        let st = seated_inputs(g, t, blocks, (to - 1) as nat);
        let b = blocks[to - 1];
        seating_keeps_slots(
            g,
            t,
            b,
            st.in_rows.len() as int,
            Seating { nodes: st.nodes, row: Seq::empty(), drawn: 0 },
            b.kept_in.row(b.inputs.len()),
            0,
            u,
        );
    }
}

/// Every kept input of every drawn block is a node of the drawing.
pub(crate) proof fn shown_inputs_are_nodes(
    g: Lists,
    t: Lists,
    blocks: Seq<BlockView>,
    bi: int,
    ii: usize,
)
    requires
        0 <= bi < blocks.len(),
        blocks[bi].kept_in.shown(blocks[bi].inputs.len()).contains(ii),
    ensures
        node_of(
            seated_inputs(g, t, blocks, blocks.len()).nodes,
            blocks[bi].inputs[ii as int],
        ) is Some,
{
    let b = blocks[bi];
    let n = b.inputs.len();
    row_has_entries(b.kept_in.shown(n), -1, n as int, ii);
    let slots = b.kept_in.row(n);
    let j = choose|j: int| 0 <= j < slots.len() && #[trigger] slots[j] == Slot::Node(ii);
    let st = seated_inputs(g, t, blocks, bi as nat);
    let start = Seating { nodes: st.nodes, row: Seq::empty(), drawn: 0 };
    seated_slot_is_node(g, t, b, st.in_rows.len() as int, start, slots, 0, j);
    later_seating_keeps(g, t, blocks, (bi + 1) as nat, blocks.len(), b.inputs[ii as int]);
}

/// Every node stands for a node of a graph of `n` nodes.
pub open spec fn graphs_within(nodes: Seq<Placed>, n: nat) -> bool {
    forall|i: int| 0 <= i < nodes.len() ==> (#[trigger] nodes[i]).graph < n
}

proof fn outputs_within(g: Lists, blocks: Seq<BlockView>, n: nat)
    requires
        drawable(blocks, n),
    ensures
        graphs_within(output_nodes(g, blocks), n),
    decreases blocks.len(),
{
    if blocks.len() > 0 {
        let init = blocks.drop_last();
        let b = blocks.last();
        assert(b == blocks[blocks.len() - 1]);
        assert(b.is_block() && b.within(n));
        assert forall|i: int| 0 <= i < init.len() implies (#[trigger] init[i]).is_block()
            && init[i].within(n) by {
            assert(init[i] == blocks[i]);
        }
        outputs_within(g, init, n);
        shown_is_exact(b.kept_out, b.outputs.len() as usize);
        let front = output_nodes(g, init);
        let back = outputs_of(g, b, blocks.len() - 1);
        assert forall|i: int| 0 <= i < (front + back).len() implies (#[trigger] (front
            + back)[i]).graph < n by {
            if i >= front.len() {
                let k = i - front.len();
                let oi = b.kept_out.shown(b.outputs.len())[k];
                assert(b.outputs[oi as int] < n);
                assert((front + back)[i] == back[k]);
            } else {
                assert((front + back)[i] == front[i]);
            }
        }
    }
}

proof fn seated_within(
    g: Lists,
    t: Lists,
    b: BlockView,
    bi: int,
    st: Seating,
    slots: Seq<Slot>,
    k: int,
    n: nat,
)
    requires
        0 <= k,
        b.within(n),
        graphs_within(st.nodes, n),
        forall|j: int|
            0 <= j < slots.len() ==> (#[trigger] slots[j] matches Slot::Node(ii) ==> ii
                < b.inputs.len()),
    ensures
        graphs_within(seat_slots(g, t, b, bi, st, slots, k).nodes, n),
    decreases slots.len() - k,
{
    if k < slots.len() {
        let next = seat_slot(g, t, b, bi, st, slots[k]);
        if let Slot::Node(ii) = slots[k] {
            assert(b.inputs[ii as int] < n);
            node_of_is_in(st.nodes, b.inputs[ii as int]);
            assert forall|i: int| 0 <= i < next.nodes.len() implies (
            #[trigger] next.nodes[i]).graph < n by {
                if i < st.nodes.len() {
                    assert(st.nodes[i].graph < n);
                }
            }
        }
        seated_within(g, t, b, bi, next, slots, k + 1, n);
    }
}

/// Every node of the drawing stands for a node of the graph.
pub(crate) proof fn nodes_within(g: Lists, t: Lists, blocks: Seq<BlockView>, count: nat, n: nat)
    requires
        drawable(blocks, n),
        count <= blocks.len(),
    ensures
        graphs_within(seated_inputs(g, t, blocks, count).nodes, n),
    decreases count,
{
    if count == 0 {
        outputs_within(g, blocks, n);
    } else {
        nodes_within(g, t, blocks, (count - 1) as nat, n);
        let st = seated_inputs(g, t, blocks, (count - 1) as nat);
        let b = blocks[count - 1];
        assert(b.is_block() && b.within(n));
        ascending_fits(b.inputs, 0, b.first_out as int);
        shown_is_exact(b.kept_in, b.inputs.len() as usize);
        row_names_entries(b.kept_in.shown(b.inputs.len()), -1, b.inputs.len() as int);
        seated_within(
            g,
            t,
            b,
            st.in_rows.len() as int,
            Seating { nodes: st.nodes, row: Seq::empty(), drawn: 0 },
            b.kept_in.row(b.inputs.len()),
            0,
            n,
        );
    }
}

} // verus!
