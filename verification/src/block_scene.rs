//! A drawing of blocks with everything settled but where its boxes lie: the
//! nodes and their slots, the ellipses, the arcs by kind, the boxes, and the
//! report.

use std::collections::HashMap;

use vstd::prelude::*;
use vstd::string::*;

use crate::blocks::{Block, BlockView};
use crate::boxes::{arrange, box_tree, box_views, has_in_box, has_seed, in_box, tree_root, Boxes, BoxView};
use crate::graph::{Graph, Lists};
use crate::kept::shown_is_exact;
use crate::report::Report;
use crate::rows::{
    drawable, graphs_within, in_rows_within, indexes, is_index, node_of, node_of_is_in, node_of_same_graphs,
    nodes_within, out_rows_of, out_rows_within, row_views, row_within, seated_inputs, settle_rows,
    shown_inputs_are_nodes, shown_outputs_are_nodes, Ellipsis, Placed, Producer, Role, Row,
    RowSlot, Rows,
};
use crate::settle::{all_blocks, parents_within};
use crate::walk::{views, Walk};

verus! {

broadcast use vstd::std_specs::hash::group_hash_axioms;

/// What an arc of the drawing is.
#[derive(Clone, Copy, Debug, PartialEq, Eq, Structural)]
pub enum ArcKind {
    /// From the block above, or from an outside input of the block itself.
    Tree,
    /// From a drawn block other than the one above.
    Cross,
    /// Between two drawn nodes, of a block that is not drawn.
    Stray,
}

/// One drawn arc, by indices into the nodes.
#[derive(Clone, Copy, Debug, PartialEq, Eq, Structural)]
pub struct Arc {
    pub from: u32,
    pub to: u32,
    pub kind: ArcKind,
}

/// The nodes with node `i` at slot `k`.
pub open spec fn with_slot(nodes: Seq<Placed>, i: int, k: int) -> Seq<Placed> {
    if 0 <= i < nodes.len() {
        nodes.update(i, Placed { slot: k as usize, ..nodes[i] })
    } else {
        nodes
    }
}

/// The nodes with the slots of a row given out, from the `k`th on.
pub open spec fn slot_row(nodes: Seq<Placed>, row: Seq<RowSlot>, k: int) -> Seq<Placed>
    decreases row.len() - k,
{
    if k >= row.len() {
        nodes
    } else {
        match row[k] {
            RowSlot::Node(i) => slot_row(with_slot(nodes, i as int, k), row, k + 1),
            RowSlot::Gap(_) => slot_row(nodes, row, k + 1),
        }
    }
}

/// The ellipses of the first `k` slots of a row of block `bi`.
pub open spec fn row_marks(row: Seq<RowSlot>, bi: int, which: Row, k: nat) -> Seq<Ellipsis>
    decreases k,
{
    if k == 0 {
        Seq::empty()
    } else {
        let front = row_marks(row, bi, which, (k - 1) as nat);
        match row[k - 1] {
            RowSlot::Node(_) => front,
            RowSlot::Gap(hidden) => front.push(
                Ellipsis { hidden, block: bi as u32, row: which, slot: (k - 1) as usize },
            ),
        }
    }
}

/// The nodes with the slots of the rows of the first blocks given out: the
/// output row of a block, then its input row.
pub open spec fn slotted(
    nodes: Seq<Placed>,
    in_rows: Seq<Seq<RowSlot>>,
    out_rows: Seq<Seq<RowSlot>>,
    count: nat,
) -> Seq<Placed>
    decreases count,
{
    if count == 0 {
        nodes
    } else {
        slot_row(
            slot_row(
                slotted(nodes, in_rows, out_rows, (count - 1) as nat),
                out_rows[count - 1],
                0,
            ),
            in_rows[count - 1],
            0,
        )
    }
}

/// The ellipses of the rows of the first blocks.
pub open spec fn marks(
    in_rows: Seq<Seq<RowSlot>>,
    out_rows: Seq<Seq<RowSlot>>,
    count: nat,
) -> Seq<Ellipsis>
    decreases count,
{
    if count == 0 {
        Seq::empty()
    } else {
        let outs = out_rows[count - 1];
        let ins = in_rows[count - 1];
        marks(in_rows, out_rows, (count - 1) as nat) + row_marks(
            outs,
            count - 1,
            Row::Output,
            outs.len(),
        ) + row_marks(ins, count - 1, Row::Input, ins.len())
    }
}

/// What the arcs from node `from` into block `bi`, which is `b`, are.
pub open spec fn arc_kind(nodes: Seq<Placed>, from: int, b: BlockView, bi: int) -> ArcKind {
    match nodes[from].role {
        Role::Output { block } => match b.parent {
            Some((p, _)) if p == block => ArcKind::Tree,
            _ => ArcKind::Cross,
        },
        Role::Outside { block, .. } => if block == bi {
            ArcKind::Tree
        } else {
            ArcKind::Cross
        },
    }
}

/// The arc from input `ii` of block `bi`, which is `b`, to its `j`th kept
/// output.
pub open spec fn arc_of(nodes: Seq<Placed>, b: BlockView, bi: int, ii: usize, j: int) -> Arc {
    let from = node_of(nodes, b.inputs[ii as int])->0;
    let shown = b.kept_out.shown(b.outputs.len());
    Arc {
        from: from as u32,
        to: node_of(nodes, b.outputs[shown[j] as int])->0 as u32,
        kind: arc_kind(nodes, from, b, bi),
    }
}

/// The arcs from input `ii` of a block to its kept outputs.
pub open spec fn fan(nodes: Seq<Placed>, b: BlockView, bi: int, ii: usize) -> Seq<Arc> {
    Seq::new(b.kept_out.shown(b.outputs.len()).len(), |j: int| arc_of(nodes, b, bi, ii, j))
}

/// The arcs from the first `k` kept inputs of a block to its kept outputs.
pub open spec fn block_arcs(nodes: Seq<Placed>, b: BlockView, bi: int, k: nat) -> Seq<Arc>
    decreases k,
{
    if k == 0 {
        Seq::empty()
    } else {
        block_arcs(nodes, b, bi, (k - 1) as nat) + fan(
            nodes,
            b,
            bi,
            b.kept_in.shown(b.inputs.len())[k - 1],
        )
    }
}

/// The arcs of the first blocks: every kept input to every kept output.
pub open spec fn drawn_arcs(nodes: Seq<Placed>, blocks: Seq<BlockView>, count: nat) -> Seq<Arc>
    decreases count,
{
    if count == 0 {
        Seq::empty()
    } else {
        let b = blocks[count - 1];
        drawn_arcs(nodes, blocks, (count - 1) as nat) + block_arcs(
            nodes,
            b,
            count - 1,
            b.kept_in.shown(b.inputs.len()).len(),
        )
    }
}

/// The arcs into node `to` from those of the first `k` of its predecessors
/// that are drawn.
pub open spec fn strays_into(
    nodes: Seq<Placed>,
    predecessors: Seq<usize>,
    to: int,
    k: nat,
) -> Seq<Arc>
    decreases k,
{
    if k == 0 {
        Seq::empty()
    } else {
        let front = strays_into(nodes, predecessors, to, (k - 1) as nat);
        match node_of(nodes, predecessors[k - 1]) {
            Some(from) => front.push(
                Arc { from: from as u32, to: to as u32, kind: ArcKind::Stray },
            ),
            None => front,
        }
    }
}

/// The arcs of blocks that are not drawn into the first nodes, as far as both
/// ends are drawn.
pub open spec fn strays(t: Lists, nodes: Seq<Placed>, count: nat) -> Seq<Arc>
    decreases count,
{
    if count == 0 {
        Seq::empty()
    } else {
        let front = strays(t, nodes, (count - 1) as nat);
        match nodes[count - 1].role {
            Role::Outside { producer: Producer::Undrawn, .. } => {
                let from = t[nodes[count - 1].graph as int];
                front + strays_into(nodes, from, count - 1, from.len())
            },
            _ => front,
        }
    }
}

/// How many nodes of each kind are drawn.
pub struct NodeCounts {
    pub outputs: nat,
    pub sources: nat,
    pub undrawn: nat,
    pub sinks: nat,
    pub frontier: nat,
}

pub open spec fn count_nodes(nodes: Seq<Placed>) -> NodeCounts
    decreases nodes.len(),
{
    if nodes.len() == 0 {
        NodeCounts { outputs: 0, sources: 0, undrawn: 0, sinks: 0, frontier: 0 }
    } else {
        let c = count_nodes(nodes.drop_last());
        let p = nodes.last();
        NodeCounts {
            outputs: c.outputs + if p.role is Output { 1nat } else { 0nat },
            sources: c.sources + if p.role is Outside && p.role->producer is Source {
                1nat
            } else {
                0nat
            },
            undrawn: c.undrawn + if p.role is Outside && p.role->producer is Undrawn {
                1nat
            } else {
                0nat
            },
            sinks: c.sinks + if p.outdeg == 0 { 1nat } else { 0nat },
            frontier: c.frontier + if p.outdeg > 0 && !p.consumed { 1nat } else { 0nat },
        }
    }
}

/// How many of the arcs are of a kind.
pub open spec fn count_arcs(arcs: Seq<Arc>, kind: ArcKind) -> nat
    decreases arcs.len(),
{
    if arcs.len() == 0 {
        0
    } else {
        count_arcs(arcs.drop_last(), kind) + if arcs.last().kind == kind { 1nat } else { 0nat }
    }
}

/// A walk's report with what the drawing adds to it. Which arcs pass over nodes is
/// not known before the boxes have their places, so that count stays as it is:
/// [`crate::block_places::settle_places`] makes it.
pub open spec fn drawn_report(
    report: Report,
    mixed: nat,
    nodes: Seq<Placed>,
    arcs: Seq<Arc>,
) -> Report {
    let counts = count_nodes(nodes);
    let drawn = count_arcs(arcs, ArcKind::Tree) + count_arcs(arcs, ArcKind::Cross);
    Report {
        blocks_mixed: mixed as usize,
        nodes_drawn: nodes.len() as usize,
        outputs_drawn: counts.outputs as usize,
        outside_inputs: (counts.sources + counts.undrawn) as usize,
        outside_sources: counts.sources as usize,
        outside_from_undrawn: counts.undrawn as usize,
        arcs_drawn: drawn as u64,
        arcs_hidden_by_fanout: report.arcs_in_drawn_blocks.wrapping_sub(drawn as u64),
        arcs_cross: count_arcs(arcs, ArcKind::Cross) as u64,
        arcs_stray: count_arcs(arcs, ArcKind::Stray) as u64,
        arcs_dropped: 0,
        frontier_outputs: counts.frontier as usize,
        sinks: counts.sinks as usize,
        ..report
    }
}

/// Everything about a drawing of blocks but where its boxes lie.
pub struct BlockScene {
    pub blocks: Vec<Block>,
    pub nodes: Vec<Placed>,
    /// Graph id to node index: one entry per drawn node.
    pub index: HashMap<usize, u32>,
    pub arcs: Vec<Arc>,
    pub ellipses: Vec<Ellipsis>,
    /// The rows of outside inputs and of outputs, block by block.
    pub in_rows: Vec<Vec<RowSlot>>,
    pub out_rows: Vec<Vec<RowSlot>>,
    pub boxes: Boxes,
    pub report: Report,
    pub vertical: bool,
}

/// A drawing as a mathematical value.
pub struct SceneView {
    pub blocks: Seq<BlockView>,
    pub nodes: Seq<Placed>,
    pub arcs: Seq<Arc>,
    pub ellipses: Seq<Ellipsis>,
    pub in_rows: Seq<Seq<RowSlot>>,
    pub out_rows: Seq<Seq<RowSlot>>,
    pub boxes: Seq<BoxView>,
    pub root: nat,
    pub report: Report,
    pub vertical: bool,
}

impl View for BlockScene {
    type V = SceneView;

    open spec fn view(&self) -> SceneView {
        SceneView {
            blocks: views(self.blocks@),
            nodes: self.nodes@,
            arcs: self.arcs@,
            ellipses: self.ellipses@,
            in_rows: row_views(self.in_rows@),
            out_rows: row_views(self.out_rows@),
            boxes: box_views(self.boxes.boxes@),
            root: self.boxes.root as nat,
            report: self.report,
            vertical: self.vertical,
        }
    }
}

/// The drawing of these blocks.
pub open spec fn laid_out(
    g: Lists,
    t: Lists,
    blocks: Seq<BlockView>,
    report: Report,
    vertical: bool,
) -> SceneView {
    let st = seated_inputs(g, t, blocks, blocks.len());
    let out_rows = out_rows_of(st.nodes, blocks);
    let nodes = slotted(st.nodes, st.in_rows, out_rows, blocks.len());
    let arcs = drawn_arcs(nodes, blocks, blocks.len()) + strays(t, nodes, nodes.len());
    SceneView {
        blocks,
        nodes,
        arcs,
        ellipses: marks(st.in_rows, out_rows, blocks.len()),
        in_rows: st.in_rows,
        out_rows,
        boxes: box_tree(blocks, st.in_rows, out_rows),
        root: tree_root(blocks, st.in_rows),
        report: drawn_report(report, st.mixed, nodes, arcs),
        vertical,
    }
}

/// Gives the slots of a row out.
fn give_slots(nodes: &mut Vec<Placed>, row: &Vec<RowSlot>)
    requires
        row_within(row@, old(nodes)@.len()),
    ensures
        final(nodes)@ == slot_row(old(nodes)@, row@, 0),
        same_but_slots(old(nodes)@, final(nodes)@),
{
    let mut k: usize = 0;
    while k < row.len()
        invariant
            k <= row@.len(),
            row_within(row@, nodes@.len()),
            slot_row(old(nodes)@, row@, 0) == slot_row(nodes@, row@, k as int),
            same_but_slots(old(nodes)@, nodes@),
        decreases row@.len() - k,
    {
        if let RowSlot::Node(i) = row[k] {
            let ghost held = nodes@;
            assert(row@[k as int] matches RowSlot::Node(x) ==> x < nodes@.len());
            nodes[i as usize].slot = k;
            assert(nodes@ =~= with_slot(held, i as int, k as int));
        }
        k += 1;
    }
}

/// The same nodes but for the slots they are given.
pub open spec fn same_but_slots(a: Seq<Placed>, b: Seq<Placed>) -> bool {
    &&& a.len() == b.len()
    &&& forall|i: int|
        #![trigger b[i]]
        0 <= i < a.len() ==> b[i] == (Placed { slot: b[i].slot, ..a[i] })
}

/// Appends the ellipses of a row.
fn mark_row(ellipses: &mut Vec<Ellipsis>, row: &Vec<RowSlot>, bi: usize, which: Row)
    requires
        bi < u32::MAX,
    ensures
        final(ellipses)@ == old(ellipses)@ + row_marks(row@, bi as int, which, row@.len()),
{
    let mut k: usize = 0;
    assert(ellipses@ =~= old(ellipses)@ + row_marks(row@, bi as int, which, 0));
    while k < row.len()
        invariant
            k <= row@.len(),
            bi < u32::MAX,
            ellipses@ == old(ellipses)@ + row_marks(row@, bi as int, which, k as nat),
        decreases row@.len() - k,
    {
        if let RowSlot::Gap(hidden) = row[k] {
            ellipses.push(Ellipsis { hidden, block: bi as u32, row: which, slot: k });
        }
        assert(ellipses@ =~= old(ellipses)@ + row_marks(row@, bi as int, which, (k + 1) as nat));
        k += 1;
    }
}

/// Input `ii` of block `bi` is one of the nodes.
spec fn input_placed(nodes: Seq<Placed>, blocks: Seq<BlockView>, bi: int, ii: usize) -> bool {
    node_of(nodes, blocks[bi].inputs[ii as int]) is Some
}

/// Output `oi` of block `bi` is one of the nodes.
spec fn output_placed(nodes: Seq<Placed>, blocks: Seq<BlockView>, bi: int, oi: usize) -> bool {
    node_of(nodes, blocks[bi].outputs[oi as int]) is Some
}

/// Every kept input and output of every block is one of the nodes.
spec fn all_placed(nodes: Seq<Placed>, blocks: Seq<BlockView>) -> bool {
    &&& forall|bi: int, ii: usize|
        0 <= bi < blocks.len() && blocks[bi].kept_in.shown(blocks[bi].inputs.len()).contains(ii)
            ==> #[trigger] input_placed(nodes, blocks, bi, ii)
    &&& forall|bi: int, oi: usize|
        0 <= bi < blocks.len() && blocks[bi].kept_out.shown(blocks[bi].outputs.len()).contains(oi)
            ==> #[trigger] output_placed(nodes, blocks, bi, oi)
}

/// Lists the arcs of every drawn block, by kind.
fn list_arcs(blocks: &Vec<Block>, nodes: &Vec<Placed>, index: &HashMap<usize, u32>) -> (arcs: Vec<
    Arc,
>)
    requires
        all_blocks(views(blocks@)),
        nodes@.len() <= u32::MAX,
        is_index(index@, nodes@),
        all_placed(nodes@, views(blocks@)),
    ensures
        arcs@ == drawn_arcs(nodes@, views(blocks@), blocks@.len()),
{
    let ghost all = views(blocks@);
    let mut arcs: Vec<Arc> = Vec::new();
    let mut bi: usize = 0;
    while bi < blocks.len()
        invariant
            bi <= blocks@.len(),
            all == views(blocks@),
            all_blocks(all),
            nodes@.len() <= u32::MAX,
            is_index(index@, nodes@),
            all_placed(nodes@, all),
            arcs@ == drawn_arcs(nodes@, all, bi as nat),
        decreases blocks@.len() - bi,
    {
        let ghost b = all[bi as int];
        let ghost before = arcs@;
        assert(b == blocks@[bi as int]@);
        assert(b.is_block());
        let n_in: usize = blocks[bi].inputs.len();
        let n_out: usize = blocks[bi].outputs.len();
        let ins = blocks[bi].kept_in.indices(n_in);
        let outs = blocks[bi].kept_out.indices(n_out);
        proof {
            shown_is_exact(b.kept_in, n_in);
            shown_is_exact(b.kept_out, n_out);
        }
        let mut k: usize = 0;
        assert(arcs@ =~= before + block_arcs(nodes@, b, bi as int, 0));
        while k < ins.len()
            invariant
                k <= ins@.len(),
                bi < blocks@.len(),
                all == views(blocks@),
                nodes@.len() <= u32::MAX,
                is_index(index@, nodes@),
                all_placed(nodes@, all),
                b == all[bi as int],
                n_in == b.inputs.len(),
                n_out == b.outputs.len(),
                ins@ == b.kept_in.shown(n_in as nat),
                outs@ == b.kept_out.shown(n_out as nat),
                forall|i: int| 0 <= i < ins@.len() ==> #[trigger] ins@[i] < n_in,
                forall|i: int| 0 <= i < outs@.len() ==> #[trigger] outs@[i] < n_out,
                arcs@ == before + block_arcs(nodes@, b, bi as int, k as nat),
            decreases ins@.len() - k,
        {
            let ii: usize = ins[k];
            let u: usize = blocks[bi].inputs[ii];
            proof {
                assert(b.kept_in.shown(n_in as nat).contains(ii));
                assert(input_placed(nodes@, all, bi as int, ii));
                assert(indexes(index@, nodes@, u));
                node_of_is_in(nodes@, u);
            }
            let from: u32 = *index.get(&u).unwrap();
            let kind = match nodes[from as usize].role {
                Role::Output { block } => match blocks[bi].parent {
                    Some((p, _)) => if p == block {
                        ArcKind::Tree
                    } else {
                        ArcKind::Cross
                    },
                    None => ArcKind::Cross,
                },
                Role::Outside { block, .. } => if block as usize == bi {
                    ArcKind::Tree
                } else {
                    ArcKind::Cross
                },
            };
            let ghost held = arcs@;
            let mut j: usize = 0;
            assert(arcs@ =~= held + fan(nodes@, b, bi as int, ii).take(0));
            while j < outs.len()
                invariant
                    j <= outs@.len(),
                    bi < blocks@.len(),
                    all == views(blocks@),
                    nodes@.len() <= u32::MAX,
                    is_index(index@, nodes@),
                    all_placed(nodes@, all),
                    b == all[bi as int],
                    n_out == b.outputs.len(),
                    outs@ == b.kept_out.shown(n_out as nat),
                    forall|i: int| 0 <= i < outs@.len() ==> #[trigger] outs@[i] < n_out,
                    node_of(nodes@, b.inputs[ii as int]) == Some(from as int),
                    kind == arc_kind(nodes@, from as int, b, bi as int),
                    arcs@ == held + fan(nodes@, b, bi as int, ii).take(j as int),
                decreases outs@.len() - j,
            {
                let oi: usize = outs[j];
                let o: usize = blocks[bi].outputs[oi];
                proof {
                    assert(b.kept_out.shown(n_out as nat).contains(oi));
                    assert(output_placed(nodes@, all, bi as int, oi));
                    assert(indexes(index@, nodes@, o));
                    node_of_is_in(nodes@, o);
                }
                let to: u32 = *index.get(&o).unwrap();
                let arc = Arc { from, to, kind };
                arcs.push(arc);
                assert(fan(nodes@, b, bi as int, ii)[j as int] == arc);
                assert(arcs@ =~= held + fan(nodes@, b, bi as int, ii).take(j + 1));
                j += 1;
            }
            assert(fan(nodes@, b, bi as int, ii).take(j as int) =~= fan(
                nodes@,
                b,
                bi as int,
                ii,
            ));
            assert(arcs@ =~= before + block_arcs(nodes@, b, bi as int, (k + 1) as nat));
            k += 1;
        }
        bi += 1;
    }
    arcs
}

/// Appends the arcs into outside inputs from drawn nodes, which can only be
/// arcs of the undrawn blocks that produced them.
fn list_strays<T: Graph>(
    pgt: &T,
    nodes: &Vec<Placed>,
    index: &HashMap<usize, u32>,
    arcs: &mut Vec<Arc>,
)
    requires
        nodes@.len() <= u32::MAX,
        is_index(index@, nodes@),
        graphs_within(nodes@, pgt.lists().len()),
    ensures
        final(arcs)@ == old(arcs)@ + strays(pgt.lists(), nodes@, nodes@.len()),
{
    let ghost t = pgt.lists();
    let mut i: usize = 0;
    assert(arcs@ =~= old(arcs)@ + strays(t, nodes@, 0));
    while i < nodes.len()
        invariant
            i <= nodes@.len() <= u32::MAX,
            t == pgt.lists(),
            is_index(index@, nodes@),
            graphs_within(nodes@, t.len()),
            arcs@ == old(arcs)@ + strays(t, nodes@, i as nat),
        decreases nodes@.len() - i,
    {
        let p = nodes[i];
        assert(nodes@[i as int].graph < t.len());
        if let Role::Outside { producer: Producer::Undrawn, .. } = p.role {
            let from = pgt.successors(p.graph);
            let ghost held = arcs@;
            let mut k: usize = 0;
            assert(arcs@ =~= held + strays_into(nodes@, from@, i as int, 0));
            while k < from.len()
                invariant
                    k <= from@.len(),
                    i < nodes@.len() <= u32::MAX,
                    is_index(index@, nodes@),
                    arcs@ == held + strays_into(nodes@, from@, i as int, k as nat),
                decreases from@.len() - k,
            {
                let u: usize = from[k];
                assert(indexes(index@, nodes@, u));
                match index.get(&u) {
                    Some(found) => {
                        arcs.push(Arc { from: *found, to: i as u32, kind: ArcKind::Stray });
                    },
                    None => {},
                }
                assert(arcs@ =~= held + strays_into(nodes@, from@, i as int, (k + 1) as nat));
                k += 1;
            }
        }
        assert(arcs@ =~= old(arcs)@ + strays(t, nodes@, (i + 1) as nat));
        i += 1;
    }
}

/// Fills in what the nodes and the arcs add to a report.
fn report_on(report: Report, mixed: usize, nodes: &Vec<Placed>, arcs: &Vec<Arc>) -> (r: Report)
    ensures
        r == drawn_report(report, mixed as nat, nodes@, arcs@),
{
    let mut outputs: usize = 0;
    let mut sources: usize = 0;
    let mut undrawn: usize = 0;
    let mut sinks: usize = 0;
    let mut frontier: usize = 0;
    let mut i: usize = 0;
    while i < nodes.len()
        invariant
            i <= nodes@.len(),
            outputs <= i,
            sources + undrawn <= i,
            sinks <= i,
            frontier <= i,
            count_nodes(nodes@.take(i as int)) == (NodeCounts {
                outputs: outputs as nat,
                sources: sources as nat,
                undrawn: undrawn as nat,
                sinks: sinks as nat,
                frontier: frontier as nat,
            }),
        decreases nodes@.len() - i,
    {
        let p = nodes[i];
        assert(nodes@.take(i + 1).drop_last() =~= nodes@.take(i as int));
        match p.role {
            Role::Output { .. } => {
                outputs += 1;
            },
            Role::Outside { producer, .. } => match producer {
                Producer::Source => {
                    sources += 1;
                },
                Producer::Undrawn => {
                    undrawn += 1;
                },
            },
        }
        if p.outdeg == 0 {
            sinks += 1;
        } else if !p.consumed {
            frontier += 1;
        }
        i += 1;
    }
    assert(nodes@.take(i as int) =~= nodes@);
    let mut tree: u64 = 0;
    let mut cross: u64 = 0;
    let mut stray: u64 = 0;
    let mut k: usize = 0;
    while k < arcs.len()
        invariant
            k <= arcs@.len(),
            tree + cross + stray == k,
            tree == count_arcs(arcs@.take(k as int), ArcKind::Tree),
            cross == count_arcs(arcs@.take(k as int), ArcKind::Cross),
            stray == count_arcs(arcs@.take(k as int), ArcKind::Stray),
        decreases arcs@.len() - k,
    {
        assert(arcs@.take(k + 1).drop_last() =~= arcs@.take(k as int));
        match arcs[k].kind {
            ArcKind::Tree => {
                tree += 1;
            },
            ArcKind::Cross => {
                cross += 1;
            },
            ArcKind::Stray => {
                stray += 1;
            },
        }
        k += 1;
    }
    assert(arcs@.take(k as int) =~= arcs@);
    let mut r = report;
    r.blocks_mixed = mixed;
    r.nodes_drawn = nodes.len();
    r.outputs_drawn = outputs;
    r.outside_inputs = sources + undrawn;
    r.outside_sources = sources;
    r.outside_from_undrawn = undrawn;
    r.arcs_drawn = tree + cross;
    r.arcs_hidden_by_fanout = report.arcs_in_drawn_blocks.wrapping_sub(tree + cross);
    r.arcs_cross = cross;
    r.arcs_stray = stray;
    r.arcs_dropped = 0;
    r.frontier_outputs = frontier;
    r.sinks = sinks;
    r
}

proof fn slots_keep_the_rest(a: Seq<Placed>, b: Seq<Placed>, c: Seq<Placed>)
    requires
        same_but_slots(a, b),
        same_but_slots(b, c),
    ensures
        same_but_slots(a, c),
{
    assert forall|i: int| #![trigger c[i]] 0 <= i < a.len() implies c[i] == (Placed {
        slot: c[i].slot,
        ..a[i]
    }) by {
        assert(b[i] == (Placed { slot: b[i].slot, ..a[i] }));
    }
}

/// What a drawing with too many nodes is refused with.
pub open spec fn too_many_nodes() -> Seq<char> {
    "the drawing has more nodes than this can index; the limit is 4294967295"@
}

/// Settles the roles, arranges the blocks as boxes of a tidy tree, gives every
/// node and ellipsis its slot, and lists the arcs by kind.
///
/// Refused rather than truncated when the drawing has more nodes than a `u32`
/// can name. The report does not say yet how many arcs pass over a node: the boxes
/// have no places, and [`crate::block_places::settle_places`] counts once they do.
pub fn lay_out_blocks<G: Graph, T: Graph>(pg: &G, pgt: &T, walk: Walk, vertical: bool) -> (r: Result<
    BlockScene,
    String,
>)
    requires
        drawable(walk@.blocks, pg.lists().len()),
        parents_within(walk@.blocks),
        has_seed(walk@.blocks),
        pg.lists().len() == pgt.lists().len(),
    ensures
        ({
            let scene = laid_out(
                pg.lists(),
                pgt.lists(),
                walk@.blocks,
                walk@.report,
                vertical,
            );
            match r {
                Ok(s) => {
                    &&& s@ == scene
                    &&& scene.nodes.len() <= u32::MAX
                    &&& is_index(s.index@, scene.nodes)
                    &&& s.boxes.in_boxes@.len() == scene.blocks.len()
                    &&& forall|c: int|
                        #![trigger s.boxes.in_boxes@[c]]
                        0 <= c < scene.blocks.len() ==> s.boxes.in_boxes@[c] == if has_in_box(
                            scene.blocks,
                            scene.in_rows,
                            c,
                        ) {
                            Some(in_box(scene.blocks, scene.in_rows, c))
                        } else {
                            None
                        }
                },
                Err(e) => e@ == too_many_nodes() && scene.nodes.len() > u32::MAX,
            }
        }),
{
    let ghost g = pg.lists();
    let ghost t = pgt.lists();
    let Walk { blocks, seeds: _, report, checked: _ } = walk;
    let ghost all = views(blocks@);
    let ghost st = seated_inputs(g, t, all, all.len());
    let Rows { nodes: seated, index, in_rows, out_rows, mixed } = match settle_rows(
        pg,
        pgt,
        &blocks,
    ) {
        Some(rows) => rows,
        None => {
            proof {
                slotted_same_len(st.nodes, st.in_rows, out_rows_of(st.nodes, all), all.len());
            }
            return Err(
                "the drawing has more nodes than this can index; the limit is 4294967295".to_owned(),
            );
        },
    };
    let mut nodes = seated;
    let mut ellipses: Vec<Ellipsis> = Vec::new();
    proof {
        in_rows_within(g, t, all, all.len());
        out_rows_within(g, t, all);
        nodes_within(g, t, all, all.len(), g.len());
    }
    let ghost ins = row_views(in_rows@);
    let ghost outs = row_views(out_rows@);
    let mut bi: usize = 0;
    while bi < blocks.len()
        invariant
            bi <= blocks@.len() == all.len(),
            all.len() <= u32::MAX,
            ins == row_views(in_rows@),
            outs == row_views(out_rows@),
            ins.len() == all.len(),
            outs.len() == all.len(),
            forall|i: int| 0 <= i < ins.len() ==> row_within(#[trigger] ins[i], st.nodes.len()),
            forall|i: int| 0 <= i < outs.len() ==> row_within(#[trigger] outs[i], st.nodes.len()),
            same_but_slots(st.nodes, nodes@),
            nodes@ == slotted(st.nodes, ins, outs, bi as nat),
            ellipses@ == marks(ins, outs, bi as nat),
        decreases blocks@.len() - bi,
    {
        let ghost first = nodes@;
        assert(outs[bi as int] == out_rows@[bi as int]@);
        assert(ins[bi as int] == in_rows@[bi as int]@);
        assert(row_within(outs[bi as int], nodes@.len()));
        assert(row_within(ins[bi as int], nodes@.len()));
        give_slots(&mut nodes, &out_rows[bi]);
        let ghost second = nodes@;
        give_slots(&mut nodes, &in_rows[bi]);
        proof {
            slots_keep_the_rest(st.nodes, first, second);
            slots_keep_the_rest(st.nodes, second, nodes@);
        }
        mark_row(&mut ellipses, &out_rows[bi], bi, Row::Output);
        mark_row(&mut ellipses, &in_rows[bi], bi, Row::Input);
        assert(ellipses@ =~= marks(ins, outs, (bi + 1) as nat));
        bi += 1;
    }
    proof {
        assert forall|u: usize| #[trigger] node_of(nodes@, u) == node_of(st.nodes, u) by {
            assert forall|i: int| 0 <= i < st.nodes.len() implies (
            #[trigger] st.nodes[i]).graph == nodes@[i].graph by {
                assert(nodes@[i] == (Placed { slot: nodes@[i].slot, ..st.nodes[i] }));
            }
            node_of_same_graphs(st.nodes, nodes@, u);
        }
        assert(is_index(index@, nodes@)) by {
            assert forall|u: usize| #[trigger] indexes(index@, nodes@, u) by {
                assert(indexes(index@, st.nodes, u));
                assert(node_of(nodes@, u) == node_of(st.nodes, u));
            }
        }
        assert(graphs_within(nodes@, t.len())) by {
            assert forall|i: int| 0 <= i < nodes@.len() implies (#[trigger] nodes@[i]).graph
                < t.len() by {
                assert(st.nodes[i].graph < t.len());
            }
        }
        assert(all_placed(nodes@, all)) by {
            assert forall|bi: int, ii: usize|
                0 <= bi < all.len() && all[bi].kept_in.shown(all[bi].inputs.len()).contains(
                    ii,
                ) implies #[trigger] input_placed(nodes@, all, bi, ii) by {
                shown_inputs_are_nodes(g, t, all, bi, ii);
                assert(node_of(nodes@, all[bi].inputs[ii as int]) is Some);
            }
            assert forall|bi: int, oi: usize|
                0 <= bi < all.len() && all[bi].kept_out.shown(all[bi].outputs.len()).contains(
                    oi,
                ) implies #[trigger] output_placed(nodes@, all, bi, oi) by {
                shown_outputs_are_nodes(g, t, all, bi, oi);
                assert(node_of(nodes@, all[bi].outputs[oi as int]) is Some);
            }
        }
    }
    let mut arcs = list_arcs(&blocks, &nodes, &index);
    list_strays(pgt, &nodes, &index, &mut arcs);
    let boxes = arrange(&blocks, &in_rows, &out_rows);
    let report = report_on(report, mixed, &nodes, &arcs);
    Ok(
        BlockScene {
            blocks,
            nodes,
            index,
            arcs,
            ellipses,
            in_rows,
            out_rows,
            boxes,
            report,
            vertical,
        },
    )
}

proof fn slot_row_same_len(nodes: Seq<Placed>, row: Seq<RowSlot>, k: int)
    requires
        0 <= k,
    ensures
        slot_row(nodes, row, k).len() == nodes.len(),
    decreases row.len() - k,
{
    if k < row.len() {
        match row[k] {
            RowSlot::Node(i) => {
                slot_row_same_len(with_slot(nodes, i as int, k), row, k + 1);
            },
            RowSlot::Gap(_) => {
                slot_row_same_len(nodes, row, k + 1);
            },
        }
    }
}

proof fn slotted_same_len(
    nodes: Seq<Placed>,
    in_rows: Seq<Seq<RowSlot>>,
    out_rows: Seq<Seq<RowSlot>>,
    count: nat,
)
    ensures
        slotted(nodes, in_rows, out_rows, count).len() == nodes.len(),
    decreases count,
{
    if count > 0 {
        let before = slotted(nodes, in_rows, out_rows, (count - 1) as nat);
        slotted_same_len(nodes, in_rows, out_rows, (count - 1) as nat);
        slot_row_same_len(before, out_rows[count - 1], 0);
        slot_row_same_len(slot_row(before, out_rows[count - 1], 0), in_rows[count - 1], 0);
    }
}

} // verus!
