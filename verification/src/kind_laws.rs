//! Which arcs a drawing of blocks has, and of what kind they are.

use vstd::prelude::*;

use crate::arc_laws::{is_own_arc, strays_are_stray};
use crate::block_scene::{
    arc_of, block_arcs, drawn_arcs, fan, laid_out, strays, strays_into, Arc, ArcKind,
};
use crate::blocks::{BlockView, Seed};
use crate::budget_laws::{linked_blocks_are_blocks, shows_in, shows_out};
use crate::graph::{successor_list, well_formed, Lists};
use crate::kept::{ascending, shown_is_exact};
use crate::node_laws::{a_walk_has_blocks, belongs, is_drawn, who_is_drawn_where};
use crate::report::{BlockPrune, Report};
use crate::rows::{node_of, node_of_is_in, Placed, Producer, Role};
use crate::scene_laws::once;
use crate::settle::{all_blocks, unhidden};
use crate::settle_laws::{fits_after, linked_blocks_are_apart, nothing_shown_is_hidden};
use crate::walk::{found, walked};
use crate::walk_laws::{a_walk_is_linked_and_within_its_budgets, complete, linked, transposed};

verus! {

/// There is an arc from one node to another.
pub open spec fn has_arc(arcs: Seq<Arc>, from: int, to: int) -> bool {
    exists|x: int| 0 <= x < arcs.len() && (#[trigger] arcs[x]).from == from && arcs[x].to == to
}

/// No two arcs have the same ends.
pub open spec fn are_apart(arcs: Seq<Arc>) -> bool {
    forall|x: int, y: int|
        0 <= x < y < arcs.len() ==> (#[trigger] arcs[x]).from != (#[trigger] arcs[y]).from
            || arcs[x].to != arcs[y].to
}

/// The nodes are those of the blocks, each where it belongs.
spec fn is_page(t: Lists, blocks: Seq<BlockView>, nodes: Seq<Placed>) -> bool {
    &&& all_blocks(blocks)
    &&& once(nodes)
    &&& nodes.len() <= u32::MAX
    &&& forall|v: usize, b: int, i: int| #[trigger]
        shows_in(blocks, v, b, i) ==> is_drawn(nodes, v)
    &&& forall|v: usize, b: int, j: int| #[trigger]
        shows_out(blocks, v, b, j) ==> is_drawn(nodes, v)
    &&& forall|k: int| 0 <= k < nodes.len() ==> belongs(t, blocks, #[trigger] nodes[k])
    &&& forall|k: int, b: int, j: int|
        0 <= k < nodes.len() && #[trigger] shows_out(blocks, nodes[k].graph, b, j)
            ==> nodes[k].role == (Role::Output { block: b as u32 })
}

proof fn a_scene_is_a_page(
    g: Lists,
    t: Lists,
    blocks: Seq<BlockView>,
    report: Report,
    vertical: bool,
)
    requires
        linked(g, t, blocks),
        all_blocks(blocks),
        blocks.len() <= u32::MAX,
        laid_out(g, t, blocks, report, vertical).nodes.len() <= u32::MAX,
    ensures
        is_page(t, blocks, laid_out(g, t, blocks, report, vertical).nodes),
{
    who_is_drawn_where(g, t, blocks, report, vertical);
    let nodes = laid_out(g, t, blocks, report, vertical).nodes;
    assert forall|v: usize, b: int, i: int| #[trigger]
        shows_in(blocks, v, b, i) implies is_drawn(nodes, v) by {
        assert(is_drawn(nodes, v) <==> crate::budget_laws::is_shown(blocks, v));
    }
    assert forall|v: usize, b: int, j: int| #[trigger]
        shows_out(blocks, v, b, j) implies is_drawn(nodes, v) by {
        assert(is_drawn(nodes, v) <==> crate::budget_laws::is_shown(blocks, v));
    }
}

/// A node that is drawn once is found where it is drawn.
pub(crate) proof fn found_where_drawn(nodes: Seq<Placed>, i: int)
    requires
        once(nodes),
        0 <= i < nodes.len(),
    ensures
        node_of(nodes, nodes[i].graph) == Some(i),
{
    let u = nodes[i].graph;
    node_of_is_in(nodes, u);
    let k = node_of(nodes, u)->0;
    if k < i {
        assert(nodes[k].graph != nodes[i].graph);
    } else if i < k {
        assert(nodes[i].graph != nodes[k].graph);
    }
}

/// An arc goes from a kept input of block `bi` to a kept output of it.
pub open spec fn runs(
    nodes: Seq<Placed>,
    blocks: Seq<BlockView>,
    a: Arc,
    bi: int,
    ii: int,
    oi: int,
) -> bool {
    &&& a.from < nodes.len()
    &&& a.to < nodes.len()
    &&& shows_in(blocks, nodes[a.from as int].graph, bi, ii)
    &&& shows_out(blocks, nodes[a.to as int].graph, bi, oi)
}

/// A tree arc comes from the block above, or from an outside input of the same block.
pub open spec fn is_tree_arc(from: Placed, b: BlockView, bi: int) -> bool {
    match from.role {
        Role::Output { block } => b.parent matches Some((p, _)) && p == block,
        Role::Outside { block, .. } => block == bi,
    }
}

proof fn own_arc_runs(
    t: Lists,
    nodes: Seq<Placed>,
    blocks: Seq<BlockView>,
    a: Arc,
    bi: int,
    k: int,
    j: int,
)
    requires
        is_page(t, blocks, nodes),
        is_own_arc(nodes, blocks, a, bi, k, j),
    ensures
        runs(
            nodes,
            blocks,
            a,
            bi,
            blocks[bi].kept_in.shown(blocks[bi].inputs.len())[k] as int,
            blocks[bi].kept_out.shown(blocks[bi].outputs.len())[j] as int,
        ),
        a.kind == if is_tree_arc(nodes[a.from as int], blocks[bi], bi) {
            ArcKind::Tree
        } else {
            ArcKind::Cross
        },
{
    let b = blocks[bi];
    fits_after(blocks, bi, bi);
    shown_is_exact(b.kept_in, b.inputs.len() as usize);
    shown_is_exact(b.kept_out, b.outputs.len() as usize);
    let ii = b.kept_in.shown(b.inputs.len())[k];
    let oi = b.kept_out.shown(b.outputs.len())[j];
    let (u, v) = (b.inputs[ii as int], b.outputs[oi as int]);
    assert(b.kept_in.shown(b.inputs.len()).contains(ii));
    assert(b.kept_out.shown(b.outputs.len()).contains(oi));
    assert(shows_in(blocks, u, bi, ii as int));
    assert(shows_out(blocks, v, bi, oi as int));
    assert(is_drawn(nodes, u));
    assert(is_drawn(nodes, v));
    node_of_is_in(nodes, u);
    node_of_is_in(nodes, v);
    assert(nodes[a.from as int].graph == u && nodes[a.to as int].graph == v);
}

/// An arc of the first `n` kept inputs of block `bi`.
spec fn is_early_arc(
    nodes: Seq<Placed>,
    blocks: Seq<BlockView>,
    a: Arc,
    bi: int,
    n: int,
) -> bool {
    exists|k: int, j: int| #[trigger] is_own_arc(nodes, blocks, a, bi, k, j) && k < n
}

proof fn same_ends_same_arc(
    t: Lists,
    nodes: Seq<Placed>,
    blocks: Seq<BlockView>,
    a: Arc,
    c: Arc,
    bi: int,
    k: int,
    j: int,
    l: int,
    m: int,
)
    requires
        is_page(t, blocks, nodes),
        is_own_arc(nodes, blocks, a, bi, k, j),
        is_own_arc(nodes, blocks, c, bi, l, m),
        a.from == c.from,
        a.to == c.to,
    ensures
        k == l,
        j == m,
{
    let b = blocks[bi];
    own_arc_runs(t, nodes, blocks, a, bi, k, j);
    own_arc_runs(t, nodes, blocks, c, bi, l, m);
    fits_after(blocks, bi, bi);
    assert(b.is_block());
    shown_is_exact(b.kept_in, b.inputs.len() as usize);
    shown_is_exact(b.kept_out, b.outputs.len() as usize);
    let ins = b.kept_in.shown(b.inputs.len());
    let outs = b.kept_out.shown(b.outputs.len());
    assert(b.inputs[ins[k] as int] == b.inputs[ins[l] as int]);
    assert(b.outputs[outs[j] as int] == b.outputs[outs[m] as int]);
    if k < l {
        assert(ins[k] < ins[l]);
    } else if l < k {
        assert(ins[l] < ins[k]);
    }
    if j < m {
        assert(outs[j] < outs[m]);
    } else if m < j {
        assert(outs[m] < outs[j]);
    }
}

proof fn block_arcs_are_right(
    t: Lists,
    nodes: Seq<Placed>,
    blocks: Seq<BlockView>,
    bi: int,
    n: nat,
)
    requires
        is_page(t, blocks, nodes),
        0 <= bi < blocks.len(),
        n <= blocks[bi].kept_in.shown(blocks[bi].inputs.len()).len(),
    ensures
        are_apart(block_arcs(nodes, blocks[bi], bi, n)),
        forall|x: int|
            0 <= x < block_arcs(nodes, blocks[bi], bi, n).len() ==> is_early_arc(
                nodes,
                blocks,
                #[trigger] block_arcs(nodes, blocks[bi], bi, n)[x],
                bi,
                n as int,
            ),
        forall|k: int, j: int|
            0 <= k < n && 0 <= j < blocks[bi].kept_out.shown(blocks[bi].outputs.len()).len()
                ==> block_arcs(nodes, blocks[bi], bi, n).contains(
                #[trigger] arc_of(
                    nodes,
                    blocks[bi],
                    bi,
                    blocks[bi].kept_in.shown(blocks[bi].inputs.len())[k],
                    j,
                ),
            ),
    decreases n,
{
    if n > 0 {
        block_arcs_are_right(t, nodes, blocks, bi, (n - 1) as nat);
        let b = blocks[bi];
        let ins = b.kept_in.shown(b.inputs.len());
        let front = block_arcs(nodes, b, bi, (n - 1) as nat);
        let back = fan(nodes, b, bi, ins[n - 1]);
        let all = block_arcs(nodes, b, bi, n);
        assert forall|x: int| 0 <= x < all.len() implies is_early_arc(
            nodes,
            blocks,
            #[trigger] all[x],
            bi,
            n as int,
        ) by {
            if x < front.len() {
                assert(all[x] == front[x]);
                let (k, j) = choose|k: int, j: int| #[trigger]
                    is_own_arc(nodes, blocks, front[x], bi, k, j) && k < n - 1;
                assert(is_own_arc(nodes, blocks, all[x], bi, k, j));
            } else {
                assert(all[x] == back[x - front.len()]);
                assert(is_own_arc(nodes, blocks, all[x], bi, n - 1, x - front.len()));
            }
        }
        assert forall|x: int, y: int| 0 <= x < y < all.len() implies (#[trigger] all[x]).from != (
        #[trigger] all[y]).from || all[x].to != all[y].to by {
            if y < front.len() {
                assert(all[x] == front[x] && all[y] == front[y]);
            } else {
                assert(all[y] == back[y - front.len()]);
                assert(is_own_arc(nodes, blocks, all[y], bi, n - 1, y - front.len()));
                if x < front.len() {
                    assert(all[x] == front[x]);
                    let (k, j) = choose|k: int, j: int| #[trigger]
                        is_own_arc(nodes, blocks, front[x], bi, k, j) && k < n - 1;
                    if all[x].from == all[y].from && all[x].to == all[y].to {
                        same_ends_same_arc(
                            t,
                            nodes,
                            blocks,
                            all[x],
                            all[y],
                            bi,
                            k,
                            j,
                            n - 1,
                            y - front.len(),
                        );
                    }
                } else {
                    assert(all[x] == back[x - front.len()]);
                    assert(is_own_arc(nodes, blocks, all[x], bi, n - 1, x - front.len()));
                    if all[x].from == all[y].from && all[x].to == all[y].to {
                        same_ends_same_arc(
                            t,
                            nodes,
                            blocks,
                            all[x],
                            all[y],
                            bi,
                            n - 1,
                            x - front.len(),
                            n - 1,
                            y - front.len(),
                        );
                    }
                }
            }
        }
        assert forall|k: int, j: int|
            0 <= k < n && 0 <= j < b.kept_out.shown(b.outputs.len()).len() implies all.contains(
            #[trigger] arc_of(nodes, b, bi, ins[k], j),
        ) by {
            let a = arc_of(nodes, b, bi, ins[k], j);
            if k < n - 1 {
                let x = front.index_of(a);
                assert(all[x] == a);
            } else {
                assert(all[front.len() + j] == back[j]);
            }
        }
    }
}

spec fn is_arc_before(nodes: Seq<Placed>, blocks: Seq<BlockView>, a: Arc, count: int) -> bool {
    exists|bi: int, k: int, j: int| #[trigger]
        is_own_arc(nodes, blocks, a, bi, k, j) && bi < count
}

#[verifier::rlimit(40)]
proof fn drawn_arcs_are_right(
    g: Lists,
    t: Lists,
    nodes: Seq<Placed>,
    blocks: Seq<BlockView>,
    count: nat,
)
    requires
        linked(g, t, blocks),
        is_page(t, blocks, nodes),
        count <= blocks.len(),
    ensures
        are_apart(drawn_arcs(nodes, blocks, count)),
        forall|x: int|
            0 <= x < drawn_arcs(nodes, blocks, count).len() ==> is_arc_before(
                nodes,
                blocks,
                #[trigger] drawn_arcs(nodes, blocks, count)[x],
                count as int,
            ),
        forall|a: Arc| #[trigger]
            is_arc_before(nodes, blocks, a, count as int) ==> drawn_arcs(
                nodes,
                blocks,
                count,
            ).contains(a),
    decreases count,
{
    if count > 0 {
        drawn_arcs_are_right(g, t, nodes, blocks, (count - 1) as nat);
        let b = blocks[count - 1];
        let n = b.kept_in.shown(b.inputs.len()).len();
        block_arcs_are_right(t, nodes, blocks, count - 1, n);
        let front = drawn_arcs(nodes, blocks, (count - 1) as nat);
        let back = block_arcs(nodes, b, count - 1, n);
        let all = drawn_arcs(nodes, blocks, count);
        assert forall|x: int| 0 <= x < all.len() implies is_arc_before(
            nodes,
            blocks,
            #[trigger] all[x],
            count as int,
        ) by {
            if x < front.len() {
                assert(all[x] == front[x]);
                let (bi, k, j) = choose|bi: int, k: int, j: int| #[trigger]
                    is_own_arc(nodes, blocks, front[x], bi, k, j) && bi < count - 1;
                assert(is_own_arc(nodes, blocks, all[x], bi, k, j));
            } else {
                let y = x - front.len();
                assert(all[x] == back[y]);
                let (k, j) = choose|k: int, j: int| #[trigger]
                    is_own_arc(nodes, blocks, back[y], count - 1, k, j) && k < n;
                assert(is_own_arc(nodes, blocks, all[x], count - 1, k, j));
            }
        }
        assert forall|x: int, y: int| 0 <= x < y < all.len() implies (#[trigger] all[x]).from != (
        #[trigger] all[y]).from || all[x].to != all[y].to by {
            if y < front.len() {
                assert(all[x] == front[x] && all[y] == front[y]);
            } else if x >= front.len() {
                assert(all[x] == back[x - front.len()] && all[y] == back[y - front.len()]);
            } else {
                assert(all[x] == front[x]);
                let z = y - front.len();
                assert(all[y] == back[z]);
                let (bi, k, j) = choose|bi: int, k: int, j: int| #[trigger]
                    is_own_arc(nodes, blocks, front[x], bi, k, j) && bi < count - 1;
                let (l, m) = choose|l: int, m: int| #[trigger]
                    is_own_arc(nodes, blocks, back[z], count - 1, l, m) && l < n;
                own_arc_runs(t, nodes, blocks, all[x], bi, k, j);
                own_arc_runs(t, nodes, blocks, all[y], count - 1, l, m);
                if all[x].to == all[y].to {
                    let v = nodes[all[x].to as int].graph;
                    assert(blocks[bi].outputs.contains(v));
                    assert(blocks[count - 1].outputs.contains(v));
                    crate::walk_laws::outputs_are_of_one_block(g, t, blocks, bi, count - 1, v);
                }
            }
        }
        assert forall|a: Arc| #[trigger]
            is_arc_before(nodes, blocks, a, count as int) implies all.contains(a) by {
            let (bi, k, j) = choose|bi: int, k: int, j: int| #[trigger]
                is_own_arc(nodes, blocks, a, bi, k, j) && bi < count;
            if bi < count - 1 {
                assert(is_arc_before(nodes, blocks, a, count - 1));
                let x = front.index_of(a);
                assert(all[x] == a);
            } else {
                assert(back.contains(
                    arc_of(nodes, b, count - 1, b.kept_in.shown(b.inputs.len())[k], j),
                ));
                let x = back.index_of(a);
                assert(all[front.len() + x] == a);
            }
        }
    }
}

/// A stray goes into node `to` from one of the predecessors.
spec fn is_stray_into(nodes: Seq<Placed>, from: Seq<usize>, a: Arc, to: int, k: int) -> bool {
    &&& a.to == to
    &&& a.from < nodes.len()
    &&& from.take(k).contains(nodes[a.from as int].graph)
}

proof fn strays_into_are_right(nodes: Seq<Placed>, from: Seq<usize>, to: int, k: nat)
    requires
        once(nodes),
        nodes.len() <= u32::MAX,
        0 <= to < nodes.len(),
        ascending(from),
        k <= from.len(),
    ensures
        are_apart(strays_into(nodes, from, to, k)),
        forall|x: int|
            0 <= x < strays_into(nodes, from, to, k).len() ==> is_stray_into(
                nodes,
                from,
                #[trigger] strays_into(nodes, from, to, k)[x],
                to,
                k as int,
            ),
        forall|i: int|
            0 <= i < nodes.len() && from.take(k as int).contains((#[trigger] nodes[i]).graph)
                ==> has_arc(strays_into(nodes, from, to, k), i, to),
    decreases k,
{
    if k > 0 {
        strays_into_are_right(nodes, from, to, (k - 1) as nat);
        let front = strays_into(nodes, from, to, (k - 1) as nat);
        let all = strays_into(nodes, from, to, k);
        let some = from.take(k - 1);
        let more = from.take(k as int);
        assert(more =~= some.push(from[k - 1]));
        node_of_is_in(nodes, from[k - 1]);
        assert forall|x: int| 0 <= x < all.len() implies is_stray_into(
            nodes,
            from,
            #[trigger] all[x],
            to,
            k as int,
        ) by {
            if x < front.len() {
                assert(all[x] == front[x]);
                let y = some.index_of(nodes[front[x].from as int].graph);
                assert(more[y] == some[y]);
            } else {
                assert(more[k - 1] == from[k - 1]);
            }
        }
        assert forall|x: int, y: int| 0 <= x < y < all.len() implies (#[trigger] all[x]).from != (
        #[trigger] all[y]).from || all[x].to != all[y].to by {
            assert(all[x] == front[x]);
            if y < front.len() {
                assert(all[y] == front[y]);
            } else {
                let z = some.index_of(nodes[front[x].from as int].graph);
                assert(from[z] < from[k - 1]);
            }
        }
        assert forall|i: int|
            0 <= i < nodes.len() && more.contains((#[trigger] nodes[i]).graph) implies has_arc(
            all,
            i,
            to,
        ) by {
            let u = nodes[i].graph;
            if some.contains(u) {
                let x = choose|x: int|
                    0 <= x < front.len() && (#[trigger] front[x]).from == i && front[x].to == to;
                assert(all[x] == front[x]);
            } else {
                let y = more.index_of(u);
                if y < k - 1 {
                    assert(some[y] == u);
                }
                found_where_drawn(nodes, i);
                assert(all[all.len() - 1].from == i);
            }
        }
    }
}

/// A node is an outside input that a block made that is not drawn.
pub open spec fn is_of_an_undrawn_block(p: Placed) -> bool {
    p.role matches Role::Outside { producer, .. } && producer == Producer::Undrawn
}

spec fn is_stray_before(t: Lists, nodes: Seq<Placed>, a: Arc, count: int) -> bool {
    &&& a.to < count
    &&& a.from < nodes.len()
    &&& is_of_an_undrawn_block(nodes[a.to as int])
    &&& t[nodes[a.to as int].graph as int].contains(nodes[a.from as int].graph)
}

#[verifier::rlimit(40)]
proof fn strays_are_right(t: Lists, nodes: Seq<Placed>, count: nat)
    requires
        well_formed(t),
        once(nodes),
        nodes.len() <= u32::MAX,
        count <= nodes.len(),
        forall|k: int| 0 <= k < nodes.len() ==> (#[trigger] nodes[k]).graph < t.len(),
    ensures
        are_apart(strays(t, nodes, count)),
        forall|x: int|
            0 <= x < strays(t, nodes, count).len() ==> is_stray_before(
                t,
                nodes,
                #[trigger] strays(t, nodes, count)[x],
                count as int,
            ),
        forall|i: int, k: int|
            0 <= i < nodes.len() && 0 <= k < count && is_of_an_undrawn_block(nodes[k])
                && #[trigger] t[nodes[k].graph as int].contains(nodes[i].graph) ==> has_arc(
                strays(t, nodes, count),
                i,
                k,
            ),
    decreases count,
{
    if count > 0 {
        strays_are_right(t, nodes, (count - 1) as nat);
        let front = strays(t, nodes, (count - 1) as nat);
        let all = strays(t, nodes, count);
        let p = nodes[count - 1];
        let from = t[p.graph as int];
        assert(successor_list(from, t.len()));
        let back = if is_of_an_undrawn_block(p) {
            strays_into(nodes, from, count - 1, from.len())
        } else {
            Seq::empty()
        };
        assert(all =~= front + back);
        if is_of_an_undrawn_block(p) {
            strays_into_are_right(nodes, from, count - 1, from.len());
            assert(from.take(from.len() as int) =~= from);
        }
        assert forall|x: int| 0 <= x < all.len() implies is_stray_before(
            t,
            nodes,
            #[trigger] all[x],
            count as int,
        ) by {
            if x < front.len() {
                assert(all[x] == front[x]);
            } else {
                assert(all[x] == back[x - front.len()]);
            }
        }
        assert forall|x: int, y: int| 0 <= x < y < all.len() implies (#[trigger] all[x]).from != (
        #[trigger] all[y]).from || all[x].to != all[y].to by {
            if y < front.len() {
                assert(all[x] == front[x] && all[y] == front[y]);
            } else {
                assert(all[y] == back[y - front.len()]);
                if x < front.len() {
                    assert(all[x] == front[x]);
                } else {
                    assert(all[x] == back[x - front.len()]);
                }
            }
        }
        assert forall|i: int, k: int|
            0 <= i < nodes.len() && 0 <= k < count && is_of_an_undrawn_block(nodes[k])
                && #[trigger] t[nodes[k].graph as int].contains(
                nodes[i].graph,
            ) implies has_arc(all, i, k) by {
            if k < count - 1 {
                let x = choose|x: int|
                    0 <= x < front.len() && (#[trigger] front[x]).from == i && front[x].to == k;
                assert(all[x] == front[x]);
            } else {
                assert(from.take(from.len() as int).contains(nodes[i].graph));
                let x = choose|x: int|
                    0 <= x < back.len() && (#[trigger] back[x]).from == i && back[x].to == k;
                assert(all[front.len() + x] == back[x]);
            }
        }
    }
}

proof fn nodes_are_in_the_graph(g: Lists, t: Lists, blocks: Seq<BlockView>, nodes: Seq<Placed>)
    requires
        linked(g, t, blocks),
        is_page(t, blocks, nodes),
    ensures
        forall|k: int| 0 <= k < nodes.len() ==> (#[trigger] nodes[k]).graph < g.len(),
{
    assert forall|k: int| 0 <= k < nodes.len() implies (#[trigger] nodes[k]).graph < g.len() by {
        assert(belongs(t, blocks, nodes[k]));
        let v = nodes[k].graph;
        match nodes[k].role {
            Role::Output { block } => {
                let j = choose|j: int| #[trigger] shows_out(blocks, v, block as int, j);
                assert(complete(g, t, blocks[block as int]));
                assert(blocks[block as int].outputs[j] < g.len());
            },
            Role::Outside { block, .. } => {
                let i = choose|i: int| #[trigger] shows_in(blocks, v, block as int, i);
                assert(complete(g, t, blocks[block as int]));
                assert(blocks[block as int].inputs[i] < g.len());
            },
        }
    }
}

/// No two arcs of a drawing have the same ends. An arc into an outside input is a
/// stray, and no other is: a tree arc goes into an output from an output of the block
/// above its own, or from an outside input of its own block; a cross arc goes into an
/// output from any other node.
#[verifier::rlimit(40)]
pub proof fn an_arc_is_of_its_kind(
    g: Lists,
    t: Lists,
    blocks: Seq<BlockView>,
    report: Report,
    vertical: bool,
    x: int,
)
    requires
        well_formed(t),
        g.len() == t.len() <= usize::MAX,
        linked(g, t, blocks),
        all_blocks(blocks),
        blocks.len() <= u32::MAX,
        laid_out(g, t, blocks, report, vertical).nodes.len() <= u32::MAX,
        0 <= x < laid_out(g, t, blocks, report, vertical).arcs.len(),
    ensures
        ({
            let scene = laid_out(g, t, blocks, report, vertical);
            let a = scene.arcs[x];
            let (from, to) = (scene.nodes[a.from as int], scene.nodes[a.to as int]);
            &&& are_apart(scene.arcs)
            &&& a.from < scene.nodes.len()
            &&& a.to < scene.nodes.len()
            &&& match to.role {
                Role::Outside { .. } => a.kind == ArcKind::Stray,
                Role::Output { block } => block < blocks.len() && a.kind == if is_tree_arc(
                    from,
                    blocks[block as int],
                    block as int,
                ) {
                    ArcKind::Tree
                } else {
                    ArcKind::Cross
                },
            }
        }),
{
    let scene = laid_out(g, t, blocks, report, vertical);
    let nodes = scene.nodes;
    a_scene_is_a_page(g, t, blocks, report, vertical);
    nodes_are_in_the_graph(g, t, blocks, nodes);
    let front = drawn_arcs(nodes, blocks, blocks.len());
    let back = strays(t, nodes, nodes.len());
    drawn_arcs_are_right(g, t, nodes, blocks, blocks.len());
    strays_are_right(t, nodes, nodes.len());
    strays_are_stray(t, nodes, nodes.len());
    assert(scene.arcs == front + back);
    assert forall|y: int| 0 <= y < front.len() implies (#[trigger] front[y]).to < nodes.len()
        && nodes[front[y].to as int].role is Output by {
        let (bi, k, j) = choose|bi: int, k: int, j: int| #[trigger]
            is_own_arc(nodes, blocks, front[y], bi, k, j) && bi < blocks.len();
        own_arc_runs(t, nodes, blocks, front[y], bi, k, j);
    }
    assert forall|y: int, z: int| 0 <= y < z < scene.arcs.len() implies (
    #[trigger] scene.arcs[y]).from != (#[trigger] scene.arcs[z]).from || scene.arcs[y].to
        != scene.arcs[z].to by {
        if z < front.len() {
            assert(scene.arcs[y] == front[y] && scene.arcs[z] == front[z]);
        } else {
            assert(scene.arcs[z] == back[z - front.len()]);
            if y < front.len() {
                assert(scene.arcs[y] == front[y]);
            } else {
                assert(scene.arcs[y] == back[y - front.len()]);
            }
        }
    }
    let a = scene.arcs[x];
    if x < front.len() {
        assert(a == front[x]);
        let (bi, k, j) = choose|bi: int, k: int, j: int| #[trigger]
            is_own_arc(nodes, blocks, front[x], bi, k, j) && bi < blocks.len();
        own_arc_runs(t, nodes, blocks, a, bi, k, j);
    } else {
        assert(a == back[x - front.len()]);
    }
}

/// The drawing of a walk has an arc from one node to another exactly if the graph has
/// it: nothing is dropped, nothing is made up.
#[verifier::rlimit(40)]
pub proof fn the_arcs_are_those_of_the_graph(
    g: Lists,
    t: Lists,
    roots: Seq<usize>,
    prune: BlockPrune,
    mode: Seed,
    vertical: bool,
    i: int,
    k: int,
)
    requires
        well_formed(g),
        well_formed(t),
        g.len() == t.len() <= usize::MAX,
        transposed(g, t),
        transposed(t, g),
    ensures
        walked(g, t, roots, prune, mode, true) matches Ok(w) ==> {
            let scene = laid_out(g, t, w.blocks, w.report, vertical);
            (scene.nodes.len() <= u32::MAX && 0 <= i < scene.nodes.len() && 0 <= k
                < scene.nodes.len()) ==> (has_arc(scene.arcs, i, k)
                <==> g[scene.nodes[i].graph as int].contains(scene.nodes[k].graph))
        },
{
    if let Ok(w) = walked(g, t, roots, prune, mode, true) {
        let blocks = w.blocks;
        let scene = laid_out(g, t, blocks, w.report, vertical);
        let nodes = scene.nodes;
        if nodes.len() <= u32::MAX && 0 <= i < nodes.len() && 0 <= k < nodes.len() {
            a_walk_is_linked_and_within_its_budgets(g, t, roots, prune, mode);
            a_walk_has_blocks(g, t, roots, prune, mode);
            crate::walk_laws::found_is_running(g, t, roots, prune, mode);
            a_scene_is_a_page(g, t, blocks, w.report, vertical);
            nodes_are_in_the_graph(g, t, blocks, nodes);
            let front = drawn_arcs(nodes, blocks, blocks.len());
            let back = strays(t, nodes, nodes.len());
            drawn_arcs_are_right(g, t, nodes, blocks, blocks.len());
            strays_are_right(t, nodes, nodes.len());
            assert(scene.arcs == front + back);
            let (u, v) = (nodes[i].graph, nodes[k].graph);
            if has_arc(scene.arcs, i, k) {
                let x = choose|x: int|
                    0 <= x < scene.arcs.len() && (#[trigger] scene.arcs[x]).from == i
                        && scene.arcs[x].to == k;
                if x < front.len() {
                    assert(scene.arcs[x] == front[x]);
                    let (bi, l, j) = choose|bi: int, l: int, j: int| #[trigger]
                        is_own_arc(nodes, blocks, front[x], bi, l, j) && bi < blocks.len();
                    own_arc_runs(t, nodes, blocks, front[x], bi, l, j);
                    assert(complete(g, t, blocks[bi]));
                    let ii = blocks[bi].kept_in.shown(blocks[bi].inputs.len())[l] as int;
                    let oi = blocks[bi].kept_out.shown(blocks[bi].outputs.len())[j] as int;
                    assert(g[blocks[bi].inputs[ii] as int] == blocks[bi].outputs);
                    assert(blocks[bi].outputs[oi] == v);
                } else {
                    assert(scene.arcs[x] == back[x - front.len()]);
                    assert(t[v as int].contains(u));
                }
            }
            if g[u as int].contains(v) {
                assert(t[v as int].contains(u));
                assert(belongs(t, blocks, nodes[k]));
                match nodes[k].role {
                    Role::Output { block } => {
                        let bi = block as int;
                        let oi = choose|j: int| #[trigger] shows_out(blocks, v, bi, j);
                        assert(complete(g, t, blocks[bi]));
                        assert(t[blocks[bi].outputs[oi] as int] == blocks[bi].inputs);
                        an_input_that_is_drawn_is_kept(g, t, roots, prune, mode, nodes, i, bi);
                        let ii = choose|ii: int| #[trigger] shows_in(blocks, u, bi, ii);
                        kept_arc_is_drawn(t, nodes, blocks, i, k, bi, ii, oi);
                        let a = choose|a: Arc| #[trigger]
                            is_arc_before(nodes, blocks, a, blocks.len() as int) && a.from == i
                                && a.to == k;
                        let x = front.index_of(a);
                        assert(scene.arcs[x] == a);
                    },
                    Role::Outside { block, producer } => {
                        assert(is_of_an_undrawn_block(nodes[k]));
                        assert(has_arc(back, i, k));
                        let x = choose|x: int|
                            0 <= x < back.len() && (#[trigger] back[x]).from == i && back[x].to
                                == k;
                        assert(scene.arcs[front.len() + x] == back[x]);
                    },
                }
            }
        }
    }
}

proof fn kept_arc_is_drawn(
    t: Lists,
    nodes: Seq<Placed>,
    blocks: Seq<BlockView>,
    i: int,
    k: int,
    bi: int,
    ii: int,
    oi: int,
)
    requires
        is_page(t, blocks, nodes),
        0 <= i < nodes.len(),
        0 <= k < nodes.len(),
        shows_in(blocks, nodes[i].graph, bi, ii),
        shows_out(blocks, nodes[k].graph, bi, oi),
    ensures
        exists|a: Arc| #[trigger]
            is_arc_before(nodes, blocks, a, blocks.len() as int) && a.from == i && a.to == k,
{
    let b = blocks[bi];
    fits_after(blocks, bi, bi);
    shown_is_exact(b.kept_in, b.inputs.len() as usize);
    shown_is_exact(b.kept_out, b.outputs.len() as usize);
    let ins = b.kept_in.shown(b.inputs.len());
    let outs = b.kept_out.shown(b.outputs.len());
    assert(ins.contains(ii as usize));
    assert(outs.contains(oi as usize));
    let l = ins.index_of(ii as usize);
    let j = outs.index_of(oi as usize);
    found_where_drawn(nodes, i);
    found_where_drawn(nodes, k);
    let a = arc_of(nodes, b, bi, ins[l], j);
    assert(is_own_arc(nodes, blocks, a, bi, l, j));
    assert(is_arc_before(nodes, blocks, a, blocks.len() as int));
}

/// An input of a block that is drawn anywhere is kept by that block.
proof fn an_input_that_is_drawn_is_kept(
    g: Lists,
    t: Lists,
    roots: Seq<usize>,
    prune: BlockPrune,
    mode: Seed,
    nodes: Seq<Placed>,
    i: int,
    bi: int,
)
    requires
        well_formed(g),
        well_formed(t),
        g.len() == t.len() <= usize::MAX,
        transposed(g, t),
        walked(g, t, roots, prune, mode, true) is Ok,
        ({
            let blocks = (walked(g, t, roots, prune, mode, true)->Ok_0).blocks;
            &&& is_page(t, blocks, nodes)
            &&& 0 <= i < nodes.len()
            &&& 0 <= bi < blocks.len()
            &&& blocks[bi].inputs.contains(nodes[i].graph)
        }),
    ensures
        exists|ii: int| #[trigger]
            shows_in(
                (walked(g, t, roots, prune, mode, true)->Ok_0).blocks,
                nodes[i].graph,
                bi,
                ii,
            ),
{
    let st = found(g, t, roots, prune, mode, true)->Ok_0;
    let blocks = (walked(g, t, roots, prune, mode, true)->Ok_0).blocks;
    let end = unhidden(st.blocks);
    let u = nodes[i].graph;
    let ii = blocks[bi].inputs.index_of(u);
    a_walk_is_linked_and_within_its_budgets(g, t, roots, prune, mode);
    linked_blocks_are_blocks(g, t, prune, st.blocks);
    linked_blocks_are_apart(g, t, st.blocks);
    linked_blocks_are_apart(g, t, blocks);
    fits_after(blocks, bi, bi);
    assert(belongs(t, blocks, nodes[i]));
    match nodes[i].role {
        Role::Output { block } => {
            let q = block as int;
            let j = choose|j: int| #[trigger] shows_out(blocks, u, q, j);
            fits_after(blocks, q, q);
            assert(st.blocks[q].outputs == blocks[q].outputs);
            assert(st.blocks[bi].inputs == blocks[bi].inputs);
            nothing_shown_is_hidden(st.blocks, q, j as usize, bi, ii as usize);
            assert(end[q].kept_out == blocks[q].kept_out);
            assert(end[bi].kept_in == blocks[bi].kept_in);
            assert(shows_in(blocks, u, bi, ii));
        },
        Role::Outside { block, .. } => {
            let x = choose|x: int| #[trigger] shows_in(blocks, u, block as int, x);
            assert(blocks[block as int].inputs.contains(u));
            assert(shows_in(blocks, u, bi, x));
        },
    }
}

} // verus!
