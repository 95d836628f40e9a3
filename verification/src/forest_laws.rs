//! What holds of every forest grown from a graph, and of every part of one.

use vstd::prelude::*;

use crate::forest::{
    are_tops, bare, both_ends, draw_all, drawn_under, follow, follow_all, forest_with_hung_leaf,
    forest_with_leaf, fresh_of, hung, leaf, nothing_drawn, opened, opens, planted, planted_root, rooted_at, sampled, spread, spread_rooted,
    swept, first_missing, Growth, NodeView, PruneView, Sampling,
};
use crate::graph::{successor_list, well_formed, Lists};
use crate::scene::{child_at, is_child, is_forest};
use crate::settle::bounded_unique;

verus! {

/// The tree is a drawing of what was reached: every graph node reached has one
/// tree node, every tree node is that of one graph node, and every child hangs
/// under a node that has an arc to it.
pub open spec fn faithful(g: Lists, nodes: Seq<NodeView>, ids: Map<usize, usize>) -> bool {
    &&& forall|v: usize| #[trigger]
        ids.contains_key(v) ==> v < g.len() && ids[v] < nodes.len() && nodes[ids[v] as int].graph
            == Some(v)
    &&& forall|i: int|
        0 <= i < nodes.len() ==> ((#[trigger] nodes[i]).graph matches Some(v) && ids.contains_key(v)
            && ids[v] == i)
    &&& forall|p: int, k: int|
        0 <= p < nodes.len() && 0 <= k < nodes[p].children.len() ==> {
            let c = #[trigger] nodes[p].children[k];
            c < nodes.len() && is_arc(g, nodes[p].graph, nodes[c as int].graph)
        }
    &&& ids.dom().finite()
    &&& ids.len() == nodes.len()
}

/// The graph has an arc from the one to the other.
pub open spec fn is_arc(g: Lists, u: Option<usize>, w: Option<usize>) -> bool {
    u is Some && w is Some && u->0 < g.len() && g[u->0 as int].contains(w->0)
}

/// Tree node `i` is one of the roots, or hangs under a node before it.
pub open spec fn anchored(nodes: Seq<NodeView>, roots: Seq<usize>, i: int) -> bool {
    roots.contains(i as usize) || exists|p: int|
        0 <= p < i && #[trigger] is_child(nodes, p, i as usize)
}

/// The tree hangs together: it is a forest of these roots, and every node of it
/// is one of them or hangs under a node before it.
pub open spec fn hangs_together(nodes: Seq<NodeView>, roots: Seq<usize>) -> bool {
    &&& is_forest(nodes)
    &&& are_tops(nodes, roots)
    &&& forall|i: int| 0 <= i < nodes.len() ==> #[trigger] anchored(nodes, roots, i)
}

pub(crate) proof fn hangs_with_root(nodes: Seq<NodeView>, roots: Seq<usize>, v: usize)
    requires
        hangs_together(nodes, roots),
        nodes.len() <= usize::MAX,
    ensures
        hangs_together(nodes.push(leaf(v)), roots.push(nodes.len() as usize)),
{
    forest_with_leaf(nodes, roots, v);
    let after = nodes.push(leaf(v));
    let id = nodes.len() as usize;
    let more = roots.push(id);
    assert forall|i: int| 0 <= i < after.len() implies #[trigger] anchored(after, more, i) by {
        if i < nodes.len() {
            assert(anchored(nodes, roots, i));
            if roots.contains(i as usize) {
                assert(more[roots.index_of(i as usize)] == i as usize);
            } else {
                let p = choose|p: int| 0 <= p < i && #[trigger] is_child(nodes, p, i as usize);
                let k = choose|k: int| #[trigger] child_at(nodes, p, k, i as usize);
                assert(child_at(after, p, k, i as usize));
                assert(is_child(after, p, i as usize));
            }
        } else {
            assert(more[roots.len() as int] == id);
        }
    }
}

proof fn hangs_with_child(nodes: Seq<NodeView>, roots: Seq<usize>, parent: int, w: usize)
    requires
        hangs_together(nodes, roots),
        0 <= parent < nodes.len() <= usize::MAX,
    ensures
        hangs_together(hung(nodes.push(leaf(w)), parent, nodes.len() as usize), roots),
{
    forest_with_hung_leaf(nodes, roots, parent, w);
    let id = nodes.len() as usize;
    let after = hung(nodes.push(leaf(w)), parent, id);
    assert forall|i: int| 0 <= i < after.len() implies #[trigger] anchored(after, roots, i) by {
        if i < nodes.len() {
            assert(anchored(nodes, roots, i));
            if !roots.contains(i as usize) {
                let p = choose|p: int| 0 <= p < i && #[trigger] is_child(nodes, p, i as usize);
                let k = choose|k: int| #[trigger] child_at(nodes, p, k, i as usize);
                assert(child_at(after, p, k, i as usize));
                assert(is_child(after, p, i as usize));
            }
        } else {
            assert(child_at(after, parent, nodes[parent].children.len() as int, id));
            assert(is_child(after, parent, i as usize));
        }
    }
}

/// How many arcs the tree draws: a child is an arc.
pub open spec fn arcs_drawn(nodes: Seq<NodeView>) -> nat
    decreases nodes.len(),
{
    if nodes.len() == 0 {
        0
    } else {
        arcs_drawn(nodes.drop_last()) + nodes.last().children.len()
    }
}

/// How many arcs leave the first `n` nodes that were reached.
pub open spec fn arcs_reached(g: Lists, ids: Map<usize, usize>, n: nat) -> nat
    decreases n,
{
    if n == 0 {
        0
    } else {
        arcs_reached(g, ids, (n - 1) as nat) + if ids.contains_key((n - 1) as usize) {
            g[n - 1].len()
        } else {
            0
        }
    }
}

/// How many arcs a graph has.
pub open spec fn arc_count(g: Lists) -> nat
    decreases g.len(),
{
    if g.len() == 0 {
        0
    } else {
        arc_count(g.drop_last()) + g.last().len()
    }
}

/// How many arcs leave those of the queue that were not looked at.
pub open spec fn arcs_pending(g: Lists, queue: Seq<usize>, head: int) -> nat
    decreases queue.len() - head,
{
    if head >= queue.len() {
        0
    } else {
        g[queue[head] as int].len() + arcs_pending(g, queue, head + 1)
    }
}

pub(crate) proof fn few_nodes(g: Lists, nodes: Seq<NodeView>, ids: Map<usize, usize>)
    requires
        faithful(g, nodes, ids),
        g.len() <= usize::MAX,
    ensures
        nodes.len() <= g.len(),
{
    let named = Seq::new(nodes.len(), |i: int| nodes[i].graph->0);
    assert forall|i: int, j: int|
        0 <= i < named.len() && 0 <= j < named.len() && i != j implies named[i] != named[j] by {
        assert(nodes[i].graph matches Some(v) && ids[v] == i);
        assert(nodes[j].graph matches Some(v) && ids[v] == j);
    }
    assert forall|x: int| #![trigger named[x]] 0 <= x < named.len() implies named[x]
        < g.len() as usize by {
        assert(nodes[x].graph matches Some(v) && ids.contains_key(v));
    }
    bounded_unique(named, g.len() as usize);
}

pub(crate) proof fn faithful_root(g: Lists, nodes: Seq<NodeView>, ids: Map<usize, usize>, v: usize)
    requires
        faithful(g, nodes, ids),
        !ids.contains_key(v),
        v < g.len() <= usize::MAX,
    ensures
        faithful(g, nodes.push(leaf(v)), ids.insert(v, nodes.len() as usize)),
        arcs_drawn(nodes.push(leaf(v))) == arcs_drawn(nodes),
{
    few_nodes(g, nodes, ids);
    let after = nodes.push(leaf(v));
    let more = ids.insert(v, nodes.len() as usize);
    assert(after.drop_last() =~= nodes);
    assert forall|u: usize| #[trigger] more.contains_key(u) implies u < g.len() && more[u]
        < after.len() && after[more[u] as int].graph == Some(u) by {
        if u != v {
            assert(ids.contains_key(u));
        }
    }
    assert forall|i: int| 0 <= i < after.len() implies ((#[trigger] after[i]).graph matches Some(u)
        && more.contains_key(u) && more[u] == i) by {
        if i < nodes.len() {
            assert(after[i] == nodes[i]);
            assert(nodes[i].graph matches Some(u) && ids.contains_key(u) && u != v);
        }
    }
    assert forall|p: int, k: int|
        0 <= p < after.len() && 0 <= k < after[p].children.len() implies {
        let c = #[trigger] after[p].children[k];
        c < after.len() && is_arc(g, after[p].graph, after[c as int].graph)
    } by {
        assert(after[p] == nodes[p]);
        assert(nodes[p].children[k] < nodes.len());
    }
    assert(more.dom() =~= ids.dom().insert(v));
}

pub(crate) proof fn arcs_drawn_hung(nodes: Seq<NodeView>, parent: int, child: usize)
    requires
        0 <= parent < nodes.len(),
    ensures
        arcs_drawn(hung(nodes, parent, child)) == arcs_drawn(nodes) + 1,
    decreases nodes.len(),
{
    let after = hung(nodes, parent, child);
    if parent == nodes.len() - 1 {
        assert(after.drop_last() =~= nodes.drop_last());
    } else {
        assert(after.drop_last() =~= hung(nodes.drop_last(), parent, child));
        arcs_drawn_hung(nodes.drop_last(), parent, child);
    }
}

proof fn faithful_child(g: Lists, nodes: Seq<NodeView>, ids: Map<usize, usize>, u: usize, w: usize)
    requires
        faithful(g, nodes, ids),
        ids.contains_key(u),
        g[u as int].contains(w),
        !ids.contains_key(w),
        w < g.len() <= usize::MAX,
    ensures
        ({
            let id = nodes.len() as usize;
            let after = hung(nodes.push(leaf(w)), ids[u] as int, id);
            &&& faithful(g, after, ids.insert(w, id))
            &&& arcs_drawn(after) == arcs_drawn(nodes) + 1
        }),
{
    few_nodes(g, nodes, ids);
    faithful_root(g, nodes, ids, w);
    let id = nodes.len() as usize;
    let longer = nodes.push(leaf(w));
    let at = ids[u] as int;
    let after = hung(longer, at, id);
    let more = ids.insert(w, id);
    arcs_drawn_hung(longer, at, id);
    assert(nodes[at].graph == Some(u));
    assert forall|v: usize| #[trigger] more.contains_key(v) implies v < g.len() && more[v]
        < after.len() && after[more[v] as int].graph == Some(v) by {
        assert(longer[more[v] as int].graph == Some(v));
    }
    assert forall|i: int| 0 <= i < after.len() implies ((#[trigger] after[i]).graph matches Some(v)
        && more.contains_key(v) && more[v] == i) by {
        assert(longer[i].graph matches Some(v) && more.contains_key(v) && more[v] == i);
    }
    assert forall|p: int, k: int|
        0 <= p < after.len() && 0 <= k < after[p].children.len() implies {
        let c = #[trigger] after[p].children[k];
        c < after.len() && is_arc(g, after[p].graph, after[c as int].graph)
    } by {
        if p == at && k == longer[at].children.len() {
            assert(after[p].children[k] == id);
            assert(longer[id as int].graph == Some(w));
        } else {
            assert(after[p].children[k] == longer[p].children[k]);
            let c = longer[p].children[k];
            assert(c < longer.len() && is_arc(g, longer[p].graph, longer[c as int].graph));
        }
    }
}

pub(crate) proof fn reached_insert(g: Lists, ids: Map<usize, usize>, w: usize, id: usize, n: nat)
    requires
        !ids.contains_key(w),
        n <= usize::MAX + 1,
    ensures
        arcs_reached(g, ids.insert(w, id), n) == arcs_reached(g, ids, n) + if w < n {
            g[w as int].len()
        } else {
            0
        },
    decreases n,
{
    if n > 0 {
        reached_insert(g, ids, w, id, (n - 1) as nat);
    }
}

proof fn pending_push(g: Lists, queue: Seq<usize>, head: int, w: usize)
    requires
        0 <= head <= queue.len(),
    ensures
        arcs_pending(g, queue.push(w), head) == arcs_pending(g, queue, head) + g[w as int].len(),
    decreases queue.len() - head,
{
    if head < queue.len() {
        pending_push(g, queue, head + 1, w);
    } else {
        assert(arcs_pending(g, queue.push(w), head + 1) == 0);
    }
}

/// A forest under way, with `rest` arcs of the node in hand still to follow and
/// the queue looked at up to `head`: every arc of what was reached is drawn,
/// dropped or still to come.
pub(crate) open spec fn under_way(g: Lists, st: Growth, roots: Seq<usize>, rest: nat, head: int) -> bool {
    &&& faithful(g, st.nodes, st.ids)
    &&& hangs_together(st.nodes, roots)
    &&& st.queue.no_duplicates()
    &&& forall|x: int|
        #![trigger st.queue[x]]
        0 <= x < st.queue.len() ==> st.ids.contains_key(st.queue[x])
    &&& arcs_drawn(st.nodes) + st.dropped + rest + arcs_pending(g, st.queue, head) == arcs_reached(
        g,
        st.ids,
        g.len(),
    )
}

pub(crate) proof fn follow_keeps(g: Lists, st: Growth, roots: Seq<usize>, u: usize, w: usize, rest: nat, head: int)
    requires
        under_way(g, st, roots, rest + 1, head),
        well_formed(g),
        g.len() <= usize::MAX,
        st.ids.contains_key(u),
        g[u as int].contains(w),
        0 <= head <= st.queue.len(),
    ensures
        under_way(g, follow(st, u, w), roots, rest, head),
        follow(st, u, w).ids.contains_key(w),
        forall|v: usize| #[trigger]
            st.ids.contains_key(v) ==> follow(st, u, w).ids.contains_key(v),
        st.queue.len() <= follow(st, u, w).queue.len(),
        forall|x: int|
            0 <= x < st.queue.len() ==> follow(st, u, w).queue[x] == #[trigger] st.queue[x],
{
    assert(successor_list(g[u as int], g.len()));
    assert(w < g.len());
    let next = follow(st, u, w);
    if !st.ids.contains_key(w) {
        few_nodes(g, st.nodes, st.ids);
        faithful_child(g, st.nodes, st.ids, u, w);
        hangs_with_child(st.nodes, roots, st.ids[u] as int, w);
        reached_insert(g, st.ids, w, st.nodes.len() as usize, g.len());
        pending_push(g, st.queue, head, w);
        assert forall|x: int| #![trigger next.queue[x]] 0 <= x < next.queue.len() implies next.ids.contains_key(
        next.queue[x]) by {
            if x < st.queue.len() {
                assert(next.queue[x] == st.queue[x]);
            }
        }
        assert(!st.queue.contains(w)) by {
            if st.queue.contains(w) {
                let x = st.queue.index_of(w);
                assert(st.ids.contains_key(st.queue[x]));
            }
        }
    }
}

proof fn follow_all_keeps(g: Lists, st: Growth, roots: Seq<usize>, u: usize, k: int, head: int)
    requires
        0 <= k <= g[u as int].len(),
        under_way(g, st, roots, (g[u as int].len() - k) as nat, head),
        well_formed(g),
        g.len() <= usize::MAX,
        st.ids.contains_key(u),
        0 <= head <= st.queue.len(),
    ensures
        under_way(g, follow_all(g, st, u, k), roots, 0, head),
        forall|v: usize| #[trigger]
            st.ids.contains_key(v) ==> follow_all(g, st, u, k).ids.contains_key(v),
        st.queue.len() <= follow_all(g, st, u, k).queue.len(),
        forall|x: int|
            0 <= x < st.queue.len() ==> follow_all(g, st, u, k).queue[x] == #[trigger] st.queue[x],
    decreases g[u as int].len() - k,
{
    if k < g[u as int].len() {
        let w = g[u as int][k];
        assert(g[u as int].contains(w));
        follow_keeps(g, st, roots, u, w, (g[u as int].len() - k - 1) as nat, head);
        let next = follow(st, u, w);
        follow_all_keeps(g, next, roots, u, k + 1, head);
    }
}

pub(crate) proof fn queue_fits(g: Lists, st: Growth)
    requires
        faithful(g, st.nodes, st.ids),
        st.queue.no_duplicates(),
        forall|x: int|
            #![trigger st.queue[x]]
            0 <= x < st.queue.len() ==> st.ids.contains_key(st.queue[x]),
        g.len() <= usize::MAX,
    ensures
        st.queue.len() <= g.len(),
{
    assert forall|x: int| #![trigger st.queue[x]] 0 <= x < st.queue.len() implies st.queue[x]
        < g.len() as usize by {
        assert(st.ids.contains_key(st.queue[x]));
    }
    bounded_unique(st.queue, g.len() as usize);
}

proof fn spread_keeps(g: Lists, st: Growth, roots: Seq<usize>, head: int)
    requires
        under_way(g, st, roots, 0, head),
        well_formed(g),
        g.len() <= usize::MAX,
        0 <= head <= st.queue.len(),
    ensures
        under_way(g, spread(g, st, head), roots, 0, spread(g, st, head).queue.len() as int),
        forall|v: usize| #[trigger]
            st.ids.contains_key(v) ==> spread(g, st, head).ids.contains_key(v),
    decreases g.len() - head,
{
    queue_fits(g, st);
    if head < st.queue.len() {
        let u = st.queue[head];
        assert(st.ids.contains_key(u));
        follow_all_keeps(g, st, roots, u, 0, head + 1);
        let next = follow_all(g, st, u, 0);
        spread_keeps(g, next, roots, head + 1);
    }
}

proof fn swept_keeps(g: Lists, st: Growth, roots: Seq<usize>, v: int)
    requires
        under_way(g, st, roots, 0, st.queue.len() as int),
        well_formed(g),
        g.len() <= usize::MAX,
        0 <= v <= g.len(),
        forall|u: usize| u < v ==> #[trigger] st.ids.contains_key(u),
    ensures
        ({
            let (end, all) = swept(g, st, roots, v);
            &&& under_way(g, end, all, 0, end.queue.len() as int)
            &&& forall|u: usize| u < g.len() ==> #[trigger] end.ids.contains_key(u)
        }),
    decreases g.len() - v,
{
    if v < g.len() {
        if st.ids.contains_key(v as usize) {
            swept_keeps(g, st, roots, v + 1);
        } else {
            let start = planted(st, v as usize);
            few_nodes(g, st.nodes, st.ids);
            faithful_root(g, st.nodes, st.ids, v as usize);
            hangs_with_root(st.nodes, roots, v as usize);
            let more = roots.push(st.nodes.len() as usize);
            reached_insert(g, st.ids, v as usize, st.nodes.len() as usize, g.len());
            assert(arcs_pending(g, st.queue, st.queue.len() as int) == 0);
            assert(arcs_pending(g, start.queue, 1) == 0);
            assert(arcs_pending(g, start.queue, 0) == g[v].len());
            spread_keeps(g, start, more, 0);
            let next = spread(g, start, 0);
            assert forall|u: usize| u < v + 1 implies #[trigger] next.ids.contains_key(u) by {
                assert(start.ids.contains_key(u));
            }
            swept_keeps(g, next, more, v + 1);
        }
    }
}

proof fn all_reached(g: Lists, ids: Map<usize, usize>, n: nat)
    requires
        n <= g.len() <= usize::MAX,
        forall|u: usize| u < g.len() ==> #[trigger] ids.contains_key(u),
    ensures
        arcs_reached(g, ids, n) == arc_count(g.take(n as int)),
    decreases n,
{
    if n > 0 {
        all_reached(g, ids, (n - 1) as nat);
        assert(g.take(n as int).drop_last() =~= g.take(n - 1));
        assert(ids.contains_key((n - 1) as usize));
    }
}

pub(crate) proof fn nothing_reached(g: Lists, n: nat)
    ensures
        arcs_reached(g, Map::<usize, usize>::empty(), n) == 0,
    decreases n,
{
    if n > 0 {
        nothing_reached(g, (n - 1) as nat);
    }
}

/// The forest of a graph draws every node of it once, under a node that has an
/// arc to it or under none, and every arc of the graph is drawn or counted as
/// dropped. Every node of it is a root or hangs under a node before it.
pub proof fn a_forest_is_the_whole_graph(g: Lists)
    requires
        well_formed(g),
        g.len() <= usize::MAX,
    ensures
        ({
            let (st, roots) = swept(g, bare(Seq::empty()), Seq::empty(), 0);
            &&& faithful(g, st.nodes, st.ids)
            &&& hangs_together(st.nodes, roots)
            &&& st.nodes.len() == g.len()
            &&& forall|v: usize| v < g.len() ==> #[trigger] st.ids.contains_key(v)
            &&& arcs_drawn(st.nodes) + st.dropped == arc_count(g)
        }),
{
    let start = bare(Seq::empty());
    nothing_reached(g, g.len());
    assert(arcs_pending(g, start.queue, 0) == 0);
    swept_keeps(g, start, Seq::empty(), 0);
    let (st, _) = swept(g, start, Seq::empty(), 0);
    all_reached(g, st.ids, g.len());
    assert(g.take(g.len() as int) =~= g);
    assert(arcs_pending(g, st.queue, st.queue.len() as int) == 0);
    few_nodes(g, st.nodes, st.ids);
    // As many tree nodes as graph nodes: the numbers below `g.len()` are keys.
    let all = Seq::new(g.len(), |i: int| i as usize);
    assert(all.no_duplicates());
    all.unique_seq_to_set();
    assert(all.to_set().subset_of(st.ids.dom())) by {
        assert forall|x: usize| all.to_set().contains(x) implies st.ids.dom().contains(x) by {
            let k = all.index_of(x);
            assert(all[k] == x);
            assert(st.ids.contains_key(x));
        }
    }
    vstd::set_lib::lemma_len_subset(all.to_set(), st.ids.dom());
}

/// Every successor of a node is drawn.
pub open spec fn all_drawn(g: Lists, ids: Map<usize, usize>, v: usize) -> bool {
    forall|w: usize| #[trigger] g[v as int].contains(w) ==> ids.contains_key(w)
}

/// The node waits in the queue, from `head` on.
pub open spec fn waits(queue: Seq<(usize, usize)>, head: int, v: usize) -> bool {
    exists|x: int| head <= x < queue.len() && (#[trigger] queue[x]).0 == v
}

/// A drawing of chosen subtrees under way, the queue looked at up to `head`: it
/// is a drawing of what was reached, within its budget, and every node of it is
/// reported as cut, has all of its successors drawn, or still has its turn to
/// come.
pub(crate) open spec fn sampling(g: Lists, max_nodes: usize, st: Sampling, placed: Seq<usize>, head: int) -> bool {
    &&& faithful(g, st.nodes, st.ids)
    &&& hangs_together(st.nodes, placed)
    &&& st.nodes.len() <= max_nodes
    &&& forall|x: int|
        0 <= x < st.queue.len() ==> st.ids.contains_key((#[trigger] st.queue[x]).0)
    &&& forall|x: int, y: int|
        0 <= x < y < st.queue.len() ==> (#[trigger] st.queue[x]).0 != (#[trigger] st.queue[y]).0
    &&& forall|v: usize| #[trigger]
        st.ids.contains_key(v) ==> st.truncated.contains(v) || all_drawn(g, st.ids, v) || waits(
            st.queue,
            head,
            v,
        )
}

/// The same but for the node `u` in hand, of which nothing is said yet.
pub(crate) open spec fn sampling_but(g: Lists, max_nodes: usize, st: Sampling, placed: Seq<usize>, head: int, u: usize) -> bool {
    &&& faithful(g, st.nodes, st.ids)
    &&& hangs_together(st.nodes, placed)
    &&& st.nodes.len() <= max_nodes
    &&& forall|x: int|
        0 <= x < st.queue.len() ==> st.ids.contains_key((#[trigger] st.queue[x]).0)
    &&& forall|x: int, y: int|
        0 <= x < y < st.queue.len() ==> (#[trigger] st.queue[x]).0 != (#[trigger] st.queue[y]).0
    &&& forall|v: usize| #[trigger]
        st.ids.contains_key(v) ==> v == u || st.truncated.contains(v) || all_drawn(g, st.ids, v)
            || waits(st.queue, head, v)
}

pub(crate) proof fn drawn_under_keeps(
    g: Lists,
    max_nodes: usize,
    st: Sampling,
    placed: Seq<usize>,
    head: int,
    u: usize,
    level: usize,
    w: usize,
)
    requires
        sampling_but(g, max_nodes, st, placed, head, u),
        st.ids.len() < max_nodes,
        st.ids.contains_key(u),
        g[u as int].contains(w),
        !st.ids.contains_key(w),
        w < g.len() <= usize::MAX,
        0 <= head <= st.queue.len(),
    ensures
        sampling_but(g, max_nodes, drawn_under(st, u, level, w), placed, head, u),
{
    let next = drawn_under(st, u, level, w);
    few_nodes(g, st.nodes, st.ids);
    faithful_child(g, st.nodes, st.ids, u, w);
    hangs_with_child(st.nodes, placed, st.ids[u] as int, w);
    assert forall|x: int| 0 <= x < next.queue.len() implies next.ids.contains_key(
        (#[trigger] next.queue[x]).0,
    ) by {
        if x < st.queue.len() {
            assert(next.queue[x] == st.queue[x]);
        }
    }
    assert forall|x: int, y: int| 0 <= x < y < next.queue.len() implies (#[trigger] next.queue[x]).0
        != (#[trigger] next.queue[y]).0 by {
        assert(next.queue[x] == st.queue[x]);
        if y < st.queue.len() {
            assert(next.queue[y] == st.queue[y]);
        }
    }
    assert forall|v: usize| #[trigger] next.ids.contains_key(v) implies v == u
        || next.truncated.contains(v) || all_drawn(g, next.ids, v) || waits(
        next.queue,
        head,
        v,
    ) by {
        if v == w {
            assert(next.queue[st.queue.len() as int].0 == w);
        } else {
            assert(st.ids.contains_key(v));
            if waits(st.queue, head, v) {
                let x = choose|x: int| head <= x < st.queue.len() && (#[trigger] st.queue[x]).0 == v;
                assert(next.queue[x] == st.queue[x]);
            }
        }
    }
}

proof fn draw_all_keeps(
    g: Lists,
    max_nodes: usize,
    st: Sampling,
    placed: Seq<usize>,
    head: int,
    u: usize,
    level: usize,
    chosen: Seq<usize>,
    k: int,
)
    requires
        sampling_but(g, max_nodes, st, placed, head, u),
        st.ids.contains_key(u),
        g.len() <= usize::MAX,
        0 <= head <= st.queue.len(),
        0 <= k <= chosen.len(),
        chosen.no_duplicates(),
        forall|i: int|
            #![trigger chosen[i]]
            0 <= i < chosen.len() ==> g[u as int].contains(chosen[i]) && chosen[i] < g.len(),
        forall|i: int|
            #![trigger chosen[i]]
            k <= i < chosen.len() ==> !st.ids.contains_key(chosen[i]),
    ensures
        ({
            let end = draw_all(max_nodes, st, u, level, chosen, k);
            &&& sampling_but(g, max_nodes, end, placed, head, u)
            &&& end.truncated.contains(u) || forall|i: int|
                #![trigger chosen[i]]
                k <= i < chosen.len() ==> end.ids.contains_key(chosen[i])
            &&& forall|v: usize| #[trigger] st.ids.contains_key(v) ==> end.ids.contains_key(v)
            &&& forall|v: usize| #[trigger] st.truncated.contains(v) ==> end.truncated.contains(v)
            &&& st.queue.len() <= end.queue.len()
            &&& end.dropped == st.dropped
        }),
    decreases chosen.len() - k,
{
    if k < chosen.len() {
        if st.ids.len() >= max_nodes {
            let end = Sampling { truncated: st.truncated.insert(u), ..st };
            assert(draw_all(max_nodes, st, u, level, chosen, k) == end);
        } else {
            let w = chosen[k];
            drawn_under_keeps(g, max_nodes, st, placed, head, u, level, w);
            let next = drawn_under(st, u, level, w);
            draw_all_keeps(g, max_nodes, next, placed, head, u, level, chosen, k + 1);
            let end = draw_all(max_nodes, next, u, level, chosen, k + 1);
            assert(next.ids.contains_key(w));
            assert forall|v: usize| #[trigger] st.ids.contains_key(v) implies end.ids.contains_key(
                v,
            ) by {
                assert(next.ids.contains_key(v));
            }
            if !end.truncated.contains(u) {
                assert forall|i: int|
                    #![trigger chosen[i]]
                    k <= i < chosen.len() implies end.ids.contains_key(chosen[i]) by {
                    if i == k {
                        assert(end.ids.contains_key(w));
                    }
                }
            }
        }
    }
}

/// Those of a list that are not drawn yet are some of it, once each, and the
/// others are drawn.
pub(crate) proof fn fresh_is_exact(ids: Map<usize, usize>, s: Seq<usize>)
    requires
        s.no_duplicates(),
    ensures
        fresh_of(ids, s).no_duplicates(),
        fresh_of(ids, s).len() <= s.len(),
        forall|i: int|
            #![trigger fresh_of(ids, s)[i]]
            0 <= i < fresh_of(ids, s).len() ==> s.contains(fresh_of(ids, s)[i])
                && !ids.contains_key(fresh_of(ids, s)[i]),
        forall|w: usize| #[trigger]
            s.contains(w) ==> ids.contains_key(w) || fresh_of(ids, s).contains(w),
    decreases s.len(),
{
    if s.len() > 0 {
        let f = s.drop_last();
        let x = s.last();
        fresh_is_exact(ids, f);
        let front = fresh_of(ids, f);
        let all = fresh_of(ids, s);
        assert forall|i: int| #![trigger all[i]] 0 <= i < all.len() implies s.contains(all[i])
            && !ids.contains_key(all[i]) by {
            if i < front.len() {
                assert(all[i] == front[i]);
                let k = f.index_of(front[i]);
                assert(s[k] == f[k]);
            } else {
                assert(s[s.len() - 1] == x);
            }
        }
        assert forall|w: usize| #[trigger] s.contains(w) implies ids.contains_key(w)
            || all.contains(w) by {
            let k = s.index_of(w);
            if k < f.len() {
                assert(f[k] == w);
                assert(f.contains(w));
                if !ids.contains_key(w) {
                    let j = front.index_of(w);
                    assert(all[j] == w);
                }
            } else if !ids.contains_key(w) {
                assert(all[front.len() as int] == w);
            }
        }
        assert(all.no_duplicates()) by {
            assert forall|i: int, j: int|
                0 <= i < all.len() && 0 <= j < all.len() && i != j implies all[i] != all[j] by {
                if i < front.len() && j < front.len() {
                    assert(front[i] != front[j]);
                } else {
                    let small = if i < front.len() {
                        i
                    } else {
                        j
                    };
                    if small < front.len() && all[i] == all[j] {
                        assert(f.contains(front[small]));
                        let k = f.index_of(front[small]);
                        assert(s[k] == x && s[s.len() - 1] == x);
                    }
                }
            }
        }
    }
}

/// Both ends of a fan are some of it, once each.
pub(crate) proof fn ends_are_some(fan: Seq<usize>, fanout: Option<usize>)
    requires
        fan.no_duplicates(),
    ensures
        both_ends(fan, fanout).no_duplicates(),
        forall|i: int|
            #![trigger both_ends(fan, fanout)[i]]
            0 <= i < both_ends(fan, fanout).len() ==> fan.contains(both_ends(fan, fanout)[i]),
        (fanout matches Some(k) ==> fan.len() <= k) ==> both_ends(fan, fanout) == fan,
        fanout matches Some(k) ==> both_ends(fan, fanout).len() <= k,
{
    let ends = both_ends(fan, fanout);
    if fanout matches Some(k) && fan.len() > k {
        let k = fanout->0 as int;
        let a = (k + 1) / 2;
        let b = fan.len() - k / 2;
        assert forall|i: int| #![trigger ends[i]] 0 <= i < ends.len() implies fan.contains(
            ends[i],
        ) by {
            if i < a {
                assert(ends[i] == fan[i]);
            } else {
                assert(ends[i] == fan[i - a + b]);
            }
        }
        assert forall|i: int, j: int|
            0 <= i < ends.len() && 0 <= j < ends.len() && i != j implies ends[i] != ends[j] by {
            let x = if i < a {
                i
            } else {
                i - a + b
            };
            let y = if j < a {
                j
            } else {
                j - a + b
            };
            assert(ends[i] == fan[x] && ends[j] == fan[y] && x != y);
        }
    } else {
        assert forall|i: int| #![trigger ends[i]] 0 <= i < ends.len() implies fan.contains(
            ends[i],
        ) by {
            assert(fan[i] == ends[i]);
        }
    }
}

pub(crate) proof fn ascending_is_unique(s: Seq<usize>)
    requires
        crate::kept::ascending(s),
    ensures
        s.no_duplicates(),
{
    assert forall|i: int, j: int|
        0 <= i < s.len() && 0 <= j < s.len() && i != j implies s[i] != s[j] by {
        if i < j {
            assert(s[i] < s[j]);
        } else {
            assert(s[j] < s[i]);
        }
    }
}

pub(crate) proof fn opened_keeps(
    g: Lists,
    prune: PruneView,
    st: Sampling,
    placed: Seq<usize>,
    head: int,
    u: usize,
    level: usize,
)
    requires
        sampling(g, prune.max_nodes, st, placed, head),
        well_formed(g),
        g.len() <= usize::MAX,
        0 <= head < st.queue.len(),
        st.queue[head] == (u, level),
    ensures
        ({
            let next = opened(g, prune, st, u, level);
            &&& sampling(g, prune.max_nodes, next, placed, head + 1)
            &&& forall|v: usize| #[trigger] st.ids.contains_key(v) ==> next.ids.contains_key(v)
            &&& st.queue.len() <= next.queue.len()
        }),
{
    let all = g[u as int];
    assert(st.ids.contains_key(st.queue[head].0));
    assert(successor_list(all, g.len()));
    let next = opened(g, prune, st, u, level);
    assert forall|v: usize| #[trigger] st.ids.contains_key(v) implies v == u
        || st.truncated.contains(v) || all_drawn(g, st.ids, v) || waits(st.queue, head + 1, v) by {
        if waits(st.queue, head, v) {
            let x = choose|x: int| head <= x < st.queue.len() && (#[trigger] st.queue[x]).0 == v;
            if x == head {
                assert(v == u);
            }
        }
    }
    if !opens(prune, u, level) {
        if all.len() == 0 {
            assert(all_drawn(g, st.ids, u));
        }
    } else {
        let fresh = fresh_of(st.ids, all);
        ascending_is_unique(all);
        fresh_is_exact(st.ids, all);
        let cut = prune.fanout matches Some(k) && fresh.len() > k;
        let start = Sampling {
            dropped: (st.dropped + all.len() - fresh.len()) as nat,
            truncated: if cut {
                st.truncated.insert(u)
            } else {
                st.truncated
            },
            ..st
        };
        let chosen = both_ends(fresh, prune.fanout);
        ends_are_some(fresh, prune.fanout);
        assert forall|i: int|
            #![trigger chosen[i]]
            0 <= i < chosen.len() implies g[u as int].contains(chosen[i]) && chosen[i] < g.len()
            && !st.ids.contains_key(chosen[i]) by {
            let j = fresh.index_of(chosen[i]);
            assert(all.contains(fresh[j]));
            let m = all.index_of(fresh[j]);
            assert(all[m] < g.len());
        }
        assert(sampling_but(g, prune.max_nodes, start, placed, head + 1, u));
        draw_all_keeps(g, prune.max_nodes, start, placed, head + 1, u, level, chosen, 0);
        if !next.truncated.contains(u) {
            assert(!cut) by {
                if cut {
                    assert(start.truncated.contains(u));
                }
            }
            assert(chosen == fresh);
            assert forall|w: usize| #[trigger] all.contains(w) implies next.ids.contains_key(w) by {
                if !st.ids.contains_key(w) {
                    let j = fresh.index_of(w);
                    assert(chosen[j] == w);
                }
            }
            assert(all_drawn(g, next.ids, u));
        }
    }
}

pub(crate) proof fn sampled_queue_fits(
    g: Lists,
    max_nodes: usize,
    st: Sampling,
    placed: Seq<usize>,
    head: int,
)
    requires
        sampling(g, max_nodes, st, placed, head),
        g.len() <= usize::MAX,
    ensures
        st.queue.len() <= g.len(),
{
    let named = Seq::new(st.queue.len(), |x: int| st.queue[x].0);
    assert forall|i: int, j: int|
        0 <= i < named.len() && 0 <= j < named.len() && i != j implies named[i] != named[j] by {
        if i < j {
            assert(st.queue[i].0 != st.queue[j].0);
        } else {
            assert(st.queue[j].0 != st.queue[i].0);
        }
    }
    assert forall|x: int| #![trigger named[x]] 0 <= x < named.len() implies named[x]
        < g.len() as usize by {
        assert(st.ids.contains_key(st.queue[x].0));
    }
    bounded_unique(named, g.len() as usize);
}

proof fn spread_rooted_keeps(
    g: Lists,
    prune: PruneView,
    st: Sampling,
    placed: Seq<usize>,
    head: int,
)
    requires
        sampling(g, prune.max_nodes, st, placed, head),
        well_formed(g),
        g.len() <= usize::MAX,
        0 <= head <= st.queue.len(),
    ensures
        ({
            let end = spread_rooted(g, prune, st, head);
            &&& sampling(g, prune.max_nodes, end, placed, end.queue.len() as int)
            &&& forall|v: usize| #[trigger] st.ids.contains_key(v) ==> end.ids.contains_key(v)
        }),
    decreases g.len() - head,
{
    sampled_queue_fits(g, prune.max_nodes, st, placed, head);
    if head < st.queue.len() {
        let (u, level) = st.queue[head];
        opened_keeps(g, prune, st, placed, head, u, level);
        let next = opened(g, prune, st, u, level);
        spread_rooted_keeps(g, prune, next, placed, head + 1);
        let end = spread_rooted(g, prune, next, head + 1);
        assert forall|v: usize| #[trigger] st.ids.contains_key(v) implies end.ids.contains_key(v) by {
            assert(next.ids.contains_key(v));
        }
    }
}

proof fn rooted_keeps(
    g: Lists,
    prune: PruneView,
    st: Sampling,
    placed: Seq<usize>,
    roots: Seq<usize>,
    k: int,
)
    requires
        sampling(g, prune.max_nodes, st, placed, st.queue.len() as int),
        well_formed(g),
        g.len() <= usize::MAX,
        0 <= k <= roots.len(),
        forall|i: int| 0 <= i < roots.len() ==> #[trigger] roots[i] < g.len(),
        forall|i: int| 0 <= i < k ==> st.ids.contains_key(#[trigger] roots[i]),
    ensures
        rooted_at(g, prune, st, placed, roots, k) matches Ok((end, all)) ==> {
            &&& sampling(g, prune.max_nodes, end, all, end.queue.len() as int)
            &&& forall|i: int| 0 <= i < roots.len() ==> end.ids.contains_key(#[trigger] roots[i])
        },
    decreases roots.len() - k,
{
    if k < roots.len() {
        let r = roots[k];
        if st.ids.contains_key(r) {
            rooted_keeps(g, prune, st, placed, roots, k + 1);
        } else if st.ids.len() < prune.max_nodes {
            let start = planted_root(st, r);
            few_nodes(g, st.nodes, st.ids);
            faithful_root(g, st.nodes, st.ids, r);
            hangs_with_root(st.nodes, placed, r);
            let more = placed.push(st.nodes.len() as usize);
            assert forall|v: usize| #[trigger] start.ids.contains_key(v) implies
                start.truncated.contains(v) || all_drawn(g, start.ids, v) || waits(
                start.queue,
                0,
                v,
            ) by {
                if v == r {
                    assert(start.queue[0].0 == r);
                } else {
                    assert(st.ids.contains_key(v));
                    assert(!waits(st.queue, st.queue.len() as int, v));
                }
            }
            spread_rooted_keeps(g, prune, start, more, 0);
            let next = spread_rooted(g, prune, start, 0);
            assert forall|i: int| 0 <= i < k + 1 implies next.ids.contains_key(
                #[trigger] roots[i],
            ) by {
                assert(start.ids.contains_key(roots[i]));
            }
            rooted_keeps(g, prune, next, more, roots, k + 1);
        }
    }
}

pub(crate) proof fn missing_is_none(roots: Seq<usize>, n: nat, k: int)
    requires
        first_missing(roots, n, k) is None,
        0 <= k,
    ensures
        forall|i: int| k <= i < roots.len() ==> #[trigger] roots[i] < n,
    decreases roots.len() - k,
{
    if k < roots.len() {
        missing_is_none(roots, n, k + 1);
    }
}

/// The cut is reported, not hidden. A walk from chosen roots draws every one of
/// them, each graph node at most once and under a node that has an arc to it or
/// under none, and no more nodes than its budget; and a node of it that is not
/// reported as cut has every one of its successors drawn. Every node of it is
/// where a walk began or hangs under a node before it.
pub proof fn the_cut_is_reported(g: Lists, roots: Seq<usize>, prune: PruneView)
    requires
        well_formed(g),
        g.len() <= usize::MAX,
    ensures
        sampled(g, Seq::empty(), roots, prune) matches Ok((st, placed)) ==> {
            &&& faithful(g, st.nodes, st.ids)
            &&& hangs_together(st.nodes, placed)
            &&& st.nodes.len() <= prune.max_nodes
            &&& forall|i: int| 0 <= i < roots.len() ==> st.ids.contains_key(#[trigger] roots[i])
            &&& forall|v: usize| #[trigger]
                st.ids.contains_key(v) ==> st.truncated.contains(v) || all_drawn(g, st.ids, v)
        },
{
    if let Ok((st, _)) = sampled(g, Seq::empty(), roots, prune) {
        let start = nothing_drawn(Seq::empty());
        missing_is_none(roots, g.len(), 0);
        rooted_keeps(g, prune, start, Seq::empty(), roots, 0);
        assert forall|v: usize| #[trigger] st.ids.contains_key(v) implies st.truncated.contains(v)
            || all_drawn(g, st.ids, v) by {
            assert(!waits(st.queue, st.queue.len() as int, v));
        }
    }
}

} // verus!
