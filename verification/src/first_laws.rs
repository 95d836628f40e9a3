//! Which of the nodes that lead to a node it hangs under, in the forest of a graph.

use vstd::prelude::*;

use crate::forest::{bare, follow, follow_all, planted, spread, swept, Growth, NodeView};
use crate::forest_laws::{
    arcs_pending, faithful, faithful_root, few_nodes, follow_keeps, hangs_with_root,
    nothing_reached, queue_fits, reached_insert, under_way,
};
use crate::graph::{successor_list, well_formed, Lists};

verus! {

/// No node that was drawn before tree node `i` leads to graph node `w`.
pub open spec fn came_first(g: Lists, ids: Map<usize, usize>, i: int, w: usize) -> bool {
    forall|v: usize| #[trigger]
        ids.contains_key(v) && ids[v] < i ==> !g[v as int].contains(w)
}

/// What hangs under tree node `p` comes after it, in the order of the tree and of the
/// graph, and nothing drawn before `p` leads to any of it.
pub open spec fn is_served(
    g: Lists,
    nodes: Seq<NodeView>,
    ids: Map<usize, usize>,
    p: int,
) -> bool {
    let children = nodes[p].children;
    &&& forall|a: int|
        0 <= a < children.len() ==> p < #[trigger] children[a] < nodes.len() && (
        nodes[children[a] as int].graph matches Some(w) && came_first(g, ids, p, w))
    &&& forall|a: int, b: int|
        0 <= a < b < children.len() ==> (#[trigger] children[a]) < (#[trigger] children[b])
            && nodes[children[a] as int].graph->0 < nodes[children[b] as int].graph->0
}

/// A root was drawn when all nodes before it were, and nothing drawn leads to it.
pub open spec fn is_first(
    g: Lists,
    nodes: Seq<NodeView>,
    ids: Map<usize, usize>,
    r: int,
) -> bool {
    &&& 0 <= r < nodes.len()
    &&& (nodes[r].graph matches Some(v) && came_first(g, ids, r, v) && forall|u: usize|
        u < v ==> #[trigger] ids.contains_key(u) && ids[u] < r)
}

spec fn all_led(g: Lists, ids: Map<usize, usize>, v: usize) -> bool {
    forall|w: usize| #[trigger] g[v as int].contains(w) ==> ids.contains_key(w)
}

/// A walk under way, with `k` arcs of the `head`th of its nodes followed, where its
/// first node is tree node `base`.
spec fn serving(
    g: Lists,
    st: Growth,
    roots: Seq<usize>,
    base: int,
    head: int,
    k: int,
) -> bool {
    let at = base + head;
    &&& 0 <= base
    &&& st.nodes.len() == base + st.queue.len()
    &&& 0 <= head <= st.queue.len()
    &&& forall|x: int|
        0 <= x < st.queue.len() ==> st.ids.contains_key(#[trigger] st.queue[x])
            && st.ids[st.queue[x]] == base + x
    &&& forall|p: int| 0 <= p < st.nodes.len() ==> #[trigger] is_served(g, st.nodes, st.ids, p)
    &&& forall|p: int|
        at <= p < st.nodes.len() && (p > at || k == 0) ==> (#[trigger] st.nodes[p]).children.len()
            == 0
    &&& forall|i: int|
        0 <= i < roots.len() ==> #[trigger] is_first(g, st.nodes, st.ids, roots[i] as int)
    &&& forall|v: usize| #[trigger]
        st.ids.contains_key(v) && st.ids[v] < at ==> all_led(g, st.ids, v)
    &&& head < st.queue.len() ==> {
        let list = g[st.queue[head] as int];
        &&& forall|j: int| 0 <= j < k && j < list.len() ==> st.ids.contains_key(#[trigger] list[j])
        &&& forall|a: int, j: int|
            0 <= a < st.nodes[at].children.len() && k <= j < list.len() ==> st.nodes[(
            #[trigger] st.nodes[at].children[a]) as int].graph->0 < #[trigger] list[j]
    }
}

proof fn first_stays(
    g: Lists,
    ids: Map<usize, usize>,
    i: int,
    w: usize,
    v: usize,
    id: usize,
)
    requires
        came_first(g, ids, i, w),
        i <= id,
        !ids.contains_key(v),
    ensures
        came_first(g, ids.insert(v, id), i, w),
{
    let after = ids.insert(v, id);
    assert forall|x: usize| #[trigger]
        after.contains_key(x) && after[x] < i implies !g[x as int].contains(w) by {
        assert(ids.contains_key(x));
    }
}

#[verifier::rlimit(40)]
proof fn following(
    g: Lists,
    st: Growth,
    roots: Seq<usize>,
    base: int,
    head: int,
    k: int,
)
    requires
        serving(g, st, roots, base, head, k),
        head < st.queue.len(),
        under_way(
            g,
            st,
            roots,
            (g[st.queue[head] as int].len() - k) as nat,
            head + 1,
        ),
        well_formed(g),
        g.len() <= usize::MAX,
        0 <= k < g[st.queue[head] as int].len(),
    ensures
        serving(
            g,
            follow(st, st.queue[head], g[st.queue[head] as int][k]),
            roots,
            base,
            head,
            k + 1,
        ),
{
    let u = st.queue[head];
    let list = g[u as int];
    let w = list[k];
    let at = base + head;
    let next = follow(st, u, w);
    assert(st.ids.contains_key(u) && st.ids[u] == at);
    assert(successor_list(list, g.len()));
    assert(list.contains(w));
    if st.ids.contains_key(w) {
        assert forall|p: int| 0 <= p < next.nodes.len() implies #[trigger] is_served(
            g,
            next.nodes,
            next.ids,
            p,
        ) by {
            assert(is_served(g, st.nodes, st.ids, p));
        }
        assert forall|i: int| 0 <= i < roots.len() implies #[trigger] is_first(
            g,
            next.nodes,
            next.ids,
            roots[i] as int,
        ) by {
            assert(is_first(g, st.nodes, st.ids, roots[i] as int));
        }
    } else {
        few_nodes(g, st.nodes, st.ids);
        let n = st.nodes.len() as int;
        let id = n as usize;
        assert(id == n);
        assert(came_first(g, st.ids, at, w)) by {
            assert forall|v: usize| #[trigger]
                st.ids.contains_key(v) && st.ids[v] < at implies !g[v as int].contains(w) by {
                assert(all_led(g, st.ids, v));
            }
        }
        assert forall|p: int| 0 <= p < next.nodes.len() implies #[trigger] is_served(
            g,
            next.nodes,
            next.ids,
            p,
        ) by {
            if p < n {
                assert(is_served(g, st.nodes, st.ids, p));
                let was = st.nodes[p].children;
                let now = next.nodes[p].children;
                assert forall|a: int| 0 <= a < now.len() implies p < #[trigger] now[a]
                    < next.nodes.len() && (
                next.nodes[now[a] as int].graph matches Some(x) && came_first(
                    g,
                    next.ids,
                    p,
                    x,
                )) by {
                    if a < was.len() {
                        assert(now[a] == was[a]);
                        let x = st.nodes[was[a] as int].graph->0;
                        first_stays(g, st.ids, p, x, w, id);
                    } else {
                        first_stays(g, st.ids, p, w, w, id);
                    }
                }
                assert forall|a: int, b: int| 0 <= a < b < now.len() implies (#[trigger] now[a])
                    < (#[trigger] now[b]) && next.nodes[now[a] as int].graph->0
                    < next.nodes[now[b] as int].graph->0 by {
                    assert(now[a] == was[a]);
                    if b < was.len() {
                        assert(now[b] == was[b]);
                    } else {
                        assert(p == at);
                        assert(st.nodes[was[a] as int].graph->0 < list[k]);
                    }
                }
            }
        }
        assert forall|i: int| 0 <= i < roots.len() implies #[trigger] is_first(
            g,
            next.nodes,
            next.ids,
            roots[i] as int,
        ) by {
            assert(is_first(g, st.nodes, st.ids, roots[i] as int));
            let r = roots[i] as int;
            let v = st.nodes[r].graph->0;
            first_stays(g, st.ids, r, v, w, id);
            assert forall|x: usize| x < v implies #[trigger] next.ids.contains_key(x)
                && next.ids[x] < r by {
                assert(st.ids.contains_key(x));
            }
        }
        assert forall|v: usize| #[trigger]
            next.ids.contains_key(v) && next.ids[v] < at implies all_led(g, next.ids, v) by {
            assert(st.ids.contains_key(v));
            assert(all_led(g, st.ids, v));
        }
        assert forall|x: int| 0 <= x < next.queue.len() implies next.ids.contains_key(
            #[trigger] next.queue[x],
        ) && next.ids[next.queue[x]] == base + x by {
            if x < st.queue.len() {
                assert(next.queue[x] == st.queue[x]);
            }
        }
        assert(next.queue[head] == u);
        assert forall|j: int| 0 <= j < k + 1 && j < list.len() implies next.ids.contains_key(
            #[trigger] list[j],
        ) by {
            if j < k {
                assert(st.ids.contains_key(list[j]));
            }
        }
        let was = st.nodes[at].children;
        let now = next.nodes[at].children;
        assert(now == was.push(id));
        assert forall|a: int, j: int|
            0 <= a < now.len() && k + 1 <= j < list.len() implies next.nodes[(
        #[trigger] now[a]) as int].graph->0 < #[trigger] list[j] by {
            if a < was.len() {
                assert(now[a] == was[a]);
                assert(is_served(g, st.nodes, st.ids, at));
                assert(st.nodes[was[a] as int].graph->0 < list[j]);
            } else {
                assert(list[k] < list[j]);
            }
        }
    }
}

#[verifier::rlimit(40)]
proof fn following_all(
    g: Lists,
    st: Growth,
    roots: Seq<usize>,
    base: int,
    head: int,
    k: int,
)
    requires
        serving(g, st, roots, base, head, k),
        head < st.queue.len(),
        under_way(
            g,
            st,
            roots,
            (g[st.queue[head] as int].len() - k) as nat,
            head + 1,
        ),
        well_formed(g),
        g.len() <= usize::MAX,
        0 <= k <= g[st.queue[head] as int].len(),
    ensures
        ({
            let end = follow_all(g, st, st.queue[head], k);
            &&& serving(g, end, roots, base, head + 1, 0)
            &&& under_way(g, end, roots, 0, head + 1)
        }),
    decreases g[st.queue[head] as int].len() - k,
{
    let u = st.queue[head];
    let list = g[u as int];
    let at = base + head;
    assert(st.ids.contains_key(u));
    if k < list.len() {
        let w = list[k];
        assert(list.contains(w));
        following(g, st, roots, base, head, k);
        follow_keeps(g, st, roots, u, w, (list.len() - k - 1) as nat, head + 1);
        let next = follow(st, u, w);
        assert(next.queue[head] == u);
        following_all(g, next, roots, base, head, k + 1);
    } else {
        assert forall|v: usize| #[trigger]
            st.ids.contains_key(v) && st.ids[v] < at + 1 implies all_led(g, st.ids, v) by {
            if st.ids[v] == at {
                assert(st.nodes[st.ids[v] as int].graph == Some(v));
                assert(st.nodes[st.ids[u] as int].graph == Some(u));
                assert(v == u);
                assert forall|w: usize| #[trigger] g[v as int].contains(w) implies st.ids.contains_key(
                    w,
                ) by {
                    let j = list.index_of(w);
                    assert(st.ids.contains_key(list[j]));
                }
            }
        }
    }
}

proof fn spreading(g: Lists, st: Growth, roots: Seq<usize>, base: int, head: int)
    requires
        serving(g, st, roots, base, head, 0),
        under_way(g, st, roots, 0, head),
        well_formed(g),
        g.len() <= usize::MAX,
    ensures
        ({
            let end = spread(g, st, head);
            &&& serving(g, end, roots, base, end.queue.len() as int, 0)
            &&& under_way(g, end, roots, 0, end.queue.len() as int)
            &&& forall|v: usize| #[trigger]
                st.ids.contains_key(v) ==> end.ids.contains_key(v)
        }),
    decreases g.len() - head,
{
    queue_fits(g, st);
    if head < st.queue.len() {
        let u = st.queue[head];
        assert(st.ids.contains_key(u));
        pending_is_next(g, st, roots, head);
        following_all(g, st, roots, base, head, 0);
        ids_stay(g, st, u, 0);
        let next = follow_all(g, st, u, 0);
        spreading(g, next, roots, base, head + 1);
    }
}

proof fn pending_is_next(g: Lists, st: Growth, roots: Seq<usize>, head: int)
    requires
        under_way(g, st, roots, 0, head),
        0 <= head < st.queue.len(),
    ensures
        under_way(g, st, roots, g[st.queue[head] as int].len(), head + 1),
{
}

proof fn ids_stay(g: Lists, st: Growth, u: usize, k: int)
    ensures
        forall|v: usize| #[trigger]
            st.ids.contains_key(v) ==> follow_all(g, st, u, k).ids.contains_key(v),
    decreases g[u as int].len() - k,
{
    if k < g[u as int].len() {
        let next = follow(st, u, g[u as int][k]);
        ids_stay(g, next, u, k + 1);
        assert forall|v: usize| #[trigger] st.ids.contains_key(v) implies follow_all(
            g,
            st,
            u,
            k,
        ).ids.contains_key(v) by {
            assert(next.ids.contains_key(v));
        }
    }
}

#[verifier::rlimit(40)]
proof fn planting_serves(g: Lists, st: Growth, roots: Seq<usize>, base: int, r: usize)
    requires
        serving(g, st, roots, base, st.queue.len() as int, 0),
        faithful(g, st.nodes, st.ids),
        st.nodes.len() <= usize::MAX,
        !st.ids.contains_key(r),
        forall|u: usize| u < r ==> #[trigger] st.ids.contains_key(u),
    ensures
        serving(
            g,
            planted(st, r),
            roots.push(st.nodes.len() as usize),
            st.nodes.len() as int,
            0,
            0,
        ),
{
    let start = planted(st, r);
    let n = st.nodes.len() as int;
    let id = n as usize;
    let more = roots.push(id);
    assert(came_first(g, st.ids, n, r)) by {
        assert forall|u: usize| #[trigger]
            st.ids.contains_key(u) && st.ids[u] < n implies !g[u as int].contains(r) by {
            assert(all_led(g, st.ids, u));
        }
    }
    first_stays(g, st.ids, n, r, r, id);
    assert forall|p: int| 0 <= p < start.nodes.len() implies #[trigger] is_served(
        g,
        start.nodes,
        start.ids,
        p,
    ) by {
        if p < n {
            assert(is_served(g, st.nodes, st.ids, p));
            let children = st.nodes[p].children;
            assert(start.nodes[p] == st.nodes[p]);
            assert forall|a: int| 0 <= a < children.len() implies p < #[trigger] children[a]
                < start.nodes.len() && (
            start.nodes[children[a] as int].graph matches Some(x) && came_first(
                g,
                start.ids,
                p,
                x,
            )) by {
                let x = st.nodes[children[a] as int].graph->0;
                first_stays(g, st.ids, p, x, r, id);
            }
        }
    }
    assert forall|i: int| 0 <= i < more.len() implies #[trigger] is_first(
        g,
        start.nodes,
        start.ids,
        more[i] as int,
    ) by {
        if i < roots.len() {
            assert(more[i] == roots[i]);
            let q = roots[i] as int;
            assert(is_first(g, st.nodes, st.ids, q));
            let x = st.nodes[q].graph->0;
            first_stays(g, st.ids, q, x, r, id);
            assert forall|u: usize| u < x implies #[trigger] start.ids.contains_key(u)
                && start.ids[u] < q by {
                assert(st.ids.contains_key(u));
            }
        } else {
            assert(more[i] == id && start.nodes[n].graph == Some(r));
            assert(came_first(g, start.ids, n, r));
            assert forall|u: usize| u < r implies #[trigger] start.ids.contains_key(u)
                && start.ids[u] < n by {
                assert(st.ids.contains_key(u));
            }
        }
    }
    assert forall|u: usize| #[trigger]
        start.ids.contains_key(u) && start.ids[u] < n implies all_led(g, start.ids, u) by {
        assert(st.ids.contains_key(u));
        assert(all_led(g, st.ids, u));
    }
}

#[verifier::rlimit(40)]
proof fn sweeping(g: Lists, st: Growth, roots: Seq<usize>, base: int, v: int)
    requires
        serving(g, st, roots, base, st.queue.len() as int, 0),
        under_way(g, st, roots, 0, st.queue.len() as int),
        well_formed(g),
        g.len() <= usize::MAX,
        0 <= v <= g.len(),
        forall|u: usize| u < v ==> #[trigger] st.ids.contains_key(u),
    ensures
        ({
            let (end, all) = swept(g, st, roots, v);
            &&& forall|p: int|
                0 <= p < end.nodes.len() ==> #[trigger] is_served(g, end.nodes, end.ids, p)
            &&& forall|i: int|
                0 <= i < all.len() ==> #[trigger] is_first(g, end.nodes, end.ids, all[i] as int)
        }),
    decreases g.len() - v,
{
    if v < g.len() {
        if st.ids.contains_key(v as usize) {
            sweeping(g, st, roots, base, v + 1);
            assert(swept(g, st, roots, v) == swept(g, st, roots, v + 1));
        } else {
            let r = v as usize;
            let start = planted(st, r);
            few_nodes(g, st.nodes, st.ids);
            faithful_root(g, st.nodes, st.ids, r);
            hangs_with_root(st.nodes, roots, r);
            let n = st.nodes.len() as int;
            let id = n as usize;
            let more = roots.push(id);
            reached_insert(g, st.ids, r, id, g.len());
            assert(arcs_pending(g, st.queue, st.queue.len() as int) == 0);
            assert(arcs_pending(g, start.queue, 1) == 0);
            assert(arcs_pending(g, start.queue, 0) == g[v].len());
            assert(under_way(g, start, more, 0, 0));
            planting_serves(g, st, roots, base, r);
            assert(serving(g, start, more, n, 0, 0));
            spreading(g, start, more, n, 0);
            let next = spread(g, start, 0);
            assert forall|u: usize| u < v + 1 implies #[trigger] next.ids.contains_key(u) by {
                assert(start.ids.contains_key(u));
            }
            sweeping(g, next, more, n, v + 1);
            assert(swept(g, st, roots, v) == swept(g, next, more, v + 1));
        }
    } else {
        assert(swept(g, st, roots, v) == (st, roots));
    }
}

/// First come, first served. In the forest of a graph a node hangs under the first drawn
/// of the nodes that lead to it, after that one and after what hangs there of lower
/// number; and it is a root only if nothing drawn before it leads to it, and then all
/// nodes of lower number were drawn before it.
pub proof fn a_node_hangs_under_the_first_that_leads_to_it(g: Lists)
    requires
        well_formed(g),
        g.len() <= usize::MAX,
    ensures
        ({
            let (st, roots) = swept(g, bare(Seq::empty()), Seq::empty(), 0);
            &&& forall|p: int|
                0 <= p < st.nodes.len() ==> #[trigger] is_served(g, st.nodes, st.ids, p)
            &&& forall|i: int|
                0 <= i < roots.len() ==> #[trigger] is_first(g, st.nodes, st.ids, roots[i] as int)
        }),
{
    let start = bare(Seq::empty());
    nothing_reached(g, g.len());
    assert(arcs_pending(g, start.queue, 0) == 0);
    sweeping(g, start, Seq::empty(), 0, 0);
}

} // verus!
