//! In which order what hangs under a node of a rooted drawing comes.

use vstd::prelude::*;

use crate::depth_laws::{fresh, opening, planting, telling};
use crate::forest::{
    both_ends, draw_all, drawn_under, fresh_of, leaf, nothing_drawn, opened, opens, planted_root,
    rooted_at, sampled, spread_rooted, NodeView, PruneView, Sampling,
};
use crate::forest_laws::{
    arcs_drawn, arcs_drawn_hung, arcs_reached, ascending_is_unique, ends_are_some,
    fresh_is_exact, missing_is_none, nothing_reached, reached_insert, sampled_queue_fits, waits,
};
use crate::graph::{successor_list, well_formed, Lists};
use crate::kept::ascending;

verus! {

/// What hangs under tree node `p` comes after it, in the order of the tree and of the
/// graph.
pub open spec fn is_ranked(nodes: Seq<NodeView>, p: int) -> bool {
    let children = nodes[p].children;
    &&& forall|a: int|
        0 <= a < children.len() ==> p < #[trigger] children[a] < nodes.len()
            && nodes[children[a] as int].graph is Some
    &&& forall|a: int, b: int|
        0 <= a < b < children.len() ==> (#[trigger] children[a]) < (#[trigger] children[b])
            && nodes[children[a] as int].graph->0 < nodes[children[b] as int].graph->0
}

spec fn are_ranked(nodes: Seq<NodeView>) -> bool {
    forall|p: int| 0 <= p < nodes.len() ==> #[trigger] is_ranked(nodes, p)
}

proof fn fresh_is_ascending(ids: Map<usize, usize>, s: Seq<usize>)
    requires
        ascending(s),
    ensures
        ascending(fresh_of(ids, s)),
    decreases s.len(),
{
    if s.len() > 0 {
        let f = s.drop_last();
        fresh_is_ascending(ids, f);
        ascending_is_unique(f);
        fresh_is_exact(ids, f);
        let front = fresh_of(ids, f);
        let all = fresh_of(ids, s);
        assert forall|i: int, j: int| 0 <= i < j < all.len() implies all[i] < all[j] by {
            if j == front.len() {
                assert(f.contains(front[i]));
                let k = f.index_of(front[i]);
                assert(s[k] < s[s.len() - 1]);
            }
        }
    }
}

proof fn ends_are_ascending(fan: Seq<usize>, fanout: Option<usize>)
    requires
        ascending(fan),
    ensures
        ascending(both_ends(fan, fanout)),
{
}

#[verifier::rlimit(40)]
proof fn drawing_in_order(
    max_nodes: usize,
    st: Sampling,
    u: usize,
    level: usize,
    chosen: Seq<usize>,
    k: int,
)
    requires
        are_ranked(st.nodes),
        ascending(chosen),
        0 <= k <= chosen.len(),
        forall|j: int| k <= j < chosen.len() ==> !st.ids.contains_key(#[trigger] chosen[j]),
        st.ids.dom().finite(),
        st.ids.len() == st.nodes.len(),
        st.ids.contains_key(u),
        st.ids[u] < st.nodes.len(),
        forall|a: int, j: int|
            0 <= a < st.nodes[st.ids[u] as int].children.len() && k <= j < chosen.len()
                ==> st.nodes[(#[trigger] st.nodes[st.ids[u] as int].children[a]) as int].graph->0
                < #[trigger] chosen[j],
    ensures
        are_ranked(draw_all(max_nodes, st, u, level, chosen, k).nodes),
    decreases chosen.len() - k,
{
    if k < chosen.len() && st.ids.len() < max_nodes {
        let w = chosen[k];
        let next = drawn_under(st, u, level, w);
        let n = st.nodes.len() as int;
        let at = st.ids[u] as int;
        let id = n as usize;
        assert(id == n);
        assert(!st.ids.contains_key(w));
        assert(next.ids[u] == at);
        let was = st.nodes[at].children;
        let now = next.nodes[at].children;
        assert(now == was.push(id));
        assert forall|p: int| 0 <= p < next.nodes.len() implies #[trigger] is_ranked(
            next.nodes,
            p,
        ) by {
            if p < n {
                assert(is_ranked(st.nodes, p));
                if p == at {
                    assert forall|a: int, b: int| 0 <= a < b < now.len() implies (
                    #[trigger] now[a]) < (#[trigger] now[b]) && next.nodes[now[a] as int].graph->0
                        < next.nodes[now[b] as int].graph->0 by {
                        assert(now[a] == was[a]);
                        if b < was.len() {
                            assert(now[b] == was[b]);
                        } else {
                            assert(st.nodes[was[a] as int].graph->0 < chosen[k]);
                        }
                    }
                    assert forall|a: int| 0 <= a < now.len() implies p < #[trigger] now[a]
                        < next.nodes.len() && next.nodes[now[a] as int].graph is Some by {
                        if a < was.len() {
                            assert(now[a] == was[a]);
                        }
                    }
                } else {
                    let children = st.nodes[p].children;
                    assert(next.nodes[p] == st.nodes[p]);
                    assert forall|a: int| 0 <= a < children.len() implies p < #[trigger] children[a]
                        < next.nodes.len() && next.nodes[children[a] as int].graph is Some by {}
                }
            }
        }
        assert forall|j: int| k + 1 <= j < chosen.len() implies !next.ids.contains_key(
            #[trigger] chosen[j],
        ) by {
            assert(chosen[k] < chosen[j]);
        }
        assert forall|a: int, j: int|
            0 <= a < now.len() && k + 1 <= j < chosen.len() implies next.nodes[(
        #[trigger] now[a]) as int].graph->0 < #[trigger] chosen[j] by {
            assert(chosen[k] < chosen[j]);
            if a < was.len() {
                assert(now[a] == was[a]);
                assert(is_ranked(st.nodes, at));
                assert(st.nodes[was[a] as int].graph->0 < chosen[j]);
            }
        }
        drawing_in_order(max_nodes, next, u, level, chosen, k + 1);
    }
}

proof fn opening_in_order(
    g: Lists,
    prune: PruneView,
    st: Sampling,
    placed: Seq<usize>,
    levels: Seq<nat>,
    head: int,
)
    requires
        are_ranked(st.nodes),
        telling(g, prune, st, placed, levels, head),
        well_formed(g),
        g.len() <= usize::MAX,
        0 <= head < st.queue.len(),
    ensures
        are_ranked(opened(g, prune, st, st.queue[head].0, st.queue[head].1).nodes),
{
    let (u, level) = st.queue[head];
    let all = g[u as int];
    assert(st.ids.contains_key(st.queue[head].0));
    assert(successor_list(all, g.len()));
    assert(waits(st.queue, head, u));
    assert(fresh(st, u));
    if opens(prune, u, level) {
        let fan = fresh_of(st.ids, all);
        ascending_is_unique(all);
        fresh_is_exact(st.ids, all);
        fresh_is_ascending(st.ids, all);
        ends_are_ascending(fan, prune.fanout);
        ends_are_some(fan, prune.fanout);
        let chosen = both_ends(fan, prune.fanout);
        let cut = prune.fanout matches Some(k) && fan.len() > k;
        let next = Sampling {
            dropped: (st.dropped + all.len() - fan.len()) as nat,
            truncated: if cut {
                st.truncated.insert(u)
            } else {
                st.truncated
            },
            ..st
        };
        assert forall|j: int| 0 <= j < chosen.len() implies !next.ids.contains_key(
            #[trigger] chosen[j],
        ) by {
            assert(fan.contains(chosen[j]));
            let i = fan.index_of(chosen[j]);
            assert(!st.ids.contains_key(fan[i]));
        }
        drawing_in_order(prune.max_nodes, next, u, level, chosen, 0);
    }
}

proof fn spreading_in_order(
    g: Lists,
    prune: PruneView,
    st: Sampling,
    placed: Seq<usize>,
    levels: Seq<nat>,
    head: int,
) -> (after: Seq<nat>)
    requires
        are_ranked(st.nodes),
        telling(g, prune, st, placed, levels, head),
        well_formed(g),
        g.len() <= usize::MAX,
        0 <= head <= st.queue.len(),
    ensures
        ({
            let end = spread_rooted(g, prune, st, head);
            &&& are_ranked(end.nodes)
            &&& telling(g, prune, end, placed, after, end.queue.len() as int)
        }),
    decreases g.len() - head,
{
    sampled_queue_fits(g, prune.max_nodes, st, placed, head);
    if head < st.queue.len() {
        opening_in_order(g, prune, st, placed, levels, head);
        let more = opening(g, prune, st, placed, levels, head);
        let next = opened(g, prune, st, st.queue[head].0, st.queue[head].1);
        spreading_in_order(g, prune, next, placed, more, head + 1)
    } else {
        levels
    }
}

proof fn walking_in_order(
    g: Lists,
    prune: PruneView,
    st: Sampling,
    placed: Seq<usize>,
    levels: Seq<nat>,
    roots: Seq<usize>,
    k: int,
)
    requires
        are_ranked(st.nodes),
        telling(g, prune, st, placed, levels, st.queue.len() as int),
        well_formed(g),
        g.len() <= usize::MAX,
        0 <= k <= roots.len(),
        forall|i: int| 0 <= i < roots.len() ==> #[trigger] roots[i] < g.len(),
    ensures
        rooted_at(g, prune, st, placed, roots, k) matches Ok((end, _)) ==> are_ranked(end.nodes),
    decreases roots.len() - k,
{
    if k < roots.len() {
        let r = roots[k];
        if st.ids.contains_key(r) {
            walking_in_order(g, prune, st, placed, levels, roots, k + 1);
        } else if st.ids.len() < prune.max_nodes {
            let start = planted_root(st, r);
            let more = placed.push(st.nodes.len() as usize);
            let longer = levels.push(0nat);
            planting(g, prune, st, placed, levels, r);
            assert forall|p: int| 0 <= p < start.nodes.len() implies #[trigger] is_ranked(
                start.nodes,
                p,
            ) by {
                if p < st.nodes.len() {
                    assert(is_ranked(st.nodes, p));
                    assert(start.nodes[p] == st.nodes[p]);
                }
            }
            let after = spreading_in_order(g, prune, start, more, longer, 0);
            let next = spread_rooted(g, prune, start, 0);
            walking_in_order(g, prune, next, more, after, roots, k + 1);
        }
    }
}

/// What hangs under a node of a rooted drawing comes after it, in the order in which it
/// was drawn and in which the graph has it. And a drawing from one root is refused only
/// if the root is not in the graph or the budget is of no nodes.
pub proof fn what_hangs_under_a_node_is_in_order(
    g: Lists,
    roots: Seq<usize>,
    prune: PruneView,
    p: int,
)
    requires
        well_formed(g),
        g.len() <= usize::MAX,
    ensures
        sampled(g, Seq::empty(), roots, prune) matches Ok((st, _)) ==> (0 <= p < st.nodes.len()
            ==> is_ranked(st.nodes, p)),
        roots.len() == 1 ==> (sampled(g, Seq::empty(), roots, prune) is Ok <==> roots[0] < g.len()
            && prune.max_nodes > 0),
{
    reveal_with_fuel(rooted_at, 2);
    reveal_with_fuel(crate::forest::first_missing, 2);
    let start = nothing_drawn(Seq::empty());
    assert(start.ids.len() == 0);
    if let Ok((st, _)) = sampled(g, Seq::empty(), roots, prune) {
        missing_is_none(roots, g.len(), 0);
        assert(telling(g, prune, start, Seq::empty(), Seq::empty(), 0));
        walking_in_order(g, prune, start, Seq::empty(), Seq::empty(), roots, 0);
    }
}

/// The arcs of what waits from the `head`th on.
spec fn still_to_come(g: Lists, queue: Seq<(usize, usize)>, head: int) -> nat
    decreases queue.len() - head,
{
    if head >= queue.len() {
        0
    } else {
        g[queue[head].0 as int].len() + still_to_come(g, queue, head + 1)
    }
}

proof fn one_more_to_come(g: Lists, queue: Seq<(usize, usize)>, head: int, q: (usize, usize))
    requires
        0 <= head <= queue.len(),
    ensures
        still_to_come(g, queue.push(q), head) == still_to_come(g, queue, head) + g[q.0 as int].len(),
    decreases queue.len() - head,
{
    if head < queue.len() {
        one_more_to_come(g, queue, head + 1, q);
    } else {
        assert(still_to_come(g, queue.push(q), head + 1) == 0);
    }
}

/// The arcs of what is drawn are drawn, dropped, still to come or left out, and none is
/// left out where nothing is reported as cut.
spec fn accounts(g: Lists, st: Sampling, head: int, rest: nat) -> bool {
    let told = arcs_drawn(st.nodes) + st.dropped + rest + still_to_come(g, st.queue, head);
    &&& told <= arcs_reached(g, st.ids, g.len())
    &&& st.truncated =~= Set::empty() ==> told == arcs_reached(g, st.ids, g.len())
}

#[verifier::rlimit(40)]
proof fn drawing_accounts(
    g: Lists,
    max_nodes: usize,
    st: Sampling,
    u: usize,
    level: usize,
    chosen: Seq<usize>,
    k: int,
    head: int,
)
    requires
        accounts(g, st, head, (chosen.len() - k) as nat),
        g.len() <= usize::MAX,
        ascending(chosen),
        0 <= k <= chosen.len(),
        0 <= head <= st.queue.len(),
        forall|j: int|
            k <= j < chosen.len() ==> !st.ids.contains_key(#[trigger] chosen[j]) && chosen[j]
                < g.len(),
        st.ids.contains_key(u),
        st.ids[u] < st.nodes.len(),
    ensures
        accounts(g, draw_all(max_nodes, st, u, level, chosen, k), head, 0),
    decreases chosen.len() - k,
{
    if k < chosen.len() {
        if st.ids.len() >= max_nodes {
            assert(st.truncated.insert(u).contains(u));
        } else {
            let w = chosen[k];
            let next = drawn_under(st, u, level, w);
            let longer = st.nodes.push(leaf(w));
            assert(!st.ids.contains_key(w) && w < g.len());
            assert(longer.drop_last() =~= st.nodes);
            arcs_drawn_hung(longer, st.ids[u] as int, st.nodes.len() as usize);
            reached_insert(g, st.ids, w, st.nodes.len() as usize, g.len());
            one_more_to_come(g, st.queue, head, (w, (level + 1) as usize));
            assert forall|j: int| k + 1 <= j < chosen.len() implies !next.ids.contains_key(
                #[trigger] chosen[j],
            ) && chosen[j] < g.len() by {
                assert(chosen[k] < chosen[j]);
                assert(!st.ids.contains_key(chosen[j]));
            }
            drawing_accounts(g, max_nodes, next, u, level, chosen, k + 1, head);
        }
    }
}

#[verifier::rlimit(40)]
proof fn opening_accounts(
    g: Lists,
    prune: PruneView,
    st: Sampling,
    placed: Seq<usize>,
    levels: Seq<nat>,
    head: int,
)
    requires
        accounts(g, st, head, 0),
        telling(g, prune, st, placed, levels, head),
        well_formed(g),
        g.len() <= usize::MAX,
        0 <= head < st.queue.len(),
    ensures
        accounts(g, opened(g, prune, st, st.queue[head].0, st.queue[head].1), head + 1, 0),
{
    let (u, level) = st.queue[head];
    let all = g[u as int];
    assert(st.ids.contains_key(st.queue[head].0));
    assert(successor_list(all, g.len()));
    if opens(prune, u, level) {
        let fan = fresh_of(st.ids, all);
        ascending_is_unique(all);
        fresh_is_exact(st.ids, all);
        fresh_is_ascending(st.ids, all);
        ends_are_ascending(fan, prune.fanout);
        ends_are_some(fan, prune.fanout);
        let chosen = both_ends(fan, prune.fanout);
        let cut = prune.fanout matches Some(k) && fan.len() > k;
        let next = Sampling {
            dropped: (st.dropped + all.len() - fan.len()) as nat,
            truncated: if cut {
                st.truncated.insert(u)
            } else {
                st.truncated
            },
            ..st
        };
        if cut {
            assert(next.truncated.contains(u));
        }
        assert(chosen.len() <= fan.len());
        assert forall|j: int| 0 <= j < chosen.len() implies !next.ids.contains_key(
            #[trigger] chosen[j],
        ) && chosen[j] < g.len() by {
            assert(fan.contains(chosen[j]));
            let i = fan.index_of(chosen[j]);
            assert(!st.ids.contains_key(fan[i]));
            assert(all.contains(fan[i]));
            let x = all.index_of(fan[i]);
            assert(all[x] < g.len());
        }
        assert(accounts(g, next, head + 1, chosen.len()));
        drawing_accounts(g, prune.max_nodes, next, u, level, chosen, 0, head + 1);
    } else if all.len() > 0 {
        assert(st.truncated.insert(u).contains(u));
    }
}

proof fn spreading_accounts(
    g: Lists,
    prune: PruneView,
    st: Sampling,
    placed: Seq<usize>,
    levels: Seq<nat>,
    head: int,
) -> (after: Seq<nat>)
    requires
        accounts(g, st, head, 0),
        telling(g, prune, st, placed, levels, head),
        well_formed(g),
        g.len() <= usize::MAX,
        0 <= head <= st.queue.len(),
    ensures
        ({
            let end = spread_rooted(g, prune, st, head);
            &&& accounts(g, end, end.queue.len() as int, 0)
            &&& telling(g, prune, end, placed, after, end.queue.len() as int)
        }),
    decreases g.len() - head,
{
    sampled_queue_fits(g, prune.max_nodes, st, placed, head);
    if head < st.queue.len() {
        opening_accounts(g, prune, st, placed, levels, head);
        let more = opening(g, prune, st, placed, levels, head);
        let next = opened(g, prune, st, st.queue[head].0, st.queue[head].1);
        spreading_accounts(g, prune, next, placed, more, head + 1)
    } else {
        levels
    }
}

proof fn walking_accounts(
    g: Lists,
    prune: PruneView,
    st: Sampling,
    placed: Seq<usize>,
    levels: Seq<nat>,
    roots: Seq<usize>,
    k: int,
)
    requires
        accounts(g, st, st.queue.len() as int, 0),
        telling(g, prune, st, placed, levels, st.queue.len() as int),
        well_formed(g),
        g.len() <= usize::MAX,
        0 <= k <= roots.len(),
        forall|i: int| 0 <= i < roots.len() ==> #[trigger] roots[i] < g.len(),
    ensures
        rooted_at(g, prune, st, placed, roots, k) matches Ok((end, _)) ==> accounts(
            g,
            end,
            end.queue.len() as int,
            0,
        ),
    decreases roots.len() - k,
{
    if k < roots.len() {
        let r = roots[k];
        if st.ids.contains_key(r) {
            walking_accounts(g, prune, st, placed, levels, roots, k + 1);
        } else if st.ids.len() < prune.max_nodes {
            let start = planted_root(st, r);
            let more = placed.push(st.nodes.len() as usize);
            let longer = levels.push(0nat);
            planting(g, prune, st, placed, levels, r);
            reached_insert(g, st.ids, r, st.nodes.len() as usize, g.len());
            assert(start.nodes.drop_last() =~= st.nodes);
            assert(still_to_come(g, st.queue, st.queue.len() as int) == 0);
            assert(still_to_come(g, start.queue, 1) == 0);
            assert(still_to_come(g, start.queue, 0) == g[r as int].len());
            let after = spreading_accounts(g, prune, start, more, longer, 0);
            let next = spread_rooted(g, prune, start, 0);
            walking_accounts(g, prune, next, more, after, roots, k + 1);
        }
    }
}

/// Every arc of a node of a rooted drawing is drawn, counted as dropped, or left out;
/// none is counted twice, and none is left out where no node is reported as cut.
pub proof fn the_arcs_of_a_drawing_are_accounted_for(
    g: Lists,
    roots: Seq<usize>,
    prune: PruneView,
)
    requires
        well_formed(g),
        g.len() <= usize::MAX,
    ensures
        sampled(g, Seq::empty(), roots, prune) matches Ok((st, _)) ==> {
            &&& arcs_drawn(st.nodes) + st.dropped <= arcs_reached(g, st.ids, g.len())
            &&& (forall|v: usize| !#[trigger] st.truncated.contains(v)) ==> arcs_drawn(st.nodes)
                + st.dropped == arcs_reached(g, st.ids, g.len())
        },
{
    let start = nothing_drawn(Seq::empty());
    if let Ok((st, _)) = sampled(g, Seq::empty(), roots, prune) {
        missing_is_none(roots, g.len(), 0);
        nothing_reached(g, g.len());
        assert(telling(g, prune, start, Seq::empty(), Seq::empty(), 0));
        assert(still_to_come(g, start.queue, 0) == 0);
        walking_accounts(g, prune, start, Seq::empty(), Seq::empty(), roots, 0);
        assert(still_to_come(g, st.queue, st.queue.len() as int) == 0);
        if forall|v: usize| !#[trigger] st.truncated.contains(v) {
            assert(st.truncated =~= Set::empty());
        }
    }
}

} // verus!
