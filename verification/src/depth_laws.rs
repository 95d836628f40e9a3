//! How deep a drawing from chosen roots goes, and where it stops.

use vstd::prelude::*;

use crate::forest::{
    both_ends, draw_all, drawn_under, fresh_of, nothing_drawn, opened, opens,
    planted_root, rooted_at, sampled, spread_rooted, NodeView, PruneView, Sampling,
};
use crate::forest_laws::{
    all_drawn, ascending_is_unique, drawn_under_keeps, ends_are_some, faithful_root,
    few_nodes, fresh_is_exact, hangs_with_root, missing_is_none, opened_keeps, sampled_queue_fits,
    sampling, sampling_but, waits,
};
use crate::graph::{successor_list, well_formed, Lists};
use crate::scene::{child_at, is_child, is_path};

verus! {

/// Whether a node so many levels down is to be opened: it is less deep than was
/// asked for, and on the spine if there is one.
pub open spec fn is_to_open(prune: PruneView, v: usize, level: nat) -> bool {
    &&& prune.depth matches Some(d) ==> level < d
    &&& prune.expand matches Some(spine) ==> spine.contains(v)
}

/// Whether a fanout is sure to take entry `i` of `n`: it takes all, or the entry is in
/// its half at either end, the odd one at the head.
pub open spec fn is_taken(fanout: Option<usize>, n: int, i: int) -> bool {
    match fanout {
        None => true,
        Some(k) => n <= k || i < (k + 1) / 2 || i >= n - k / 2,
    }
}

/// The levels of the nodes of a tree: a root is at none, and what hangs under a node
/// one below it.
pub(crate) open spec fn leveled(nodes: Seq<NodeView>, placed: Seq<usize>, levels: Seq<nat>) -> bool {
    &&& levels.len() == nodes.len()
    &&& forall|x: int|
        0 <= x < placed.len() ==> (#[trigger] placed[x]) < levels.len() && levels[placed[x] as int]
            == 0
    &&& forall|p: int, k: int|
        0 <= p < nodes.len() && 0 <= k < nodes[p].children.len() ==> {
            let c = #[trigger] nodes[p].children[k];
            c < levels.len() && levels[c as int] == levels[p] + 1
        }
    &&& forall|i: int| 0 <= i < levels.len() ==> #[trigger] levels[i] <= i
}

/// What a node that had its turn has to show for it.
pub(crate) open spec fn settled(g: Lists, prune: PruneView, st: Sampling, levels: Seq<nat>, v: usize) -> bool {
    let list = g[v as int];
    let node = st.nodes[st.ids[v] as int];
    let spent = st.ids.len() >= prune.max_nodes;
    if is_to_open(prune, v, levels[st.ids[v] as int]) {
        &&& spent || forall|i: int|
            0 <= i < list.len() && is_taken(prune.fanout, list.len() as int, i)
                ==> st.ids.contains_key(#[trigger] list[i])
        &&& prune.fanout matches Some(k) ==> node.children.len() <= k
        &&& st.truncated.contains(v) ==> list.len() > 0 && (spent || (
        prune.fanout matches Some(k) && list.len() > k))
    } else {
        &&& node.children.len() == 0
        &&& st.truncated.contains(v) <==> list.len() > 0
    }
}

/// What a node that still has its turn to come shows.
pub(crate) open spec fn fresh(st: Sampling, v: usize) -> bool {
    st.nodes[st.ids[v] as int].children.len() == 0 && !st.truncated.contains(v)
}

/// The tree nodes that are there stay, and stand for what they did.
pub(crate) open spec fn same_graphs(a: Seq<NodeView>, b: Seq<NodeView>) -> bool {
    &&& a.len() <= b.len()
    &&& forall|i: int| 0 <= i < a.len() ==> (#[trigger] a[i]).graph == b[i].graph
}

spec fn telling_but(
    g: Lists,
    prune: PruneView,
    st: Sampling,
    placed: Seq<usize>,
    levels: Seq<nat>,
    head: int,
    u: usize,
) -> bool {
    &&& sampling_but(g, prune.max_nodes, st, placed, head, u)
    &&& leveled(st.nodes, placed, levels)
    &&& forall|x: int|
        0 <= x < st.queue.len() ==> levels[st.ids[(#[trigger] st.queue[x]).0] as int]
            == st.queue[x].1
    &&& prune.depth matches Some(d) ==> forall|i: int|
        0 <= i < levels.len() ==> #[trigger] levels[i] <= d
    &&& forall|v: usize| #[trigger] st.truncated.contains(v) ==> st.ids.contains_key(v)
    &&& forall|v: usize| #[trigger]
        st.ids.contains_key(v) && v != u ==> if waits(st.queue, head, v) {
            fresh(st, v)
        } else {
            settled(g, prune, st, levels, v)
        }
}

pub(crate) open spec fn telling(
    g: Lists,
    prune: PruneView,
    st: Sampling,
    placed: Seq<usize>,
    levels: Seq<nat>,
    head: int,
) -> bool {
    &&& sampling(g, prune.max_nodes, st, placed, head)
    &&& leveled(st.nodes, placed, levels)
    &&& forall|x: int|
        0 <= x < st.queue.len() ==> levels[st.ids[(#[trigger] st.queue[x]).0] as int]
            == st.queue[x].1
    &&& prune.depth matches Some(d) ==> forall|i: int|
        0 <= i < levels.len() ==> #[trigger] levels[i] <= d
    &&& forall|v: usize| #[trigger] st.truncated.contains(v) ==> st.ids.contains_key(v)
    &&& forall|v: usize| #[trigger]
        st.ids.contains_key(v) ==> if waits(st.queue, head, v) {
            fresh(st, v)
        } else {
            settled(g, prune, st, levels, v)
        }
}

proof fn drawing_one(
    g: Lists,
    prune: PruneView,
    st: Sampling,
    placed: Seq<usize>,
    levels: Seq<nat>,
    head: int,
    u: usize,
    level: usize,
    w: usize,
)
    requires
        telling_but(g, prune, st, placed, levels, head, u),
        st.ids.len() < prune.max_nodes,
        st.ids.contains_key(u),
        levels[st.ids[u] as int] == level,
        prune.depth matches Some(d) ==> level < d,
        g[u as int].contains(w),
        !st.ids.contains_key(w),
        w < g.len() <= usize::MAX,
        0 <= head <= st.queue.len(),
        !waits(st.queue, head, u),
    ensures
        ({
            let next = drawn_under(st, u, level, w);
            &&& telling_but(g, prune, next, placed, levels.push((level + 1) as nat), head, u)
            &&& next.nodes[next.ids[u] as int].children
                == st.nodes[st.ids[u] as int].children.push(st.nodes.len() as usize)
            &&& next.ids[u] == st.ids[u]
            &&& !waits(next.queue, head, u)
            &&& next.ids.len() == st.ids.len() + 1
            &&& same_graphs(st.nodes, next.nodes)
        }),
{
    few_nodes(g, st.nodes, st.ids);
    drawn_under_keeps(g, prune.max_nodes, st, placed, head, u, level, w);
    let next = drawn_under(st, u, level, w);
    let after = levels.push((level + 1) as nat);
    let at = st.ids[u] as int;
    let id = st.nodes.len() as usize;
    assert(levels[at] <= at);
    assert forall|p: int, k: int|
        0 <= p < next.nodes.len() && 0 <= k < next.nodes[p].children.len() implies {
        let c = #[trigger] next.nodes[p].children[k];
        c < after.len() && after[c as int] == after[p] + 1
    } by {
        if p == at && k == st.nodes[at].children.len() {
            assert(next.nodes[p].children[k] == id);
        } else {
            assert(next.nodes[p].children[k] == st.nodes[p].children[k]);
            assert(st.nodes[p].children[k] < levels.len());
        }
    }
    assert forall|x: int| 0 <= x < next.queue.len() implies after[next.ids[(
    #[trigger] next.queue[x]).0] as int] == next.queue[x].1 by {
        if x < st.queue.len() {
            assert(next.queue[x] == st.queue[x]);
            assert(st.ids.contains_key(st.queue[x].0));
        } else {
            assert(next.queue[x].0 == w);
        }
    }
    assert forall|v: usize| #[trigger] waits(next.queue, head, v) <==> waits(st.queue, head, v)
        || v == w by {
        if waits(st.queue, head, v) {
            let x = choose|x: int| head <= x < st.queue.len() && (#[trigger] st.queue[x]).0 == v;
            assert(next.queue[x] == st.queue[x]);
        }
        if waits(next.queue, head, v) {
            let x = choose|x: int| head <= x < next.queue.len() && (#[trigger] next.queue[x]).0 == v;
            if x < st.queue.len() {
                assert(next.queue[x] == st.queue[x]);
            }
        }
        assert(next.queue[st.queue.len() as int].0 == w);
    }
    assert forall|v: usize| #[trigger] next.ids.contains_key(v) && v != u implies if waits(
        next.queue,
        head,
        v,
    ) {
        fresh(next, v)
    } else {
        settled(g, prune, next, after, v)
    } by {
        if v == w {
        } else {
            assert(st.ids.contains_key(v));
            let i = st.ids[v] as int;
            assert(st.nodes[i].graph == Some(v) && st.nodes[at].graph == Some(u));
            assert(i != at);
            assert(next.nodes[i] == st.nodes[i]);
            if !waits(st.queue, head, v) {
                assert(settled(g, prune, st, levels, v));
            }
        }
    }
}

#[verifier::rlimit(40)]
proof fn drawing_all(
    g: Lists,
    prune: PruneView,
    st: Sampling,
    placed: Seq<usize>,
    levels: Seq<nat>,
    head: int,
    u: usize,
    level: usize,
    chosen: Seq<usize>,
    k: int,
) -> (after: Seq<nat>)
    requires
        telling_but(g, prune, st, placed, levels, head, u),
        st.ids.contains_key(u),
        levels[st.ids[u] as int] == level,
        prune.depth matches Some(d) ==> level < d,
        g.len() <= usize::MAX,
        0 <= head <= st.queue.len(),
        !waits(st.queue, head, u),
        0 <= k <= chosen.len(),
        st.nodes[st.ids[u] as int].children.len() == k,
        chosen.no_duplicates(),
        forall|i: int|
            #![trigger chosen[i]]
            0 <= i < chosen.len() ==> g[u as int].contains(chosen[i]) && chosen[i] < g.len(),
        forall|i: int|
            #![trigger chosen[i]]
            k <= i < chosen.len() ==> !st.ids.contains_key(chosen[i]),
    ensures
        ({
            let end = draw_all(prune.max_nodes, st, u, level, chosen, k);
            &&& telling_but(g, prune, end, placed, after, head, u)
            &&& same_graphs(st.nodes, end.nodes)
            &&& end.ids.contains_key(u)
            &&& end.ids[u] == st.ids[u]
            &&& after[end.ids[u] as int] == level
            &&& !waits(end.queue, head, u)
            &&& end.nodes[end.ids[u] as int].children.len() <= chosen.len()
            &&& end.ids.len() >= prune.max_nodes || forall|i: int|
                #![trigger chosen[i]]
                k <= i < chosen.len() ==> end.ids.contains_key(chosen[i])
            &&& forall|v: usize| #[trigger] st.ids.contains_key(v) ==> end.ids.contains_key(v)
            &&& end.truncated.contains(u) ==> st.truncated.contains(u) || (k < chosen.len()
                && end.ids.len() >= prune.max_nodes)
        }),
    decreases chosen.len() - k,
{
    if k >= chosen.len() {
        levels
    } else if st.ids.len() >= prune.max_nodes {
        let end = Sampling { truncated: st.truncated.insert(u), ..st };
        assert(draw_all(prune.max_nodes, st, u, level, chosen, k) == end);
        assert forall|v: usize| #[trigger] end.ids.contains_key(v) && v != u implies if waits(
            end.queue,
            head,
            v,
        ) {
            fresh(end, v)
        } else {
            settled(g, prune, end, levels, v)
        } by {
            assert(st.ids.contains_key(v));
            if !waits(st.queue, head, v) {
                assert(settled(g, prune, st, levels, v));
            }
        }
        levels
    } else {
        let w = chosen[k];
        drawing_one(g, prune, st, placed, levels, head, u, level, w);
        let next = drawn_under(st, u, level, w);
        let more = levels.push((level + 1) as nat);
        assert(st.ids[u] < levels.len());
        let after = drawing_all(
            g,
            prune,
            next,
            placed,
            more,
            head,
            u,
            level,
            chosen,
            k + 1,
        );
        let end = draw_all(prune.max_nodes, next, u, level, chosen, k + 1);
        assert forall|i: int| 0 <= i < st.nodes.len() implies (#[trigger] st.nodes[i]).graph
            == end.nodes[i].graph by {
            assert(next.nodes[i].graph == st.nodes[i].graph);
        }
        assert(next.ids.contains_key(w));
        assert forall|v: usize| #[trigger] st.ids.contains_key(v) implies end.ids.contains_key(v) by {
            assert(next.ids.contains_key(v));
        }
        after
    }
}

/// Entry `i` of a list that is not drawn yet is no later among those that are not than
/// it is in the list, from either end.
proof fn fresh_keeps_its_place(ids: Map<usize, usize>, s: Seq<usize>, i: int)
    requires
        0 <= i < s.len(),
        !ids.contains_key(s[i]),
    ensures
        exists|j: int|
            0 <= j < fresh_of(ids, s).len() && #[trigger] fresh_of(ids, s)[j] == s[i] && j <= i
                && fresh_of(ids, s).len() - j <= s.len() - i,
    decreases s.len(),
{
    let f = s.drop_last();
    let all = fresh_of(ids, s);
    let front = fresh_of(ids, f);
    fresh_is_few(ids, f);
    if i == s.len() - 1 {
        assert(all[front.len() as int] == s[i]);
    } else {
        fresh_keeps_its_place(ids, f, i);
        assert(f[i] == s[i]);
        let j = choose|j: int|
            0 <= j < front.len() && #[trigger] front[j] == f[i] && j <= i && front.len() - j
                <= f.len() - i;
        assert(all[j] == s[i]);
    }
}

proof fn fresh_is_few(ids: Map<usize, usize>, s: Seq<usize>)
    ensures
        fresh_of(ids, s).len() <= s.len(),
    decreases s.len(),
{
    if s.len() > 0 {
        fresh_is_few(ids, s.drop_last());
    }
}

#[verifier::rlimit(40)]
pub(crate) proof fn opening(
    g: Lists,
    prune: PruneView,
    st: Sampling,
    placed: Seq<usize>,
    levels: Seq<nat>,
    head: int,
) -> (after: Seq<nat>)
    requires
        telling(g, prune, st, placed, levels, head),
        well_formed(g),
        g.len() <= usize::MAX,
        0 <= head < st.queue.len(),
    ensures
        telling(
            g,
            prune,
            opened(g, prune, st, st.queue[head].0, st.queue[head].1),
            placed,
            after,
            head + 1,
        ),
        st.queue.len() <= opened(g, prune, st, st.queue[head].0, st.queue[head].1).queue.len(),
        same_graphs(
            st.nodes,
            opened(g, prune, st, st.queue[head].0, st.queue[head].1).nodes,
        ),
        forall|v: usize| #[trigger]
            st.ids.contains_key(v) ==> opened(
                g,
                prune,
                st,
                st.queue[head].0,
                st.queue[head].1,
            ).ids.contains_key(v),
{
    let (u, level) = st.queue[head];
    let next = opened(g, prune, st, u, level);
    opened_keeps(g, prune, st, placed, head, u, level);
    let all = g[u as int];
    assert(st.ids.contains_key(st.queue[head].0));
    assert(successor_list(all, g.len()));
    assert(waits(st.queue, head, u));
    assert(fresh(st, u));
    assert(levels[st.ids[u] as int] == level);
    assert(opens(prune, u, level) == is_to_open(prune, u, level as nat));
    assert forall|v: usize| v != u implies (#[trigger] waits(st.queue, head, v) <==> waits(
        st.queue,
        head + 1,
        v,
    )) by {
        if waits(st.queue, head, v) {
            let x = choose|x: int| head <= x < st.queue.len() && (#[trigger] st.queue[x]).0 == v;
            assert(x != head);
        }
    }
    assert(!waits(st.queue, head + 1, u)) by {
        if waits(st.queue, head + 1, u) {
            let x = choose|x: int| head + 1 <= x < st.queue.len() && (#[trigger] st.queue[x]).0 == u;
            assert(st.queue[head].0 != st.queue[x].0);
        }
    }
    if !opens(prune, u, level) {
        assert forall|v: usize| #[trigger] next.ids.contains_key(v) implies if waits(
            next.queue,
            head + 1,
            v,
        ) {
            fresh(next, v)
        } else {
            settled(g, prune, next, levels, v)
        } by {
            if v != u {
                assert(st.ids.contains_key(v));
                if !waits(st.queue, head, v) {
                    assert(settled(g, prune, st, levels, v));
                }
            }
        }
        levels
    } else {
        let fan = fresh_of(st.ids, all);
        ascending_is_unique(all);
        fresh_is_exact(st.ids, all);
        let cut = prune.fanout matches Some(k) && fan.len() > k;
        let start = Sampling {
            dropped: (st.dropped + all.len() - fan.len()) as nat,
            truncated: if cut {
                st.truncated.insert(u)
            } else {
                st.truncated
            },
            ..st
        };
        let chosen = both_ends(fan, prune.fanout);
        ends_are_some(fan, prune.fanout);
        assert forall|i: int|
            #![trigger chosen[i]]
            0 <= i < chosen.len() implies g[u as int].contains(chosen[i]) && chosen[i] < g.len()
            && !st.ids.contains_key(chosen[i]) by {
            let j = fan.index_of(chosen[i]);
            assert(all.contains(fan[j]));
            let m = all.index_of(fan[j]);
            assert(all[m] < g.len());
        }
        assert(sampling_but(g, prune.max_nodes, start, placed, head + 1, u)) by {
            assert forall|v: usize| #[trigger] start.ids.contains_key(v) implies v == u
                || start.truncated.contains(v) || all_drawn(g, start.ids, v) || waits(
                start.queue,
                head + 1,
                v,
            ) by {
                assert(st.ids.contains_key(v));
                if v != u && waits(st.queue, head, v) {
                    assert(waits(st.queue, head + 1, v));
                }
            }
        }
        assert forall|v: usize| #[trigger] start.ids.contains_key(v) && v != u implies if waits(
            start.queue,
            head + 1,
            v,
        ) {
            fresh(start, v)
        } else {
            settled(g, prune, start, levels, v)
        } by {
            assert(st.ids.contains_key(v));
            assert(waits(st.queue, head, v) <==> waits(st.queue, head + 1, v));
            if !waits(st.queue, head, v) {
                assert(settled(g, prune, st, levels, v));
            }
        }
        assert(telling_but(g, prune, start, placed, levels, head + 1, u));
        let after = drawing_all(
            g,
            prune,
            start,
            placed,
            levels,
            head + 1,
            u,
            level,
            chosen,
            0,
        );
        assert(next == draw_all(prune.max_nodes, start, u, level, chosen, 0));
        if next.ids.len() < prune.max_nodes {
            assert forall|i: int|
                0 <= i < all.len() && is_taken(
                    prune.fanout,
                    all.len() as int,
                    i,
                ) implies next.ids.contains_key(#[trigger] all[i]) by {
                if !st.ids.contains_key(all[i]) {
                    fresh_keeps_its_place(st.ids, all, i);
                    let j = choose|j: int|
                        0 <= j < fan.len() && #[trigger] fan[j] == all[i] && j <= i && fan.len() - j
                            <= all.len() - i;
                    match prune.fanout {
                        Some(k) if fan.len() > k => {
                            let a = (k + 1) / 2;
                            if j < a {
                                assert(chosen[j] == all[i]);
                            } else {
                                let b = fan.len() - k as int / 2;
                                assert(j >= b);
                                assert(chosen[a + (j - b)] == all[i]);
                            }
                        },
                        _ => {
                            assert(chosen == fan);
                            assert(chosen[j] == all[i]);
                        },
                    }
                } else {
                    assert(start.ids.contains_key(all[i]));
                }
            }
        }
        assert(settled(g, prune, next, after, u));
        assert forall|v: usize| #[trigger] next.ids.contains_key(v) implies if waits(
            next.queue,
            head + 1,
            v,
        ) {
            fresh(next, v)
        } else {
            settled(g, prune, next, after, v)
        } by {}
        after
    }
}

proof fn spreading(
    g: Lists,
    prune: PruneView,
    st: Sampling,
    placed: Seq<usize>,
    levels: Seq<nat>,
    head: int,
) -> (after: Seq<nat>)
    requires
        telling(g, prune, st, placed, levels, head),
        well_formed(g),
        g.len() <= usize::MAX,
        0 <= head <= st.queue.len(),
    ensures
        ({
            let end = spread_rooted(g, prune, st, head);
            &&& telling(g, prune, end, placed, after, end.queue.len() as int)
            &&& same_graphs(st.nodes, end.nodes)
            &&& forall|v: usize| #[trigger] st.ids.contains_key(v) ==> end.ids.contains_key(v)
        }),
    decreases g.len() - head,
{
    sampled_queue_fits(g, prune.max_nodes, st, placed, head);
    if head < st.queue.len() {
        let (u, level) = st.queue[head];
        let more = opening(g, prune, st, placed, levels, head);
        let next = opened(g, prune, st, u, level);
        let after = spreading(g, prune, next, placed, more, head + 1);
        let end = spread_rooted(g, prune, next, head + 1);
        assert forall|i: int| 0 <= i < st.nodes.len() implies (#[trigger] st.nodes[i]).graph
            == end.nodes[i].graph by {
            assert(next.nodes[i].graph == st.nodes[i].graph);
        }
        assert forall|v: usize| #[trigger] st.ids.contains_key(v) implies end.ids.contains_key(v) by {
            assert(next.ids.contains_key(v));
        }
        after
    } else {
        levels
    }
}

#[verifier::rlimit(40)]
pub(crate) proof fn planting(
    g: Lists,
    prune: PruneView,
    st: Sampling,
    placed: Seq<usize>,
    levels: Seq<nat>,
    r: usize,
)
    requires
        telling(g, prune, st, placed, levels, st.queue.len() as int),
        well_formed(g),
        g.len() <= usize::MAX,
        r < g.len(),
        !st.ids.contains_key(r),
        st.ids.len() < prune.max_nodes,
    ensures
        telling(
            g,
            prune,
            planted_root(st, r),
            placed.push(st.nodes.len() as usize),
            levels.push(0nat),
            0,
        ),
{
    let start = planted_root(st, r);
    few_nodes(g, st.nodes, st.ids);
    faithful_root(g, st.nodes, st.ids, r);
    hangs_with_root(st.nodes, placed, r);
    let more = placed.push(st.nodes.len() as usize);
    let longer = levels.push(0nat);
    assert(start.queue[0].0 == r);
    assert(waits(start.queue, 0, r));
    assert forall|v: usize| v != r implies !#[trigger] waits(start.queue, 0, v) by {}
    assert(sampling(g, prune.max_nodes, start, more, 0)) by {
        assert forall|v: usize| #[trigger] start.ids.contains_key(v) implies
            start.truncated.contains(v) || all_drawn(g, start.ids, v) || waits(
            start.queue,
            0,
            v,
        ) by {
            if v != r {
                assert(st.ids.contains_key(v));
                assert(!waits(st.queue, st.queue.len() as int, v));
            }
        }
    }
    assert(leveled(start.nodes, more, longer)) by {
        assert forall|p: int, c: int|
            0 <= p < start.nodes.len() && 0 <= c < start.nodes[p].children.len() implies {
            let x = #[trigger] start.nodes[p].children[c];
            x < longer.len() && longer[x as int] == longer[p] + 1
        } by {
            assert(start.nodes[p] == st.nodes[p]);
            assert(st.nodes[p].children[c] < levels.len());
        }
        assert forall|x: int| 0 <= x < more.len() implies (#[trigger] more[x])
            < longer.len() && longer[more[x] as int] == 0 by {
            if x < placed.len() {
                assert(more[x] == placed[x]);
            }
        }
    }
    assert forall|v: usize| #[trigger] start.ids.contains_key(v) implies if waits(
        start.queue,
        0,
        v,
    ) {
        fresh(start, v)
    } else {
        settled(g, prune, start, longer, v)
    } by {
        if v != r {
            assert(st.ids.contains_key(v));
            assert(!waits(st.queue, st.queue.len() as int, v));
            assert(settled(g, prune, st, levels, v));
            assert(start.nodes[st.ids[v] as int] == st.nodes[st.ids[v] as int]);
        }
    }
    assert(telling(g, prune, start, more, longer, 0));
}

proof fn walking_from(
    g: Lists,
    prune: PruneView,
    st: Sampling,
    placed: Seq<usize>,
    levels: Seq<nat>,
    roots: Seq<usize>,
    k: int,
) -> (after: Seq<nat>)
    requires
        telling(g, prune, st, placed, levels, st.queue.len() as int),
        well_formed(g),
        g.len() <= usize::MAX,
        0 <= k <= roots.len(),
        forall|i: int| 0 <= i < roots.len() ==> #[trigger] roots[i] < g.len(),
        forall|x: int|
            0 <= x < placed.len() ==> roots.contains(
                (st.nodes[(#[trigger] placed[x]) as int].graph)->0,
            ),
    ensures
        rooted_at(g, prune, st, placed, roots, k) matches Ok((end, all)) ==> {
            &&& telling(g, prune, end, all, after, end.queue.len() as int)
            &&& forall|x: int|
                0 <= x < all.len() ==> roots.contains(
                    (end.nodes[(#[trigger] all[x]) as int].graph)->0,
                )
        },
    decreases roots.len() - k,
{
    if k < roots.len() {
        let r = roots[k];
        if st.ids.contains_key(r) {
            walking_from(g, prune, st, placed, levels, roots, k + 1)
        } else if st.ids.len() < prune.max_nodes {
            let start = planted_root(st, r);
            let more = placed.push(st.nodes.len() as usize);
            let longer = levels.push(0nat);
            planting(g, prune, st, placed, levels, r);
            let spread = spreading(g, prune, start, more, longer, 0);
            let next = spread_rooted(g, prune, start, 0);
            assert forall|x: int| 0 <= x < more.len() implies roots.contains(
                (next.nodes[(#[trigger] more[x]) as int].graph)->0,
            ) by {
                assert(start.nodes[more[x] as int].graph == next.nodes[more[x] as int].graph);
                if x < placed.len() {
                    assert(more[x] == placed[x]);
                    assert(placed[x] < levels.len());
                } else {
                    assert(roots[k] == r);
                }
            }
            walking_from(g, prune, next, more, spread, roots, k + 1)
        } else {
            levels
        }
    } else {
        levels
    }
}

proof fn a_path_has_its_level(
    nodes: Seq<NodeView>,
    placed: Seq<usize>,
    levels: Seq<nat>,
    path: Seq<usize>,
)
    requires
        leveled(nodes, placed, levels),
        is_path(nodes, path),
        placed.contains(path[0]),
    ensures
        path.last() < levels.len(),
        levels[path.last() as int] == path.len() - 1,
    decreases path.len(),
{
    if path.len() == 1 {
        let x = placed.index_of(path[0]);
        assert(placed[x] == path[0]);
    } else {
        let shorter = path.drop_last();
        assert forall|i: int| 0 < i < shorter.len() implies is_child(
            nodes,
            shorter[i - 1] as int,
            #[trigger] shorter[i],
        ) by {
            assert(path[i] == shorter[i]);
        }
        a_path_has_its_level(nodes, placed, levels, shorter);
        let n = path.len() - 1;
        assert(is_child(nodes, path[n - 1] as int, path[n]));
        let k = choose|k: int| #[trigger] child_at(nodes, path[n - 1] as int, k, path[n]);
        assert(nodes[path[n - 1] as int].children[k] == path[n]);
    }
}

/// A drawing from chosen roots is as deep as was asked for. Take any way down the tree
/// from where a walk began, to the tree node of graph node `v`: it has no more steps
/// than the depth asked for. If it has fewer, and `v` is on the spine where there is
/// one, then `v` is opened: every successor that the fanout takes is drawn, unless the
/// budget of nodes is spent; no more hang under it than the fanout allows; and it is
/// reported as cut only if its fan is longer than the fanout or the budget is spent.
/// Otherwise nothing hangs under it, and it is reported as cut exactly if it has a
/// successor. And every walk began at a root that was asked for.
pub proof fn a_drawing_is_as_deep_as_was_asked(
    g: Lists,
    roots: Seq<usize>,
    prune: PruneView,
    path: Seq<usize>,
)
    requires
        well_formed(g),
        g.len() <= usize::MAX,
    ensures
        sampled(g, Seq::empty(), roots, prune) matches Ok((st, placed)) ==> {
            &&& forall|x: int|
                0 <= x < placed.len() ==> roots.contains(
                    (st.nodes[(#[trigger] placed[x]) as int].graph)->0,
                )
            &&& is_path(st.nodes, path) && placed.contains(path[0]) ==> {
                let steps = (path.len() - 1) as nat;
                let node = st.nodes[path.last() as int];
                let v = node.graph->0;
                let list = g[v as int];
                let spent = st.nodes.len() >= prune.max_nodes;
                &&& path.last() < st.nodes.len()
                &&& node.graph is Some
                &&& prune.depth matches Some(d) ==> steps <= d
                &&& is_to_open(prune, v, steps) ==> {
                    &&& spent || forall|i: int|
                        0 <= i < list.len() && is_taken(prune.fanout, list.len() as int, i)
                            ==> st.ids.contains_key(#[trigger] list[i])
                    &&& prune.fanout matches Some(k) ==> node.children.len() <= k
                    &&& st.truncated.contains(v) ==> list.len() > 0 && (spent || (
                    prune.fanout matches Some(k) && list.len() > k))
                }
                &&& !is_to_open(prune, v, steps) ==> {
                    &&& node.children.len() == 0
                    &&& st.truncated.contains(v) <==> list.len() > 0
                }
            }
        },
{
    if let Ok((st, placed)) = sampled(g, Seq::empty(), roots, prune) {
        let start = nothing_drawn(Seq::empty());
        missing_is_none(roots, g.len(), 0);
        assert(telling(g, prune, start, Seq::empty(), Seq::empty(), 0));
        let levels = walking_from(g, prune, start, Seq::empty(), Seq::empty(), roots, 0);
        if is_path(st.nodes, path) && placed.contains(path[0]) {
            a_path_has_its_level(st.nodes, placed, levels, path);
            let i = path.last() as int;
            assert(st.nodes[i].graph matches Some(v) && st.ids.contains_key(v) && st.ids[v] == i);
            let v = st.nodes[i].graph->0;
            assert(!waits(st.queue, st.queue.len() as int, v));
            assert(settled(g, prune, st, levels, v));
        }
    }
}

} // verus!
