//! What a scene shows of the graph it was drawn from.

use vstd::prelude::*;

use crate::forest::{bare, joined, joined_is_a_tree, sampled, swept, NodeView, PruneView};
use crate::forest_laws::{
    a_forest_is_the_whole_graph, anchored, faithful, hangs_together, is_arc, the_cut_is_reported,
};
use crate::graph::{well_formed, Lists};
use crate::scene::{
    a_scene_has_every_node_once, all_hang, child_at, children_are_drawn, flattened, hangs_under,
    is_child, is_drawn_as, is_path, is_tree, Placed, NO_PARENT,
};

verus! {

/// The root of a tree of several roots joined, or of one alone.
pub open spec fn root_of(nodes: Seq<NodeView>, roots: Seq<usize>) -> usize {
    if roots.len() > 1 {
        nodes.len() as usize
    } else {
        roots[0]
    }
}

/// Entry `i` is that of graph node `v`.
pub open spec fn is_entry_of(placed: Seq<Placed>, v: usize, i: int) -> bool {
    0 <= i < placed.len() && placed[i].graph == v
}

/// Graph node `v` has an entry.
pub open spec fn has_entry(placed: Seq<Placed>, v: usize) -> bool {
    exists|i: int| #[trigger] is_entry_of(placed, v, i)
}

/// The entries are the graph nodes with a tree node, one entry each, and an entry
/// hangs off one that has an arc to it, or off none.
pub open spec fn shows(g: Lists, ids: Map<usize, usize>, placed: Seq<Placed>) -> bool {
    &&& forall|v: usize| #[trigger] ids.contains_key(v) ==> has_entry(placed, v)
    &&& forall|i: int|
        0 <= i < placed.len() ==> ids.contains_key((#[trigger] placed[i]).graph as usize)
    &&& forall|i: int, j: int|
        0 <= i < j < placed.len() ==> (#[trigger] placed[i]).graph != (#[trigger] placed[j]).graph
    &&& forall|i: int|
        0 <= i < placed.len() && (#[trigger] placed[i]).parent != NO_PARENT ==> {
            &&& placed[i].parent < placed.len()
            &&& is_arc(
                g,
                Some(placed[placed[i].parent as int].graph as usize),
                Some(placed[i].graph as usize),
            )
        }
}

/// A way from the root to tree node `i`.
proof fn way_to(nodes: Seq<NodeView>, roots: Seq<usize>, i: int) -> (path: Seq<usize>)
    requires
        hangs_together(nodes, roots),
        roots.len() > 0,
        0 <= i < nodes.len() <= usize::MAX,
    ensures
        is_path(joined(nodes, roots), path),
        path[0] == root_of(nodes, roots),
        path.last() == i,
    decreases i,
{
    let all = joined(nodes, roots);
    assert(anchored(nodes, roots, i));
    if roots.contains(i as usize) {
        if roots.len() > 1 {
            let k = roots.index_of(i as usize);
            assert(child_at(all, nodes.len() as int, k, i as usize));
            assert(is_child(all, nodes.len() as int, i as usize));
            seq![nodes.len() as usize, i as usize]
        } else {
            seq![i as usize]
        }
    } else {
        let p = choose|p: int| 0 <= p < i && #[trigger] is_child(nodes, p, i as usize);
        let k = choose|k: int| #[trigger] child_at(nodes, p, k, i as usize);
        assert(child_at(all, p, k, i as usize));
        assert(is_child(all, p, i as usize));
        let above = way_to(nodes, roots, p);
        let path = above.push(i as usize);
        assert forall|x: int| 0 < x < path.len() implies is_child(
            all,
            path[x - 1] as int,
            #[trigger] path[x],
        ) by {
            if x < above.len() {
                assert(path[x] == above[x]);
            } else {
                assert(path[x - 1] == above.last());
            }
        }
        path
    }
}

proof fn a_faithful_tree_is_shown(
    g: Lists,
    nodes: Seq<NodeView>,
    ids: Map<usize, usize>,
    roots: Seq<usize>,
)
    requires
        faithful(g, nodes, ids),
        hangs_together(nodes, roots),
        roots.len() > 0,
        g.len() <= u32::MAX,
        joined(nodes, roots).len() <= u32::MAX,
    ensures
        is_tree(joined(nodes, roots), root_of(nodes, roots) as int),
        all_hang(joined(nodes, roots), root_of(nodes, roots)),
        shows(g, ids, flattened(joined(nodes, roots), root_of(nodes, roots)).placed),
{
    let all = joined(nodes, roots);
    let root = root_of(nodes, roots);
    let flat = flattened(all, root);
    joined_is_a_tree(nodes, roots);
    assert(children_are_drawn(all)) by {
        assert forall|p: int, k: int|
            0 <= p < all.len() && 0 <= k < all[p].children.len() implies all[(
        #[trigger] all[p].children[k]) as int].graph is Some by {
            if p < nodes.len() {
                assert(nodes[p].children[k] < nodes.len());
                assert(all[all[p].children[k] as int] == nodes[nodes[p].children[k] as int]);
            } else {
                assert(roots[k] < nodes.len());
                assert(all[roots[k] as int] == nodes[roots[k] as int]);
            }
        }
    }
    assert(roots[0] < nodes.len());
    assert forall|v: usize| v < all.len() implies #[trigger] hangs_under(all, root, v) by {
        if v < nodes.len() {
            let path = way_to(nodes, roots, v as int);
            assert(is_path(all, path));
        } else {
            let path = seq![root];
            assert(is_path(all, path));
        }
    }
    let here = way_to(nodes, roots, 0);
    a_scene_has_every_node_once(all, root, here);
    // The tree node of an entry, and the graph node it stands for.
    assert forall|i: int| 0 <= i < flat.placed.len() implies {
        let id = #[trigger] flat.order[i] as int;
        &&& 0 <= id < nodes.len()
        &&& nodes[id].graph == Some(flat.placed[i].graph as usize)
        &&& ids.contains_key(flat.placed[i].graph as usize)
        &&& ids[flat.placed[i].graph as usize] == id
    } by {
        let id = flat.order[i] as int;
        assert(is_drawn_as(all[id], flat.placed[i]));
        assert(all[id] == nodes[id]);
        assert(nodes[id].graph matches Some(v) && ids.contains_key(v) && ids[v] == id);
    }
    assert forall|v: usize| #[trigger] ids.contains_key(v) implies has_entry(flat.placed, v) by {
        let id = ids[v];
        let path = way_to(nodes, roots, id as int);
        a_scene_has_every_node_once(all, root, path);
        assert(all[id as int] == nodes[id as int]);
        let i = flat.order.index_of(id);
        assert(flat.order[i] == id);
        assert(is_entry_of(flat.placed, v, i));
    }
    assert forall|i: int| 0 <= i < flat.placed.len() implies ids.contains_key(
        (#[trigger] flat.placed[i]).graph as usize,
    ) by {
        assert(flat.order[i] < nodes.len());
    }
    assert forall|i: int, j: int| 0 <= i < j < flat.placed.len() implies (
    #[trigger] flat.placed[i]).graph != (#[trigger] flat.placed[j]).graph by {
        assert(flat.order[i] != flat.order[j]);
    }
    assert forall|i: int|
        0 <= i < flat.placed.len() && (#[trigger] flat.placed[i]).parent != NO_PARENT implies {
        &&& flat.placed[i].parent < flat.placed.len()
        &&& is_arc(
            g,
            Some(flat.placed[flat.placed[i].parent as int].graph as usize),
            Some(flat.placed[i].graph as usize),
        )
    } by {
        let up = flat.placed[i].parent as int;
        let p = flat.order[up] as int;
        let c = flat.order[i];
        assert(is_child(all, p, c));
        let k = choose|k: int| #[trigger] child_at(all, p, k, c);
        assert(all[p] == nodes[p]);
        assert(nodes[p].children[k] == c);
        assert(is_arc(g, nodes[p].graph, nodes[c as int].graph));
    }
}

/// The scene of a whole graph has every node of it, once, and hangs each under a
/// node that has an arc to it, or under none: nothing is lost to an added root,
/// and the root is not in the scene itself.
pub proof fn a_scene_shows_the_whole_graph(g: Lists)
    requires
        well_formed(g),
        0 < g.len() < u32::MAX,
    ensures
        ({
            let (st, roots) = swept(g, bare(Seq::empty()), Seq::empty(), 0);
            let placed = flattened(joined(st.nodes, roots), root_of(st.nodes, roots)).placed;
            &&& shows(g, st.ids, placed)
            &&& all_hang(joined(st.nodes, roots), root_of(st.nodes, roots))
            &&& forall|v: usize| v < g.len() ==> #[trigger] has_entry(placed, v)
        }),
{
    a_forest_is_the_whole_graph(g);
    let (st, roots) = swept(g, bare(Seq::empty()), Seq::empty(), 0);
    assert(anchored(st.nodes, roots, 0));
    a_faithful_tree_is_shown(g, st.nodes, st.ids, roots);
    let placed = flattened(joined(st.nodes, roots), root_of(st.nodes, roots)).placed;
    assert forall|v: usize| v < g.len() implies #[trigger] has_entry(placed, v) by {
        assert(st.ids.contains_key(v));
    }
}

/// The scene of a walk from chosen roots has every node the walk drew, once, and
/// hangs each under a node that has an arc to it, or under none.
pub proof fn a_scene_shows_what_was_drawn(g: Lists, roots: Seq<usize>, prune: PruneView)
    requires
        well_formed(g),
        g.len() <= u32::MAX,
        prune.max_nodes < u32::MAX,
    ensures
        sampled(g, Seq::empty(), roots, prune) matches Ok((st, placed)) ==> {
            &&& shows(
                g,
                st.ids,
                flattened(joined(st.nodes, placed), root_of(st.nodes, placed)).placed,
            )
            &&& all_hang(joined(st.nodes, placed), root_of(st.nodes, placed))
        },
{
    the_cut_is_reported(g, roots, prune);
    if let Ok((st, placed)) = sampled(g, Seq::empty(), roots, prune) {
        assert(st.ids.contains_key(roots[0]));
        assert(anchored(st.nodes, placed, 0)) by {
            assert(st.nodes.len() > 0);
        }
        a_faithful_tree_is_shown(g, st.nodes, st.ids, placed);
    }
}

} // verus!
