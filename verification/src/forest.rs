//! A graph read as a tree.
//!
//! Nothing says the input is a tree. A node reachable along two different paths
//! has two parents, which a tree cannot hold, so what is built is a spanning
//! forest: a breadth-first walk from each root in turn, where the first arc to
//! reach a node is the one that becomes its edge and every later arc into it is
//! dropped and counted.
//!
//! A root is a node the walk has not already reached. Node order is swept once
//! and every node still unvisited when its turn comes starts a walk of its own,
//! so nothing goes undrawn and every true source is a root. Where there is more
//! than one root, a node that stands for nothing is made the parent of all of
//! them, to give a layout the single root it needs.

use std::collections::{HashMap, HashSet};

use vstd::prelude::*;
use vstd::string::*;

use crate::blocks::{no_such_node, wrapped};
use crate::graph::{successor_list, Graph, Lists};
use crate::scene::{is_forest, is_top, is_tree};
use crate::settle::bounded_unique;
use crate::text::{dec, push_dec};

verus! {

broadcast use vstd::std_specs::hash::group_hash_axioms;

/// A node of a tree: the graph node it stands for, or none, and the tree nodes
/// under it.
pub struct TreeNode {
    pub graph: Option<usize>,
    pub children: Vec<usize>,
}

/// A tree to lay out, its nodes known by their numbers.
pub struct Tree {
    pub nodes: Vec<TreeNode>,
}

/// A node of a tree as a mathematical value.
pub struct NodeView {
    pub graph: Option<usize>,
    pub children: Seq<usize>,
}

impl View for TreeNode {
    type V = NodeView;

    open spec fn view(&self) -> NodeView {
        NodeView { graph: self.graph, children: self.children@ }
    }
}

impl View for Tree {
    type V = Seq<NodeView>;

    open spec fn view(&self) -> Seq<NodeView> {
        self.nodes@.map_values(|n: TreeNode| n@)
    }
}

/// A node with nothing under it.
pub open spec fn leaf(graph: usize) -> NodeView {
    NodeView { graph: Some(graph), children: Seq::empty() }
}

/// The tree with node `child` under node `parent`, after those already there.
pub open spec fn hung(nodes: Seq<NodeView>, parent: int, child: usize) -> Seq<NodeView> {
    nodes.update(
        parent,
        NodeView { children: nodes[parent].children.push(child), ..nodes[parent] },
    )
}

impl Tree {
    /// A tree without nodes.
    pub fn new() -> (tree: Tree)
        ensures
            tree@ == Seq::<NodeView>::empty(),
    {
        let tree = Tree { nodes: Vec::new() };
        assert(tree@ =~= Seq::<NodeView>::empty());
        tree
    }

    /// How many nodes the tree has.
    pub fn len(&self) -> (n: usize)
        ensures
            n == self@.len(),
    {
        self.nodes.len()
    }

    /// Adds a node for a graph node, with nothing over or under it yet.
    pub fn add_node(&mut self, graph: usize) -> (id: usize)
        ensures
            id == old(self)@.len(),
            final(self)@ == old(self)@.push(leaf(graph)),
    {
        let id: usize = self.nodes.len();
        self.nodes.push(TreeNode { graph: Some(graph), children: Vec::new() });
        assert(self@ =~= old(self)@.push(leaf(graph)));
        id
    }

    /// Hangs node `child` under node `parent`, after those already there.
    pub fn push_child(&mut self, parent: usize, child: usize)
        requires
            parent < old(self)@.len(),
        ensures
            final(self)@ == hung(old(self)@, parent as int, child),
    {
        self.nodes[parent].children.push(child);
        assert(self@ =~= hung(old(self)@, parent as int, child));
    }

    /// Adds a node that stands for nothing over `children`.
    pub fn add_root(&mut self, children: Vec<usize>) -> (id: usize)
        ensures
            id == old(self)@.len(),
            final(self)@ == old(self)@.push(NodeView { graph: None, children: children@ }),
    {
        let id: usize = self.nodes.len();
        let ghost c = children@;
        self.nodes.push(TreeNode { graph: None, children });
        assert(self@ =~= old(self)@.push(NodeView { graph: None, children: c }));
        id
    }
}

/// A forest being grown: the tree so far, the tree node of every graph node
/// reached, the arcs dropped, and the graph nodes reached from the root in
/// hand, in order.
pub struct Growth {
    pub nodes: Seq<NodeView>,
    pub ids: Map<usize, usize>,
    pub dropped: nat,
    pub queue: Seq<usize>,
}

/// The forest after the arc from `u` to `w` was followed: a node that is
/// already reached costs the arc, any other is hung under `u`.
pub open spec fn follow(st: Growth, u: usize, w: usize) -> Growth {
    if st.ids.contains_key(w) {
        Growth { dropped: st.dropped + 1, ..st }
    } else {
        let id = st.nodes.len() as usize;
        Growth {
            nodes: hung(st.nodes.push(leaf(w)), st.ids[u] as int, id),
            ids: st.ids.insert(w, id),
            dropped: st.dropped,
            queue: st.queue.push(w),
        }
    }
}

/// The forest after the arcs of `u` from the `k`th on were followed.
pub open spec fn follow_all(g: Lists, st: Growth, u: usize, k: int) -> Growth
    decreases g[u as int].len() - k,
{
    if k >= g[u as int].len() {
        st
    } else {
        follow_all(g, follow(st, u, g[u as int][k]), u, k + 1)
    }
}

/// The forest after everything reached from the root in hand, from the
/// `head`th node on, has had its arcs followed. No more nodes are reached than
/// the graph has.
pub open spec fn spread(g: Lists, st: Growth, head: int) -> Growth
    decreases g.len() - head,
{
    if head >= st.queue.len() || head >= g.len() {
        st
    } else {
        spread(g, follow_all(g, st, st.queue[head], 0), head + 1)
    }
}

/// The forest with a new root for graph node `v`, nothing reached from it yet.
pub open spec fn planted(st: Growth, v: usize) -> Growth {
    let id = st.nodes.len() as usize;
    Growth {
        nodes: st.nodes.push(leaf(v)),
        ids: st.ids.insert(v, id),
        dropped: st.dropped,
        queue: seq![v],
    }
}

/// The forest and its roots after the sweep from node `v` on.
pub open spec fn swept(g: Lists, st: Growth, roots: Seq<usize>, v: int) -> (Growth, Seq<usize>)
    decreases g.len() - v,
{
    if v >= g.len() {
        (st, roots)
    } else if st.ids.contains_key(v as usize) {
        swept(g, st, roots, v + 1)
    } else {
        swept(
            g,
            spread(g, planted(st, v as usize), 0),
            roots.push(st.nodes.len() as usize),
            v + 1,
        )
    }
}

/// A forest that has reached nothing, on top of the nodes that are there.
pub open spec fn bare(nodes: Seq<NodeView>) -> Growth {
    Growth { nodes, ids: Map::empty(), dropped: 0, queue: Seq::empty() }
}

/// The tree with one node over several roots, where there are several.
pub open spec fn joined(nodes: Seq<NodeView>, roots: Seq<usize>) -> Seq<NodeView> {
    if roots.len() > 1 {
        nodes.push(NodeView { graph: None, children: roots })
    } else {
        nodes
    }
}

/// What the walk over a graph produced, beyond the tree itself.
pub struct Forest {
    pub root: usize,
    /// Nodes that started a walk of their own: those no earlier walk had reached.
    pub roots: usize,
    /// Arcs that would have given a node a second parent, and were dropped.
    pub dropped_arcs: u64,
    /// Whether a root standing for no node of the graph was added.
    pub synthetic_root: bool,
}

impl Forest {
    /// What a run has to say about a graph of so many nodes.
    pub open spec fn words(&self, nodes: nat) -> Seq<char> {
        let first = dec(nodes) + " nodes, "@ + dec(self.roots as nat) + " root(s)"@ + (
        if self.synthetic_root {
            ", one added root standing for no node"@
        } else {
            ""@
        });
        if self.dropped_arcs > 0 {
            first + "\n"@ + dec(self.dropped_arcs as nat)
                + " arc(s) not drawn: they would have given a node a second parent"@
        } else {
            first
        }
    }

    /// What a run has to say about the graph it just read: one line about the
    /// shape of the forest, and a second only when arcs went undrawn.
    pub fn summary(&self, nodes: usize) -> (s: String)
        ensures
            s@ == self.words(nodes as nat),
    {
        let mut s = String::new();
        push_dec(&mut s, nodes as u64);
        assert(s@ =~= dec(nodes as nat));
        s.append(" nodes, ");
        push_dec(&mut s, self.roots as u64);
        s.append(" root(s)");
        s.append(
            if self.synthetic_root {
                ", one added root standing for no node"
            } else {
                ""
            },
        );
        if self.dropped_arcs > 0 {
            s.append("\n");
            push_dec(&mut s, self.dropped_arcs);
            s.append(" arc(s) not drawn: they would have given a node a second parent");
        }
        s
    }
}

/// Every graph node reached is one of the graph, and its tree node one of the
/// tree; whatever waits in the queue has been reached, once.
spec fn sound(g: Lists, st: Growth) -> bool {
    &&& forall|v: usize|
        #[trigger] st.ids.contains_key(v) ==> v < g.len() && st.ids[v] < st.nodes.len()
    &&& st.queue.no_duplicates()
    &&& forall|x: int|
        #![trigger st.queue[x]]
        0 <= x < st.queue.len() ==> st.ids.contains_key(st.queue[x])
}

/// The vector of tree nodes says of graph node `v` what the forest says.
spec fn holds(ids: Seq<Option<usize>>, st: Growth, v: int) -> bool {
    match ids[v] {
        Some(id) => st.ids.contains_key(v as usize) && st.ids[v as usize] == id,
        None => !st.ids.contains_key(v as usize),
    }
}

/// Different tree nodes that are children of none.
pub open spec fn are_tops(nodes: Seq<NodeView>, roots: Seq<usize>) -> bool {
    &&& roots.no_duplicates()
    &&& forall|i: int|
        #![trigger roots[i]]
        0 <= i < roots.len() ==> roots[i] < nodes.len() && is_top(nodes, roots[i] as int)
}

pub(crate) proof fn forest_with_leaf(nodes: Seq<NodeView>, roots: Seq<usize>, v: usize)
    requires
        is_forest(nodes),
        are_tops(nodes, roots),
        nodes.len() <= usize::MAX,
    ensures
        is_forest(nodes.push(leaf(v))),
        are_tops(nodes.push(leaf(v)), roots),
        are_tops(nodes.push(leaf(v)), roots.push(nodes.len() as usize)),
{
    let after = nodes.push(leaf(v));
    let id = nodes.len() as usize;
    let more = roots.push(id);
    assert forall|p: int, k: int|
        0 <= p < after.len() && 0 <= k < after[p].children.len() implies (
    #[trigger] after[p].children[k]) < nodes.len() by {
        assert(nodes[p].children[k] < nodes.len());
    }
    assert forall|p: int, k: int, q: int, l: int|
        0 <= p < after.len() && 0 <= k < after[p].children.len() && 0 <= q < after.len() && 0 <= l
            < after[q].children.len() && (#[trigger] after[p].children[k])
            == (#[trigger] after[q].children[l]) implies p == q && k == l by {
        assert(nodes[p].children[k] == nodes[q].children[l]);
    }
    assert forall|i: int| #![trigger more[i]] 0 <= i < more.len() implies more[i] < after.len()
        && is_top(after, more[i] as int) by {
        if i < roots.len() {
            assert(more[i] == roots[i]);
            assert forall|p: int, k: int|
                0 <= p < after.len() && 0 <= k < after[p].children.len() implies (
            #[trigger] after[p].children[k]) != more[i] by {
                assert(nodes[p].children[k] != roots[i]);
            }
        }
    }
    assert forall|i: int| #![trigger roots[i]] 0 <= i < roots.len() implies roots[i] < after.len()
        && is_top(after, roots[i] as int) by {
        assert(more[i] == roots[i]);
    }
}

pub(crate) proof fn forest_with_hung_leaf(nodes: Seq<NodeView>, roots: Seq<usize>, parent: int, w: usize)
    requires
        is_forest(nodes),
        are_tops(nodes, roots),
        0 <= parent < nodes.len() <= usize::MAX,
    ensures
        is_forest(hung(nodes.push(leaf(w)), parent, nodes.len() as usize)),
        are_tops(hung(nodes.push(leaf(w)), parent, nodes.len() as usize), roots),
{
    let id = nodes.len() as usize;
    let longer = nodes.push(leaf(w));
    let after = hung(longer, parent, id);
    let last = nodes[parent].children.len() as int;
    assert forall|p: int, k: int|
        0 <= p < after.len() && 0 <= k < after[p].children.len() implies (
    #[trigger] after[p].children[k]) < after.len() && (after[p].children[k] == id <==> p == parent
        && k == last) by {
        if !(p == parent && k == last) {
            assert(after[p].children[k] == nodes[p].children[k]);
            assert(nodes[p].children[k] < nodes.len());
        }
    }
    assert forall|p: int, k: int, q: int, l: int|
        0 <= p < after.len() && 0 <= k < after[p].children.len() && 0 <= q < after.len() && 0 <= l
            < after[q].children.len() && (#[trigger] after[p].children[k])
            == (#[trigger] after[q].children[l]) implies p == q && k == l by {
        if after[p].children[k] != id {
            assert(nodes[p].children[k] == nodes[q].children[l]);
        }
    }
    assert forall|i: int| #![trigger roots[i]] 0 <= i < roots.len() implies roots[i] < after.len()
        && is_top(after, roots[i] as int) by {
        assert forall|p: int, k: int|
            0 <= p < after.len() && 0 <= k < after[p].children.len() implies (
        #[trigger] after[p].children[k]) != roots[i] by {
            if after[p].children[k] != id {
                assert(nodes[p].children[k] != roots[i]);
            }
        }
    }
}

/// Roots under one node are a tree, and so is a single root.
pub(crate) proof fn joined_is_a_tree(nodes: Seq<NodeView>, roots: Seq<usize>)
    requires
        is_forest(nodes),
        are_tops(nodes, roots),
        roots.len() > 0,
    ensures
        is_tree(
            joined(nodes, roots),
            if roots.len() > 1 { nodes.len() as int } else { roots[0] as int },
        ),
{
    let after = joined(nodes, roots);
    if roots.len() > 1 {
        let at = nodes.len() as int;
        assert forall|p: int, k: int|
            0 <= p < after.len() && 0 <= k < after[p].children.len() implies (
        #[trigger] after[p].children[k]) < nodes.len() by {
            if p == at {
                assert(roots[k] < nodes.len());
            } else {
                assert(nodes[p].children[k] < nodes.len());
            }
        }
        assert forall|p: int, k: int, q: int, l: int|
            0 <= p < after.len() && 0 <= k < after[p].children.len() && 0 <= q < after.len() && 0
                <= l < after[q].children.len() && (#[trigger] after[p].children[k])
                == (#[trigger] after[q].children[l]) implies p == q && k == l by {
            if p == at && q == at {
                assert(roots[k] == roots[l]);
            } else if p == at {
                assert(is_top(nodes, roots[k] as int));
                assert(nodes[q].children[l] != roots[k]);
            } else if q == at {
                assert(is_top(nodes, roots[l] as int));
                assert(nodes[p].children[k] != roots[l]);
            } else {
                assert(nodes[p].children[k] == nodes[q].children[l]);
            }
        }
    } else {
        assert(roots[0] < nodes.len() && is_top(nodes, roots[0] as int));
    }
}

/// Builds the spanning forest of `graph` on top of `tree`, rooted at a single
/// node.
pub fn build<G: Graph>(graph: &G, tree: &mut Tree) -> (r: Result<Forest, String>)
    ensures
        ({
            let g = graph.lists();
            let (st, roots) = swept(g, bare(old(tree)@), Seq::empty(), 0);
            match r {
                Ok(f) => {
                    &&& g.len() > 0
                    &&& final(tree)@ == joined(st.nodes, roots)
                    &&& f.roots == roots.len() > 0
                    &&& f.synthetic_root == (roots.len() > 1)
                    &&& f.root == if roots.len() > 1 { st.nodes.len() } else { roots[0] as nat }
                    &&& f.dropped_arcs == wrapped(st.dropped)
                    &&& old(tree)@.len() == 0 ==> is_tree(final(tree)@, f.root as int)
                },
                Err(e) => g.len() == 0 && e@ == "the graph has no nodes to draw"@
                    && *final(tree) == *old(tree),
            }
        }),
{
    let ghost g = graph.lists();
    let n: usize = graph.num_nodes();
    if n == 0 {
        return Err("the graph has no nodes to draw".to_owned());
    }
    let mut ids: Vec<Option<usize>> = Vec::new();
    let mut i: usize = 0;
    while i < n
        invariant
            i <= n,
            ids@.len() == i,
            forall|v: int| 0 <= v < i ==> #[trigger] ids@[v] is None,
        decreases n - i,
    {
        ids.push(None);
        i += 1;
    }
    let mut dropped: u64 = 0;
    let mut roots: Vec<usize> = Vec::new();
    let mut queue: Vec<usize> = Vec::new();
    let ghost mut st = bare(tree@);
    let ghost whole = swept(g, st, Seq::empty(), 0);
    let ghost fresh = tree@.len() == 0;
    let mut v: usize = 0;
    proof {
        assert forall|x: int| 0 <= x < n implies holds(ids@, st, x) by {
            assert(ids@[x] is None);
        }
    }
    while v < n
        invariant
            v <= n == g.len(),
            g == graph.lists(),
            ids@.len() == n,
            sound(g, st),
            forall|x: int| 0 <= x < n ==> #[trigger] holds(ids@, st, x),
            tree@ == st.nodes,
            dropped == wrapped(st.dropped),
            whole == swept(g, st, roots@, v as int),
            fresh ==> is_forest(st.nodes) && are_tops(st.nodes, roots@),
            v > 0 ==> roots@.len() > 0,
            v == 0 ==> st.ids == Map::<usize, usize>::empty(),
        decreases n - v,
    {
        assert(holds(ids@, st, v as int));
        if ids[v].is_some() {
            assert(v > 0);
            v += 1;
            continue ;
        }
        let ghost before = st;
        let ghost ids_before = ids@;
        proof {
            if fresh {
                assert(tree.nodes.len() == tree@.len());
                forest_with_leaf(st.nodes, roots@, v);
            }
        }
        let id: usize = tree.add_node(v);
        ids[v] = Some(id);
        roots.push(id);
        queue.clear();
        queue.push(v);
        proof {
            st = planted(st, v);
            assert(queue@ =~= st.queue);
            assert forall|x: int| 0 <= x < n implies #[trigger] holds(ids@, st, x) by {
                assert(holds(ids_before, before, x));
            }
        }
        let ghost start = st;
        let mut head: usize = 0;
        while head < queue.len()
            invariant
                head <= queue@.len(),
                n == g.len(),
                g == graph.lists(),
                ids@.len() == n,
                sound(g, st),
                forall|x: int| 0 <= x < n ==> #[trigger] holds(ids@, st, x),
                tree@ == st.nodes,
                queue@ == st.queue,
                dropped == wrapped(st.dropped),
                spread(g, start, 0) == spread(g, st, head as int),
                fresh ==> is_forest(st.nodes) && are_tops(st.nodes, roots@),
            decreases n - head,
        {
            proof {
                bounded_unique(queue@, n);
            }
            let u: usize = queue[head];
            assert(st.ids.contains_key(st.queue[head as int]));
            assert(holds(ids@, st, u as int));
            let parent: usize = ids[u].unwrap();
            let successors = graph.successors(u);
            let ghost first = st;
            let mut k: usize = 0;
            while k < successors.len()
                invariant
                    k <= successors@.len(),
                    n == g.len(),
                    u < n,
                    g == graph.lists(),
                    successors@ == g[u as int],
                    successor_list(successors@, g.len()),
                    ids@.len() == n,
                    sound(g, st),
                    forall|x: int| 0 <= x < n ==> #[trigger] holds(ids@, st, x),
                    tree@ == st.nodes,
                    queue@ == st.queue,
                    st.queue.len() >= first.queue.len(),
                    dropped == wrapped(st.dropped),
                    st.ids.contains_key(u),
                    st.ids[u] == parent,
                    follow_all(g, first, u, 0) == follow_all(g, st, u, k as int),
                    fresh ==> is_forest(st.nodes) && are_tops(st.nodes, roots@),
                decreases successors@.len() - k,
            {
                let w: usize = successors[k];
                assert(holds(ids@, st, w as int));
                if ids[w].is_some() {
                    let ghost now = st;
                    proof {
                        wrapped_next(st.dropped);
                        st = follow(st, u, w);
                        assert forall|x: int| 0 <= x < n implies #[trigger] holds(
                            ids@,
                            st,
                            x,
                        ) by {
                            assert(holds(ids@, now, x));
                        }
                    }
                    dropped = dropped.wrapping_add(1);
                } else {
                    let ghost now = st;
                    let ghost ids_now = ids@;
                    proof {
                        if fresh {
                            assert(tree.nodes.len() == tree@.len());
                            forest_with_hung_leaf(st.nodes, roots@, parent as int, w);
                        }
                    }
                    let child: usize = tree.add_node(w);
                    ids[w] = Some(child);
                    tree.push_child(parent, child);
                    queue.push(w);
                    proof {
                        st = follow(st, u, w);
                        assert forall|x: int| 0 <= x < n implies #[trigger] holds(
                            ids@,
                            st,
                            x,
                        ) by {
                            assert(holds(ids_now, now, x));
                        }
                        assert forall|x: usize| #[trigger] st.ids.contains_key(x) implies x < g.len()
                            && st.ids[x] < st.nodes.len() by {
                            if x != w {
                                assert(now.ids.contains_key(x));
                            }
                        }
                        assert forall|x: int| #![trigger st.queue[x]] 0 <= x
                            < st.queue.len() implies st.ids.contains_key(st.queue[x]) by {
                            if x < now.queue.len() {
                                assert(now.ids.contains_key(now.queue[x]));
                            }
                        }
                        assert(st.queue.no_duplicates()) by {
                            assert forall|a: int, b: int|
                                0 <= a < st.queue.len() && 0 <= b < st.queue.len() && a
                                    != b implies st.queue[a] != st.queue[b] by {
                                if a < now.queue.len() {
                                    assert(now.ids.contains_key(now.queue[a]));
                                }
                                if b < now.queue.len() {
                                    assert(now.ids.contains_key(now.queue[b]));
                                }
                            }
                        }
                    }
                }
                k += 1;
            }
            head += 1;
        }
        v += 1;
    }
    let count: usize = roots.len();
    proof {
        if fresh {
            joined_is_a_tree(st.nodes, roots@);
        }
    }
    let synthetic_root = count > 1;
    let root: usize = if synthetic_root {
        tree.add_root(roots)
    } else {
        roots[0]
    };
    Ok(Forest { root, roots: count, dropped_arcs: dropped, synthetic_root })
}

/// Where a walk from a chosen root is told to stop.
///
/// - `depth`: levels drawn below the root, the root itself being level 0. A
///   node on the last level is drawn, and what hangs under it is not.
/// - `max_nodes`: how many nodes the whole drawing may hold, roots included.
///   The walk is breadth first, so what a budget buys is the nearest part of
///   the subtree.
/// - `fanout`: how many children a node may have drawn under it. The first and
///   last of them in successor order stand for the rest, half the allowance
///   each.
/// - `expand`: when set, only these nodes are expanded; everything else is
///   drawn and left unexpanded.
pub struct Prune {
    pub depth: Option<usize>,
    pub max_nodes: usize,
    pub fanout: Option<usize>,
    pub expand: Option<HashSet<usize>>,
}

/// The limits of a walk as mathematical values.
pub struct PruneView {
    pub depth: Option<usize>,
    pub max_nodes: usize,
    pub fanout: Option<usize>,
    pub expand: Option<Set<usize>>,
}

impl View for Prune {
    type V = PruneView;

    open spec fn view(&self) -> PruneView {
        PruneView {
            depth: self.depth,
            max_nodes: self.max_nodes,
            fanout: self.fanout,
            expand: match self.expand {
                Some(nodes) => Some(nodes@),
                None => None,
            },
        }
    }
}

impl Default for Prune {
    fn default() -> (prune: Self)
        ensures
            prune@ == (PruneView {
                depth: None,
                max_nodes: usize::MAX,
                fanout: None,
                expand: None,
            }),
    {
        Prune { depth: None, max_nodes: usize::MAX, fanout: None, expand: None }
    }
}

/// A drawing of chosen subtrees being grown: the tree so far, the tree node of
/// every graph node drawn, the arcs dropped, the nodes whose successors were
/// left out, and the graph nodes under the root in hand with their levels, in
/// order.
pub struct Sampling {
    pub nodes: Seq<NodeView>,
    pub ids: Map<usize, usize>,
    pub dropped: nat,
    pub truncated: Set<usize>,
    pub queue: Seq<(usize, usize)>,
}

/// Those of `s` that are not drawn yet, in order.
pub open spec fn fresh_of(ids: Map<usize, usize>, s: Seq<usize>) -> Seq<usize>
    decreases s.len(),
{
    if s.len() == 0 {
        Seq::empty()
    } else {
        let front = fresh_of(ids, s.drop_last());
        if ids.contains_key(s.last()) {
            front
        } else {
            front.push(s.last())
        }
    }
}

/// What a fanout takes of a fan: all of it, or the first and the last of it,
/// half the allowance each and the odd one to the head.
pub open spec fn both_ends(fan: Seq<usize>, fanout: Option<usize>) -> Seq<usize> {
    match fanout {
        Some(k) if fan.len() > k => fan.take((k + 1) / 2) + fan.skip(fan.len() - k as int / 2),
        _ => fan,
    }
}

/// The drawing with graph node `w` hung under `u`.
pub open spec fn drawn_under(st: Sampling, u: usize, level: usize, w: usize) -> Sampling {
    let id = st.nodes.len() as usize;
    Sampling {
        nodes: hung(st.nodes.push(leaf(w)), st.ids[u] as int, id),
        ids: st.ids.insert(w, id),
        queue: st.queue.push((w, (level + 1) as usize)),
        ..st
    }
}

/// The drawing after the chosen successors of `u` from the `k`th on were hung
/// under it, as far as the budget goes.
pub open spec fn draw_all(
    max_nodes: usize,
    st: Sampling,
    u: usize,
    level: usize,
    chosen: Seq<usize>,
    k: int,
) -> Sampling
    decreases chosen.len() - k,
{
    if k >= chosen.len() {
        st
    } else if st.ids.len() >= max_nodes {
        Sampling { truncated: st.truncated.insert(u), ..st }
    } else {
        draw_all(max_nodes, drawn_under(st, u, level, chosen[k]), u, level, chosen, k + 1)
    }
}

/// Whether a node at this level is expanded.
pub open spec fn opens(prune: PruneView, u: usize, level: usize) -> bool {
    &&& prune.depth matches Some(limit) ==> level < limit
    &&& prune.expand matches Some(spine) ==> spine.contains(u)
}

/// The drawing after node `u` had its turn.
pub open spec fn opened(
    g: Lists,
    prune: PruneView,
    st: Sampling,
    u: usize,
    level: usize,
) -> Sampling {
    let all = g[u as int];
    if !opens(prune, u, level) {
        if all.len() > 0 {
            Sampling { truncated: st.truncated.insert(u), ..st }
        } else {
            st
        }
    } else {
        let fresh = fresh_of(st.ids, all);
        let cut = prune.fanout matches Some(k) && fresh.len() > k;
        let next = Sampling {
            dropped: (st.dropped + all.len() - fresh.len()) as nat,
            truncated: if cut { st.truncated.insert(u) } else { st.truncated },
            ..st
        };
        draw_all(prune.max_nodes, next, u, level, both_ends(fresh, prune.fanout), 0)
    }
}

/// The drawing after everything under the root in hand, from the `head`th node
/// on, had its turn.
pub open spec fn spread_rooted(g: Lists, prune: PruneView, st: Sampling, head: int) -> Sampling
    decreases g.len() - head,
{
    if head >= st.queue.len() || head >= g.len() {
        st
    } else {
        let (u, level) = st.queue[head];
        spread_rooted(g, prune, opened(g, prune, st, u, level), head + 1)
    }
}

/// The drawing with a new root for graph node `r`, nothing under it yet.
pub open spec fn planted_root(st: Sampling, r: usize) -> Sampling {
    let id = st.nodes.len() as usize;
    Sampling {
        nodes: st.nodes.push(leaf(r)),
        ids: st.ids.insert(r, id),
        queue: seq![(r, 0usize)],
        ..st
    }
}

pub open spec fn root_unreached(r: usize) -> Seq<char> {
    "the node budget was spent before root "@ + dec(r as nat) + " was reached; raise --max-nodes"@
}

/// The drawing and its roots after the chosen roots from the `k`th on were
/// walked from: one that is drawn already is passed over.
pub open spec fn rooted_at(
    g: Lists,
    prune: PruneView,
    st: Sampling,
    placed: Seq<usize>,
    roots: Seq<usize>,
    k: int,
) -> Result<(Sampling, Seq<usize>), Seq<char>>
    decreases roots.len() - k,
{
    if k >= roots.len() {
        Ok((st, placed))
    } else if st.ids.contains_key(roots[k]) {
        rooted_at(g, prune, st, placed, roots, k + 1)
    } else if st.ids.len() >= prune.max_nodes {
        Err(root_unreached(roots[k]))
    } else {
        rooted_at(
            g,
            prune,
            spread_rooted(g, prune, planted_root(st, roots[k]), 0),
            placed.push(st.nodes.len() as usize),
            roots,
            k + 1,
        )
    }
}

/// The tree of a walk from the chosen roots from the `k`th on, as far as the node
/// budget lets it come.
pub open spec fn tree_so_far(
    g: Lists,
    prune: PruneView,
    st: Sampling,
    roots: Seq<usize>,
    k: int,
) -> Seq<NodeView>
    decreases roots.len() - k,
{
    if k >= roots.len() {
        st.nodes
    } else if st.ids.contains_key(roots[k]) {
        tree_so_far(g, prune, st, roots, k + 1)
    } else if st.ids.len() >= prune.max_nodes {
        st.nodes
    } else {
        tree_so_far(
            g,
            prune,
            spread_rooted(g, prune, planted_root(st, roots[k]), 0),
            roots,
            k + 1,
        )
    }
}

/// Whether a walk is refused before it begins: there is no root, the budget is of
/// no nodes, or a root is not in the graph.
pub open spec fn refused_outright(g: Lists, roots: Seq<usize>, prune: PruneView) -> bool {
    ||| roots.len() == 0
    ||| prune.max_nodes == 0
    ||| exists|i: int| 0 <= i < roots.len() && #[trigger] roots[i] >= g.len()
}

/// The first of the roots from the `k`th on that is not in a graph of `n`
/// nodes.
pub open spec fn first_missing(roots: Seq<usize>, n: nat, k: int) -> Option<int>
    decreases roots.len() - k,
{
    if k >= roots.len() {
        None
    } else if roots[k] >= n {
        Some(k)
    } else {
        first_missing(roots, n, k + 1)
    }
}

/// A drawing that holds nothing, on top of the nodes that are there.
pub open spec fn nothing_drawn(nodes: Seq<NodeView>) -> Sampling {
    Sampling {
        nodes,
        ids: Map::empty(),
        dropped: 0,
        truncated: Set::empty(),
        queue: Seq::empty(),
    }
}

/// What a walk from the chosen roots comes to, or the reason it is refused.
pub open spec fn sampled(
    g: Lists,
    nodes: Seq<NodeView>,
    roots: Seq<usize>,
    prune: PruneView,
) -> Result<(Sampling, Seq<usize>), Seq<char>> {
    let missing = first_missing(roots, g.len(), 0);
    if roots.len() == 0 {
        Err("no root to draw from"@)
    } else if prune.max_nodes == 0 {
        Err("a budget of 0 nodes draws nothing"@)
    } else if missing is Some {
        Err(no_such_node(roots[missing->0], g.len()))
    } else {
        rooted_at(g, prune, nothing_drawn(nodes), Seq::empty(), roots, 0)
    }
}

/// What a rooted walk produced, beyond the tree itself.
pub struct Sampled {
    pub root: usize,
    /// Whether a root standing for no node was added over several chosen roots.
    pub synthetic_root: bool,
    /// Nodes drawn, roots included.
    pub nodes: usize,
    /// Arcs into nodes already drawn.
    pub dropped_arcs: u64,
    /// Graph ids of drawn nodes with successors the cut left out: by depth, by
    /// fanout, or by the node budget.
    pub truncated: HashSet<usize>,
}

impl Sampled {
    /// What a run has to say about the cut.
    pub open spec fn words(&self) -> Seq<char> {
        let first = dec(self.nodes as nat) + " node(s) drawn"@;
        let second = if self.dropped_arcs > 0 {
            first + ", "@ + dec(self.dropped_arcs as nat)
                + " arc(s) into already-drawn nodes not drawn"@
        } else {
            first
        };
        if self.truncated@.len() > 0 {
            second + ", "@ + dec(self.truncated@.len()) + " node(s) cut before their successors"@
        } else {
            second
        }
    }

    /// What a run has to say about the cut.
    pub fn summary(&self) -> (s: String)
        ensures
            s@ == self.words(),
    {
        let mut s = String::new();
        push_dec(&mut s, self.nodes as u64);
        assert(s@ =~= dec(self.nodes as nat));
        s.append(" node(s) drawn");
        if self.dropped_arcs > 0 {
            s.append(", ");
            push_dec(&mut s, self.dropped_arcs);
            s.append(" arc(s) into already-drawn nodes not drawn");
        }
        if self.truncated.len() > 0 {
            s.append(", ");
            push_dec(&mut s, self.truncated.len() as u64);
            s.append(" node(s) cut before their successors");
        }
        s
    }
}

/// Every graph node drawn is one of the graph, and its tree node one of the
/// tree; whatever waits in the queue is drawn, once, no deeper than its place.
spec fn sampling_sound(g: Lists, st: Sampling) -> bool {
    &&& st.ids.dom().finite()
    &&& forall|v: usize|
        #[trigger] st.ids.contains_key(v) ==> v < g.len() && st.ids[v] < st.nodes.len()
    &&& forall|a: int, b: int|
        0 <= a < b < st.queue.len() ==> (#[trigger] st.queue[a]).0 != (#[trigger] st.queue[b]).0
    &&& forall|x: int|
        #![trigger st.queue[x]]
        0 <= x < st.queue.len() ==> st.ids.contains_key(st.queue[x].0) && st.queue[x].1 <= x
}

proof fn drawing_under_is_sound(g: Lists, st: Sampling, u: usize, level: usize, w: usize)
    requires
        sampling_sound(g, st),
        st.ids.contains_key(u),
        !st.ids.contains_key(w),
        w < g.len(),
        st.nodes.len() <= usize::MAX,
        level < st.queue.len() <= usize::MAX,
    ensures
        sampling_sound(g, drawn_under(st, u, level, w)),
        drawn_under(st, u, level, w).ids.contains_key(u),
        drawn_under(st, u, level, w).ids[u] == st.ids[u],
{
    let next = drawn_under(st, u, level, w);
    assert forall|v: usize| #[trigger] next.ids.contains_key(v) implies v < g.len() && next.ids[v]
        < next.nodes.len() by {
        if v != w {
            assert(st.ids.contains_key(v));
        }
    }
    assert forall|a: int, b: int| 0 <= a < b < next.queue.len() implies (
    #[trigger] next.queue[a]).0 != (#[trigger] next.queue[b]).0 by {
        assert(next.queue[a] == st.queue[a]);
        if b < st.queue.len() {
            assert(next.queue[b] == st.queue[b]);
        } else {
            assert(st.ids.contains_key(st.queue[a].0));
        }
    }
    assert forall|x: int| #![trigger next.queue[x]] 0 <= x
        < next.queue.len() implies next.ids.contains_key(next.queue[x].0) && next.queue[x].1
        <= x by {
        if x < st.queue.len() {
            assert(st.ids.contains_key(st.queue[x].0));
        }
    }
}

proof fn queue_bounded(g: Lists, st: Sampling, n: usize)
    requires
        sampling_sound(g, st),
        n == g.len(),
    ensures
        st.queue.len() <= n,
{
    let s = st.queue.map_values(|e: (usize, usize)| e.0);
    assert(s.no_duplicates()) by {
        assert forall|a: int, b: int| 0 <= a < s.len() && 0 <= b < s.len() && a != b implies s[a]
            != s[b] by {
            if a < b {
                assert(st.queue[a].0 != st.queue[b].0);
            } else {
                assert(st.queue[b].0 != st.queue[a].0);
            }
        }
    }
    assert forall|x: int| #![trigger s[x]] 0 <= x < s.len() implies s[x] < n by {
        assert(st.ids.contains_key(st.queue[x].0));
    }
    bounded_unique(s, n);
}

/// A drawing of chosen subtrees as it is grown, the tree itself apart.
struct Sampler {
    ids: HashMap<usize, usize>,
    dropped: u64,
    dropped_count: Ghost<nat>,
    truncated: HashSet<usize>,
    queue: Vec<(usize, usize)>,
}

impl Sampler {
    spec fn state(&self, nodes: Seq<NodeView>) -> Sampling {
        Sampling {
            nodes,
            ids: self.ids@,
            dropped: self.dropped_count@,
            truncated: self.truncated@,
            queue: self.queue@,
        }
    }

    /// Those of the successors that are not drawn yet; the others cost an arc
    /// each.
    fn gather(&mut self, all: &Vec<usize>, Ghost(nodes): Ghost<Seq<NodeView>>) -> (fresh: Vec<usize>)
        requires
            old(self).dropped == wrapped(old(self).dropped_count@),
        ensures
            fresh@ == fresh_of(old(self).ids@, all@),
            fresh@.len() <= all@.len(),
            final(self).dropped == wrapped(final(self).dropped_count@),
            final(self).state(nodes) == (Sampling {
                dropped: (old(self).state(nodes).dropped + all@.len() - fresh@.len()) as nat,
                ..old(self).state(nodes)
            }),
    {
        let mut fresh: Vec<usize> = Vec::new();
        let mut k: usize = 0;
        while k < all.len()
            invariant
                k <= all@.len(),
                fresh@ == fresh_of(old(self).ids@, all@.take(k as int)),
                fresh@.len() <= k,
                self.ids@ == old(self).ids@,
                self.dropped == wrapped(self.dropped_count@),
                self.state(nodes) == (Sampling {
                    dropped: (old(self).state(nodes).dropped + k - fresh@.len()) as nat,
                    ..old(self).state(nodes)
                }),
            decreases all@.len() - k,
        {
            let w: usize = all[k];
            assert(all@.take(k + 1).drop_last() =~= all@.take(k as int));
            if self.ids.contains_key(&w) {
                proof {
                    wrapped_next(self.dropped_count@);
                }
                self.dropped = self.dropped.wrapping_add(1);
                self.dropped_count = Ghost(self.dropped_count@ + 1);
            } else {
                fresh.push(w);
            }
            k += 1;
        }
        assert(all@.take(k as int) =~= all@);
        fresh
    }

    /// Gives node `u` its turn.
    fn open<G: Graph>(&mut self, graph: &G, tree: &mut Tree, prune: &Prune, u: usize, level: usize)
        requires
            sampling_sound(graph.lists(), old(self).state(old(tree)@)),
            old(self).dropped == wrapped(old(self).dropped_count@),
            old(self).ids@.contains_key(u),
            level < old(self).queue@.len(),
        ensures
            final(self).state(final(tree)@) == opened(
                graph.lists(),
                prune@,
                old(self).state(old(tree)@),
                u,
                level,
            ),
            sampling_sound(graph.lists(), final(self).state(final(tree)@)),
            final(self).dropped == wrapped(final(self).dropped_count@),
            final(self).queue@.len() >= old(self).queue@.len(),
            forall|roots: Seq<usize>|
                is_forest(old(tree)@) && #[trigger] are_tops(old(tree)@, roots) ==> is_forest(
                    final(tree)@,
                ) && are_tops(final(tree)@, roots),
    {
        let ghost g = graph.lists();
        let deep = match prune.depth {
            Some(limit) => level >= limit,
            None => false,
        };
        let off = match &prune.expand {
            Some(spine) => !spine.contains(&u),
            None => false,
        };
        if deep || off {
            if graph.outdegree(u) > 0 {
                self.truncated.insert(u);
            }
            return;
        }
        let all = graph.successors(u);
        let fresh = self.gather(&all, Ghost(tree@));
        proof {
            fresh_are_fresh(old(self).ids@, all@, g.len());
        }
        let mut head: usize = fresh.len();
        let mut tail: usize = fresh.len();
        if let Some(k) = prune.fanout {
            if fresh.len() > k {
                self.truncated.insert(u);
                head = k / 2 + k % 2;
                tail = fresh.len() - k / 2;
            }
        }
        let ghost chosen = both_ends(fresh@, prune.fanout);
        proof {
            if head == fresh@.len() {
                assert(chosen =~= fresh@.take(head as int) + fresh@.skip(tail as int));
            }
            assert(chosen == fresh@.take(head as int) + fresh@.skip(tail as int));
        }
        let parent: usize = *self.ids.get(&u).unwrap();
        let ghost start = self.state(tree@);
        let mut at: usize = if head == 0 { tail } else { 0 };
        let ghost mut j: int = 0;
        while at < fresh.len()
            invariant
                g == graph.lists(),
                head <= tail <= fresh@.len(),
                at <= fresh@.len(),
                at < head || tail <= at,
                0 <= j <= chosen.len(),
                j == if at < head { at as int } else { head + at - tail },
                chosen == fresh@.take(head as int) + fresh@.skip(tail as int),
                fresh@.no_duplicates(),
                forall|x: int|
                    #![trigger fresh@[x]]
                    0 <= x < fresh@.len() ==> fresh@[x] < g.len() && (x >= at
                        ==> !self.ids@.contains_key(fresh@[x])),
                sampling_sound(g, self.state(tree@)),
                self.dropped == wrapped(self.dropped_count@),
                self.ids@.contains_key(u),
                self.ids@[u] == parent,
                level < self.queue@.len(),
                self.queue@.len() >= old(self).queue@.len(),
                forall|roots: Seq<usize>|
                    is_forest(old(tree)@) && #[trigger] are_tops(old(tree)@, roots) ==> is_forest(
                        tree@,
                    ) && are_tops(tree@, roots),
                draw_all(prune.max_nodes, start, u, level, chosen, 0) == draw_all(
                    prune.max_nodes,
                    self.state(tree@),
                    u,
                    level,
                    chosen,
                    j,
                ),
                opened(g, prune@, old(self).state(old(tree)@), u, level) == draw_all(
                    prune.max_nodes,
                    start,
                    u,
                    level,
                    chosen,
                    0,
                ),
            decreases fresh@.len() - at,
        {
            let w: usize = fresh[at];
            assert(chosen[j] == w);
            if self.ids.len() >= prune.max_nodes {
                self.truncated.insert(u);
                return;
            }
            let ghost now = self.state(tree@);
            proof {
                assert(!self.ids@.contains_key(fresh@[at as int]));
                assert(tree.nodes.len() == tree@.len());
                assert forall|roots: Seq<usize>|
                    is_forest(old(tree)@) && #[trigger] are_tops(
                        old(tree)@,
                        roots,
                    ) implies is_forest(hung(tree@.push(leaf(w)), parent as int, tree@.len() as usize))
                    && are_tops(
                    hung(tree@.push(leaf(w)), parent as int, tree@.len() as usize),
                    roots,
                ) by {
                    forest_with_hung_leaf(tree@, roots, parent as int, w);
                }
            }
            let child: usize = tree.add_node(w);
            self.ids.insert(w, child);
            tree.push_child(parent, child);
            assert(level < self.queue.len());
            self.queue.push((w, level + 1));
            proof {
                drawing_under_is_sound(g, now, u, level, w);
                assert(self.state(tree@) == drawn_under(now, u, level, w));
                j = j + 1;
            }
            at += 1;
            if at == head {
                at = tail;
            }
        }
    }

    /// Gives everything under the root in hand its turn.
    fn run<G: Graph>(&mut self, graph: &G, tree: &mut Tree, prune: &Prune)
        requires
            sampling_sound(graph.lists(), old(self).state(old(tree)@)),
            old(self).dropped == wrapped(old(self).dropped_count@),
        ensures
            final(self).state(final(tree)@) == spread_rooted(
                graph.lists(),
                prune@,
                old(self).state(old(tree)@),
                0,
            ),
            sampling_sound(graph.lists(), final(self).state(final(tree)@)),
            final(self).dropped == wrapped(final(self).dropped_count@),
            forall|roots: Seq<usize>|
                is_forest(old(tree)@) && #[trigger] are_tops(old(tree)@, roots) ==> is_forest(
                    final(tree)@,
                ) && are_tops(final(tree)@, roots),
    {
        let ghost g = graph.lists();
        let n: usize = graph.num_nodes();
        let mut head: usize = 0;
        while head < self.queue.len()
            invariant
                head <= self.queue@.len(),
                g == graph.lists(),
                n == g.len(),
                sampling_sound(g, self.state(tree@)),
                self.dropped == wrapped(self.dropped_count@),
                forall|roots: Seq<usize>|
                    is_forest(old(tree)@) && #[trigger] are_tops(old(tree)@, roots) ==> is_forest(
                        tree@,
                    ) && are_tops(tree@, roots),
                spread_rooted(g, prune@, old(self).state(old(tree)@), 0) == spread_rooted(
                    g,
                    prune@,
                    self.state(tree@),
                    head as int,
                ),
            decreases n - head,
        {
            proof {
                queue_bounded(g, self.state(tree@), n);
            }
            let (u, level) = self.queue[head];
            assert(self.state(tree@).queue[head as int] == (u, level));
            self.open(graph, tree, prune, u, level);
            head += 1;
        }
    }
}

/// Not-yet-drawn successors are successors, each once.
proof fn fresh_are_fresh(ids: Map<usize, usize>, s: Seq<usize>, n: nat)
    requires
        successor_list(s, n),
    ensures
        fresh_of(ids, s).no_duplicates(),
        forall|x: int|
            #![trigger fresh_of(ids, s)[x]]
            0 <= x < fresh_of(ids, s).len() ==> fresh_of(ids, s)[x] < n && !ids.contains_key(
                fresh_of(ids, s)[x],
            ) && s.contains(fresh_of(ids, s)[x]),
    decreases s.len(),
{
    if s.len() > 0 {
        let t = s.drop_last();
        assert(successor_list(t, n)) by {
            assert forall|i: int| 0 <= i < t.len() implies #[trigger] t[i] < n by {
                assert(s[i] < n);
            }
        }
        fresh_are_fresh(ids, t, n);
        let f = fresh_of(ids, t);
        let r = fresh_of(ids, s);
        assert(s[s.len() - 1] < n);
        assert forall|x: int| #![trigger r[x]] 0 <= x < r.len() implies r[x] < n
            && !ids.contains_key(r[x]) && s.contains(r[x]) by {
            if x < f.len() {
                assert(r[x] == f[x]);
                let i = t.index_of(f[x]);
                assert(s[i] == f[x]);
            } else {
                assert(s[s.len() - 1] == r[x]);
            }
        }
        assert forall|a: int, b: int| 0 <= a < r.len() && 0 <= b < r.len() && a != b implies r[a]
            != r[b] by {
            if a < f.len() && b < f.len() {
                assert(f[a] != f[b]);
            } else if a < f.len() {
                let i = t.index_of(f[a]);
                assert(s[i] < s[s.len() - 1]);
            } else {
                let i = t.index_of(f[b]);
                assert(s[i] < s[s.len() - 1]);
            }
        }
    }
}

/// Builds the subtree hanging under each of `roots` on top of `tree`, pruned by
/// `prune`, rooted at a single node.
///
/// The same breadth-first walk as [`build`], started at the nodes the caller
/// names instead of swept over node order. On the transpose graph the same call
/// draws the ancestors of a node, since the transpose's successors are the
/// graph's predecessors.
///
/// A root already drawn under an earlier root is passed over. A root the node
/// budget is too spent to place is an error rather than a silently smaller
/// picture: the caller asked for that subtree by name.
pub fn build_rooted<G: Graph>(graph: &G, tree: &mut Tree, roots: &[usize], prune: &Prune) -> (r:
    Result<Sampled, String>)
    ensures
        match r {
            Ok(s) => sampled(graph.lists(), old(tree)@, roots@, prune@) matches Ok((st, placed)) && {
                &&& final(tree)@ == joined(st.nodes, placed)
                &&& placed.len() > 0
                &&& s.synthetic_root == (placed.len() > 1)
                &&& s.root == if placed.len() > 1 { st.nodes.len() } else { placed[0] as nat }
                &&& s.nodes == st.ids.len()
                &&& s.dropped_arcs == wrapped(st.dropped)
                &&& s.truncated@ == st.truncated
                &&& old(tree)@.len() == 0 ==> is_tree(final(tree)@, s.root as int)
            },
            Err(e) => sampled(graph.lists(), old(tree)@, roots@, prune@) == Err::<
                (Sampling, Seq<usize>),
                Seq<char>,
            >(e@) && if refused_outright(graph.lists(), roots@, prune@) {
                *final(tree) == *old(tree)
            } else {
                final(tree)@ == tree_so_far(
                    graph.lists(),
                    prune@,
                    nothing_drawn(old(tree)@),
                    roots@,
                    0,
                )
            },
        },
        refused_outright(graph.lists(), roots@, prune@) ==> r is Err,
{
    let ghost g = graph.lists();
    let n: usize = graph.num_nodes();
    if roots.len() == 0 {
        return Err("no root to draw from".to_owned());
    }
    if prune.max_nodes == 0 {
        return Err("a budget of 0 nodes draws nothing".to_owned());
    }
    let mut i: usize = 0;
    while i < roots.len()
        invariant
            i <= roots@.len(),
            n == g.len(),
            g == graph.lists(),
            roots@.len() > 0,
            prune.max_nodes > 0,
            first_missing(roots@, g.len(), 0) == first_missing(roots@, g.len(), i as int),
            forall|x: int| 0 <= x < i ==> #[trigger] roots@[x] < n,
            *tree == *old(tree),
        decreases roots@.len() - i,
    {
        let r: usize = roots[i];
        if r >= n {
            assert(roots@[i as int] >= g.len());
            let mut s = "node ".to_owned();
            push_dec(&mut s, r as u64);
            s.append(" is not in a graph of ");
            push_dec(&mut s, n as u64);
            s.append(" nodes");
            return Err(s);
        }
        i += 1;
    }
    let mut placed: Vec<usize> = Vec::new();
    let mut sampler = Sampler {
        ids: HashMap::new(),
        dropped: 0,
        dropped_count: Ghost(0),
        truncated: HashSet::new(),
        queue: Vec::new(),
    };
    let ghost whole = sampled(g, tree@, roots@, prune@);
    let ghost so_far = tree_so_far(g, prune@, nothing_drawn(tree@), roots@, 0);
    assert(sampler.state(tree@) =~= nothing_drawn(tree@));
    let mut k: usize = 0;
    while k < roots.len()
        invariant
            k <= roots@.len(),
            n == g.len(),
            g == graph.lists(),
            prune.max_nodes > 0,
            forall|x: int| 0 <= x < roots@.len() ==> #[trigger] roots@[x] < n,
            sampling_sound(g, sampler.state(tree@)),
            sampler.dropped == wrapped(sampler.dropped_count@),
            whole == sampled(g, old(tree)@, roots@, prune@),
            old(tree)@.len() == 0 ==> is_forest(tree@) && are_tops(tree@, placed@),
            whole == rooted_at(g, prune@, sampler.state(tree@), placed@, roots@, k as int),
            so_far == tree_so_far(g, prune@, nothing_drawn(old(tree)@), roots@, 0),
            so_far == tree_so_far(g, prune@, sampler.state(tree@), roots@, k as int),
            k > 0 ==> placed@.len() > 0,
            k == 0 ==> sampler.ids@ == Map::<usize, usize>::empty(),
        decreases roots@.len() - k,
    {
        let r: usize = roots[k];
        if sampler.ids.contains_key(&r) {
            assert(k > 0);
            k += 1;
            continue ;
        }
        if sampler.ids.len() >= prune.max_nodes {
            let mut s = "the node budget was spent before root ".to_owned();
            push_dec(&mut s, r as u64);
            s.append(" was reached; raise --max-nodes");
            return Err(s);
        }
        let ghost now = sampler.state(tree@);
        proof {
            if old(tree)@.len() == 0 {
                assert(tree.nodes.len() == tree@.len());
                forest_with_leaf(tree@, placed@, r);
            }
        }
        let id: usize = tree.add_node(r);
        sampler.ids.insert(r, id);
        placed.push(id);
        sampler.queue.clear();
        sampler.queue.push((r, 0));
        proof {
            let next = sampler.state(tree@);
            assert(next.queue =~= seq![(r, 0usize)]);
            assert(next == planted_root(now, r));
            assert(roots@[k as int] < n);
            assert forall|v: usize| #[trigger] next.ids.contains_key(v) implies v < g.len()
                && next.ids[v] < next.nodes.len() by {
                if v != r {
                    assert(now.ids.contains_key(v));
                }
            }
        }
        sampler.run(graph, tree, prune);
        k += 1;
    }
    proof {
        if old(tree)@.len() == 0 {
            joined_is_a_tree(tree@, placed@);
        }
    }
    let synthetic_root = placed.len() > 1;
    let root: usize = if synthetic_root {
        tree.add_root(placed)
    } else {
        placed[0]
    };
    Ok(
        Sampled {
            root,
            synthetic_root,
            nodes: sampler.ids.len(),
            dropped_arcs: sampler.dropped,
            truncated: sampler.truncated,
        },
    )
}

pub(crate) proof fn wrapped_next(n: nat)
    ensures
        wrapped(n).wrapping_add(1) == wrapped(n + 1),
{
    let m: int = 0x1_0000_0000_0000_0000;
    vstd::arithmetic::div_mod::lemma_add_mod_noop(n as int, 1, m);
    let x = n as int % m + 1;
    if x < m {
        vstd::arithmetic::div_mod::lemma_small_mod(x as nat, m as nat);
    } else {
        vstd::arithmetic::div_mod::lemma_mod_self_0(m);
    }
}

} // verus!
