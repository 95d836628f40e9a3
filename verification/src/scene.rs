//! The drawing, flattened.
//!
//! A tree is walked once, depth first, into a flat array. A node's descendants
//! are the entries that follow it, contiguously, up to the end of its subtree:
//! a subtree is a range. A node that stands for nothing is not in the drawing,
//! and its children inherit whatever it inherited.

use vstd::prelude::*;
use vstd::string::*;

use crate::forest::{NodeView, Tree};
use crate::settle::bounded_unique;
use crate::text::{dec, push_dec};

verus! {

/// What a root has instead of a parent.
pub const NO_PARENT: u32 = u32::MAX;

/// Everything about a node that is not its position.
#[derive(Clone, Copy, Debug, PartialEq, Eq, Structural)]
pub struct Placed {
    /// The node's number in the graph that was read.
    pub graph: u32,
    /// The scene index of the node's parent, or [`NO_PARENT`].
    pub parent: u32,
    /// One past the last scene index of this node's subtree.
    pub subtree_end: u32,
}

/// A tree: every child is one of its nodes, no node is a child twice, and the
/// root is a child of none.
pub open spec fn is_tree(nodes: Seq<NodeView>, root: int) -> bool {
    &&& 0 <= root < nodes.len()
    &&& is_forest(nodes)
    &&& is_top(nodes, root)
}

/// Every child is a node, and no node is a child twice.
pub open spec fn is_forest(nodes: Seq<NodeView>) -> bool {
    &&& forall|p: int, k: int|
        0 <= p < nodes.len() && 0 <= k < nodes[p].children.len() ==> (
        #[trigger] nodes[p].children[k]) < nodes.len()
    &&& forall|p: int, k: int, q: int, l: int|
        0 <= p < nodes.len() && 0 <= k < nodes[p].children.len() && 0 <= q < nodes.len() && 0 <= l
            < nodes[q].children.len() && (#[trigger] nodes[p].children[k])
            == (#[trigger] nodes[q].children[l]) ==> p == q && k == l
}

/// Node `r` is a child of none.
pub open spec fn is_top(nodes: Seq<NodeView>, r: int) -> bool {
    forall|p: int, k: int|
        0 <= p < nodes.len() && 0 <= k < nodes[p].children.len() ==> (
        #[trigger] nodes[p].children[k]) != r
}

/// A number of the graph as a `u32` holds it.
pub open spec fn low_word(n: usize) -> u32 {
    (n as int % 0x1_0000_0000) as u32
}

/// A walk over a tree under way: the nodes drawn, the tree nodes they are, and
/// the tree nodes still to visit, the next one last, each with the nearest
/// drawn ancestor.
pub struct Flattening {
    pub placed: Seq<Placed>,
    pub order: Seq<usize>,
    pub stack: Seq<(usize, u32)>,
}

/// The children of a node as they wait to be visited: the first one last.
pub open spec fn waiting(children: Seq<usize>, parent: u32) -> Seq<(usize, u32)> {
    Seq::new(children.len(), |k: int| (children[children.len() - 1 - k], parent))
}

/// The walk after one tree node more.
pub open spec fn flatten_one(nodes: Seq<NodeView>, st: Flattening) -> Flattening {
    let (id, parent) = st.stack.last();
    let rest = st.stack.drop_last();
    let node = nodes[id as int];
    match node.graph {
        None => Flattening { stack: rest + waiting(node.children, parent), ..st },
        Some(graph) => {
            let here = st.placed.len();
            Flattening {
                placed: st.placed.push(
                    Placed { graph: low_word(graph), parent, subtree_end: (here + 1) as u32 },
                ),
                order: st.order.push(id),
                stack: rest + waiting(node.children, here as u32),
            }
        },
    }
}

/// The walk once nothing is left to visit, or after so many tree nodes more.
pub open spec fn flatten(nodes: Seq<NodeView>, st: Flattening, fuel: nat) -> Flattening
    decreases fuel,
{
    if st.stack.len() == 0 || fuel == 0 {
        st
    } else {
        flatten(nodes, flatten_one(nodes, st), (fuel - 1) as nat)
    }
}

/// The walk over the tree under `root`, depth first and eldest child first: no
/// longer than the tree has nodes.
pub open spec fn flattened(nodes: Seq<NodeView>, root: usize) -> Flattening {
    flatten(
        nodes,
        Flattening {
            placed: Seq::empty(),
            order: Seq::empty(),
            stack: seq![(root, NO_PARENT)],
        },
        nodes.len(),
    )
}

/// Entry `j` is entry `i` or one of its descendants.
pub open spec fn under(placed: Seq<Placed>, i: int, j: int) -> bool
    decreases j,
{
    i == j || (0 <= placed[j].parent < j && under(placed, i, placed[j].parent as int))
}

/// Entry `p` is entry `j` or one of its ancestors, or is no entry.
pub open spec fn over(placed: Seq<Placed>, p: u32, j: int) -> bool {
    p == NO_PARENT || (p <= j && under(placed, p as int, j))
}

/// The parents of a walk depth first: the parent of every entry is the entry
/// before it, or one of the ancestors of that, or none.
pub open spec fn depth_first(placed: Seq<Placed>) -> bool {
    forall|i: int|
        0 <= i < placed.len() ==> over(placed, (#[trigger] placed[i]).parent, i - 1)
}

/// The same entries but for the ends of their subtrees.
pub open spec fn same_but_ends(a: Seq<Placed>, b: Seq<Placed>) -> bool {
    &&& a.len() == b.len()
    &&& forall|i: int|
        #![trigger b[i]]
        0 <= i < a.len() ==> b[i] == (Placed { subtree_end: b[i].subtree_end, ..a[i] })
}

/// A laid-out drawing's nodes, in the order the tree reads.
pub struct Scene {
    placed: Vec<Placed>,
    order: Vec<usize>,
}

impl Scene {
    /// The nodes of the drawing.
    pub closed spec fn entries(&self) -> Seq<Placed> {
        self.placed@
    }

    /// The tree nodes they are.
    pub closed spec fn tree_nodes(&self) -> Seq<usize> {
        self.order@
    }

    /// What holds of every scene: parents come before their children, and a
    /// subtree is a range of entries.
    #[verifier::type_invariant]
    closed spec fn ranged(self) -> bool {
        &&& self.placed@.len() <= u32::MAX
        &&& self.order@.len() == self.placed@.len()
        &&& ends_are_exact(self.placed@)
        &&& depth_first(self.placed@)
    }
}

/// The entries of every subtree are exactly the range up to its end.
pub open spec fn ends_are_exact(placed: Seq<Placed>) -> bool {
    forall|i: int|
        #![trigger placed[i]]
        0 <= i < placed.len() ==> {
            &&& i < placed[i].subtree_end <= placed.len()
            &&& forall|j: int|
                0 <= j < placed.len() ==> (#[trigger] under(placed, i, j) <==> i <= j
                    < placed[i].subtree_end)
        }
}

proof fn under_is_after(placed: Seq<Placed>, i: int, j: int)
    requires
        under(placed, i, j),
        0 <= j,
    ensures
        i <= j,
    decreases j,
{
    if i != j {
        under_is_after(placed, i, placed[j].parent as int);
    }
}

proof fn under_same(a: Seq<Placed>, b: Seq<Placed>, i: int, j: int)
    requires
        0 <= j < a.len(),
        j < b.len(),
        forall|x: int| 0 <= x <= j ==> (#[trigger] a[x]).parent == b[x].parent,
    ensures
        under(a, i, j) == under(b, i, j),
    decreases j,
{
    assert(a[j].parent == b[j].parent);
    if i != j && 0 <= a[j].parent < j {
        under_same(a, b, i, a[j].parent as int);
    }
}

proof fn under_trans(placed: Seq<Placed>, i: int, j: int, k: int)
    requires
        under(placed, i, j),
        under(placed, j, k),
        0 <= k,
    ensures
        under(placed, i, k),
    decreases k,
{
    if j != k {
        under_trans(placed, i, j, placed[k].parent as int);
    }
}

/// What lies between an entry and one of its descendants is its descendant.
pub proof fn a_subtree_is_contiguous(placed: Seq<Placed>, i: int, j: int, m: int)
    requires
        depth_first(placed),
        placed.len() <= u32::MAX,
        0 <= i <= j <= m < placed.len(),
        under(placed, i, m),
    ensures
        under(placed, i, j),
    decreases m,
{
    if j < m {
        let q = placed[m].parent;
        assert(over(placed, placed[m].parent, m - 1));
        under_is_after(placed, i, q as int);
        under_trans(placed, i, q as int, m - 1);
        a_subtree_is_contiguous(placed, i, j, m - 1);
    }
}

/// `p` is no entry, or entry `q` is `p` or under it.
spec fn above(placed: Seq<Placed>, p: u32, q: u32) -> bool {
    p == NO_PARENT || (q != NO_PARENT && p <= q && under(placed, p as int, q as int))
}

/// The entries that wait hang off the path to the last entry placed, the next
/// one from furthest along it.
spec fn on_the_path(placed: Seq<Placed>, stack: Seq<(usize, u32)>) -> bool {
    &&& forall|x: int|
        #![trigger stack[x]]
        0 <= x < stack.len() ==> over(placed, stack[x].1, placed.len() - 1)
    &&& forall|x: int, y: int|
        0 <= x <= y < stack.len() ==> above(
            placed,
            (#[trigger] stack[x]).1,
            (#[trigger] stack[y]).1,
        )
}

proof fn path_after_placing(
    placed: Seq<Placed>,
    stack: Seq<(usize, u32)>,
    p: Placed,
    children: Seq<usize>,
)
    requires
        placed.len() < u32::MAX,
        depth_first(placed),
        on_the_path(placed, stack),
        stack.len() > 0,
        p.parent == stack.last().1,
    ensures
        depth_first(placed.push(p)),
        on_the_path(
            placed.push(p),
            stack.drop_last() + waiting(children, placed.len() as u32),
        ),
{
    let after = placed.push(p);
    let here = placed.len() as int;
    let top = stack.len() - 1;
    assert(stack[top].1 == p.parent);
    assert(over(placed, stack[top].1, here - 1));
    assert forall|i: int| 0 <= i < after.len() implies over(
        after,
        (#[trigger] after[i]).parent,
        i - 1,
    ) by {
        if i < here {
            assert(over(placed, placed[i].parent, i - 1));
            if placed[i].parent != NO_PARENT {
                under_same(placed, after, placed[i].parent as int, i - 1);
            }
        } else if p.parent != NO_PARENT {
            under_same(placed, after, p.parent as int, here - 1);
        }
    }
    let rest = stack.drop_last();
    let next = rest + waiting(children, here as u32);
    assert forall|x: int| 0 <= x < rest.len() implies over(after, (#[trigger] rest[x]).1, here) by {
        assert(rest[x] == stack[x]);
        assert(above(placed, stack[x].1, stack[top].1));
        if stack[x].1 != NO_PARENT {
            under_same(placed, after, stack[x].1 as int, p.parent as int);
        }
    }
    assert forall|x: int| #![trigger next[x]] 0 <= x < next.len() implies over(
        after,
        next[x].1,
        after.len() - 1,
    ) by {
        if x < rest.len() {
            assert(next[x] == rest[x]);
        }
    }
    assert forall|x: int, y: int| 0 <= x <= y < next.len() implies above(
        after,
        (#[trigger] next[x]).1,
        (#[trigger] next[y]).1,
    ) by {
        if y < rest.len() {
            assert(above(placed, stack[x].1, stack[y].1));
            if stack[x].1 != NO_PARENT {
                assert(over(placed, stack[y].1, here - 1));
                under_same(placed, after, stack[x].1 as int, stack[y].1 as int);
            }
        } else if x < rest.len() {
            assert(over(after, rest[x].1, here));
        }
    }
}

proof fn path_after_passing(
    placed: Seq<Placed>,
    stack: Seq<(usize, u32)>,
    children: Seq<usize>,
)
    requires
        on_the_path(placed, stack),
        stack.len() > 0,
    ensures
        on_the_path(placed, stack.drop_last() + waiting(children, stack.last().1)),
{
    let rest = stack.drop_last();
    let top = stack.len() - 1;
    let next = rest + waiting(children, stack.last().1);
    assert(over(placed, stack[top].1, placed.len() - 1));
    assert(above(placed, stack[top].1, stack[top].1));
    assert forall|x: int| #![trigger next[x]] 0 <= x < next.len() implies over(
        placed,
        next[x].1,
        placed.len() - 1,
    ) by {
        if x < rest.len() {
            assert(next[x] == stack[x]);
        }
    }
    assert forall|x: int, y: int| 0 <= x <= y < next.len() implies above(
        placed,
        (#[trigger] next[x]).1,
        (#[trigger] next[y]).1,
    ) by {
        let a = if x < rest.len() { x } else { top };
        let b = if y < rest.len() { y } else { top };
        assert(next[x].1 == stack[a].1);
        assert(next[y].1 == stack[b].1);
        assert(above(placed, stack[a].1, stack[b].1));
    }
}

/// The tree nodes met so far: those visited, and those that wait.
spec fn met(seen: Seq<usize>, stack: Seq<(usize, u32)>) -> Seq<usize> {
    seen + Seq::new(stack.len(), |x: int| stack[x].0)
}

/// Tree node `x` is child `k` of tree node `p`.
pub open spec fn child_at(nodes: Seq<NodeView>, p: int, k: int, x: usize) -> bool {
    0 <= p < nodes.len() && 0 <= k < nodes[p].children.len() && nodes[p].children[k] == x
}

/// Tree node `x` is a child of tree node `p`.
pub open spec fn is_child(nodes: Seq<NodeView>, p: int, x: usize) -> bool {
    exists|k: int| #[trigger] child_at(nodes, p, k, x)
}

/// Tree node `x` is the root or a child of one that was visited.
spec fn comes_from(nodes: Seq<NodeView>, root: usize, seen: Seq<usize>, x: usize) -> bool {
    x == root || exists|i: int, k: int|
        0 <= i < seen.len() && #[trigger] child_at(nodes, seen[i] as int, k, x)
}

/// No tree node is met twice.
spec fn meets_once(
    nodes: Seq<NodeView>,
    root: usize,
    seen: Seq<usize>,
    stack: Seq<(usize, u32)>,
) -> bool {
    &&& met(seen, stack).no_duplicates()
    &&& forall|i: int|
        #![trigger met(seen, stack)[i]]
        0 <= i < met(seen, stack).len() ==> met(seen, stack)[i] < nodes.len() && comes_from(
            nodes,
            root,
            seen,
            met(seen, stack)[i],
        )
}

proof fn meeting_goes_on(
    nodes: Seq<NodeView>,
    root: usize,
    seen: Seq<usize>,
    stack: Seq<(usize, u32)>,
    up: u32,
)
    requires
        is_tree(nodes, root as int),
        meets_once(nodes, root, seen, stack),
        stack.len() > 0,
    ensures
        ({
            let (id, _) = stack.last();
            let next = stack.drop_last() + waiting(nodes[id as int].children, up);
            meets_once(nodes, root, seen.push(id), next)
        }),
{
    let id = stack.last().0;
    let children = nodes[id as int].children;
    let next = stack.drop_last() + waiting(children, up);
    let before = met(seen, stack);
    let more = seen.push(id);
    let after = met(more, next);
    let n = seen.len() as int;
    let r = stack.len() - 1;
    assert(before[n + r] == id);
    // Where an entry met now was met before, unless it is a child of `id`.
    assert forall|i: int| 0 <= i <= n + r implies #[trigger] after[i] == before[if i < n {
        i
    } else if i == n {
        n + r
    } else {
        i - 1
    }] by {}
    assert forall|i: int| n + r < i < after.len() implies #[trigger] is_child(
        nodes,
        id as int,
        after[i],
    ) by {
        let k = children.len() - 1 - (i - n - r - 1);
        assert(child_at(nodes, id as int, k, after[i]));
    }
    assert forall|i: int, j: int|
        0 <= i <= n + r && n + r < j < after.len() implies #[trigger] after[i]
        != #[trigger] after[j] by {
        assert(is_child(nodes, id as int, after[j]));
        let l = choose|l: int| #[trigger] child_at(nodes, id as int, l, after[j]);
        let b = if i < n { i } else if i == n { n + r } else { i - 1 };
        let x = before[b];
        assert(comes_from(nodes, root, seen, x));
        if x == after[j] {
            assert(nodes[id as int].children[l] == x);
            if x != root {
                let (s, k) = choose|s: int, k: int|
                    0 <= s < seen.len() && #[trigger] child_at(nodes, seen[s] as int, k, x);
                assert(nodes[seen[s] as int].children[k] == x);
                assert(seen[s] == id);
                assert(before[s] == before[n + r]);
            }
        }
    }
    assert forall|i: int, j: int|
        n + r < i < j < after.len() implies after[i] != after[j] by {
        let k = children.len() - 1 - (i - n - r - 1);
        let l = children.len() - 1 - (j - n - r - 1);
        assert(after[i] == nodes[id as int].children[k]);
        assert(after[j] == nodes[id as int].children[l]);
    }
    assert(after.no_duplicates()) by {
        assert forall|i: int, j: int|
            0 <= i < after.len() && 0 <= j < after.len() && i != j implies after[i] != after[j] by {
            if i <= n + r && j <= n + r {
                assert(after[i] == before[if i < n { i } else if i == n { n + r } else { i - 1 }]);
                assert(after[j] == before[if j < n { j } else if j == n { n + r } else { j - 1 }]);
            } else if i > n + r && j > n + r {
                if i < j {
                    assert(after[i] != after[j]);
                } else {
                    assert(after[j] != after[i]);
                }
            } else if i <= n + r {
                assert(after[i] != after[j]);
            } else {
                assert(after[j] != after[i]);
            }
        }
    }
    assert forall|i: int| #![trigger after[i]] 0 <= i < after.len() implies after[i] < nodes.len()
        && comes_from(nodes, root, more, after[i]) by {
        if i <= n + r {
            let x = before[if i < n { i } else if i == n { n + r } else { i - 1 }];
            assert(after[i] == x);
            if x != root {
                assert(comes_from(nodes, root, seen, x));
                let (s, k) = choose|s: int, k: int|
                    0 <= s < seen.len() && #[trigger] child_at(nodes, seen[s] as int, k, x);
                assert(more[s] == seen[s]);
                assert(child_at(nodes, more[s] as int, k, x));
            }
        } else {
            assert(is_child(nodes, id as int, after[i]));
            let k = choose|k: int| #[trigger] child_at(nodes, id as int, k, after[i]);
            assert(more[n] == id);
            assert(child_at(nodes, more[n] as int, k, after[i]));
            assert(nodes[id as int].children[k] < nodes.len());
        }
    }
}

pub open spec fn too_many(n: nat) -> Seq<char> {
    dec(n) + " nodes is more than this can index; the limit is 4294967295"@
}

/// Settles the ends of the subtrees: a parent precedes its children, so one
/// pass from the end hands every end up, already final.
fn settle_ends(placed: &mut Vec<Placed>)
    requires
        old(placed)@.len() <= u32::MAX,
        depth_first(old(placed)@),
        forall|i: int|
            #![trigger old(placed)@[i]]
            0 <= i < old(placed)@.len() ==> old(placed)@[i].subtree_end == i + 1,
    ensures
        same_but_ends(old(placed)@, final(placed)@),
        ends_are_exact(final(placed)@),
        depth_first(final(placed)@),
{
    let ghost first = placed@;
    let n: usize = placed.len();
    let mut i: usize = n;
    while i > 0
        invariant
            i <= n == first.len() == placed@.len(),
            n <= u32::MAX,
            depth_first(first),
            same_but_ends(first, placed@),
            forall|p: int|
                #![trigger placed@[p]]
                0 <= p < n ==> p < placed@[p].subtree_end <= n && under(
                    first,
                    p,
                    placed@[p].subtree_end - 1,
                ),
            forall|c: int|
                #![trigger placed@[c]]
                i <= c < n && first[c].parent != NO_PARENT ==> placed@[c].subtree_end
                    <= placed@[first[c].parent as int].subtree_end,
        decreases i,
    {
        i -= 1;
        let ghost held = placed@;
        let parent: u32 = placed[i].parent;
        assert(held[i as int] == (Placed { subtree_end: held[i as int].subtree_end, ..first[i as int] }));
        if parent != NO_PARENT {
            let end: u32 = placed[i].subtree_end;
            let up: usize = parent as usize;
            proof {
                assert(over(first, first[i as int].parent, i - 1));
                under_is_after(first, parent as int, i - 1);
                assert(under(first, parent as int, parent as int));
                assert(under(first, parent as int, i as int));
                under_trans(first, parent as int, i as int, end - 1);
                assert(under(first, i as int, held[i as int].subtree_end - 1));
            }
            if placed[up].subtree_end < end {
                placed[up].subtree_end = end;
            }
            proof {
                assert forall|c: int|
                    #![trigger placed@[c]]
                    i <= c < n && first[c].parent != NO_PARENT implies placed@[c].subtree_end
                    <= placed@[first[c].parent as int].subtree_end by {
                    assert(over(first, first[c].parent, c - 1));
                    assert(placed@[c] == held[c]);
                    if first[c].parent != NO_PARENT {
                        let q = first[c].parent as int;
                        assert(held[q].subtree_end <= placed@[q].subtree_end);
                    }
                }
                assert forall|p: int|
                    #![trigger placed@[p]]
                    0 <= p < n implies p < placed@[p].subtree_end <= n && under(
                    first,
                    p,
                    placed@[p].subtree_end - 1,
                ) by {
                    assert(p < held[p].subtree_end <= n);
                }
            }
        }
    }
    proof {
        let done = placed@;
        assert forall|x: int| 0 <= x < n implies (#[trigger] first[x]).parent
            == done[x].parent by {
            assert(done[x] == (Placed { subtree_end: done[x].subtree_end, ..first[x] }));
        }
        assert forall|x: int| 0 <= x < done.len() implies over(
            done,
            (#[trigger] done[x]).parent,
            x - 1,
        ) by {
            assert(first[x].parent == done[x].parent);
            assert(over(first, first[x].parent, x - 1));
            if first[x].parent != NO_PARENT {
                under_same(first, done, first[x].parent as int, x - 1);
            }
        }
        assert forall|p: int| #![trigger done[p]] 0 <= p < done.len() implies {
            &&& p < done[p].subtree_end <= done.len()
            &&& forall|j: int|
                0 <= j < done.len() ==> (#[trigger] under(done, p, j) <==> p <= j
                    < done[p].subtree_end)
        } by {
            assert forall|j: int| 0 <= j < done.len() implies (#[trigger] under(done, p, j)
                <==> p <= j < done[p].subtree_end) by {
                under_same(first, done, p, j);
                if under(first, p, j) {
                    under_is_after(first, p, j);
                    ends_go_up(first, done, p, j);
                }
                if p <= j < done[p].subtree_end {
                    a_subtree_is_contiguous(first, p, j, done[p].subtree_end - 1);
                }
            }
        }
    }
}

proof fn ends_go_up(first: Seq<Placed>, done: Seq<Placed>, p: int, j: int)
    requires
        0 <= p < first.len(),
        0 <= j < first.len() == done.len(),
        first.len() <= u32::MAX,
        under(first, p, j),
        forall|x: int| #![trigger done[x]] 0 <= x < done.len() ==> x < done[x].subtree_end,
        forall|c: int|
            #![trigger done[c]]
            0 <= c < done.len() && first[c].parent != NO_PARENT ==> done[c].subtree_end
                <= done[first[c].parent as int].subtree_end,
    ensures
        j < done[j].subtree_end <= done[p].subtree_end,
    decreases j,
{
    if p != j {
        ends_go_up(first, done, p, first[j].parent as int);
    }
}

impl Scene {
    /// Flattens the tree under `root`.
    ///
    /// Refused rather than truncated when the drawing has more nodes than a
    /// `u32` can name: the links here are indices, and a silently wrapped one
    /// would draw a picture of the wrong tree.
    pub fn of(tree: &Tree, root: usize) -> (r: Result<Scene, String>)
        requires
            is_tree(tree@, root as int),
        ensures
            match r {
                Ok(scene) => {
                    let flat = flattened(tree@, root);
                    &&& tree@.len() <= u32::MAX
                    &&& same_but_ends(flat.placed, scene.entries())
                    &&& scene.tree_nodes() == flat.order
                    &&& scene.entries().len() == scene.tree_nodes().len()
                    &&& ends_are_exact(scene.entries())
                    &&& depth_first(scene.entries())
                    &&& flat.stack.len() == 0
                },
                Err(e) => tree@.len() > u32::MAX && e@ == too_many(tree@.len()),
            },
    {
        let ghost nodes = tree@;
        let n: usize = tree.len();
        if n > u32::MAX as usize {
            let mut s = String::new();
            push_dec(&mut s, n as u64);
            assert(s@ =~= dec(n as nat));
            s.append(" nodes is more than this can index; the limit is 4294967295");
            return Err(s);
        }
        let mut placed: Vec<Placed> = Vec::new();
        let mut order: Vec<usize> = Vec::new();
        let mut stack: Vec<(usize, u32)> = Vec::new();
        stack.push((root, NO_PARENT));
        let ghost mut seen: Seq<usize> = Seq::empty();
        let ghost whole = flattened(nodes, root);
        proof {
            assert(stack@ =~= seq![(root, NO_PARENT)]);
            let all = met(seen, stack@);
            assert(all =~= seq![root]);
            assert(meets_once(nodes, root, seen, stack@));
        }
        while stack.len() > 0
            invariant
                nodes == tree@,
                n == nodes.len() <= u32::MAX,
                is_tree(nodes, root as int),
                meets_once(nodes, root, seen, stack@),
                seen.len() <= n,
                placed@.len() == order@.len() <= seen.len(),
                depth_first(placed@),
                on_the_path(placed@, stack@),
                forall|i: int|
                    #![trigger placed@[i]]
                    0 <= i < placed@.len() ==> placed@[i].subtree_end == i + 1,
                whole == flatten(
                    nodes,
                    Flattening { placed: placed@, order: order@, stack: stack@ },
                    (n - seen.len()) as nat,
                ),
            decreases n - seen.len(),
        {
            let ghost st = Flattening { placed: placed@, order: order@, stack: stack@ };
            proof {
                bounded_unique(met(seen, stack@), n);
                assert(met(seen, stack@)[seen.len() + stack@.len() - 1] < n);
            }
            let (id, parent) = stack.pop().unwrap();
            assert(tree.nodes@[id as int]@ == nodes[id as int]);
            let mut up: u32 = parent;
            let ghost rest = stack@;
            if let Some(graph) = tree.nodes[id].graph {
                up = placed.len() as u32;
                let p = Placed {
                    graph: ((graph as u64) % 0x1_0000_0000) as u32,
                    parent,
                    subtree_end: up + 1,
                };
                proof {
                    path_after_placing(placed@, st.stack, p, nodes[id as int].children);
                }
                placed.push(p);
                order.push(id);
            } else {
                proof {
                    path_after_passing(placed@, st.stack, nodes[id as int].children);
                }
            }
            let count: usize = tree.nodes[id].children.len();
            let mut k: usize = count;
            while k > 0
                invariant
                    k <= count == nodes[id as int].children.len(),
                    id < tree.nodes@.len(),
                    tree.nodes@[id as int]@ == nodes[id as int],
                    stack@ == rest + waiting(nodes[id as int].children, up).take(count - k),
                decreases k,
            {
                k -= 1;
                let child: usize = tree.nodes[id].children[k];
                stack.push((child, up));
                assert(stack@ =~= rest + waiting(nodes[id as int].children, up).take(count - k));
            }
            proof {
                assert(stack@ =~= rest + waiting(nodes[id as int].children, up));
                meeting_goes_on(nodes, root, seen, st.stack, up);
                seen = seen.push(id);
                assert(flatten_one(nodes, st) == (Flattening {
                    placed: placed@,
                    order: order@,
                    stack: stack@,
                }));
            }
        }
        let ghost flat = placed@;
        settle_ends(&mut placed);
        Ok(Scene { placed, order })
    }

    /// How many nodes are drawn.
    pub fn len(&self) -> (n: usize)
        ensures
            n == self.entries().len(),
            n <= u32::MAX,
    {
        proof {
            use_type_invariant(self);
        }
        self.placed.len()
    }

    /// Whether nothing is drawn.
    pub fn is_empty(&self) -> (empty: bool)
        ensures
            empty == (self.entries().len() == 0),
    {
        self.placed.len() == 0
    }

    /// Entry `i`.
    pub fn node(&self, i: u32) -> (p: Placed)
        requires
            i < self.entries().len(),
        ensures
            p == self.entries()[i as int],
    {
        self.placed[i as usize]
    }

    /// The tree node that entry `i` is.
    pub fn tree_node(&self, i: u32) -> (id: usize)
        requires
            i < self.entries().len(),
        ensures
            id == self.tree_nodes()[i as int],
    {
        proof {
            use_type_invariant(self);
        }
        self.order[i as usize]
    }

    /// Whether the node has no children, told from the extent of its subtree.
    pub fn is_leaf(&self, i: u32) -> (leaf: bool)
        requires
            i < self.entries().len(),
        ensures
            leaf == (self.entries()[i as int].subtree_end == i + 1),
            leaf == (forall|j: int|
                0 <= j < self.entries().len() ==> (#[trigger] self.entries()[j]).parent != i),
    {
        proof {
            use_type_invariant(self);
            let all = self.placed@;
            assert(i < all[i as int].subtree_end);
            if all[i as int].subtree_end > i + 1 {
                let m = i + 1;
                assert(under(all, i as int, m));
                under_has_child(all, i as int, m);
            } else {
                assert forall|j: int| 0 <= j < all.len() implies (#[trigger] all[j]).parent
                    != i by {
                    if all[j].parent == i {
                        if j > i {
                            assert(under(all, i as int, i as int));
                            assert(under(all, i as int, j));
                        } else {
                            assert(over(all, all[j].parent, j - 1));
                            under_is_after(all, i as int, j - 1);
                        }
                    }
                }
            }
        }
        self.placed[i as usize].subtree_end == i + 1
    }

    /// The nodes of `i`'s subtree, `i` itself first: a contiguous range.
    pub fn subtree(&self, i: u32) -> (range: std::ops::Range<u32>)
        requires
            i < self.entries().len(),
        ensures
            range.start == i,
            range.end == self.entries()[i as int].subtree_end,
            i < range.end <= self.entries().len(),
            forall|j: int|
                0 <= j < self.entries().len() ==> (#[trigger] under(self.entries(), i as int, j)
                    <==> range.start <= j < range.end),
    {
        proof {
            use_type_invariant(self);
            assert(i < self.placed@[i as int].subtree_end);
        }
        i..self.placed[i as usize].subtree_end
    }
}

proof fn under_has_child(placed: Seq<Placed>, i: int, j: int)
    requires
        under(placed, i, j),
        0 <= i < j < placed.len(),
    ensures
        exists|c: int| 0 <= c < placed.len() && (#[trigger] placed[c]).parent == i,
    decreases j,
{
    let q = placed[j].parent as int;
    if q != i {
        under_is_after(placed, i, q);
        under_has_child(placed, i, q);
    }
}

/// Each node of a path is a child of the one before it.
pub open spec fn is_path(nodes: Seq<NodeView>, path: Seq<usize>) -> bool {
    &&& path.len() > 0
    &&& forall|i: int|
        0 < i < path.len() ==> is_child(nodes, path[i - 1] as int, #[trigger] path[i])
}

/// Every child stands for a node of the graph: only a root may stand for none.
pub open spec fn children_are_drawn(nodes: Seq<NodeView>) -> bool {
    forall|p: int, k: int|
        0 <= p < nodes.len() && 0 <= k < nodes[p].children.len() ==> nodes[(
        #[trigger] nodes[p].children[k]) as int].graph is Some
}

/// A tree node that stands for a node of the graph, and an entry with its number.
pub open spec fn is_drawn_as(node: NodeView, p: Placed) -> bool {
    match node.graph {
        Some(g) => p.graph == low_word(g),
        None => false,
    }
}

/// Entry `i` is the tree node it says it is, and hangs off its own parent.
spec fn stands(nodes: Seq<NodeView>, st: Flattening, i: int) -> bool {
    &&& st.order[i] < nodes.len()
    &&& is_drawn_as(nodes[st.order[i] as int], st.placed[i])
    &&& children_are_drawn(nodes) && st.placed[i].parent != NO_PARENT ==> {
        &&& st.placed[i].parent < st.order.len()
        &&& is_child(nodes, st.order[st.placed[i].parent as int] as int, st.order[i])
    }
}

/// What a walk has to show for the tree nodes it went through.
spec fn gone_through(nodes: Seq<NodeView>, root: usize, seen: Seq<usize>, st: Flattening) -> bool {
    &&& met(seen, st.stack).contains(root)
    &&& forall|s: int, c: usize|
        0 <= s < seen.len() && #[trigger] is_child(nodes, seen[s] as int, c) ==> met(
            seen,
            st.stack,
        ).contains(c)
    &&& st.order.no_duplicates()
    &&& st.order.len() == st.placed.len() <= seen.len()
    &&& forall|v: usize|
        #![trigger st.order.contains(v)]
        st.order.contains(v) <==> seen.contains(v) && nodes[v as int].graph is Some
    &&& forall|i: int| 0 <= i < st.order.len() ==> #[trigger] stands(nodes, st, i)
    &&& forall|x: int|
        #![trigger st.stack[x]]
        0 <= x < st.stack.len() && children_are_drawn(nodes) && st.stack[x].1 != NO_PARENT ==> {
            &&& st.stack[x].1 < st.order.len()
            &&& is_child(nodes, st.order[st.stack[x].1 as int] as int, st.stack[x].0)
        }
}

proof fn going_through_one(nodes: Seq<NodeView>, root: usize, seen: Seq<usize>, st: Flattening)
    requires
        is_tree(nodes, root as int),
        seen.len() < nodes.len() <= u32::MAX,
        meets_once(nodes, root, seen, st.stack),
        gone_through(nodes, root, seen, st),
        st.stack.len() > 0,
    ensures
        meets_once(nodes, root, seen.push(st.stack.last().0), flatten_one(nodes, st).stack),
        gone_through(nodes, root, seen.push(st.stack.last().0), flatten_one(nodes, st)),
{
    let (id, parent) = st.stack.last();
    let next = flatten_one(nodes, st);
    let more = seen.push(id);
    let n = seen.len() as int;
    let r = st.stack.len() - 1;
    let children = nodes[id as int].children;
    let before = met(seen, st.stack);
    let after = met(more, next.stack);
    let up = if nodes[id as int].graph is Some { st.placed.len() as u32 } else { parent };
    assert(next.stack == st.stack.drop_last() + waiting(children, up));
    meeting_goes_on(nodes, root, seen, st.stack, up);
    assert(before[n + r] == id);
    assert forall|v: usize| before.contains(v) implies #[trigger] after.contains(v) by {
        let b = before.index_of(v);
        assert(before[b] == v);
        let a = if b < n { b } else if b == n + r { n } else { b + 1 };
        assert(after[a] == v);
    }
    assert(after.contains(root));
    assert forall|s: int, c: usize|
        0 <= s < more.len() && #[trigger] is_child(nodes, more[s] as int, c) implies after.contains(
        c,
    ) by {
        if s < n {
            assert(is_child(nodes, seen[s] as int, c));
            assert(before.contains(c));
        } else {
            let k = choose|k: int| #[trigger] child_at(nodes, id as int, k, c);
            assert(after[n + 1 + r + (children.len() - 1 - k)] == c);
        }
    }
    assert(!seen.contains(id)) by {
        if seen.contains(id) {
            let b = seen.index_of(id);
            assert(before[b] == before[n + r]);
        }
    }
    assert forall|v: usize| more.contains(v) <==> seen.contains(v) || v == id by {
        if seen.contains(v) {
            assert(more[seen.index_of(v)] == v);
        }
        assert(more[n] == id);
    }
    assert forall|x: int|
        #![trigger st.stack[x]]
        0 <= x < st.stack.len() && children_are_drawn(nodes) && st.stack[x].1 != NO_PARENT implies {
        &&& st.stack[x].1 < next.order.len()
        &&& is_child(nodes, next.order[st.stack[x].1 as int] as int, st.stack[x].0)
    } by {
        assert(next.order[st.stack[x].1 as int] == st.order[st.stack[x].1 as int]);
    }
    assert(st.stack[r] == (id, parent));
    assert(!st.order.contains(id));
    assert(next.order.no_duplicates());
    assert forall|v: usize|
        #![trigger next.order.contains(v)]
        next.order.contains(v) <==> more.contains(v) && nodes[v as int].graph is Some by {
        if nodes[id as int].graph is Some {
            assert(next.order == st.order.push(id));
            if st.order.contains(v) {
                assert(next.order[st.order.index_of(v)] == v);
            }
            assert(next.order[st.order.len() as int] == id);
        }
    }
    assert forall|i: int| 0 <= i < next.order.len() implies #[trigger] stands(nodes, next, i) by {
        if i < st.order.len() {
            assert(stands(nodes, st, i));
        } else {
            assert(before[n + r] < nodes.len());
        }
    }
    assert forall|x: int|
        #![trigger next.stack[x]]
        0 <= x < next.stack.len() && children_are_drawn(nodes) && next.stack[x].1
            != NO_PARENT implies {
        &&& next.stack[x].1 < next.order.len()
        &&& is_child(nodes, next.order[next.stack[x].1 as int] as int, next.stack[x].0)
    } by {
        if x < r {
            assert(next.stack[x] == st.stack[x]);
        } else {
            let k = children.len() - 1 - (x - r);
            assert(next.stack[x] == (children[k], up));
            if nodes[id as int].graph is Some {
                assert(next.order[up as int] == id);
                assert(child_at(nodes, id as int, k, children[k]));
            } else {
                let p = st.order[parent as int];
                let l = choose|l: int| #[trigger] child_at(nodes, p as int, l, id);
                assert(stands(nodes, st, parent as int));
                assert(nodes[p as int].children[l] == id);
            }
        }
    }
}

/// The tree nodes a walk comes through, in order.
spec fn visited(nodes: Seq<NodeView>, st: Flattening, fuel: nat) -> Seq<usize>
    decreases fuel,
{
    if st.stack.len() == 0 || fuel == 0 {
        Seq::empty()
    } else {
        seq![st.stack.last().0] + visited(nodes, flatten_one(nodes, st), (fuel - 1) as nat)
    }
}

proof fn going_through(
    nodes: Seq<NodeView>,
    root: usize,
    seen: Seq<usize>,
    st: Flattening,
    fuel: nat,
) -> (all: Seq<usize>)
    requires
        is_tree(nodes, root as int),
        nodes.len() <= u32::MAX,
        seen.len() + fuel == nodes.len(),
        meets_once(nodes, root, seen, st.stack),
        gone_through(nodes, root, seen, st),
    ensures
        flatten(nodes, st, fuel).stack.len() == 0,
        gone_through(nodes, root, all, flatten(nodes, st, fuel)),
        all == seen + visited(nodes, st, fuel),
    decreases fuel,
{
    if st.stack.len() == 0 {
        assert(seen + visited(nodes, st, fuel) =~= seen);
        seen
    } else {
        bounded_unique(met(seen, st.stack), nodes.len() as usize);
        going_through_one(nodes, root, seen, st);
        let id = st.stack.last().0;
        let next = flatten_one(nodes, st);
        let rest = (fuel - 1) as nat;
        let all = going_through(nodes, root, seen.push(id), next, rest);
        assert(seen.push(id) + visited(nodes, next, rest) =~= seen + (seq![id] + visited(
            nodes,
            next,
            rest,
        )));
        all
    }
}

proof fn a_path_is_gone_through(
    nodes: Seq<NodeView>,
    root: usize,
    all: Seq<usize>,
    st: Flattening,
    path: Seq<usize>,
)
    requires
        gone_through(nodes, root, all, st),
        st.stack.len() == 0,
        is_path(nodes, path),
        path[0] == root,
    ensures
        all.contains(path.last()),
    decreases path.len(),
{
    assert(met(all, st.stack) =~= all);
    if path.len() > 1 {
        let shorter = path.drop_last();
        assert forall|i: int| 0 < i < shorter.len() implies is_child(
            nodes,
            shorter[i - 1] as int,
            #[trigger] shorter[i],
        ) by {
            assert(path[i] == shorter[i]);
        }
        a_path_is_gone_through(nodes, root, all, st, shorter);
        let s = all.index_of(shorter.last());
        let last = path.len() - 1;
        assert(is_child(nodes, path[last - 1] as int, path[last]));
        assert(is_child(nodes, all[s] as int, path.last()));
    }
}

/// A scene has every node of the graph that hangs under the root, once, and
/// nothing else: no node is lost to an added root, which is not in the scene
/// itself. Where only the root may stand for no node, every entry hangs off the
/// entry of its own parent.
pub proof fn a_scene_has_every_node_once(nodes: Seq<NodeView>, root: usize, path: Seq<usize>)
    requires
        is_tree(nodes, root as int),
        nodes.len() <= u32::MAX,
        is_path(nodes, path),
        path[0] == root,
    ensures
        ({
            let flat = flattened(nodes, root);
            &&& flat.order.no_duplicates()
            &&& flat.order.len() == flat.placed.len()
            &&& flat.order.contains(path.last()) <==> nodes[path.last() as int].graph is Some
            &&& forall|i: int|
                0 <= i < flat.order.len() ==> (#[trigger] flat.order[i]) < nodes.len()
                    && is_drawn_as(nodes[flat.order[i] as int], flat.placed[i])
            &&& children_are_drawn(nodes) ==> forall|i: int|
                0 <= i < flat.placed.len() && (#[trigger] flat.placed[i]).parent != NO_PARENT
                    ==> flat.placed[i].parent < flat.order.len() && is_child(
                    nodes,
                    flat.order[flat.placed[i].parent as int] as int,
                    flat.order[i],
                )
        }),
{
    let start = Flattening {
        placed: Seq::empty(),
        order: Seq::empty(),
        stack: seq![(root, NO_PARENT)],
    };
    let none = Seq::<usize>::empty();
    assert(met(none, start.stack) =~= seq![root]);
    assert(met(none, start.stack)[0] == root);
    assert(meets_once(nodes, root, none, start.stack));
    let all = going_through(nodes, root, none, start, nodes.len());
    let flat = flattened(nodes, root);
    a_path_is_gone_through(nodes, root, all, flat, path);
    assert forall|i: int| 0 <= i < flat.order.len() implies (#[trigger] flat.order[i])
        < nodes.len() && is_drawn_as(nodes[flat.order[i] as int], flat.placed[i]) by {
        assert(stands(nodes, flat, i));
    }
    if children_are_drawn(nodes) {
        assert forall|i: int|
            0 <= i < flat.placed.len() && (#[trigger] flat.placed[i]).parent
                != NO_PARENT implies flat.placed[i].parent < flat.order.len() && is_child(
            nodes,
            flat.order[flat.placed[i].parent as int] as int,
            flat.order[i],
        ) by {
            assert(stands(nodes, flat, i));
        }
    }
}

/// Wherever both are drawn, `a` comes before `b`.
pub open spec fn comes_before(order: Seq<usize>, a: usize, b: usize) -> bool {
    forall|i: int, j: int|
        0 <= i < order.len() && 0 <= j < order.len() && #[trigger] order[i] == a
            && #[trigger] order[j] == b ==> i < j
}

/// Wherever it is drawn, `a` hangs off entry `up`.
pub open spec fn hangs_off(flat: Flattening, a: usize, up: u32) -> bool {
    forall|i: int|
        0 <= i < flat.order.len() && #[trigger] flat.order[i] == a ==> flat.placed[i].parent == up
}

/// The children of a node come in their order.
pub open spec fn in_order(nodes: Seq<NodeView>, order: Seq<usize>, p: usize) -> bool {
    forall|k: int, l: int|
        0 <= k < l < nodes[p as int].children.len() ==> comes_before(
            order,
            #[trigger] nodes[p as int].children[k],
            #[trigger] nodes[p as int].children[l],
        )
}

/// What waits on a stack is drawn from its end on, each entry off the one it names.
proof fn the_stack_is_read_from_its_end(
    nodes: Seq<NodeView>,
    root: usize,
    seen: Seq<usize>,
    st: Flattening,
    fuel: nat,
)
    requires
        is_tree(nodes, root as int),
        nodes.len() <= u32::MAX,
        seen.len() + fuel == nodes.len(),
        meets_once(nodes, root, seen, st.stack),
        gone_through(nodes, root, seen, st),
    ensures
        ({
            let end = flatten(nodes, st, fuel);
            &&& st.order.len() <= end.order.len()
            &&& end.order.len() == end.placed.len()
            &&& st.order == end.order.take(st.order.len() as int)
            &&& st.placed == end.placed.take(st.order.len() as int)
            &&& forall|x: int, y: int|
                0 <= x < y < st.stack.len() ==> comes_before(
                    end.order,
                    (#[trigger] st.stack[y]).0,
                    (#[trigger] st.stack[x]).0,
                )
            &&& forall|x: int|
                0 <= x < st.stack.len() ==> hangs_off(
                    end,
                    (#[trigger] st.stack[x]).0,
                    st.stack[x].1,
                )
            &&& forall|p: usize| #[trigger]
                visited(nodes, st, fuel).contains(p) ==> in_order(nodes, end.order, p)
        }),
    decreases fuel,
{
    let end = flatten(nodes, st, fuel);
    assert(st.order.take(st.order.len() as int) =~= st.order);
    assert(st.placed.take(st.order.len() as int) =~= st.placed);
    if st.stack.len() > 0 {
        bounded_unique(met(seen, st.stack), nodes.len() as usize);
        going_through_one(nodes, root, seen, st);
        let all = going_through(nodes, root, seen, st, fuel);
        let (id, parent) = st.stack.last();
        let next = flatten_one(nodes, st);
        let rest = (fuel - 1) as nat;
        the_stack_is_read_from_its_end(nodes, root, seen.push(id), next, rest);
        let here = st.order.len() as int;
        let top = st.stack.len() - 1;
        let before = met(seen, st.stack);
        let children = nodes[id as int].children;
        assert(end == flatten(nodes, next, rest));
        assert(st.order =~= end.order.take(next.order.len() as int).take(here));
        assert(end.order.take(next.order.len() as int).take(here) =~= end.order.take(here));
        assert(st.placed =~= end.placed.take(next.order.len() as int).take(here));
        assert(end.placed.take(next.order.len() as int).take(here) =~= end.placed.take(here));
        // Nothing that waits was drawn before.
        assert forall|x: int, i: int|
            0 <= x < st.stack.len() && 0 <= i < here implies #[trigger] end.order[i]
            != (#[trigger] st.stack[x]).0 by {
            assert(end.order[i] == end.order.take(here)[i]);
            if end.order[i] == st.stack[x].0 {
                assert(st.order.contains(st.stack[x].0));
                let s = seen.index_of(st.stack[x].0);
                assert(before[s] == before[seen.len() + x]);
            }
        }
        if nodes[id as int].graph is Some {
            assert(end.order[here] == end.order.take(next.order.len() as int)[here]);
            assert(end.order[here] == id);
            assert(end.placed[here] == end.placed.take(next.order.len() as int)[here]);
            assert(end.placed[here].parent == parent);
        } else {
            assert forall|i: int| 0 <= i < end.order.len() implies #[trigger] end.order[i]
                != id by {
                assert(stands(nodes, end, i));
            }
        }
        assert forall|x: int, y: int| 0 <= x < y < st.stack.len() implies comes_before(
            end.order,
            (#[trigger] st.stack[y]).0,
            (#[trigger] st.stack[x]).0,
        ) by {
            if y < top {
                assert(next.stack[x] == st.stack[x] && next.stack[y] == st.stack[y]);
            } else {
                assert(before[seen.len() + x] != before[seen.len() + y]);
                assert forall|i: int, j: int|
                    0 <= i < end.order.len() && 0 <= j < end.order.len() && #[trigger] end.order[i]
                        == id && #[trigger] end.order[j] == st.stack[x].0 implies i < j by {
                    assert(i == here);
                    assert(j >= here);
                }
            }
        }
        assert forall|x: int| 0 <= x < st.stack.len() implies hangs_off(
            end,
            (#[trigger] st.stack[x]).0,
            st.stack[x].1,
        ) by {
            if x < top {
                assert(next.stack[x] == st.stack[x]);
            } else {
                assert forall|i: int|
                    0 <= i < end.order.len() && #[trigger] end.order[i] == id implies end.placed[i].parent
                    == parent by {
                    assert(i == here);
                }
            }
        }
        assert forall|p: usize| #[trigger] visited(nodes, st, fuel).contains(p) implies in_order(
            nodes,
            end.order,
            p,
        ) by {
            if p == id {
                assert forall|k: int, l: int| 0 <= k < l < children.len() implies comes_before(
                    end.order,
                    #[trigger] nodes[p as int].children[k],
                    #[trigger] nodes[p as int].children[l],
                ) by {
                    let n = children.len();
                    let y = top + (n - 1 - k);
                    let x = top + (n - 1 - l);
                    assert(next.stack[y].0 == children[k]);
                    assert(next.stack[x].0 == children[l]);
                }
            } else {
                let i = visited(nodes, st, fuel).index_of(p);
                assert(visited(nodes, next, rest)[i - 1] == p);
                assert(visited(nodes, next, rest).contains(p));
            }
        }
    }
}

/// Every tree node hangs under the root.
pub open spec fn all_hang(nodes: Seq<NodeView>, root: usize) -> bool {
    forall|v: usize| v < nodes.len() ==> #[trigger] hangs_under(nodes, root, v)
}

/// There is a way from the root to `v`.
pub open spec fn hangs_under(nodes: Seq<NodeView>, root: usize, v: usize) -> bool {
    exists|path: Seq<usize>| #[trigger]
        is_path(nodes, path) && path[0] == root && path.last() == v
}

/// A scene is the tree read in pre-order: every node that stands for one of the graph
/// is there once and nothing else is; a parent comes before what hangs off it;
/// siblings keep their order; and what hangs under an added root hangs off nothing.
pub proof fn a_scene_is_read_in_pre_order(nodes: Seq<NodeView>, root: usize)
    requires
        is_tree(nodes, root as int),
        nodes.len() <= u32::MAX,
        all_hang(nodes, root),
    ensures
        ({
            let flat = flattened(nodes, root);
            &&& flat.order.no_duplicates()
            &&& flat.order.len() == flat.placed.len()
            &&& forall|v: usize|
                #![trigger flat.order.contains(v)]
                flat.order.contains(v) <==> v < nodes.len() && nodes[v as int].graph is Some
            &&& forall|i: int|
                0 <= i < flat.placed.len() ==> (#[trigger] flat.placed[i]).parent == NO_PARENT
                    || flat.placed[i].parent < i
            &&& forall|p: usize| p < nodes.len() ==> #[trigger] in_order(nodes, flat.order, p)
            &&& nodes[root as int].graph is None ==> forall|k: int|
                0 <= k < nodes[root as int].children.len() ==> hangs_off(
                    flat,
                    #[trigger] nodes[root as int].children[k],
                    NO_PARENT,
                )
        }),
{
    let start = Flattening {
        placed: Seq::empty(),
        order: Seq::empty(),
        stack: seq![(root, NO_PARENT)],
    };
    let none = Seq::<usize>::empty();
    let flat = flattened(nodes, root);
    assert(met(none, start.stack) =~= seq![root]);
    assert(met(none, start.stack)[0] == root);
    assert(meets_once(nodes, root, none, start.stack));
    let all = going_through(nodes, root, none, start, nodes.len());
    the_stack_is_read_from_its_end(nodes, root, none, start, nodes.len());
    assert(none + visited(nodes, start, nodes.len()) =~= visited(nodes, start, nodes.len()));
    assert forall|v: usize| v < nodes.len() implies #[trigger] all.contains(v) by {
        assert(hangs_under(nodes, root, v));
        let path = choose|path: Seq<usize>| #[trigger]
            is_path(nodes, path) && path[0] == root && path.last() == v;
        a_path_is_gone_through(nodes, root, all, flat, path);
    }
    assert forall|v: usize|
        #![trigger flat.order.contains(v)]
        flat.order.contains(v) <==> v < nodes.len() && nodes[v as int].graph is Some by {
        if flat.order.contains(v) {
            let i = flat.order.index_of(v);
            assert(stands(nodes, flat, i));
        }
        if v < nodes.len() {
            assert(all.contains(v));
        }
    }
    assert forall|p: usize| p < nodes.len() implies #[trigger] in_order(nodes, flat.order, p) by {
        assert(all.contains(p));
    }
    walking_is_depth_first(nodes, root, none, start, nodes.len());
    assert forall|i: int| 0 <= i < flat.placed.len() implies (#[trigger] flat.placed[i]).parent
        == NO_PARENT || flat.placed[i].parent < i by {
        assert(over(flat.placed, flat.placed[i].parent, i - 1));
    }
    if nodes[root as int].graph is None {
        let next = flatten_one(nodes, start);
        let children = nodes[root as int].children;
        going_through_one(nodes, root, none, start);
        the_stack_is_read_from_its_end(
            nodes,
            root,
            none.push(root),
            next,
            (nodes.len() - 1) as nat,
        );
        assert forall|k: int| 0 <= k < children.len() implies hangs_off(
            flat,
            #[trigger] nodes[root as int].children[k],
            NO_PARENT,
        ) by {
            let x = children.len() - 1 - k;
            assert(next.stack[x] == (children[k], NO_PARENT));
        }
    }
}

proof fn walking_is_depth_first(
    nodes: Seq<NodeView>,
    root: usize,
    seen: Seq<usize>,
    st: Flattening,
    fuel: nat,
)
    requires
        is_tree(nodes, root as int),
        nodes.len() <= u32::MAX,
        seen.len() + fuel == nodes.len(),
        meets_once(nodes, root, seen, st.stack),
        gone_through(nodes, root, seen, st),
        depth_first(st.placed),
        on_the_path(st.placed, st.stack),
    ensures
        depth_first(flatten(nodes, st, fuel).placed),
    decreases fuel,
{
    if st.stack.len() > 0 {
        bounded_unique(met(seen, st.stack), nodes.len() as usize);
        going_through_one(nodes, root, seen, st);
        let (id, parent) = st.stack.last();
        let next = flatten_one(nodes, st);
        let children = nodes[id as int].children;
        if let Some(graph) = nodes[id as int].graph {
            let p = next.placed.last();
            path_after_placing(st.placed, st.stack, p, children);
        } else {
            path_after_passing(st.placed, st.stack, children);
        }
        walking_is_depth_first(nodes, root, seen.push(id), next, (fuel - 1) as nat);
    }
}

} // verus!
