//! The graphs that are drawn: nodes numbered from zero, and for each of them
//! the nodes its arcs lead to.

use vstd::prelude::*;

use crate::kept::{ascending, rank, rank_splits};

verus! {

/// The successor lists of a graph, one per node.
pub type Lists = Seq<Seq<usize>>;

/// A list of successors in a graph of `n` nodes: nodes of the graph, in
/// increasing order.
pub open spec fn successor_list(s: Seq<usize>, n: nat) -> bool {
    &&& ascending(s)
    &&& forall|i: int| 0 <= i < s.len() ==> #[trigger] s[i] < n
}

/// Every list of the graph is a successor list.
pub open spec fn well_formed(lists: Lists) -> bool {
    forall|u: int| 0 <= u < lists.len() ==> #[trigger] successor_list(lists[u], lists.len())
}

/// A graph that can be asked for the successors of any node, in any order.
pub trait Graph {
    /// The successor lists the graph stands for.
    spec fn lists(&self) -> Lists;

    /// How many nodes the graph has.
    fn num_nodes(&self) -> (n: usize)
        ensures
            n == self.lists().len(),
    ;

    /// How many arcs leave node `u`.
    fn outdegree(&self, u: usize) -> (d: usize)
        requires
            u < self.lists().len(),
        ensures
            d == self.lists()[u as int].len(),
    ;

    /// The nodes the arcs of `u` lead to, in increasing order.
    fn successors(&self, u: usize) -> (s: Vec<usize>)
        requires
            u < self.lists().len(),
        ensures
            s@ == self.lists()[u as int],
            successor_list(s@, self.lists().len()),
            self.lists().len() <= usize::MAX,
    ;
}

/// A graph held as a vector of successor lists.
pub struct Adjacency {
    rows: Vec<Vec<usize>>,
}

impl Adjacency {
    /// The well-formed part of the view: every row is a successor list.
    #[verifier::type_invariant]
    closed spec fn rows_are_lists(self) -> bool {
        well_formed(self.rows@.map_values(|row: Vec<usize>| row@))
    }

    /// A graph of `n` nodes and no arcs.
    pub fn empty(n: usize) -> (g: Adjacency)
        ensures
            g.lists() == Seq::new(n as nat, |u: int| Seq::<usize>::empty()),
            well_formed(g.lists()),
    {
        let mut rows: Vec<Vec<usize>> = Vec::new();
        for i in 0..n
            invariant
                rows@.len() == i,
                forall|u: int| 0 <= u < i ==> (#[trigger] rows@[u])@ == Seq::<usize>::empty(),
        {
            rows.push(Vec::new());
        }
        assert(rows@.map_values(|row: Vec<usize>| row@) =~= Seq::new(
            n as nat,
            |u: int| Seq::<usize>::empty(),
        ));
        Adjacency { rows }
    }

    /// Adds the arc from `u` to `v`, and says whether it was not there yet.
    pub fn add_arc(&mut self, u: usize, v: usize) -> (new: bool)
        requires
            u < old(self).lists().len(),
            v < old(self).lists().len(),
        ensures
            new == !old(self).lists()[u as int].contains(v),
            final(self).lists() == if new {
                old(self).lists().update(
                    u as int,
                    old(self).lists()[u as int].insert(
                        rank(old(self).lists()[u as int], v) as int,
                        v,
                    ),
                )
            } else {
                old(self).lists()
            },
            well_formed(final(self).lists()),
    {
        proof {
            use_type_invariant(&*self);
        }
        let ghost before = self.lists();
        let ghost row = before[u as int];
        assert(successor_list(row, before.len()));
        proof {
            rank_splits(row, v);
        }
        let mut at: usize = 0;
        while at < self.rows[u].len() && self.rows[u][at] < v
            invariant
                u < self.rows@.len(),
                self.rows@[u as int]@ == row,
                at <= rank(row, v) <= row.len(),
                forall|l: int| rank(row, v) <= l < row.len() ==> row[l] >= v,
            decreases row.len() - at,
        {
            at += 1;
        }
        assert(at == rank(row, v)) by {
            if at < rank(row, v) {
                assert(row[at as int] < v);
            }
        }
        if at < self.rows[u].len() && self.rows[u][at] == v {
            assert(row[at as int] == v);
            return false;
        }
        assert(!row.contains(v)) by {
            if row.contains(v) {
                let l = row.index_of(v);
                assert(row[l] == v);
            }
        }
        let ghost longer = row.insert(at as int, v);
        assert(successor_list(longer, before.len())) by {
            assert forall|l: int| 0 <= l < longer.len() implies #[trigger] longer[l]
                < before.len() by {
                if l < at {
                    assert(row[l] < before.len());
                } else if l > at {
                    assert(row[l - 1] < before.len());
                }
            }
        }
        let ghost after = before.update(u as int, longer);
        assert(well_formed(after)) by {
            assert forall|w: int| 0 <= w < after.len() implies #[trigger] successor_list(
                after[w],
                after.len(),
            ) by {
                if w != u {
                    assert(successor_list(before[w], before.len()));
                }
            }
        }
        let mut rows: Vec<Vec<usize>> = Vec::new();
        std::mem::swap(&mut rows, &mut self.rows);
        rows[u].insert(at, v);
        assert(rows@.map_values(|row: Vec<usize>| row@) =~= after);
        self.rows = rows;
        true
    }
}

impl Graph for Adjacency {
    closed spec fn lists(&self) -> Lists {
        self.rows@.map_values(|row: Vec<usize>| row@)
    }

    fn num_nodes(&self) -> (n: usize) {
        self.rows.len()
    }

    fn outdegree(&self, u: usize) -> (d: usize) {
        self.rows[u].len()
    }

    fn successors(&self, u: usize) -> (s: Vec<usize>) {
        proof {
            use_type_invariant(self);
        }
        let s = self.rows[u].clone();
        assert(s@ =~= self.rows@[u as int]@);
        assert(successor_list(self.lists()[u as int], self.lists().len()));
        assert(self.lists().len() == self.rows.len());
        s
    }
}

/// Whether asking for the successors of `u` can give these.
pub open spec fn answers<F: Fn(usize) -> Vec<usize>>(f: F, u: usize, s: Seq<usize>) -> bool {
    exists|v: Vec<usize>| #[trigger] f.ensures((u,), v) && v@ == s
}

/// The successors that asking for those of `u` gives.
pub open spec fn asked<F: Fn(usize) -> Vec<usize>>(f: F, u: usize) -> Seq<usize> {
    choose|s: Seq<usize>| answers(f, u, s)
}

/// A graph that is asked for its arcs: it can be asked of every one of its `n`
/// nodes, gives the same answer every time, a successor list, and as many as it
/// says.
pub open spec fn steady<F: Fn(usize) -> Vec<usize>, D: Fn(usize) -> usize>(
    n: usize,
    successors: F,
    outdegree: D,
) -> bool {
    &&& forall|u: usize| u < n ==> #[trigger] successors.requires((u,))
    &&& forall|u: usize| u < n ==> #[trigger] outdegree.requires((u,))
    &&& forall|u: usize, v: Vec<usize>|
        u < n && #[trigger] successors.ensures((u,), v) ==> v@ == asked(successors, u)
            && successor_list(v@, n as nat)
    &&& forall|u: usize, d: usize|
        u < n && #[trigger] outdegree.ensures((u,), d) ==> d == asked(successors, u).len()
}

/// A graph that is held elsewhere, and asked for its arcs node by node.
pub struct Asked<F: Fn(usize) -> Vec<usize>, D: Fn(usize) -> usize> {
    nodes: usize,
    successors: F,
    outdegree: D,
}

impl<F: Fn(usize) -> Vec<usize>, D: Fn(usize) -> usize> Asked<F, D> {
    #[verifier::type_invariant]
    spec fn is_steady(self) -> bool {
        steady(self.nodes, self.successors, self.outdegree)
    }

    /// A graph of so many nodes whose successors and their number are asked for.
    pub fn new(nodes: usize, successors: F, outdegree: D) -> (g: Asked<F, D>)
        requires
            steady(nodes, successors, outdegree),
        ensures
            g.lists() == Seq::new(nodes as nat, |u: int| asked(successors, u as usize)),
    {
        Asked { nodes, successors, outdegree }
    }
}

impl<F: Fn(usize) -> Vec<usize>, D: Fn(usize) -> usize> Graph for Asked<F, D> {
    closed spec fn lists(&self) -> Lists {
        Seq::new(self.nodes as nat, |u: int| asked(self.successors, u as usize))
    }

    fn num_nodes(&self) -> (n: usize) {
        self.nodes
    }

    fn outdegree(&self, u: usize) -> (d: usize) {
        proof {
            use_type_invariant(self);
        }
        (self.outdegree)(u)
    }

    fn successors(&self, u: usize) -> (s: Vec<usize>) {
        proof {
            use_type_invariant(self);
        }
        (self.successors)(u)
    }
}

} // verus!
