//! The walk over the blocks of a graph, breadth first from the blocks the roots
//! name.
//!
//! A block is expanded by following each kept output to the block that consumes
//! it, and that block is admitted if the budgets allow, refused and remembered
//! if not. A block on the last level is drawn and not expanded; the blocks its
//! outputs lead to are counted as beyond the depth. Hidden outputs are not
//! followed, but each is asked whether it leads anywhere, so that an ellipsis
//! never hides an unknown number of blocks. An output that leads to another seed
//! adopts it: the seed is drawn under the block that fed it rather than beside
//! it.

use std::collections::{HashMap, HashSet};

use vstd::prelude::*;
use vstd::string::*;

use crate::blocks::{
    fetch_block, fetched, paired, seed_of, seeded, wrapped, Block, BlockView, Seed,
};
use crate::graph::{Graph, Lists};
use crate::kept::{shown_is_exact, Cut, Kept};
use crate::report::{BlockPrune, Report};
use crate::settle::{all_blocks, parents_within, relevel, releveled, unhidden, unhide};
use crate::text::{dec, push_dec};

verus! {

broadcast use vstd::std_specs::hash::group_hash_axioms;

/// A walk under way: the blocks in the order they were found, the sentences
/// about the seeds, the nodes spent, and the nodes and blocks it remembers.
pub struct Walking {
    pub blocks: Seq<BlockView>,
    pub seeds: Seq<Seq<char>>,
    pub used: nat,
    /// Consuming blocks the drawing stops in front of, by their first output.
    pub beyond: Set<usize>,
    /// Blocks the budgets did not admit, by their first output.
    pub refused: Set<usize>,
    /// Hidden outputs that lead somewhere.
    pub led: Set<usize>,
}

/// The latest of the blocks whose first output is `key`.
pub open spec fn find(blocks: Seq<BlockView>, key: usize) -> Option<int>
    decreases blocks.len(),
{
    if blocks.len() == 0 {
        None
    } else if blocks.last().first_out == key {
        Some(blocks.len() - 1)
    } else {
        find(blocks.drop_last(), key)
    }
}

/// What seating a block with these sides costs in nodes, where the budgets
/// allow it. Blocks are numbered by a `u32`, so no more than that are seated.
pub open spec fn seat(prune: BlockPrune, st: Walking, n_in: nat, n_out: nat) -> Option<nat> {
    let cost = Cut::of(n_in, prune.fanout_in).count(n_in) + Cut::of(n_out, prune.fanout_out).count(
        n_out,
    );
    if st.blocks.len() >= prune.max_blocks || st.blocks.len() >= u32::MAX || st.used + cost
        > prune.max_nodes {
        None
    } else {
        Some(cost)
    }
}

/// The walk with one block more, cut by the fanouts and hung where it was
/// found.
pub open spec fn joined(
    prune: BlockPrune,
    st: Walking,
    b: BlockView,
    cost: nat,
    level: nat,
    parent: Option<(u32, usize)>,
) -> Walking {
    Walking {
        blocks: st.blocks.push(
            BlockView {
                level,
                parent,
                kept_in: Cut::of(b.inputs.len(), prune.fanout_in),
                kept_out: Cut::of(b.outputs.len(), prune.fanout_out),
                ..b
            },
        ),
        used: st.used + cost,
        ..st
    }
}

pub open spec fn budget_spent(root: usize) -> Seq<char> {
    "the budget was spent before root "@ + dec(root as nat)
        + " was seated; raise --max-blocks or --max-nodes"@
}

/// The walk after a root has been given its seat.
pub open spec fn seated(
    g: Lists,
    t: Lists,
    prune: BlockPrune,
    mode: Seed,
    check: bool,
    st: Walking,
    root: usize,
) -> Result<Walking, Seq<char>> {
    match seeded(g, t, root, mode, check) {
        Err(e) => Err(e),
        Ok((b, msg)) => if find(st.blocks, b.first_out) is Some {
            Ok(Walking { seeds: st.seeds.push(msg + " (already drawn)"@), ..st })
        } else {
            match seat(prune, st, b.inputs.len(), b.outputs.len()) {
                None => Err(budget_spent(root)),
                Some(cost) => {
                    let next = joined(prune, st, b, cost, 0, None);
                    Ok(Walking { seeds: st.seeds.push(msg), ..next })
                },
            }
        },
    }
}

/// The walk after the roots from the `k`th on have been given their seats.
pub open spec fn all_seated(
    g: Lists,
    t: Lists,
    prune: BlockPrune,
    mode: Seed,
    check: bool,
    st: Walking,
    roots: Seq<usize>,
    k: int,
) -> Result<Walking, Seq<char>>
    decreases roots.len() - k,
{
    if k >= roots.len() {
        Ok(st)
    } else {
        match seated(g, t, prune, mode, check, st, roots[k]) {
            Err(e) => Err(e),
            Ok(next) => all_seated(g, t, prune, mode, check, next, roots, k + 1),
        }
    }
}

pub open spec fn adoption(child: BlockView, parent: BlockView, o: usize) -> Seq<char> {
    "seed "@ + child.name() + " is reached from "@ + parent.name() + " through output "@ + dec(
        o as nat,
    ) + ": drawn under it"@
}

/// The walk after output `o` of block `bi` was seen to lead to the drawn block
/// `key`: a seed that no block feeds yet is hung under this one.
pub open spec fn adopted(st: Walking, bi: int, key: usize, o: usize) -> Walking {
    let ci = find(st.blocks, key)->0;
    let child = st.blocks[ci];
    if ci != bi && child.parent is None {
        Walking {
            blocks: st.blocks.update(ci, BlockView { parent: Some((bi as u32, o)), ..child }),
            seeds: st.seeds.push(adoption(child, st.blocks[bi], o)),
            ..st
        }
    } else {
        st
    }
}

/// The walk after hidden output `o` of block `bi` was asked where it leads.
pub open spec fn past_hidden(g: Lists, st: Walking, bi: int, o: usize) -> Walking {
    if g[o as int].len() == 0 {
        st
    } else {
        let key = g[o as int][0];
        let next = Walking { led: st.led.insert(o), ..st };
        if find(st.blocks, key) is Some {
            adopted(next, bi, key, o)
        } else {
            Walking { beyond: st.beyond.insert(key), ..next }
        }
    }
}

/// The walk after the hidden outputs of block `b`, the `bi`th, from the `k`th
/// entry on were asked where they lead.
pub open spec fn past_all_hidden(g: Lists, st: Walking, b: BlockView, bi: int, k: int) -> Walking
    decreases b.outputs.len() - k,
{
    if k >= b.outputs.len() {
        st
    } else if b.kept_out.keeps(b.outputs.len(), k) {
        past_all_hidden(g, st, b, bi, k + 1)
    } else {
        past_all_hidden(g, past_hidden(g, st, bi, b.outputs[k]), b, bi, k + 1)
    }
}

/// Whether a block of this level is expanded.
pub open spec fn expands(prune: BlockPrune, level: nat) -> bool {
    match prune.depth {
        Some(d) => level < d,
        None => true,
    }
}

/// The walk after kept output `o` of block `bi`, which is `b`, was followed.
pub open spec fn past_kept(
    g: Lists,
    t: Lists,
    prune: BlockPrune,
    check: bool,
    st: Walking,
    b: BlockView,
    bi: int,
    o: usize,
) -> Result<Walking, Seq<char>> {
    let key = g[o as int][0];
    if g[o as int].len() == 0 {
        Ok(st)
    } else if find(st.blocks, key) is Some {
        Ok(adopted(st, bi, key, o))
    } else if !expands(prune, b.level) {
        Ok(Walking { beyond: st.beyond.insert(key), ..st })
    } else if st.refused.contains(key) {
        Ok(st)
    } else {
        match seat(prune, st, t[key as int].len(), g[o as int].len()) {
            None => Ok(Walking { refused: st.refused.insert(key), ..st }),
            Some(cost) => match fetched(g, t, key, check) {
                Err(e) => Err(e),
                Ok(c) => Ok(joined(prune, st, c, cost, b.level + 1, Some((bi as u32, o)))),
            },
        }
    }
}

/// The walk after the kept outputs of block `b`, the `bi`th, from the `j`th of
/// them on were followed.
pub open spec fn past_all_kept(
    g: Lists,
    t: Lists,
    prune: BlockPrune,
    check: bool,
    st: Walking,
    b: BlockView,
    bi: int,
    j: int,
) -> Result<Walking, Seq<char>>
    decreases b.kept_out.shown(b.outputs.len()).len() - j,
{
    let shown = b.kept_out.shown(b.outputs.len());
    if j >= shown.len() {
        Ok(st)
    } else {
        match past_kept(g, t, prune, check, st, b, bi, b.outputs[shown[j] as int]) {
            Err(e) => Err(e),
            Ok(next) => past_all_kept(g, t, prune, check, next, b, bi, j + 1),
        }
    }
}

/// The walk after block `bi` was expanded: its hidden outputs asked, its kept
/// outputs followed.
pub open spec fn expanded(
    g: Lists,
    t: Lists,
    prune: BlockPrune,
    check: bool,
    st: Walking,
    bi: int,
) -> Result<Walking, Seq<char>> {
    let b = st.blocks[bi];
    past_all_kept(g, t, prune, check, past_all_hidden(g, st, b, bi, 0), b, bi, 0)
}

/// The walk after every block from the `bi`th on was expanded, those that are
/// found on the way included.
pub open spec fn all_expanded(
    g: Lists,
    t: Lists,
    prune: BlockPrune,
    check: bool,
    st: Walking,
    bi: int,
) -> Result<Walking, Seq<char>>
    decreases u32::MAX - bi,
{
    if bi >= st.blocks.len() || bi >= u32::MAX {
        Ok(st)
    } else {
        match expanded(g, t, prune, check, st, bi) {
            Err(e) => Err(e),
            Ok(next) => all_expanded(g, t, prune, check, next, bi + 1),
        }
    }
}

/// A walk that has found nothing yet.
pub open spec fn not_started() -> Walking {
    Walking {
        blocks: Seq::empty(),
        seeds: Seq::empty(),
        used: 0,
        beyond: Set::empty(),
        refused: Set::empty(),
        led: Set::empty(),
    }
}

/// Everything the walk finds from these roots, or the reason it stopped.
pub open spec fn found(
    g: Lists,
    t: Lists,
    roots: Seq<usize>,
    prune: BlockPrune,
    mode: Seed,
    check: bool,
) -> Result<Walking, Seq<char>> {
    if roots.len() == 0 {
        Err("no root to draw from"@)
    } else if prune.max_blocks == 0 || prune.max_nodes == 0 {
        Err("a budget of 0 draws nothing"@)
    } else {
        match all_seated(g, t, prune, mode, check, not_started(), roots, 0) {
            Err(e) => Err(e),
            Ok(st) => all_expanded(g, t, prune, check, st, 0),
        }
    }
}

/// The blocks as mathematical values.
pub open spec fn views(blocks: Seq<Block>) -> Seq<BlockView> {
    blocks.map_values(|b: Block| b@)
}

/// Messages as text.
pub open spec fn texts(messages: Seq<String>) -> Seq<Seq<char>> {
    messages.map_values(|s: String| s@)
}

pub(crate) proof fn find_is_in(blocks: Seq<BlockView>, key: usize)
    ensures
        match find(blocks, key) {
            Some(i) => 0 <= i < blocks.len() && blocks[i].first_out == key,
            None => forall|i: int| 0 <= i < blocks.len() ==> #[trigger] blocks[i].first_out != key,
        },
    decreases blocks.len(),
{
    if blocks.len() > 0 && blocks.last().first_out != key {
        let init = blocks.drop_last();
        find_is_in(init, key);
        if find(init, key) is None {
            assert forall|i: int| 0 <= i < blocks.len() implies #[trigger] blocks[i].first_out
                != key by {
                if i < init.len() {
                    assert(init[i].first_out != key);
                }
            }
        }
    }
}

proof fn find_after_push(blocks: Seq<BlockView>, b: BlockView, key: usize)
    ensures
        find(blocks.push(b), key) == if b.first_out == key {
            Some(blocks.len() as int)
        } else {
            find(blocks, key)
        },
{
    assert(blocks.push(b).drop_last() =~= blocks);
}

pub(crate) proof fn find_after_update(blocks: Seq<BlockView>, i: int, b: BlockView, key: usize)
    requires
        0 <= i < blocks.len(),
        blocks[i].first_out == b.first_out,
    ensures
        find(blocks.update(i, b), key) == find(blocks, key),
    decreases blocks.len(),
{
    let after = blocks.update(i, b);
    if i == blocks.len() - 1 {
        assert(after.drop_last() =~= blocks.drop_last());
    } else {
        assert(after.drop_last() =~= blocks.drop_last().update(i, b));
        find_after_update(blocks.drop_last(), i, b, key);
    }
}

/// The map from first outputs to blocks says of `key` what the blocks say.
spec fn names(by_key: Map<usize, u32>, blocks: Seq<BlockView>, key: usize) -> bool {
    match find(blocks, key) {
        Some(i) => by_key.contains_key(key) && by_key[key] == i,
        None => !by_key.contains_key(key),
    }
}

/// The walk as it is run.
struct Frontier {
    blocks: Vec<Block>,
    by_key: HashMap<usize, u32>,
    seeds: Vec<String>,
    used: usize,
    beyond: HashSet<usize>,
    /// What is in `beyond`, once each.
    stops: Vec<usize>,
    refused: HashSet<usize>,
    led: HashSet<usize>,
}

impl Frontier {
    spec fn state(&self) -> Walking {
        Walking {
            blocks: views(self.blocks@),
            seeds: texts(self.seeds@),
            used: self.used as nat,
            beyond: self.beyond@,
            refused: self.refused@,
            led: self.led@,
        }
    }

    spec fn keyed(&self) -> bool {
        forall|key: usize| #[trigger] names(self.by_key@, views(self.blocks@), key)
    }

    spec fn sound(&self, n: nat) -> bool {
        &&& self.keyed()
        &&& self.blocks@.len() <= u32::MAX
        &&& forall|i: int|
            #![trigger self.blocks@[i]]
            0 <= i < self.blocks@.len() ==> self.blocks@[i]@.is_block() && self.blocks@[i]@.within(
                n,
            ) && self.blocks@[i].level <= i && (self.blocks@[i].parent matches Some((p, _))
                ==> p < self.blocks@.len())
        &&& self.stops@.no_duplicates()
        &&& self.stops@.to_set() == self.beyond@
    }

    /// What seating a block with these sides costs, where the budgets allow.
    fn cost(&self, prune: &BlockPrune, n_in: usize, n_out: usize) -> (cost: Option<usize>)
        ensures
            match cost {
                Some(c) => seat(*prune, self.state(), n_in as nat, n_out as nat) == Some(c as nat),
                None => seat(*prune, self.state(), n_in as nat, n_out as nat) is None,
            },
    {
        if self.blocks.len() >= prune.max_blocks || self.blocks.len() >= u32::MAX as usize {
            return None;
        }
        let some_in: usize = Kept::of(n_in, prune.fanout_in).count(n_in);
        let some_out: usize = Kept::of(n_out, prune.fanout_out).count(n_out);
        if self.used > prune.max_nodes {
            return None;
        }
        let room: usize = prune.max_nodes - self.used;
        if some_in > room || some_out > room - some_in {
            return None;
        }
        Some(some_in + some_out)
    }

    /// Takes a block in, at its level and under its parent.
    fn join(
        &mut self,
        prune: &BlockPrune,
        block: Block,
        cost: usize,
        level: usize,
        parent: Option<(u32, usize)>,
        Ghost(n): Ghost<nat>,
    )
        requires
            old(self).sound(n),
            old(self).blocks@.len() < u32::MAX,
            old(self).used + cost <= usize::MAX,
            block@.is_block(),
            block@.within(n),
            level <= old(self).blocks@.len(),
            parent matches Some((p, _)) ==> p < old(self).blocks@.len(),
        ensures
            final(self).sound(n),
            final(self).blocks@.drop_last() == old(self).blocks@,
            final(self).blocks@.len() == old(self).blocks@.len() + 1,
            final(self).state() == joined(
                *prune,
                old(self).state(),
                block@,
                cost as nat,
                level as nat,
                parent,
            ),
    {
        let mut b = block;
        b.level = level;
        b.parent = parent;
        b.kept_in = Kept::of(b.inputs.len(), prune.fanout_in);
        b.kept_out = Kept::of(b.outputs.len(), prune.fanout_out);
        self.used = self.used + cost;
        let index: u32 = self.blocks.len() as u32;
        self.by_key.insert(b.first_out, index);
        let ghost before = self.blocks@;
        let ghost made = b;
        self.blocks.push(b);
        proof {
            assert(views(self.blocks@) =~= views(before).push(made@));
            assert(self.blocks@ == before.push(made));
            assert(self.blocks@.drop_last() =~= before);
            assert forall|key: usize| #[trigger] names(self.by_key@, views(self.blocks@), key) by {
                find_after_push(views(before), made@, key);
                assert(names(old(self).by_key@, views(before), key));
            }
            assert(self.state().blocks =~= joined(
                *prune,
                old(self).state(),
                block@,
                cost as nat,
                level as nat,
                parent,
            ).blocks);
        }
    }

    /// Remembers that the drawing stops in front of block `key`.
    fn stop_before(&mut self, key: usize, Ghost(n): Ghost<nat>)
        requires
            old(self).sound(n),
        ensures
            final(self).sound(n),
            final(self).blocks@ == old(self).blocks@,
            final(self).state() == (Walking {
                beyond: old(self).state().beyond.insert(key),
                ..old(self).state()
            }),
    {
        let ghost held = self.stops@;
        if self.beyond.insert(key) {
            self.stops.push(key);
            proof {
                assert(!held.contains(key)) by {
                    if held.contains(key) {
                        assert(held.to_set().contains(key));
                    }
                }
                assert(self.stops@.to_set() =~= held.to_set().insert(key)) by {
                    assert forall|x: usize| self.stops@.contains(x) <==> held.contains(x) || x
                        == key by {
                        if held.contains(x) {
                            let i = held.index_of(x);
                            assert(self.stops@[i] == x);
                        }
                        if x == key {
                            assert(self.stops@[held.len() as int] == x);
                        }
                    }
                }
            }
        } else {
            assert(old(self).beyond@.insert(key) =~= old(self).beyond@);
        }
    }

    /// Hangs the drawn block `key` under block `bi`, whose output `o` feeds it,
    /// where it is a seed that hangs under none.
    fn adopt(&mut self, bi: usize, key: usize, o: usize, Ghost(n): Ghost<nat>)
        requires
            old(self).sound(n),
            bi < old(self).blocks@.len(),
            find(old(self).state().blocks, key) is Some,
        ensures
            final(self).sound(n),
            final(self).state() == adopted(old(self).state(), bi as int, key, o),
            final(self).blocks@.len() == old(self).blocks@.len(),
            final(self).blocks@[bi as int] == old(self).blocks@[bi as int],
    {
        proof {
            find_is_in(self.state().blocks, key);
            assert(names(self.by_key@, views(self.blocks@), key));
        }
        let ci: usize = *self.by_key.get(&key).unwrap() as usize;
        if ci != bi && self.blocks[ci].parent.is_none() {
            let ghost before = self.blocks@;
            let mut s = "seed ".to_owned();
            s.append(self.blocks[ci].name().as_str());
            s.append(" is reached from ");
            s.append(self.blocks[bi].name().as_str());
            s.append(" through output ");
            push_dec(&mut s, o as u64);
            s.append(": drawn under it");
            self.blocks[ci].parent = Some((bi as u32, o));
            let ghost said = s@;
            let ghost held = self.seeds@;
            self.seeds.push(s);
            proof {
                let child = before[ci as int]@;
                let hung = BlockView { parent: Some((bi as u32, o)), ..child };
                assert(self.blocks@[ci as int]@ == hung);
                assert(views(self.blocks@) =~= views(before).update(ci as int, hung));
                assert(texts(self.seeds@) =~= texts(held).push(said));
                assert forall|key: usize| #[trigger]
                    names(self.by_key@, views(self.blocks@), key) by {
                    find_after_update(views(before), ci as int, hung, key);
                    assert(names(old(self).by_key@, views(before), key));
                }
                assert forall|i: int|
                    #![trigger self.blocks@[i]]
                    0 <= i < self.blocks@.len() implies self.blocks@[i]@.is_block()
                    && self.blocks@[i]@.within(n) && self.blocks@[i].level <= i && (
                self.blocks@[i].parent matches Some((p, _)) ==> p < self.blocks@.len()) by {
                    assert(before[i]@.is_block());
                }
            }
        }
    }

    /// Asks hidden output `o` of block `bi` where it leads.
    fn ask<G: Graph>(&mut self, pg: &G, bi: usize, o: usize)
        requires
            old(self).sound(pg.lists().len()),
            bi < old(self).blocks@.len(),
            o < pg.lists().len(),
        ensures
            final(self).sound(pg.lists().len()),
            final(self).state() == past_hidden(pg.lists(), old(self).state(), bi as int, o),
            final(self).blocks@.len() == old(self).blocks@.len(),
            final(self).blocks@[bi as int] == old(self).blocks@[bi as int],
    {
        if pg.outdegree(o) > 0 {
            self.led.insert(o);
            let successors = pg.successors(o);
            let key: usize = successors[0];
            assert(names(self.by_key@, views(self.blocks@), key));
            if self.by_key.contains_key(&key) {
                self.adopt(bi, key, o, Ghost(pg.lists().len()));
            } else {
                self.stop_before(key, Ghost(pg.lists().len()));
            }
        }
    }

    /// Follows kept output `o` of block `bi`.
    fn follow<G: Graph, T: Graph>(
        &mut self,
        pg: &G,
        pgt: &T,
        prune: &BlockPrune,
        check: bool,
        bi: usize,
        o: usize,
    ) -> (r: Result<(), String>)
        requires
            paired(pg.lists(), pgt.lists()),
            old(self).sound(pg.lists().len()),
            bi < old(self).blocks@.len(),
            o < pg.lists().len(),
        ensures
            match r {
                Ok(()) => past_kept(
                    pg.lists(),
                    pgt.lists(),
                    *prune,
                    check,
                    old(self).state(),
                    old(self).blocks@[bi as int]@,
                    bi as int,
                    o,
                ) == Ok::<Walking, Seq<char>>(final(self).state()) && final(self).sound(
                    pg.lists().len(),
                ) && final(self).blocks@.len() >= old(self).blocks@.len()
                    && final(self).blocks@[bi as int]@ == old(self).blocks@[bi as int]@,
                Err(e) => past_kept(
                    pg.lists(),
                    pgt.lists(),
                    *prune,
                    check,
                    old(self).state(),
                    old(self).blocks@[bi as int]@,
                    bi as int,
                    o,
                ) == Err::<Walking, Seq<char>>(e@),
            },
    {
        let ghost n = pg.lists().len();
        let outdeg: usize = pg.outdegree(o);
        if outdeg == 0 {
            return Ok(());
        }
        let successors = pg.successors(o);
        let key: usize = successors[0];
        assert(names(self.by_key@, views(self.blocks@), key));
        if self.by_key.contains_key(&key) {
            self.adopt(bi, key, o, Ghost(n));
            return Ok(());
        }
        let level: usize = self.blocks[bi].level;
        let expand = match prune.depth {
            Some(d) => level < d,
            None => true,
        };
        if !expand {
            self.stop_before(key, Ghost(n));
            return Ok(());
        }
        if self.refused.contains(&key) {
            return Ok(());
        }
        let indeg: usize = pgt.outdegree(key);
        match self.cost(prune, indeg, outdeg) {
            None => {
                self.refused.insert(key);
                Ok(())
            },
            Some(cost) => match fetch_block(pg, pgt, key, check) {
                Err(e) => Err(e),
                Ok(c) => {
                    let ghost before = self.blocks@;
                    self.join(prune, c, cost, level + 1, Some((bi as u32, o)), Ghost(n));
                    assert(self.blocks@.drop_last()[bi as int] == before[bi as int]);
                    Ok(())
                },
            },
        }
    }

    /// Expands block `bi`: asks its hidden outputs, follows its kept ones.
    fn expand<G: Graph, T: Graph>(
        &mut self,
        pg: &G,
        pgt: &T,
        prune: &BlockPrune,
        check: bool,
        bi: usize,
    ) -> (r: Result<(), String>)
        requires
            paired(pg.lists(), pgt.lists()),
            old(self).sound(pg.lists().len()),
            bi < old(self).blocks@.len(),
        ensures
            match r {
                Ok(()) => expanded(
                    pg.lists(),
                    pgt.lists(),
                    *prune,
                    check,
                    old(self).state(),
                    bi as int,
                ) == Ok::<Walking, Seq<char>>(final(self).state()) && final(self).sound(
                    pg.lists().len(),
                ) && final(self).blocks@.len() >= old(self).blocks@.len(),
                Err(e) => expanded(
                    pg.lists(),
                    pgt.lists(),
                    *prune,
                    check,
                    old(self).state(),
                    bi as int,
                ) == Err::<Walking, Seq<char>>(e@),
            },
    {
        let ghost n = pg.lists().len();
        let ghost b = self.blocks@[bi as int]@;
        let ghost start = self.state();
        let n_out: usize = self.blocks[bi].outputs.len();
        assert(start.blocks[bi as int] == b);
        for k in 0..n_out
            invariant
                n == pg.lists().len(),
                self.sound(n),
                bi < self.blocks@.len(),
                self.blocks@.len() >= old(self).blocks@.len(),
                self.blocks@[bi as int]@ == b,
                b.outputs.len() == n_out,
                past_all_hidden(pg.lists(), start, b, bi as int, 0) == past_all_hidden(
                    pg.lists(),
                    self.state(),
                    b,
                    bi as int,
                    k as int,
                ),
        {
            assert(self.blocks@[bi as int]@.is_block());
            if !self.blocks[bi].kept_out.contains(n_out, k) {
                let o: usize = self.blocks[bi].outputs[k];
                assert(b.outputs[k as int] < n);
                self.ask(pg, bi, o);
            }
        }
        let ghost middle = self.state();
        assert(self.blocks@[bi as int]@.is_block());
        let kept = self.blocks[bi].kept_out.indices(n_out);
        proof {
            shown_is_exact(b.kept_out, n_out);
        }
        for j in 0..kept.len()
            invariant
                paired(pg.lists(), pgt.lists()),
                n == pg.lists().len(),
                self.sound(n),
                bi < self.blocks@.len(),
                self.blocks@.len() >= old(self).blocks@.len(),
                self.blocks@[bi as int]@ == b,
                b.outputs.len() == n_out,
                kept@ == b.kept_out.shown(n_out as nat),
                forall|i: int| 0 <= i < kept@.len() ==> #[trigger] kept@[i] < n_out,
                expanded(pg.lists(), pgt.lists(), *prune, check, start, bi as int)
                    == past_all_kept(
                    pg.lists(),
                    pgt.lists(),
                    *prune,
                    check,
                    self.state(),
                    b,
                    bi as int,
                    j as int,
                ),
                start == old(self).state(),
        {
            let oi: usize = kept[j];
            assert(self.blocks@[bi as int]@.within(n));
            let o: usize = self.blocks[bi].outputs[oi];
            assert(b.outputs[oi as int] < n);
            match self.follow(pg, pgt, prune, check, bi, o) {
                Ok(()) => {},
                Err(e) => {
                    return Err(e);
                },
            }
        }
        Ok(())
    }

    /// Gives a root its seat.
    fn take_root<G: Graph, T: Graph>(
        &mut self,
        pg: &G,
        pgt: &T,
        prune: &BlockPrune,
        mode: Seed,
        check: bool,
        root: usize,
    ) -> (r: Result<(), String>)
        requires
            paired(pg.lists(), pgt.lists()),
            old(self).sound(pg.lists().len()),
        ensures
            match r {
                Ok(()) => seated(
                    pg.lists(),
                    pgt.lists(),
                    *prune,
                    mode,
                    check,
                    old(self).state(),
                    root,
                ) == Ok::<Walking, Seq<char>>(final(self).state()) && final(self).sound(
                    pg.lists().len(),
                ),
                Err(e) => seated(
                    pg.lists(),
                    pgt.lists(),
                    *prune,
                    mode,
                    check,
                    old(self).state(),
                    root,
                ) == Err::<Walking, Seq<char>>(e@),
            },
    {
        let ghost n = pg.lists().len();
        let (b, msg) = match seed_of(pg, pgt, root, mode, check) {
            Ok(found) => found,
            Err(e) => {
                return Err(e);
            },
        };
        let ghost held = self.seeds@;
        assert(names(self.by_key@, views(self.blocks@), b.first_out));
        if self.by_key.contains_key(&b.first_out) {
            let mut s = msg;
            s.append(" (already drawn)");
            let ghost said = s@;
            self.seeds.push(s);
            assert(texts(self.seeds@) =~= texts(held).push(said));
            return Ok(());
        }
        match self.cost(prune, b.inputs.len(), b.outputs.len()) {
            None => {
                let mut s = "the budget was spent before root ".to_owned();
                push_dec(&mut s, root as u64);
                s.append(" was seated; raise --max-blocks or --max-nodes");
                Err(s)
            },
            Some(cost) => {
                let ghost said = msg@;
                self.join(prune, b, cost, 0, None, Ghost(n));
                self.seeds.push(msg);
                assert(texts(self.seeds@) =~= texts(held).push(said));
                Ok(())
            },
        }
    }
}

/// What a walk produced: the blocks in discovery order, the sentences about
/// the seeds, and the part of the report the walk alone can fill.
pub struct Walk {
    pub blocks: Vec<Block>,
    pub seeds: Vec<String>,
    pub report: Report,
    pub checked: bool,
}

/// A finished walk as a mathematical value.
pub struct WalkView {
    pub blocks: Seq<BlockView>,
    pub seeds: Seq<Seq<char>>,
    pub report: Report,
    pub checked: bool,
}

impl View for Walk {
    type V = WalkView;

    open spec fn view(&self) -> WalkView {
        WalkView {
            blocks: views(self.blocks@),
            seeds: texts(self.seeds@),
            report: self.report,
            checked: self.checked,
        }
    }
}

/// A count as a `usize` holds it.
pub open spec fn word(n: nat) -> usize {
    (n % (usize::MAX as nat + 1)) as usize
}

/// The deepest level of the blocks.
pub open spec fn deepest(blocks: Seq<BlockView>) -> nat
    decreases blocks.len(),
{
    if blocks.len() == 0 {
        0
    } else if blocks.last().level > deepest(blocks.drop_last()) {
        blocks.last().level
    } else {
        deepest(blocks.drop_last())
    }
}

/// How many inputs of the blocks are hidden.
pub open spec fn hidden_inputs(blocks: Seq<BlockView>) -> nat
    decreases blocks.len(),
{
    if blocks.len() == 0 {
        0
    } else {
        let b = blocks.last();
        hidden_inputs(blocks.drop_last()) + (b.inputs.len() - b.kept_in.count(
            b.inputs.len(),
        )) as nat
    }
}

/// How many outputs of the blocks are hidden.
pub open spec fn hidden_outputs(blocks: Seq<BlockView>) -> nat
    decreases blocks.len(),
{
    if blocks.len() == 0 {
        0
    } else {
        let b = blocks.last();
        hidden_outputs(blocks.drop_last()) + (b.outputs.len() - b.kept_out.count(
            b.outputs.len(),
        )) as nat
    }
}

/// How many arcs the blocks have.
pub open spec fn total_arcs(blocks: Seq<BlockView>) -> nat
    decreases blocks.len(),
{
    if blocks.len() == 0 {
        0
    } else {
        total_arcs(blocks.drop_last()) + blocks.last().arcs()
    }
}

/// Whether anything of the block is hidden.
pub open spec fn is_cut(b: BlockView) -> bool {
    b.kept_in.count(b.inputs.len()) < b.inputs.len() || b.kept_out.count(b.outputs.len())
        < b.outputs.len()
}

/// How many of the blocks have something hidden.
pub open spec fn cut_blocks(blocks: Seq<BlockView>) -> nat
    decreases blocks.len(),
{
    if blocks.len() == 0 {
        0
    } else {
        cut_blocks(blocks.drop_last()) + if is_cut(blocks.last()) { 1nat } else { 0nat }
    }
}

/// Node `o` is a kept output of one of the blocks.
pub open spec fn shows_output(blocks: Seq<BlockView>, o: usize) -> bool {
    exists|b: int, k: int| is_shown_output(blocks, o, b, k)
}

pub open spec fn is_shown_output(blocks: Seq<BlockView>, o: usize, b: int, k: int) -> bool {
    &&& 0 <= b < blocks.len()
    &&& 0 <= k < blocks[b].outputs.len()
    &&& blocks[b].outputs[k] == o
    &&& blocks[b].kept_out.keeps(blocks[b].outputs.len(), k)
}

/// The block the drawing stops in front of is neither drawn nor refused.
pub open spec fn only_beyond(st: Walking, key: usize) -> bool {
    find(st.blocks, key) is None && !st.refused.contains(key)
}

/// The walk once nothing is left to find: what the page shows anyway un-hidden,
/// the levels settled, and the report.
pub open spec fn finished(st: Walking, check: bool) -> WalkView {
    let blocks = releveled(unhidden(st.blocks));
    WalkView {
        blocks,
        seeds: st.seeds,
        report: Report {
            blocks_drawn: blocks.len() as usize,
            deepest_level: deepest(blocks) as usize,
            blocks_checked: if check { blocks.len() as usize } else { 0 },
            blocks_refused_by_budget: st.refused.len() as usize,
            blocks_beyond_depth: st.beyond.filter(|key: usize| only_beyond(st, key)).len() as usize,
            blocks_cut_by_fanout: cut_blocks(blocks) as usize,
            inputs_hidden: word(hidden_inputs(blocks)),
            outputs_hidden: word(hidden_outputs(blocks)),
            hidden_outputs_with_consumer: st.led.filter(
                |o: usize| !shows_output(blocks, o),
            ).len() as usize,
            arcs_in_drawn_blocks: wrapped(total_arcs(blocks)),
            ..Report::nothing()
        },
        checked: check,
    }
}

/// What a walk over blocks from these roots comes to, or the reason it stopped.
pub open spec fn walked(
    g: Lists,
    t: Lists,
    roots: Seq<usize>,
    prune: BlockPrune,
    mode: Seed,
    check: bool,
) -> Result<WalkView, Seq<char>> {
    match found(g, t, roots, prune, mode, check) {
        Err(e) => Err(e),
        Ok(st) => Ok(finished(st, check)),
    }
}

impl Frontier {
    /// How many of the blocks the drawing stops in front of are neither drawn
    /// nor refused.
    fn count_beyond(&self, Ghost(n): Ghost<nat>) -> (count: usize)
        requires
            self.sound(n),
        ensures
            count == self.state().beyond.filter(|key: usize| only_beyond(self.state(), key)).len(),
    {
        let ghost st = self.state();
        let ghost mut hit: Set<usize> = Set::empty();
        let mut count: usize = 0;
        let mut i: usize = 0;
        while i < self.stops.len()
            invariant
                i <= self.stops@.len(),
                count <= i,
                st == self.state(),
                self.sound(n),
                hit.finite(),
                hit.len() == count,
                forall|key: usize|
                    #[trigger] hit.contains(key) <==> self.stops@.take(i as int).contains(key)
                        && only_beyond(st, key),
            decreases self.stops@.len() - i,
        {
            let key: usize = self.stops[i];
            let ghost held = hit;
            proof {
                assert(names(self.by_key@, views(self.blocks@), key));
                let one = self.stops@.take(i as int);
                let two = self.stops@.take(i + 1);
                assert(!one.contains(key)) by {
                    if one.contains(key) {
                        let k = one.index_of(key);
                        assert(self.stops@[k] == self.stops@[i as int]);
                    }
                }
                assert forall|x: usize| #[trigger] two.contains(x) <==> one.contains(x) || x
                    == key by {
                    if one.contains(x) {
                        let k = one.index_of(x);
                        assert(two[k] == x);
                    }
                    if x == key {
                        assert(two[i as int] == x);
                    }
                    if two.contains(x) {
                        let k = two.index_of(x);
                        if k < i {
                            assert(one[k] == x);
                        }
                    }
                }
            }
            if !self.by_key.contains_key(&key) && !self.refused.contains(&key) {
                count += 1;
                proof {
                    hit = hit.insert(key);
                }
            }
            i += 1;
        }
        proof {
            assert(self.stops@.take(i as int) =~= self.stops@);
            let all = st.beyond.filter(|key: usize| only_beyond(st, key));
            assert forall|key: usize| #[trigger] hit.contains(key) <==> all.contains(key) by {
                assert(self.stops@.contains(key) <==> self.stops@.to_set().contains(key));
            }
            assert(hit =~= all);
        }
        count
    }
}

pub(crate) proof fn word_adds(a: nat, b: usize)
    ensures
        word(a).wrapping_add(b) == word(a + b as nat),
{
    let m = usize::MAX as int + 1;
    vstd::arithmetic::div_mod::lemma_add_mod_noop(a as int, b as int, m);
    vstd::arithmetic::div_mod::lemma_small_mod(b as nat, m as nat);
    let x = a as int % m + b as int;
    if x < m {
        vstd::arithmetic::div_mod::lemma_small_mod(x as nat, m as nat);
    } else {
        vstd::arithmetic::div_mod::lemma_small_mod((x - m) as nat, m as nat);
        vstd::arithmetic::div_mod::lemma_mod_add_multiples_vanish(x - m, m);
    }
}

pub(crate) proof fn wrapped_adds(a: nat, b: nat)
    ensures
        wrapped(a).wrapping_add(wrapped(b)) == wrapped(a + b),
{
    let m: int = 0x1_0000_0000_0000_0000;
    vstd::arithmetic::div_mod::lemma_add_mod_noop(a as int, b as int, m);
    let x = a as int % m + b as int % m;
    if x < m {
        vstd::arithmetic::div_mod::lemma_small_mod(x as nat, m as nat);
    } else {
        vstd::arithmetic::div_mod::lemma_small_mod((x - m) as nat, m as nat);
        vstd::arithmetic::div_mod::lemma_mod_add_multiples_vanish(x - m, m);
    }
}

/// The part of the report that counts over the blocks, and the hidden outputs
/// that lead somewhere and are still hidden.
fn tally(blocks: &Vec<Block>, led: &mut HashSet<usize>, report: &mut Report)
    requires
        all_blocks(views(blocks@)),
        *old(report) == (Report {
            blocks_cut_by_fanout: 0,
            inputs_hidden: 0,
            outputs_hidden: 0,
            arcs_in_drawn_blocks: 0,
            deepest_level: 0,
            ..*old(report)
        }),
    ensures
        *final(report) == (Report {
            deepest_level: deepest(views(blocks@)) as usize,
            blocks_cut_by_fanout: cut_blocks(views(blocks@)) as usize,
            inputs_hidden: word(hidden_inputs(views(blocks@))),
            outputs_hidden: word(hidden_outputs(views(blocks@))),
            arcs_in_drawn_blocks: wrapped(total_arcs(views(blocks@))),
            ..*old(report)
        }),
        final(led)@ == old(led)@.filter(|o: usize| !shows_output(views(blocks@), o)),
{
    let ghost all = views(blocks@);
    let ghost led0 = led@;
    let ghost report0 = *report;
    proof {
        vstd::arithmetic::div_mod::lemma_small_mod(0, usize::MAX as nat + 1);
    }
    let mut bi: usize = 0;
    while bi < blocks.len()
        invariant
            bi <= blocks@.len(),
            all == views(blocks@),
            all_blocks(all),
            deepest(all.take(bi as int)) <= usize::MAX,
            cut_blocks(all.take(bi as int)) <= bi,
            *report == (Report {
                deepest_level: deepest(all.take(bi as int)) as usize,
                blocks_cut_by_fanout: cut_blocks(all.take(bi as int)) as usize,
                inputs_hidden: word(hidden_inputs(all.take(bi as int))),
                outputs_hidden: word(hidden_outputs(all.take(bi as int))),
                arcs_in_drawn_blocks: wrapped(total_arcs(all.take(bi as int))),
                ..report0
            }),
            forall|o: usize| #[trigger]
                led@.contains(o) <==> led0.contains(o) && !shows_output(all.take(bi as int), o),
        decreases blocks@.len() - bi,
    {
        let ghost before = all.take(bi as int);
        let ghost after = all.take(bi + 1);
        let b = &blocks[bi];
        assert(b@ == all[bi as int]);
        assert(after.drop_last() =~= before);
        assert(b@.is_block());
        let n_in: usize = b.inputs.len();
        let n_out: usize = b.outputs.len();
        proof {
            shown_is_exact(b@.kept_in, n_in);
            shown_is_exact(b@.kept_out, n_out);
            word_adds(hidden_inputs(before), (n_in - b@.kept_in.count(n_in as nat)) as usize);
            word_adds(hidden_outputs(before), (n_out - b@.kept_out.count(n_out as nat)) as usize);
            wrapped_adds(total_arcs(before), b@.arcs());
        }
        if b.level > report.deepest_level {
            report.deepest_level = b.level;
        }
        if b.kept_in.is_cut(n_in) || b.kept_out.is_cut(n_out) {
            report.blocks_cut_by_fanout = report.blocks_cut_by_fanout + 1;
        }
        report.inputs_hidden = report.inputs_hidden.wrapping_add(b.kept_in.hidden(n_in));
        report.outputs_hidden = report.outputs_hidden.wrapping_add(b.kept_out.hidden(n_out));
        report.arcs_in_drawn_blocks = report.arcs_in_drawn_blocks.wrapping_add(b.arcs());
        let ghost led1 = led@;
        let mut k: usize = 0;
        while k < n_out
            invariant
                k <= n_out,
                n_out == b.outputs@.len(),
                b@.is_block(),
                b@ == all[bi as int],
                bi < all.len(),
                forall|o: usize| #[trigger]
                    led@.contains(o) <==> led1.contains(o) && !(exists|j: int|
                        0 <= j < k && #[trigger] is_shown_output(all, o, bi as int, j)),
            decreases n_out - k,
        {
            let ghost now = led@;
            let o: usize = b.outputs[k];
            if b.kept_out.contains(n_out, k) {
                led.remove(&o);
                assert(is_shown_output(all, o, bi as int, k as int));
            }
            proof {
                assert forall|x: usize| #[trigger]
                    led@.contains(x) <==> led1.contains(x) && !(exists|j: int|
                        0 <= j < k + 1 && #[trigger] is_shown_output(all, x, bi as int, j)) by {
                    assert(now.contains(x) <==> led1.contains(x) && !(exists|j: int|
                        0 <= j < k && #[trigger] is_shown_output(all, x, bi as int, j)));
                    if exists|j: int|
                        0 <= j < k + 1 && #[trigger] is_shown_output(all, x, bi as int, j) {
                        let j = choose|j: int|
                            0 <= j < k + 1 && #[trigger] is_shown_output(all, x, bi as int, j);
                        if j < k {
                            assert(is_shown_output(all, x, bi as int, j));
                        }
                    }
                }
            }
            k += 1;
        }
        proof {
            assert forall|o: usize| #[trigger]
                led@.contains(o) <==> led0.contains(o) && !shows_output(after, o) by {
                assert(led1.contains(o) <==> led0.contains(o) && !shows_output(before, o));
                if shows_output(before, o) {
                    let (b0, j) = choose|b0: int, j: int| is_shown_output(before, o, b0, j);
                    assert(is_shown_output(after, o, b0, j));
                }
                if exists|j: int| 0 <= j < n_out && #[trigger] is_shown_output(
                    all,
                    o,
                    bi as int,
                    j,
                ) {
                    let j = choose|j: int|
                        0 <= j < n_out && #[trigger] is_shown_output(all, o, bi as int, j);
                    assert(is_shown_output(after, o, bi as int, j));
                }
                if shows_output(after, o) {
                    let (b0, j) = choose|b0: int, j: int| is_shown_output(after, o, b0, j);
                    if b0 < bi {
                        assert(is_shown_output(before, o, b0, j));
                    } else {
                        assert(is_shown_output(all, o, bi as int, j));
                    }
                }
            }
        }
        bi += 1;
    }
    proof {
        assert(all.take(bi as int) =~= all);
        assert(led@ =~= led0.filter(|o: usize| !shows_output(all, o)));
    }
}

/// The breadth-first walk over blocks from the blocks the roots name, under
/// `prune`.
///
/// Budgets are checked from degrees before a block is fetched: a refused block
/// costs two probes, not its certification.
pub fn walk<G: Graph, T: Graph>(
    pg: &G,
    pgt: &T,
    roots: &[usize],
    prune: &BlockPrune,
    mode: Seed,
    check: bool,
) -> (r: Result<Walk, String>)
    requires
        paired(pg.lists(), pgt.lists()),
    ensures
        match r {
            Ok(w) => walked(pg.lists(), pgt.lists(), roots@, *prune, mode, check) == Ok::<
                WalkView,
                Seq<char>,
            >(w@) && all_blocks(w@.blocks) && parents_within(w@.blocks) && w@.blocks.len()
                <= u32::MAX && forall|i: int|
                0 <= i < w@.blocks.len() ==> (#[trigger] w@.blocks[i]).within(pg.lists().len()),
            Err(e) => walked(pg.lists(), pgt.lists(), roots@, *prune, mode, check) == Err::<
                WalkView,
                Seq<char>,
            >(e@),
        },
{
    let ghost g = pg.lists();
    let ghost t = pgt.lists();
    if roots.len() == 0 {
        return Err("no root to draw from".to_owned());
    }
    if prune.max_blocks == 0 || prune.max_nodes == 0 {
        return Err("a budget of 0 draws nothing".to_owned());
    }
    let mut f = Frontier {
        blocks: Vec::new(),
        by_key: HashMap::new(),
        seeds: Vec::new(),
        used: 0,
        beyond: HashSet::new(),
        stops: Vec::new(),
        refused: HashSet::new(),
        led: HashSet::new(),
    };
    proof {
        assert(views(f.blocks@) =~= Seq::empty());
        assert(texts(f.seeds@) =~= Seq::empty());
        assert(f.state() == not_started());
        assert(f.stops@.to_set() =~= f.beyond@);
        assert(f.sound(g.len()));
    }
    let mut k: usize = 0;
    while k < roots.len()
        invariant
            k <= roots@.len(),
            paired(pg.lists(), pgt.lists()),
            f.sound(pg.lists().len()),
            all_seated(g, t, *prune, mode, check, not_started(), roots@, 0) == all_seated(
                g,
                t,
                *prune,
                mode,
                check,
                f.state(),
                roots@,
                k as int,
            ),
            g == pg.lists(),
            t == pgt.lists(),
            roots@.len() > 0,
            prune.max_blocks > 0,
            prune.max_nodes > 0,
        decreases roots@.len() - k,
    {
        match f.take_root(pg, pgt, prune, mode, check, roots[k]) {
            Ok(()) => {},
            Err(e) => {
                return Err(e);
            },
        }
        k += 1;
    }
    let ghost start = f.state();
    let mut bi: usize = 0;
    while bi < f.blocks.len()
        invariant
            bi <= f.blocks@.len(),
            paired(pg.lists(), pgt.lists()),
            f.sound(pg.lists().len()),
            g == pg.lists(),
            t == pgt.lists(),
            found(g, t, roots@, *prune, mode, check) == all_expanded(
                g,
                t,
                *prune,
                check,
                f.state(),
                bi as int,
            ),
        decreases u32::MAX - bi,
    {
        match f.expand(pg, pgt, prune, check, bi) {
            Ok(()) => {},
            Err(e) => {
                return Err(e);
            },
        }
        bi += 1;
    }
    let ghost st = f.state();
    let mut report = Report::default();
    report.blocks_beyond_depth = f.count_beyond(Ghost(g.len()));
    report.blocks_refused_by_budget = f.refused.len();
    let Frontier { blocks: found_blocks, by_key: _, seeds, used: _, beyond: _, stops: _, refused: _, led: found_led } =
        f;
    let mut blocks = found_blocks;
    let mut led = found_led;
    let ghost first = views(blocks@);
    proof {
        assert forall|i: int| 0 <= i < first.len() implies (#[trigger] first[i]).is_block() by {
            assert(blocks@[i]@.is_block());
        }
    }
    unhide(&mut blocks);
    let ghost shown = views(blocks@);
    proof {
        assert forall|i: int| 0 <= i < shown.len() implies ((#[trigger] shown[i]).parent matches Some(
            (p, _),
        ) ==> p < shown.len()) by {
            assert(first[i].parent == shown[i].parent);
        }
    }
    relevel(&mut blocks);
    let ghost settled = views(blocks@);
    proof {
        assert forall|i: int| 0 <= i < settled.len() implies (#[trigger] settled[i]).is_block()
            && settled[i].within(g.len()) by {
            assert(shown[i].is_block());
            assert(first[i].within(g.len()));
        }
        assert forall|i: int| 0 <= i < settled.len() implies ((
        #[trigger] settled[i]).parent matches Some((p, _)) ==> p < settled.len()) by {
            assert(shown[i].parent == settled[i].parent);
        }
    }
    report.blocks_drawn = blocks.len();
    report.blocks_checked = if check { blocks.len() } else { 0 };
    tally(&blocks, &mut led, &mut report);
    report.hidden_outputs_with_consumer = led.len();
    Ok(Walk { blocks, seeds, report, checked: check })
}

} // verus!
