//! What holds of every walk over blocks.

use vstd::prelude::*;

use crate::blocks::{
    a_checked_block_is_complete, a_fetched_block_holds_its_key, fetched, seeded, BlockView,
    Seed,
};
use crate::boxes::has_seed;
use crate::graph::{successor_list, well_formed, Lists};
use crate::kept::Cut;
use crate::report::BlockPrune;
use crate::settle::{climb, climb_agrees, unhidden};
use crate::walk::{
    adopted, all_expanded, all_seated, expanded, find, find_is_in, finished, found, joined,
    not_started, past_all_hidden, past_all_kept, past_hidden, past_kept, seat, seated, walked,
    Walking,
};

verus! {

/// Every arc of the graph is in the transpose, turned round.
pub open spec fn transposed(g: Lists, t: Lists) -> bool {
    forall|u: int, v: usize|
        0 <= u < g.len() && #[trigger] g[u].contains(v) ==> t[v as int].contains(u as usize)
}

/// Both sides of a block are there and complete: the successors of every input
/// are exactly the outputs, the predecessors of every output exactly the inputs,
/// the outputs are consecutive, and every input comes before them.
pub open spec fn complete(g: Lists, t: Lists, b: BlockView) -> bool {
    &&& b.inputs.len() > 0
    &&& b.outputs.len() > 0
    &&& forall|i: int| 0 <= i < b.inputs.len() ==> g[#[trigger] b.inputs[i] as int] == b.outputs
    &&& forall|j: int| 0 <= j < b.outputs.len() ==> t[#[trigger] b.outputs[j] as int] == b.inputs
    &&& forall|j: int| 0 <= j < b.outputs.len() ==> #[trigger] b.outputs[j] == b.first_out + j
    &&& forall|i: int| 0 <= i < b.inputs.len() ==> #[trigger] b.inputs[i] < b.first_out
    &&& forall|i: int| 0 <= i < b.inputs.len() ==> #[trigger] b.inputs[i] < g.len()
    &&& forall|j: int| 0 <= j < b.outputs.len() ==> #[trigger] b.outputs[j] < g.len()
}

/// A block hangs under one whose output feeds it.
pub open spec fn fed(blocks: Seq<BlockView>, i: int) -> bool {
    blocks[i].parent matches Some((p, o)) ==> p < blocks.len() && blocks[p as int].outputs.contains(
        o,
    ) && blocks[i].inputs.contains(o)
}

/// Blocks that are complete, no two of them the same, each hung under one that
/// feeds it or under none.
pub open spec fn linked(g: Lists, t: Lists, blocks: Seq<BlockView>) -> bool {
    &&& forall|i: int| 0 <= i < blocks.len() ==> complete(g, t, #[trigger] blocks[i])
    &&& forall|i: int, j: int|
        0 <= i < j < blocks.len() ==> (#[trigger] blocks[i]).first_out != (
        #[trigger] blocks[j]).first_out
    &&& forall|i: int| 0 <= i < blocks.len() ==> #[trigger] fed(blocks, i)
}

/// How many nodes the blocks show, a node that is in two of them counted twice.
pub open spec fn shown_total(blocks: Seq<BlockView>) -> nat
    decreases blocks.len(),
{
    if blocks.len() == 0 {
        0
    } else {
        let b = blocks.last();
        shown_total(blocks.drop_last()) + b.kept_in.count(b.inputs.len()) + b.kept_out.count(
            b.outputs.len(),
        )
    }
}

/// A block is cut by the fanouts.
pub open spec fn cut_by(prune: BlockPrune, b: BlockView) -> bool {
    b.kept_in == Cut::of(b.inputs.len(), prune.fanout_in) && b.kept_out == Cut::of(
        b.outputs.len(),
        prune.fanout_out,
    )
}

/// A walk under way: its blocks are linked and cut by the fanouts, what was spent
/// is what they show, and it is within the budgets.
pub(crate) open spec fn running(g: Lists, t: Lists, prune: BlockPrune, st: Walking) -> bool {
    &&& linked(g, t, st.blocks)
    &&& forall|i: int| 0 <= i < st.blocks.len() ==> cut_by(prune, #[trigger] st.blocks[i])
    &&& st.used == shown_total(st.blocks)
    &&& st.blocks.len() <= prune.max_blocks
    &&& st.used <= prune.max_nodes
    &&& st.blocks.len() <= u32::MAX
}

proof fn total_after_update(blocks: Seq<BlockView>, i: int, b: BlockView)
    requires
        0 <= i < blocks.len(),
        b.inputs == blocks[i].inputs,
        b.outputs == blocks[i].outputs,
        b.kept_in == blocks[i].kept_in,
        b.kept_out == blocks[i].kept_out,
    ensures
        shown_total(blocks.update(i, b)) == shown_total(blocks),
    decreases blocks.len(),
{
    let after = blocks.update(i, b);
    if i == blocks.len() - 1 {
        assert(after.drop_last() =~= blocks.drop_last());
    } else {
        assert(after.drop_last() =~= blocks.drop_last().update(i, b));
        total_after_update(blocks.drop_last(), i, b);
    }
}

pub(crate) proof fn fetched_is_complete(g: Lists, t: Lists, key: usize)
    requires
        well_formed(g),
        well_formed(t),
        g.len() == t.len(),
        key < t.len(),
        fetched(g, t, key, true) is Ok,
    ensures
        complete(g, t, fetched(g, t, key, true)->Ok_0),
        fetched(g, t, key, true)->Ok_0.outputs.contains(key),
        fetched(g, t, key, true)->Ok_0.inputs == t[key as int],
        fetched(g, t, key, true)->Ok_0.parent is None,
{
    let b = fetched(g, t, key, true)->Ok_0;
    a_checked_block_is_complete(g, t, key);
    a_fetched_block_holds_its_key(g, t, key, true);
    assert(successor_list(t[key as int], t.len()));
    assert(b.inputs[0] < t.len());
    assert(successor_list(g[b.inputs[0] as int], g.len()));
    assert forall|i: int| 0 <= i < b.inputs.len() implies #[trigger] b.inputs[i] < b.first_out by {
        assert(b.inputs[i] < b.outputs[0]);
    }
}

pub(crate) proof fn joined_keeps(
    g: Lists,
    t: Lists,
    prune: BlockPrune,
    st: Walking,
    b: BlockView,
    cost: nat,
    level: nat,
    parent: Option<(u32, usize)>,
)
    requires
        running(g, t, prune, st),
        complete(g, t, b),
        seat(prune, st, b.inputs.len(), b.outputs.len()) == Some(cost),
        find(st.blocks, b.first_out) is None,
        parent matches Some((p, o)) ==> p < st.blocks.len() && st.blocks[p as int].outputs.contains(
            o,
        ) && b.inputs.contains(o),
    ensures
        running(g, t, prune, joined(prune, st, b, cost, level, parent)),
{
    let next = joined(prune, st, b, cost, level, parent).blocks;
    find_is_in(st.blocks, b.first_out);
    assert(next.drop_last() =~= st.blocks);
    assert forall|i: int| 0 <= i < next.len() implies cut_by(prune, #[trigger] next[i]) by {
        if i < st.blocks.len() {
            assert(cut_by(prune, st.blocks[i]));
        }
    }
    assert forall|i: int| 0 <= i < next.len() implies complete(g, t, #[trigger] next[i]) by {
        if i < st.blocks.len() {
            assert(complete(g, t, st.blocks[i]));
        }
    }
    assert forall|i: int, j: int| 0 <= i < j < next.len() implies (#[trigger] next[i]).first_out != (
    #[trigger] next[j]).first_out by {
        assert(next[i] == st.blocks[i]);
        if j < st.blocks.len() {
            assert(next[j] == st.blocks[j]);
        } else {
            assert(st.blocks[i].first_out != b.first_out);
        }
    }
    assert forall|i: int| 0 <= i < next.len() implies #[trigger] fed(next, i) by {
        if i < st.blocks.len() {
            assert(fed(st.blocks, i));
            assert(next[i] == st.blocks[i]);
            if let Some((p, _)) = next[i].parent {
                assert(next[p as int] == st.blocks[p as int]);
            }
        } else if let Some((p, _)) = parent {
            assert(next[p as int] == st.blocks[p as int]);
        }
    }
}

pub(crate) proof fn adopted_keeps(
    g: Lists,
    t: Lists,
    prune: BlockPrune,
    st: Walking,
    bi: int,
    key: usize,
    o: usize,
)
    requires
        running(g, t, prune, st),
        transposed(g, t),
        0 <= bi < st.blocks.len(),
        st.blocks[bi].outputs.contains(o),
        o < g.len(),
        g[o as int].len() > 0,
        g[o as int][0] == key,
        find(st.blocks, key) is Some,
    ensures
        running(g, t, prune, adopted(st, bi, key, o)),
        adopted(st, bi, key, o).blocks.len() == st.blocks.len(),
        adopted(st, bi, key, o).blocks[bi].outputs == st.blocks[bi].outputs,
{
    find_is_in(st.blocks, key);
    let ci = find(st.blocks, key)->0;
    let child = st.blocks[ci];
    let next = adopted(st, bi, key, o).blocks;
    if ci != bi && child.parent is None {
        assert(complete(g, t, child));
        assert(child.outputs[0] == child.first_out);
        assert(g[o as int].contains(key));
        assert(t[key as int].contains(o));
        assert(child.inputs.contains(o));
        total_after_update(
            st.blocks,
            ci,
            BlockView { parent: Some((bi as u32, o)), ..child },
        );
        assert forall|i: int| 0 <= i < next.len() implies cut_by(prune, #[trigger] next[i]) by {
            assert(cut_by(prune, st.blocks[i]));
        }
        assert forall|i: int| 0 <= i < next.len() implies complete(g, t, #[trigger] next[i]) by {
            assert(complete(g, t, st.blocks[i]));
        }
        assert forall|i: int, j: int| 0 <= i < j < next.len() implies (
        #[trigger] next[i]).first_out != (#[trigger] next[j]).first_out by {
            assert(st.blocks[i].first_out != st.blocks[j].first_out);
        }
        assert forall|i: int| 0 <= i < next.len() implies #[trigger] fed(next, i) by {
            assert(fed(st.blocks, i));
        }
    }
}

/// A walk under way, whose block in hand is the `bi`th, which is `b`.
pub(crate) open spec fn walking(
    g: Lists,
    t: Lists,
    prune: BlockPrune,
    st: Walking,
    b: BlockView,
    bi: int,
) -> bool {
    &&& running(g, t, prune, st)
    &&& 0 <= bi < st.blocks.len()
    &&& st.blocks[bi].outputs == b.outputs
    &&& complete(g, t, b)
}

pub(crate) proof fn hidden_keeps(
    g: Lists,
    t: Lists,
    prune: BlockPrune,
    st: Walking,
    b: BlockView,
    bi: int,
    k: int,
)
    requires
        walking(g, t, prune, st, b, bi),
        transposed(g, t),
        0 <= k <= b.outputs.len(),
    ensures
        walking(g, t, prune, past_all_hidden(g, st, b, bi, k), b, bi),
    decreases b.outputs.len() - k,
{
    if k < b.outputs.len() {
        if b.kept_out.keeps(b.outputs.len(), k) {
            hidden_keeps(g, t, prune, st, b, bi, k + 1);
        } else {
            let o = b.outputs[k];
            let next = past_hidden(g, st, bi, o);
            if g[o as int].len() > 0 {
                let key = g[o as int][0];
                let marked = Walking { led: st.led.insert(o), ..st };
                if find(st.blocks, key) is Some {
                    assert(st.blocks[bi].outputs.contains(o));
                    adopted_keeps(g, t, prune, marked, bi, key, o);
                }
            }
            hidden_keeps(g, t, prune, next, b, bi, k + 1);
        }
    }
}

pub(crate) proof fn kept_keeps(
    g: Lists,
    t: Lists,
    prune: BlockPrune,
    st: Walking,
    b: BlockView,
    bi: int,
    o: usize,
)
    requires
        walking(g, t, prune, st, b, bi),
        well_formed(g),
        well_formed(t),
        g.len() == t.len(),
        transposed(g, t),
        b.outputs.contains(o),
    ensures
        past_kept(g, t, prune, true, st, b, bi, o) matches Ok(next) ==> walking(g, t, prune, next, b, bi),
{
    let j = b.outputs.index_of(o);
    assert(b.outputs[j] == o);
    if g[o as int].len() > 0 {
        let key = g[o as int][0];
        assert(successor_list(g[o as int], g.len()));
        assert(key < g.len());
        if find(st.blocks, key) is Some {
            adopted_keeps(g, t, prune, st, bi, key, o);
        } else if let Some(cost) = seat(prune, st, t[key as int].len(), g[o as int].len()) {
            if let Ok(c) = fetched(g, t, key, true) {
                fetched_is_complete(g, t, key);
                assert(g[o as int].contains(key));
                assert(t[key as int].contains(o));
                let i = c.inputs.index_of(o);
                assert(g[c.inputs[i] as int] == c.outputs);
                assert(c.outputs[0] == c.first_out);
                assert(c.first_out == key);
                joined_keeps(g, t, prune, st, c, cost, b.level + 1, Some((bi as u32, o)));
                let next = joined(prune, st, c, cost, b.level + 1, Some((bi as u32, o)));
                assert(next.blocks[bi] == st.blocks[bi]);
            }
        }
    }
}

proof fn all_kept_keeps(
    g: Lists,
    t: Lists,
    prune: BlockPrune,
    st: Walking,
    b: BlockView,
    bi: int,
    j: int,
)
    requires
        walking(g, t, prune, st, b, bi),
        well_formed(g),
        well_formed(t),
        g.len() == t.len(),
        transposed(g, t),
        0 <= j,
        forall|k: int|
            0 <= k < b.kept_out.shown(b.outputs.len()).len() ==> (
            #[trigger] b.kept_out.shown(b.outputs.len())[k]) < b.outputs.len(),
    ensures
        past_all_kept(g, t, prune, true, st, b, bi, j) matches Ok(next) ==> running(
            g,
            t,
            prune,
            next,
        ) && bi < next.blocks.len(),
    decreases b.kept_out.shown(b.outputs.len()).len() - j,
{
    let shown = b.kept_out.shown(b.outputs.len());
    if j < shown.len() {
        let o = b.outputs[shown[j] as int];
        assert(b.outputs.contains(o));
        kept_keeps(g, t, prune, st, b, bi, o);
        if let Ok(next) = past_kept(g, t, prune, true, st, b, bi, o) {
            all_kept_keeps(g, t, prune, next, b, bi, j + 1);
        }
    }
}

pub(crate) proof fn expanded_keeps(g: Lists, t: Lists, prune: BlockPrune, st: Walking, bi: int)
    requires
        running(g, t, prune, st),
        0 <= bi < st.blocks.len(),
        well_formed(g),
        well_formed(t),
        g.len() == t.len() <= usize::MAX,
        transposed(g, t),
    ensures
        expanded(g, t, prune, true, st, bi) matches Ok(next) ==> running(g, t, prune, next) && bi
            < next.blocks.len(),
{
    let b = st.blocks[bi];
    assert(complete(g, t, b));
    assert(cut_by(prune, b));
    hidden_keeps(g, t, prune, st, b, bi, 0);
    let n = b.outputs.len();
    assert(n <= usize::MAX) by {
        assert(b.outputs[n - 1] == b.first_out + n - 1);
    }
    assert(b.kept_out.fits(n));
    crate::kept::shown_is_exact(b.kept_out, n as usize);
    let shown = b.kept_out.shown(n);
    assert forall|k: int| 0 <= k < shown.len() implies (#[trigger] shown[k]) < n by {}
    all_kept_keeps(g, t, prune, past_all_hidden(g, st, b, bi, 0), b, bi, 0);
}

proof fn all_expanded_keeps(g: Lists, t: Lists, prune: BlockPrune, st: Walking, bi: int)
    requires
        running(g, t, prune, st),
        0 <= bi <= st.blocks.len(),
        well_formed(g),
        well_formed(t),
        g.len() == t.len() <= usize::MAX,
        transposed(g, t),
    ensures
        all_expanded(g, t, prune, true, st, bi) matches Ok(end) ==> running(g, t, prune, end)
            && st.blocks.len() <= end.blocks.len(),
    decreases u32::MAX - bi,
{
    if bi < st.blocks.len() && bi < u32::MAX {
        expanded_keeps(g, t, prune, st, bi);
        if let Ok(next) = expanded(g, t, prune, true, st, bi) {
            all_expanded_keeps(g, t, prune, next, bi + 1);
            expanding_adds(g, t, prune, true, st, bi);
        }
    }
}

proof fn hidden_keeps_count(g: Lists, st: Walking, b: BlockView, bi: int, k: int)
    ensures
        past_all_hidden(g, st, b, bi, k).blocks.len() == st.blocks.len(),
    decreases b.outputs.len() - k,
{
    if k < b.outputs.len() {
        if b.kept_out.keeps(b.outputs.len(), k) {
            hidden_keeps_count(g, st, b, bi, k + 1);
        } else {
            let o = b.outputs[k];
            if g[o as int].len() > 0 {
                find_is_in(st.blocks, g[o as int][0]);
            }
            hidden_keeps_count(g, past_hidden(g, st, bi, o), b, bi, k + 1);
        }
    }
}

proof fn kept_adds(
    g: Lists,
    t: Lists,
    prune: BlockPrune,
    check: bool,
    st: Walking,
    b: BlockView,
    bi: int,
    j: int,
)
    ensures
        past_all_kept(g, t, prune, check, st, b, bi, j) matches Ok(next) ==> st.blocks.len()
            <= next.blocks.len(),
    decreases b.kept_out.shown(b.outputs.len()).len() - j,
{
    let shown = b.kept_out.shown(b.outputs.len());
    if j < shown.len() {
        let o = b.outputs[shown[j] as int];
        if g[o as int].len() > 0 {
            find_is_in(st.blocks, g[o as int][0]);
        }
        if let Ok(next) = past_kept(g, t, prune, check, st, b, bi, o) {
            kept_adds(g, t, prune, check, next, b, bi, j + 1);
        }
    }
}

proof fn expanding_adds(g: Lists, t: Lists, prune: BlockPrune, check: bool, st: Walking, bi: int)
    ensures
        expanded(g, t, prune, check, st, bi) matches Ok(next) ==> st.blocks.len()
            <= next.blocks.len(),
{
    let b = st.blocks[bi];
    hidden_keeps_count(g, st, b, bi, 0);
    kept_adds(g, t, prune, check, past_all_hidden(g, st, b, bi, 0), b, bi, 0);
}

pub(crate) proof fn seated_keeps(
    g: Lists,
    t: Lists,
    prune: BlockPrune,
    mode: Seed,
    st: Walking,
    roots: Seq<usize>,
    k: int,
)
    requires
        running(g, t, prune, st),
        well_formed(g),
        well_formed(t),
        g.len() == t.len(),
        0 <= k,
        k > 0 ==> st.blocks.len() > 0,
        roots.len() > 0,
    ensures
        all_seated(g, t, prune, mode, true, st, roots, k) matches Ok(end) ==> running(
            g,
            t,
            prune,
            end,
        ) && end.blocks.len() > 0,
    decreases roots.len() - k,
{
    if k < roots.len() {
        let root = roots[k];
        if let Ok(next) = seated(g, t, prune, mode, true, st, root) {
            let (b, msg) = seeded(g, t, root, mode, true)->Ok_0;
            let key = if mode == Seed::Producing && t[root as int].len() > 0 {
                root
            } else if g[root as int].len() > 0 {
                g[root as int][0]
            } else {
                root
            };
            assert(successor_list(g[root as int], g.len()));
            assert(key < g.len());
            assert(fetched(g, t, key, true) == Ok::<BlockView, Seq<char>>(b));
            fetched_is_complete(g, t, key);
            if find(st.blocks, b.first_out) is None {
                let cost = seat(prune, st, b.inputs.len(), b.outputs.len())->0;
                joined_keeps(g, t, prune, st, b, cost, 0, None);
            } else {
                find_is_in(st.blocks, b.first_out);
            }
            seated_keeps(g, t, prune, mode, next, roots, k + 1);
        }
    }
}

pub(crate) proof fn found_is_running(
    g: Lists,
    t: Lists,
    roots: Seq<usize>,
    prune: BlockPrune,
    mode: Seed,
)
    requires
        well_formed(g),
        well_formed(t),
        g.len() == t.len() <= usize::MAX,
        transposed(g, t),
    ensures
        found(g, t, roots, prune, mode, true) matches Ok(st) ==> running(g, t, prune, st)
            && st.blocks.len() > 0,
{
    if let Ok(end) = found(g, t, roots, prune, mode, true) {
        let start = not_started();
        seated_keeps(g, t, prune, mode, start, roots, 0);
        let st = all_seated(g, t, prune, mode, true, start, roots, 0)->Ok_0;
        all_expanded_keeps(g, t, prune, st, 0);
    }
}

/// The block whose outputs start first.
spec fn earliest(blocks: Seq<BlockView>) -> int
    decreases blocks.len(),
{
    if blocks.len() <= 1 {
        0
    } else {
        let e = earliest(blocks.drop_last());
        if blocks.last().first_out < blocks[e].first_out {
            blocks.len() - 1
        } else {
            e
        }
    }
}

proof fn earliest_is_first(blocks: Seq<BlockView>)
    requires
        blocks.len() > 0,
    ensures
        0 <= earliest(blocks) < blocks.len(),
        forall|i: int|
            0 <= i < blocks.len() ==> blocks[earliest(blocks)].first_out <= (
            #[trigger] blocks[i]).first_out,
    decreases blocks.len(),
{
    if blocks.len() > 1 {
        let f = blocks.drop_last();
        earliest_is_first(f);
        assert forall|i: int| 0 <= i < blocks.len() implies blocks[earliest(blocks)].first_out <= (
        #[trigger] blocks[i]).first_out by {
            if i < f.len() {
                assert(f[earliest(f)].first_out <= f[i].first_out);
            }
        }
    }
}

/// A parent's outputs start before those of the block that hangs under it, so no
/// block is above itself.
pub proof fn a_parent_comes_first(g: Lists, t: Lists, blocks: Seq<BlockView>, i: int)
    requires
        linked(g, t, blocks),
        0 <= i < blocks.len(),
    ensures
        blocks[i].parent matches Some((p, _)) ==> p < blocks.len() && blocks[p as int].first_out
            < blocks[i].first_out,
{
    assert(fed(blocks, i));
    if let Some((p, o)) = blocks[i].parent {
        assert(complete(g, t, blocks[i]));
        assert(complete(g, t, blocks[p as int]));
        let j = blocks[p as int].outputs.index_of(o);
        assert(blocks[p as int].outputs[j] == blocks[p as int].first_out + j);
        let k = blocks[i].inputs.index_of(o);
        assert(blocks[i].inputs[k] < blocks[i].first_out);
    }
}

/// Blocks that are linked hang from a seed.
pub proof fn linked_blocks_have_a_seed(g: Lists, t: Lists, blocks: Seq<BlockView>)
    requires
        linked(g, t, blocks),
        blocks.len() > 0,
    ensures
        has_seed(blocks),
{
    earliest_is_first(blocks);
    let e = earliest(blocks);
    a_parent_comes_first(g, t, blocks, e);
    assert(blocks[e].parent is None);
}

/// No two of the blocks share an output: an output has one set of predecessors,
/// and they have one list of successors.
pub proof fn outputs_are_of_one_block(g: Lists, t: Lists, blocks: Seq<BlockView>, i: int, j: int, o: usize)
    requires
        linked(g, t, blocks),
        0 <= i < blocks.len(),
        0 <= j < blocks.len(),
        blocks[i].outputs.contains(o),
        blocks[j].outputs.contains(o),
    ensures
        i == j,
{
    let (a, b) = (blocks[i], blocks[j]);
    assert(complete(g, t, a));
    assert(complete(g, t, b));
    let x = a.outputs.index_of(o);
    let y = b.outputs.index_of(o);
    assert(t[a.outputs[x] as int] == a.inputs);
    assert(t[b.outputs[y] as int] == b.inputs);
    assert(a.inputs == b.inputs);
    assert(g[a.inputs[0] as int] == a.outputs);
    assert(g[b.inputs[0] as int] == b.outputs);
    assert(a.outputs[0] == a.first_out && b.outputs[0] == b.first_out);
    if i < j {
        assert(blocks[i].first_out != blocks[j].first_out);
    } else if j < i {
        assert(blocks[j].first_out != blocks[i].first_out);
    }
}

/// A walk over a graph and its transpose, with the check on, comes back with
/// blocks that are complete, no two of them the same, each hung under one whose
/// output feeds it or under none, of which there is one; there are no more of
/// them than the budget allows, and what they show before anything is un-hidden
/// is within the budget of nodes.
pub proof fn a_walk_is_linked_and_within_its_budgets(
    g: Lists,
    t: Lists,
    roots: Seq<usize>,
    prune: BlockPrune,
    mode: Seed,
)
    requires
        well_formed(g),
        well_formed(t),
        g.len() == t.len() <= usize::MAX,
        transposed(g, t),
    ensures
        walked(g, t, roots, prune, mode, true) matches Ok(w) ==> {
            &&& linked(g, t, w.blocks)
            &&& has_seed(w.blocks)
            &&& 0 < w.blocks.len() <= prune.max_blocks
        },
        found(g, t, roots, prune, mode, true) matches Ok(st) ==> {
            &&& shown_total(st.blocks) <= prune.max_nodes
            &&& linked(g, t, st.blocks)
            &&& forall|i: int| 0 <= i < st.blocks.len() ==> cut_by(prune, #[trigger] st.blocks[i])
        },
{
    found_is_running(g, t, roots, prune, mode);
    if let Ok(st) = found(g, t, roots, prune, mode, true) {
        let w = finished(st, true);
        let end = w.blocks;
        assert(end.len() == st.blocks.len());
        assert forall|i: int| 0 <= i < end.len() implies complete(g, t, #[trigger] end[i]) by {
            assert(complete(g, t, st.blocks[i]));
        }
        assert forall|i: int, j: int| 0 <= i < j < end.len() implies (#[trigger] end[i]).first_out
            != (#[trigger] end[j]).first_out by {
            assert(st.blocks[i].first_out != st.blocks[j].first_out);
        }
        assert forall|i: int| 0 <= i < end.len() implies #[trigger] fed(end, i) by {
            assert(fed(st.blocks, i));
        }
        linked_blocks_have_a_seed(g, t, end);
    }
}

/// Block `i` hangs under one before it, a level below it.
pub(crate) open spec fn a_step_below(blocks: Seq<BlockView>, i: int) -> bool {
    blocks[i].parent matches Some((p, _)) && p < i && blocks[i].level == blocks[p as int].level + 1
}

/// Whether a level is no deeper than was asked for.
pub open spec fn within_depth(prune: BlockPrune, level: nat) -> bool {
    prune.depth matches Some(d) ==> level <= d
}

/// Blocks found from one root: it is the only seed, every other hangs a level below
/// one before it, and none is too deep.
pub(crate) open spec fn stepped(prune: BlockPrune, blocks: Seq<BlockView>) -> bool {
    &&& blocks.len() > 0
    &&& blocks[0].parent is None
    &&& blocks[0].level == 0
    &&& forall|i: int| 0 < i < blocks.len() ==> #[trigger] a_step_below(blocks, i)
    &&& forall|i: int|
        0 <= i < blocks.len() ==> within_depth(prune, (#[trigger] blocks[i]).level)
}

proof fn the_seed_comes_first(
    g: Lists,
    t: Lists,
    prune: BlockPrune,
    blocks: Seq<BlockView>,
    i: int,
)
    requires
        linked(g, t, blocks),
        stepped(prune, blocks),
        0 < i < blocks.len(),
    ensures
        blocks[0].first_out < blocks[i].first_out,
    decreases i,
{
    assert(a_step_below(blocks, i));
    a_parent_comes_first(g, t, blocks, i);
    let p = (blocks[i].parent->0).0 as int;
    if p > 0 {
        the_seed_comes_first(g, t, prune, blocks, p);
    }
}

proof fn nothing_is_adopted(
    g: Lists,
    t: Lists,
    prune: BlockPrune,
    st: Walking,
    bi: int,
    key: usize,
    o: usize,
)
    requires
        running(g, t, prune, st),
        stepped(prune, st.blocks),
        transposed(g, t),
        0 <= bi < st.blocks.len(),
        st.blocks[bi].outputs.contains(o),
        o < g.len(),
        g[o as int].len() > 0,
        g[o as int][0] == key,
        find(st.blocks, key) is Some,
    ensures
        adopted(st, bi, key, o) == st,
{
    find_is_in(st.blocks, key);
    let ci = find(st.blocks, key)->0;
    if ci != bi && st.blocks[ci].parent is None {
        if ci > 0 {
            assert(a_step_below(st.blocks, ci));
        }
        let seed = st.blocks[0];
        assert(complete(g, t, seed));
        assert(complete(g, t, st.blocks[bi]));
        assert(seed.outputs[0] == seed.first_out);
        assert(t[seed.outputs[0] as int] == seed.inputs);
        assert(g[o as int].contains(key));
        assert(t[key as int].contains(o));
        let k = seed.inputs.index_of(o);
        assert(seed.inputs[k] < seed.first_out);
        let j = st.blocks[bi].outputs.index_of(o);
        assert(st.blocks[bi].outputs[j] == st.blocks[bi].first_out + j);
        the_seed_comes_first(g, t, prune, st.blocks, bi);
    }
}

proof fn asking_moves_nothing(
    g: Lists,
    t: Lists,
    prune: BlockPrune,
    st: Walking,
    b: BlockView,
    bi: int,
    k: int,
)
    requires
        walking(g, t, prune, st, b, bi),
        stepped(prune, st.blocks),
        transposed(g, t),
        0 <= k <= b.outputs.len(),
    ensures
        past_all_hidden(g, st, b, bi, k).blocks == st.blocks,
    decreases b.outputs.len() - k,
{
    if k < b.outputs.len() {
        if b.kept_out.keeps(b.outputs.len(), k) {
            asking_moves_nothing(g, t, prune, st, b, bi, k + 1);
        } else {
            let o = b.outputs[k];
            let next = past_hidden(g, st, bi, o);
            if g[o as int].len() > 0 {
                let key = g[o as int][0];
                let marked = Walking { led: st.led.insert(o), ..st };
                if find(st.blocks, key) is Some {
                    assert(st.blocks[bi].outputs.contains(o));
                    nothing_is_adopted(g, t, prune, marked, bi, key, o);
                }
            }
            assert(next.blocks == st.blocks);
            asking_moves_nothing(g, t, prune, next, b, bi, k + 1);
        }
    }
}

proof fn following_steps(
    g: Lists,
    t: Lists,
    prune: BlockPrune,
    st: Walking,
    b: BlockView,
    bi: int,
    o: usize,
)
    requires
        walking(g, t, prune, st, b, bi),
        stepped(prune, st.blocks),
        st.blocks[bi] == b,
        well_formed(g),
        well_formed(t),
        g.len() == t.len(),
        transposed(g, t),
        b.outputs.contains(o),
    ensures
        past_kept(g, t, prune, true, st, b, bi, o) matches Ok(next) ==> stepped(prune, next.blocks)
            && bi < next.blocks.len() && next.blocks[bi] == b,
{
    let j = b.outputs.index_of(o);
    assert(b.outputs[j] == o);
    if g[o as int].len() > 0 {
        let key = g[o as int][0];
        if find(st.blocks, key) is Some {
            nothing_is_adopted(g, t, prune, st, bi, key, o);
        } else if let Ok(next) = past_kept(g, t, prune, true, st, b, bi, o) {
            if next.blocks != st.blocks {
                let n = st.blocks.len() as int;
                let after = next.blocks;
                assert(after.len() == n + 1);
                assert forall|i: int| 0 < i < after.len() implies #[trigger] a_step_below(
                    after,
                    i,
                ) by {
                    if i < n {
                        assert(a_step_below(st.blocks, i));
                        assert(after[i] == st.blocks[i]);
                        assert(after[(after[i].parent->0).0 as int] == st.blocks[(after[i].parent->0).0 as int]);
                    } else {
                        assert(after[bi] == b);
                    }
                }
                assert forall|i: int| 0 <= i < after.len() implies within_depth(
                    prune,
                    (#[trigger] after[i]).level,
                ) by {
                    if i < n {
                        assert(after[i] == st.blocks[i]);
                    }
                }
            }
        }
    }
}

proof fn following_all_steps(
    g: Lists,
    t: Lists,
    prune: BlockPrune,
    st: Walking,
    b: BlockView,
    bi: int,
    j: int,
)
    requires
        walking(g, t, prune, st, b, bi),
        stepped(prune, st.blocks),
        st.blocks[bi] == b,
        well_formed(g),
        well_formed(t),
        g.len() == t.len(),
        transposed(g, t),
        0 <= j,
        forall|k: int|
            0 <= k < b.kept_out.shown(b.outputs.len()).len() ==> (
            #[trigger] b.kept_out.shown(b.outputs.len())[k]) < b.outputs.len(),
    ensures
        past_all_kept(g, t, prune, true, st, b, bi, j) matches Ok(next) ==> stepped(
            prune,
            next.blocks,
        ),
    decreases b.kept_out.shown(b.outputs.len()).len() - j,
{
    let shown = b.kept_out.shown(b.outputs.len());
    if j < shown.len() {
        let o = b.outputs[shown[j] as int];
        assert(b.outputs.contains(o));
        kept_keeps(g, t, prune, st, b, bi, o);
        following_steps(g, t, prune, st, b, bi, o);
        if let Ok(next) = past_kept(g, t, prune, true, st, b, bi, o) {
            following_all_steps(g, t, prune, next, b, bi, j + 1);
        }
    }
}

pub(crate) proof fn expanding_steps(g: Lists, t: Lists, prune: BlockPrune, st: Walking, bi: int)
    requires
        running(g, t, prune, st),
        stepped(prune, st.blocks),
        0 <= bi <= st.blocks.len(),
        well_formed(g),
        well_formed(t),
        g.len() == t.len() <= usize::MAX,
        transposed(g, t),
    ensures
        all_expanded(g, t, prune, true, st, bi) matches Ok(end) ==> stepped(prune, end.blocks),
    decreases u32::MAX - bi,
{
    if bi < st.blocks.len() && bi < u32::MAX {
        let b = st.blocks[bi];
        assert(complete(g, t, b));
        assert(cut_by(prune, b));
        hidden_keeps(g, t, prune, st, b, bi, 0);
        asking_moves_nothing(g, t, prune, st, b, bi, 0);
        let n = b.outputs.len();
        assert(n <= usize::MAX) by {
            assert(b.outputs[n - 1] == b.first_out + n - 1);
        }
        assert(b.kept_out.fits(n));
        crate::kept::shown_is_exact(b.kept_out, n as usize);
        let shown = b.kept_out.shown(n);
        assert forall|k: int| 0 <= k < shown.len() implies (#[trigger] shown[k]) < n by {}
        following_all_steps(g, t, prune, past_all_hidden(g, st, b, bi, 0), b, bi, 0);
        expanded_keeps(g, t, prune, st, bi);
        if let Ok(next) = expanded(g, t, prune, true, st, bi) {
            expanding_steps(g, t, prune, next, bi + 1);
        }
    }
}

pub(crate) proof fn climbing(prune: BlockPrune, blocks: Seq<BlockView>, i: int)
    requires
        stepped(prune, blocks),
        0 <= i < blocks.len(),
    ensures
        climb(blocks, i, blocks[i].level) == Some(blocks[i].level),
    decreases i,
{
    if i > 0 {
        assert(a_step_below(blocks, i));
        climbing(prune, blocks, (blocks[i].parent->0).0 as int);
    }
}

/// From one root, no block is deeper than was asked for.
pub proof fn one_root_goes_no_deeper(
    g: Lists,
    t: Lists,
    roots: Seq<usize>,
    prune: BlockPrune,
    mode: Seed,
    i: int,
)
    requires
        well_formed(g),
        well_formed(t),
        g.len() == t.len() <= usize::MAX,
        transposed(g, t),
        roots.len() == 1,
    ensures
        walked(g, t, roots, prune, mode, true) matches Ok(w) ==> (0 <= i < w.blocks.len()
            ==> within_depth(prune, w.blocks[i].level)),
{
    if let Ok(st) = found(g, t, roots, prune, mode, true) {
        let start = not_started();
        reveal_with_fuel(all_seated, 2);
        seated_keeps(g, t, prune, mode, start, roots, 0);
        let first = all_seated(g, t, prune, mode, true, start, roots, 0)->Ok_0;
        find_is_in(start.blocks, (seeded(g, t, roots[0], mode, true)->Ok_0).0.first_out);
        assert(first.blocks.len() == 1);
        assert(stepped(prune, first.blocks));
        expanding_steps(g, t, prune, first, 0);
        let shown = unhidden(st.blocks);
        assert forall|k: int| 0 < k < shown.len() implies #[trigger] a_step_below(shown, k) by {
            assert(a_step_below(st.blocks, k));
        }
        assert forall|k: int| 0 <= k < shown.len() implies within_depth(
            prune,
            (#[trigger] shown[k]).level,
        ) by {
            assert(within_depth(prune, st.blocks[k].level));
        }
        assert(stepped(prune, shown));
        if 0 <= i < shown.len() {
            climbing(prune, shown, i);
            climb_agrees(shown, i, shown[i].level, choose|fuel: nat| climb(shown, i, fuel) is Some);
        }
    }
}

/// A walk without a root, or with a budget of nothing, is never drawn.
pub proof fn nothing_is_drawn_of_nothing(
    g: Lists,
    t: Lists,
    roots: Seq<usize>,
    prune: BlockPrune,
    mode: Seed,
    check: bool,
)
    requires
        roots.len() == 0 || prune.max_blocks == 0 || prune.max_nodes == 0,
    ensures
        walked(g, t, roots, prune, mode, check) is Err,
{
}

} // verus!
