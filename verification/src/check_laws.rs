//! What the check of the blocks of a walk changes.

use vstd::prelude::*;

use crate::blocks::{fetched, first_gap, first_odd, seeded, BlockView, Seed};
use crate::follow_laws::{at_most, cut_counts, is_for_its_maker};
use crate::graph::{successor_list, well_formed, Lists};
use crate::kept::shown_is_exact;
use crate::report::{BlockPrune, Report};
use crate::walk::{
    all_expanded, all_seated, expanded, find_is_in, found, not_started, past_all_hidden, past_all_kept,
    past_kept, seated, walked, WalkView, Walking,
};
use crate::walk_laws::{
    complete, cut_by, expanded_keeps, fetched_is_complete, hidden_keeps, kept_keeps, running,
    seated_keeps, transposed, walking,
};

verus! {

proof fn a_checked_block_is_the_block(g: Lists, t: Lists, key: usize)
    ensures
        fetched(g, t, key, true) is Ok ==> fetched(g, t, key, false) == fetched(g, t, key, true),
{
}

proof fn a_checked_seed_is_the_seed(g: Lists, t: Lists, root: usize, mode: Seed)
    ensures
        seeded(g, t, root, mode, true) is Ok ==> seeded(g, t, root, mode, false) == seeded(
            g,
            t,
            root,
            mode,
            true,
        ),
{
    a_checked_block_is_the_block(g, t, root);
    a_checked_block_is_the_block(g, t, g[root as int][0]);
}

proof fn seats_are_the_same(
    g: Lists,
    t: Lists,
    prune: BlockPrune,
    mode: Seed,
    st: Walking,
    roots: Seq<usize>,
    k: int,
)
    ensures
        all_seated(g, t, prune, mode, true, st, roots, k) is Ok ==> all_seated(
            g,
            t,
            prune,
            mode,
            false,
            st,
            roots,
            k,
        ) == all_seated(g, t, prune, mode, true, st, roots, k),
    decreases roots.len() - k,
{
    if k < roots.len() {
        a_checked_seed_is_the_seed(g, t, roots[k], mode);
        if let Ok(next) = seated(g, t, prune, mode, true, st, roots[k]) {
            seats_are_the_same(g, t, prune, mode, next, roots, k + 1);
        }
    }
}

proof fn following_is_the_same(
    g: Lists,
    t: Lists,
    prune: BlockPrune,
    st: Walking,
    b: BlockView,
    bi: int,
    j: int,
)
    ensures
        past_all_kept(g, t, prune, true, st, b, bi, j) is Ok ==> past_all_kept(
            g,
            t,
            prune,
            false,
            st,
            b,
            bi,
            j,
        ) == past_all_kept(g, t, prune, true, st, b, bi, j),
    decreases b.kept_out.shown(b.outputs.len()).len() - j,
{
    let shown = b.kept_out.shown(b.outputs.len());
    if j < shown.len() {
        let o = b.outputs[shown[j] as int];
        a_checked_block_is_the_block(g, t, g[o as int][0]);
        if let Ok(next) = past_kept(g, t, prune, true, st, b, bi, o) {
            assert(past_kept(g, t, prune, false, st, b, bi, o) == past_kept(
                g,
                t,
                prune,
                true,
                st,
                b,
                bi,
                o,
            ));
            following_is_the_same(g, t, prune, next, b, bi, j + 1);
        }
    }
}

proof fn expanding_is_the_same(g: Lists, t: Lists, prune: BlockPrune, st: Walking, bi: int)
    ensures
        all_expanded(g, t, prune, true, st, bi) is Ok ==> all_expanded(
            g,
            t,
            prune,
            false,
            st,
            bi,
        ) == all_expanded(g, t, prune, true, st, bi),
    decreases u32::MAX - bi,
{
    if bi < st.blocks.len() && bi < u32::MAX {
        let b = st.blocks[bi];
        following_is_the_same(g, t, prune, past_all_hidden(g, st, b, bi, 0), b, bi, 0);
        if let Ok(next) = expanded(g, t, prune, true, st, bi) {
            expanding_is_the_same(g, t, prune, next, bi + 1);
        }
    }
}

/// A check refuses walks and changes none: where the walk that checks its blocks comes
/// through, the one that does not comes to the same blocks, the same sentences and the
/// same report, but that it reports none as checked.
pub proof fn a_check_changes_nothing_it_lets_through(
    g: Lists,
    t: Lists,
    roots: Seq<usize>,
    prune: BlockPrune,
    mode: Seed,
)
    ensures
        walked(g, t, roots, prune, mode, true) matches Ok(w) ==> walked(
            g,
            t,
            roots,
            prune,
            mode,
            false,
        ) == Ok::<WalkView, Seq<char>>(
            WalkView {
                report: Report { blocks_checked: 0, ..w.report },
                checked: false,
                ..w
            },
        ),
{
    let start = not_started();
    if found(g, t, roots, prune, mode, true) is Ok {
        seats_are_the_same(g, t, prune, mode, start, roots, 0);
        let st = all_seated(g, t, prune, mode, true, start, roots, 0)->Ok_0;
        expanding_is_the_same(g, t, prune, st, 0);
    }
}

/// A node is an output of a block: one whose inputs all lead to just its outputs and
/// whose outputs all come from just its inputs, the outputs consecutive and after the
/// inputs.
pub open spec fn is_output_of_a_block(g: Lists, t: Lists, key: usize) -> bool {
    exists|b: BlockView| #[trigger]
        complete(g, t, b) && b.outputs.contains(key) && b.inputs == t[key as int]
}

/// Every node that anything leads to is an output of a block.
pub open spec fn is_of_blocks(g: Lists, t: Lists) -> bool {
    forall|key: usize|
        key < t.len() && t[key as int].len() > 0 ==> #[trigger] is_output_of_a_block(g, t, key)
}

proof fn consecutive_has_no_gap(s: Seq<usize>, k: int)
    requires
        0 <= k,
        forall|j: int| 0 <= j < s.len() ==> #[trigger] s[j] == s[0] + j,
    ensures
        first_gap(s, k) is None,
    decreases s.len() - k,
{
    if k < s.len() {
        consecutive_has_no_gap(s, k + 1);
    }
}

proof fn same_has_no_odd(lists: Lists, members: Seq<usize>, wanted: Seq<usize>, k: int)
    requires
        0 <= k,
        forall|i: int| 0 <= i < members.len() ==> lists[#[trigger] members[i] as int] == wanted,
    ensures
        first_odd(lists, members, wanted, k) is None,
    decreases members.len() - k,
{
    if k < members.len() {
        assert(lists[members[k] as int] == wanted);
        same_has_no_odd(lists, members, wanted, k + 1);
    }
}

/// A block is fetched and checked by a node exactly if the node is an output of one,
/// and then it is that one.
pub proof fn a_block_is_fetched_by_its_outputs(g: Lists, t: Lists, key: usize)
    requires
        well_formed(g),
        well_formed(t),
        g.len() == t.len(),
        key < t.len(),
    ensures
        fetched(g, t, key, true) is Ok <==> is_output_of_a_block(g, t, key),
        fetched(g, t, key, true) matches Ok(b) ==> complete(g, t, b) && b.outputs.contains(key)
            && b.inputs == t[key as int],
{
    if fetched(g, t, key, true) is Ok {
        fetched_is_complete(g, t, key);
        let b = fetched(g, t, key, true)->Ok_0;
        assert(complete(g, t, b));
    }
    if is_output_of_a_block(g, t, key) {
        let b = choose|b: BlockView| #[trigger]
            complete(g, t, b) && b.outputs.contains(key) && b.inputs == t[key as int];
        let i = b.outputs.index_of(key);
        assert(g[b.inputs[0] as int] == b.outputs);
        assert(b.outputs[0] == b.first_out);
        assert(b.outputs[i] == b.first_out + i);
        assert(b.inputs[b.inputs.len() - 1] < b.first_out);
        consecutive_has_no_gap(b.outputs, 0);
        same_has_no_odd(g, b.inputs, b.outputs, 1);
        same_has_no_odd(t, b.outputs, b.inputs, 0);
    }
}

proof fn following_comes_through(
    g: Lists,
    t: Lists,
    prune: BlockPrune,
    st: Walking,
    b: BlockView,
    bi: int,
    j: int,
)
    requires
        walking(g, t, prune, st, b, bi),
        well_formed(g),
        well_formed(t),
        g.len() == t.len(),
        transposed(g, t),
        is_of_blocks(g, t),
        0 <= j,
        forall|k: int|
            0 <= k < b.kept_out.shown(b.outputs.len()).len() ==> (
            #[trigger] b.kept_out.shown(b.outputs.len())[k]) < b.outputs.len(),
    ensures
        past_all_kept(g, t, prune, true, st, b, bi, j) is Ok,
    decreases b.kept_out.shown(b.outputs.len()).len() - j,
{
    let shown = b.kept_out.shown(b.outputs.len());
    if j < shown.len() {
        let i = shown[j] as int;
        let o = b.outputs[i];
        assert(b.outputs.contains(o));
        assert(o < g.len());
        if g[o as int].len() > 0 {
            let key = g[o as int][0];
            assert(successor_list(g[o as int], g.len()));
            assert(key < g.len());
            assert(g[o as int].contains(key));
            assert(t[key as int].contains(o));
            assert(is_output_of_a_block(g, t, key));
            a_block_is_fetched_by_its_outputs(g, t, key);
        }
        kept_keeps(g, t, prune, st, b, bi, o);
        let next = past_kept(g, t, prune, true, st, b, bi, o)->Ok_0;
        following_comes_through(g, t, prune, next, b, bi, j + 1);
    }
}

proof fn expanding_comes_through(g: Lists, t: Lists, prune: BlockPrune, st: Walking, bi: int)
    requires
        running(g, t, prune, st),
        0 <= bi <= st.blocks.len(),
        well_formed(g),
        well_formed(t),
        g.len() == t.len() <= usize::MAX,
        transposed(g, t),
        is_of_blocks(g, t),
    ensures
        all_expanded(g, t, prune, true, st, bi) is Ok,
    decreases u32::MAX - bi,
{
    if bi < st.blocks.len() && bi < u32::MAX {
        let b = st.blocks[bi];
        assert(complete(g, t, b));
        assert(cut_by(prune, b));
        hidden_keeps(g, t, prune, st, b, bi, 0);
        let n = b.outputs.len();
        assert(b.outputs[n - 1] == b.first_out + n - 1);
        assert(b.inputs[0] < b.first_out);
        shown_is_exact(b.kept_out, n as usize);
        following_comes_through(g, t, prune, past_all_hidden(g, st, b, bi, 0), b, bi, 0);
        expanded_keeps(g, t, prune, st, bi);
        let next = expanded(g, t, prune, true, st, bi)->Ok_0;
        expanding_comes_through(g, t, prune, next, bi + 1);
    }
}

/// A node is in the graph and something leads to it or it leads somewhere.
pub open spec fn is_joined(g: Lists, t: Lists, root: usize) -> bool {
    root < g.len() && (g[root as int].len() > 0 || t[root as int].len() > 0)
}

/// What the block that a root stands for costs in nodes: that which made it, where that
/// was asked for or nothing spends it, else that which spends it.
pub open spec fn cost_of(
    g: Lists,
    t: Lists,
    prune: BlockPrune,
    mode: Seed,
    root: usize,
) -> nat {
    let key = if is_for_its_maker(g, t, mode, root) {
        root
    } else {
        g[root as int][0]
    };
    let inputs = t[key as int];
    at_most(inputs.len(), prune.fanout_in) + at_most(
        g[inputs[0] as int].len(),
        prune.fanout_out,
    )
}

/// A walk from one root over a graph that is made of blocks comes through exactly if
/// the root is joined to anything and the budgets are enough for the block that it
/// stands for; what comes after that is drawn, counted as beyond or refused, and never
/// the end of the walk.
pub proof fn a_walk_over_blocks_comes_through(
    g: Lists,
    t: Lists,
    root: usize,
    prune: BlockPrune,
    mode: Seed,
)
    requires
        well_formed(g),
        well_formed(t),
        g.len() == t.len() <= usize::MAX,
        transposed(g, t),
        is_of_blocks(g, t),
    ensures
        walked(g, t, seq![root], prune, mode, true) is Ok <==> is_joined(g, t, root)
            && prune.max_blocks > 0 && prune.max_nodes > 0 && cost_of(g, t, prune, mode, root)
            <= prune.max_nodes,
{
    let roots = seq![root];
    let start = not_started();
    reveal_with_fuel(all_seated, 2);
    seated_keeps(g, t, prune, mode, start, roots, 0);
    if is_joined(g, t, root) {
        let key = if is_for_its_maker(g, t, mode, root) {
            root
        } else {
            g[root as int][0]
        };
        if !is_for_its_maker(g, t, mode, root) {
            assert(successor_list(g[root as int], g.len()));
            assert(g[root as int].contains(key));
            assert(t[key as int].contains(root));
        }
        assert(is_output_of_a_block(g, t, key));
        a_block_is_fetched_by_its_outputs(g, t, key);
        let b = fetched(g, t, key, true)->Ok_0;
        cut_counts(b.inputs.len(), prune.fanout_in);
        cut_counts(b.outputs.len(), prune.fanout_out);
        find_is_in(start.blocks, b.first_out);
        if let Ok(st) = all_seated(g, t, prune, mode, true, start, roots, 0) {
            expanding_comes_through(g, t, prune, st, 0);
        }
    }
}

} // verus!
