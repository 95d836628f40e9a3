//! How far a walk over blocks goes, and what it says of where it stops.

use vstd::prelude::*;

use crate::blocks::{a_fetched_block_holds_its_key, fetched, seeded, BlockView, Seed};
use crate::budget_laws::linked_blocks_are_blocks;
use crate::graph::{successor_list, well_formed, Lists};
use crate::kept::{shown_is_exact, Cut};
use crate::report::BlockPrune;
use crate::settle::{
    climb, climb_agrees, feeds, outputs_unhidden, rooted, unhidden, wanted_in, wanted_out,
};
use crate::settle_laws::{fits_after, revealing_is_exact};
use crate::walk::{
    adopted, all_expanded, all_seated, deepest, expanded, expands, find, find_is_in, found,
    joined, not_started, only_beyond, past_all_hidden, past_all_kept, past_hidden, past_kept,
    seat, seated, shows_output, is_shown_output, walked, Walking,
};
use crate::walk_laws::{
    a_parent_comes_first, a_step_below, a_walk_is_linked_and_within_its_budgets, adopted_keeps,
    climbing, complete, cut_by, expanding_steps, fed, fetched_is_complete, joined_keeps,
    kept_keeps, linked, outputs_are_of_one_block, running, seated_keeps, shown_total, stepped,
    transposed, walking, within_depth,
};

verus! {

/// At most so many.
pub open spec fn at_most(n: nat, fanout: Option<usize>) -> nat {
    match fanout {
        Some(k) if n > k => k as nat,
        _ => n,
    }
}

/// Whether a fanout shows entry `j` of `n`: all of them, or half of what it allows at
/// either end, the odd one at the head.
pub open spec fn is_shown_by(fanout: Option<usize>, n: int, j: int) -> bool {
    match fanout {
        None => true,
        Some(k) => n <= k || j < (k + 1) / 2 || j >= n - k / 2,
    }
}

/// Whether a block of this level may have others under it.
pub open spec fn may_go_on(prune: BlockPrune, level: nat) -> bool {
    prune.depth matches Some(d) ==> level < d
}

/// What blocks cost in nodes, shown as the fanouts have it.
pub open spec fn planned(prune: BlockPrune, blocks: Seq<BlockView>) -> nat
    decreases blocks.len(),
{
    if blocks.len() == 0 {
        0
    } else {
        planned(prune, blocks.drop_last()) + at_most(blocks.last().inputs.len(), prune.fanout_in)
            + at_most(blocks.last().outputs.len(), prune.fanout_out)
    }
}

/// Whether one block more, of so many inputs and outputs, would be over a budget.
pub open spec fn is_over(
    prune: BlockPrune,
    blocks: nat,
    used: nat,
    n_in: nat,
    n_out: nat,
) -> bool {
    ||| blocks >= prune.max_blocks
    ||| blocks >= u32::MAX
    ||| used + at_most(n_in, prune.fanout_in) + at_most(n_out, prune.fanout_out) > prune.max_nodes
}

/// The block at `key` was refused: whoever led to it, it would have been over a budget.
pub open spec fn is_refused(
    g: Lists,
    t: Lists,
    prune: BlockPrune,
    blocks: nat,
    used: nat,
    key: usize,
) -> bool {
    exists|o: int|
        0 <= o < g.len() && g[o].len() > 0 && (#[trigger] g[o])[0] == key && is_over(
            prune,
            blocks,
            used,
            t[key as int].len(),
            g[o].len(),
        )
}

/// The block at `key` is drawn.
pub open spec fn has_block(blocks: Seq<BlockView>, key: usize) -> bool {
    exists|i: int| 0 <= i < blocks.len() && (#[trigger] blocks[i]).first_out == key
}

/// Output `j` of block `i` leads to the block at `key`.
pub open spec fn leads(g: Lists, blocks: Seq<BlockView>, key: usize, i: int, j: int) -> bool {
    &&& 0 <= i < blocks.len()
    &&& 0 <= j < blocks[i].outputs.len()
    &&& g[blocks[i].outputs[j] as int].len() > 0
    &&& g[blocks[i].outputs[j] as int][0] == key
}

/// Some output leads to the block at `key`.
pub open spec fn is_led_to(g: Lists, blocks: Seq<BlockView>, key: usize) -> bool {
    exists|i: int, j: int| #[trigger] leads(g, blocks, key, i, j)
}

/// Some output leads to the block at `key` that the fanout shows, of a block that may
/// have others under it.
pub open spec fn is_wanted(
    g: Lists,
    prune: BlockPrune,
    blocks: Seq<BlockView>,
    key: usize,
) -> bool {
    exists|i: int, j: int| #[trigger]
        leads(g, blocks, key, i, j) && is_shown_by(
            prune.fanout_out,
            blocks[i].outputs.len() as int,
            j,
        ) && may_go_on(prune, blocks[i].level)
}

/// Node `o` is output `j` of block `i`, and leads on.
pub open spec fn leads_on(g: Lists, blocks: Seq<BlockView>, o: usize, i: int, j: int) -> bool {
    &&& 0 <= i < blocks.len()
    &&& 0 <= j < blocks[i].outputs.len()
    &&& blocks[i].outputs[j] == o
    &&& g[o as int].len() > 0
}

pub(crate) proof fn cut_counts(n: nat, fanout: Option<usize>)
    ensures
        Cut::of(n, fanout).count(n) == at_most(n, fanout),
        forall|j: int|
            0 <= j < n ==> (#[trigger] Cut::of(n, fanout).keeps(n, j) <==> is_shown_by(
                fanout,
                n as int,
                j,
            )),
{
}

proof fn used_is_planned(prune: BlockPrune, blocks: Seq<BlockView>)
    requires
        forall|i: int| 0 <= i < blocks.len() ==> cut_by(prune, #[trigger] blocks[i]),
    ensures
        shown_total(blocks) == planned(prune, blocks),
    decreases blocks.len(),
{
    if blocks.len() > 0 {
        let f = blocks.drop_last();
        assert forall|i: int| 0 <= i < f.len() implies cut_by(prune, #[trigger] f[i]) by {
            assert(cut_by(prune, blocks[i]));
        }
        used_is_planned(prune, f);
        let b = blocks[blocks.len() - 1];
        assert(cut_by(prune, b));
        cut_counts(b.inputs.len(), prune.fanout_in);
        cut_counts(b.outputs.len(), prune.fanout_out);
    }
}

/// The walk only ever adds: blocks stay where they are, but for what they hang under.
spec fn grows(a: Walking, b: Walking) -> bool {
    &&& a.blocks.len() <= b.blocks.len()
    &&& forall|i: int|
        0 <= i < a.blocks.len() ==> (#[trigger] b.blocks[i]).first_out == a.blocks[i].first_out
            && b.blocks[i].inputs == a.blocks[i].inputs && b.blocks[i].outputs
            == a.blocks[i].outputs && b.blocks[i].level == a.blocks[i].level && (
        a.blocks[i].parent is Some ==> b.blocks[i].parent is Some)
    &&& forall|i: int|
        a.blocks.len() <= i < b.blocks.len() ==> (#[trigger] b.blocks[i]).parent is Some
    &&& a.used <= b.used
    &&& forall|k: usize| #[trigger] a.refused.contains(k) ==> b.refused.contains(k)
    &&& forall|k: usize| #[trigger] a.beyond.contains(k) ==> b.beyond.contains(k)
    &&& forall|o: usize| #[trigger] a.led.contains(o) ==> b.led.contains(o)
}

proof fn grows_on(a: Walking, b: Walking, c: Walking)
    requires
        grows(a, b),
        grows(b, c),
    ensures
        grows(a, c),
{
    assert forall|i: int| 0 <= i < a.blocks.len() implies (#[trigger] c.blocks[i]).first_out
        == a.blocks[i].first_out && c.blocks[i].inputs == a.blocks[i].inputs && c.blocks[i].outputs
        == a.blocks[i].outputs && c.blocks[i].level == a.blocks[i].level && (
    a.blocks[i].parent is Some ==> c.blocks[i].parent is Some) by {
        assert(b.blocks[i].first_out == a.blocks[i].first_out);
    }
    assert forall|i: int| a.blocks.len() <= i < c.blocks.len() implies (
    #[trigger] c.blocks[i]).parent is Some by {
        if i < b.blocks.len() {
            assert(b.blocks[i].parent is Some);
        }
    }
    assert forall|k: usize| #[trigger] a.refused.contains(k) implies c.refused.contains(k) by {
        assert(b.refused.contains(k));
    }
    assert forall|k: usize| #[trigger] a.beyond.contains(k) implies c.beyond.contains(k) by {
        assert(b.beyond.contains(k));
    }
    assert forall|o: usize| #[trigger] a.led.contains(o) implies c.led.contains(o) by {
        assert(b.led.contains(o));
    }
}

/// What output `j` of block `i` came to.
#[verifier::opaque]
spec fn is_done(g: Lists, prune: BlockPrune, st: Walking, i: int, j: int) -> bool {
    let b = st.blocks[i];
    let o = b.outputs[j];
    let key = g[o as int][0];
    let taken = is_shown_by(prune.fanout_out, b.outputs.len() as int, j);
    g[o as int].len() > 0 ==> {
        &&& is_hung(st.blocks, key) || (!has_block(st.blocks, key) && (st.refused.contains(key)
            || st.beyond.contains(key)))
        &&& taken && may_go_on(prune, b.level) ==> (is_no_deeper(st.blocks, key, b.level + 1)
            || st.refused.contains(key))
        &&& !taken ==> st.led.contains(o)
    }
}

/// The block at `key` is drawn, under another.
pub open spec fn is_hung(blocks: Seq<BlockView>, key: usize) -> bool {
    exists|i: int|
        0 <= i < blocks.len() && (#[trigger] blocks[i]).first_out == key && blocks[i].parent is Some
}

/// The block at `key` is drawn, no deeper than this.
pub open spec fn is_no_deeper(blocks: Seq<BlockView>, key: usize, level: nat) -> bool {
    exists|i: int|
        0 <= i < blocks.len() && (#[trigger] blocks[i]).first_out == key && blocks[i].level <= level
}

proof fn done_stays(g: Lists, prune: BlockPrune, a: Walking, b: Walking, i: int, j: int)
    requires
        grows(a, b),
        0 <= i < a.blocks.len(),
        is_done(g, prune, a, i, j),
    ensures
        is_done(g, prune, b, i, j),
{
    reveal(is_done);
    assert(b.blocks[i].outputs == a.blocks[i].outputs && b.blocks[i].level == a.blocks[i].level);
    let o = a.blocks[i].outputs[j];
    let key = g[o as int][0];
    if is_hung(a.blocks, key) {
        let x = choose|x: int|
            0 <= x < a.blocks.len() && (#[trigger] a.blocks[x]).first_out == key
                && a.blocks[x].parent is Some;
        assert(b.blocks[x].first_out == key && b.blocks[x].parent is Some);
    } else if g[o as int].len() > 0 && has_block(b.blocks, key) {
        let x = choose|x: int| 0 <= x < b.blocks.len() && (#[trigger] b.blocks[x]).first_out == key;
        if x < a.blocks.len() {
            assert(a.blocks[x].first_out == key);
        }
        assert(b.blocks[x].parent is Some);
    }
    let deep = a.blocks[i].level + 1;
    if is_no_deeper(a.blocks, key, deep) {
        let x = choose|x: int|
            0 <= x < a.blocks.len() && (#[trigger] a.blocks[x]).first_out == key
                && a.blocks[x].level <= deep;
        assert(b.blocks[x].first_out == key);
    }
}

/// A block is no more than a level below the one it hangs under, and at the top if it
/// hangs under none.
spec fn hangs(blocks: Seq<BlockView>) -> bool {
    forall|i: int| 0 <= i < blocks.len() ==> #[trigger] hangs_at(blocks, i)
}

spec fn hangs_at(blocks: Seq<BlockView>, i: int) -> bool {
    match blocks[i].parent {
        None => blocks[i].level == 0,
        Some((p, _)) => p < blocks.len() && blocks[i].level <= blocks[p as int].level + 1,
    }
}

/// Blocks come level by level, and none is more than a level below block `head`.
#[verifier::opaque]
spec fn in_levels(blocks: Seq<BlockView>, head: int) -> bool {
    &&& hangs(blocks)
    &&& forall|i: int, j: int|
        0 <= i <= j < blocks.len() ==> (#[trigger] blocks[i]).level <= (#[trigger] blocks[j]).level
    &&& head < blocks.len() ==> forall|i: int|
        0 <= i < blocks.len() ==> (#[trigger] blocks[i]).level <= blocks[head].level + 1
}

/// A walk under way, and what it has to show for the blocks before `head`.
#[verifier::opaque]
spec fn steady(
    g: Lists,
    t: Lists,
    prune: BlockPrune,
    st: Walking,
    head: int,
) -> bool {
    &&& in_levels(st.blocks, head)
    &&& forall|k: usize| #[trigger]
        st.refused.contains(k) ==> !has_block(st.blocks, k) && is_wanted(g, prune, st.blocks, k)
            && is_refused(g, t, prune, st.blocks.len(), st.used, k)
    &&& forall|k: usize| #[trigger] st.beyond.contains(k) ==> is_led_to(g, st.blocks, k)
    &&& forall|o: usize| #[trigger]
        st.led.contains(o) ==> exists|i: int, j: int| #[trigger]
            leads_on(g, st.blocks, o, i, j) && !is_shown_by(
                prune.fanout_out,
                st.blocks[i].outputs.len() as int,
                j,
            )
    &&& st.refused.finite()
    &&& st.beyond.finite()
    &&& st.led.finite()
    &&& forall|i: int, j: int|
        0 <= i < head && 0 <= j < st.blocks[i].outputs.len() ==> #[trigger] is_done(
            g,
            prune,
            st,
            i,
            j,
        )
}

/// The same, and of block `head` the outputs that `some` says had their turn too.
spec fn going(
    g: Lists,
    t: Lists,
    prune: BlockPrune,
    st: Walking,
    head: int,
    some: spec_fn(int) -> bool,
) -> bool {
    &&& running(g, t, prune, st)
    &&& 0 <= head <= st.blocks.len()
    &&& steady(g, t, prune, st, head)
    &&& head < st.blocks.len() ==> forall|j: int|
        0 <= j < st.blocks[head].outputs.len() && #[trigger] some(j) ==> is_done(
            g,
            prune,
            st,
            head,
            j,
        )
}

proof fn steady_hangs(g: Lists, t: Lists, prune: BlockPrune, st: Walking, head: int)
    requires
        steady(g, t, prune, st, head),
    ensures
        hangs(st.blocks),
        st.refused.finite(),
        st.beyond.finite(),
        st.led.finite(),
{
    reveal(steady);
    reveal(in_levels);
}

proof fn going_so(
    g: Lists,
    t: Lists,
    prune: BlockPrune,
    st: Walking,
    head: int,
    some: spec_fn(int) -> bool,
    more: spec_fn(int) -> bool,
)
    requires
        going(g, t, prune, st, head, some),
        head < st.blocks.len(),
        forall|j: int|
            0 <= j < st.blocks[head].outputs.len() && #[trigger] more(j) ==> some(j),
    ensures
        going(g, t, prune, st, head, more),
{
}

proof fn led_stays(g: Lists, prune: BlockPrune, a: Walking, b: Walking)
    requires
        grows(a, b),
    ensures
        forall|k: usize| is_led_to(g, a.blocks, k) ==> #[trigger] is_led_to(g, b.blocks, k),
        forall|k: usize|
            is_wanted(g, prune, a.blocks, k) ==> #[trigger] is_wanted(g, prune, b.blocks, k),
        forall|o: usize, i: int, j: int| #[trigger]
            leads_on(g, a.blocks, o, i, j) ==> leads_on(g, b.blocks, o, i, j),
{
    assert forall|k: usize| is_led_to(g, a.blocks, k) implies #[trigger] is_led_to(
        g,
        b.blocks,
        k,
    ) by {
        let (i, j) = choose|i: int, j: int| #[trigger] leads(g, a.blocks, k, i, j);
        assert(b.blocks[i].outputs == a.blocks[i].outputs);
        assert(leads(g, b.blocks, k, i, j));
    }
    assert forall|k: usize| is_wanted(g, prune, a.blocks, k) implies #[trigger] is_wanted(
        g,
        prune,
        b.blocks,
        k,
    ) by {
        let (i, j) = choose|i: int, j: int| #[trigger]
            leads(g, a.blocks, k, i, j) && is_shown_by(
                prune.fanout_out,
                a.blocks[i].outputs.len() as int,
                j,
            ) && may_go_on(prune, a.blocks[i].level);
        assert(b.blocks[i].outputs == a.blocks[i].outputs);
        assert(leads(g, b.blocks, k, i, j));
    }
    assert forall|o: usize, i: int, j: int| #[trigger]
        leads_on(g, a.blocks, o, i, j) implies leads_on(g, b.blocks, o, i, j) by {
        assert(b.blocks[i].outputs == a.blocks[i].outputs);
    }
}

proof fn has_is_find(blocks: Seq<BlockView>, key: usize)
    ensures
        has_block(blocks, key) <==> find(blocks, key) is Some,
{
    find_is_in(blocks, key);
}

proof fn refused_stays(
    g: Lists,
    t: Lists,
    prune: BlockPrune,
    a: Walking,
    b: Walking,
    key: usize,
)
    requires
        grows(a, b),
        is_refused(g, t, prune, a.blocks.len(), a.used, key),
    ensures
        is_refused(g, t, prune, b.blocks.len(), b.used, key),
{
    let o = choose|o: int|
        0 <= o < g.len() && g[o].len() > 0 && (#[trigger] g[o])[0] == key && is_over(
            prune,
            a.blocks.len(),
            a.used,
            t[key as int].len(),
            g[o].len(),
        );
    assert(g[o][0] == key);
}

/// The same walk but for what it hangs where, and with more said of where it stops.
#[verifier::rlimit(40)]
proof fn going_on(
    g: Lists,
    t: Lists,
    prune: BlockPrune,
    a: Walking,
    b: Walking,
    head: int,
    some: spec_fn(int) -> bool,
    more: spec_fn(int) -> bool,
    j: int,
)
    requires
        going(g, t, prune, a, head, some),
        grows(a, b),
        running(g, t, prune, b),
        head < a.blocks.len(),
        a.blocks.len() == b.blocks.len(),
        hangs(b.blocks),
        forall|k: usize| #[trigger]
            b.refused.contains(k) && !a.refused.contains(k) ==> !has_block(b.blocks, k)
                && is_wanted(g, prune, b.blocks, k) && is_refused(
                g,
                t,
                prune,
                b.blocks.len(),
                b.used,
                k,
            ),
        forall|k: usize| #[trigger]
            b.beyond.contains(k) && !a.beyond.contains(k) ==> is_led_to(g, b.blocks, k),
        forall|o: usize| #[trigger]
            b.led.contains(o) && !a.led.contains(o) ==> exists|i: int, j: int| #[trigger]
                leads_on(g, b.blocks, o, i, j) && !is_shown_by(
                    prune.fanout_out,
                    b.blocks[i].outputs.len() as int,
                    j,
                ),
        b.refused.finite(),
        b.beyond.finite(),
        b.led.finite(),
        forall|x: int| #[trigger] more(x) ==> some(x) || x == j,
        0 <= j < a.blocks[head].outputs.len() ==> is_done(g, prune, b, head, j),
    ensures
        going(g, t, prune, b, head, more),
{
    reveal(steady);
    led_stays(g, prune, a, b);
    assert(in_levels(b.blocks, head)) by {
        reveal(in_levels);
        assert forall|i: int, x: int| 0 <= i <= x < b.blocks.len() implies (
        #[trigger] b.blocks[i]).level <= (#[trigger] b.blocks[x]).level by {
            assert(a.blocks[i].level <= a.blocks[x].level);
        }
        assert forall|i: int| 0 <= i < b.blocks.len() implies (#[trigger] b.blocks[i]).level
            <= b.blocks[head].level + 1 by {
            assert(a.blocks[i].level <= a.blocks[head].level + 1);
            assert(b.blocks[head].level == a.blocks[head].level);
        }
    }
    assert forall|k: usize| #[trigger] b.refused.contains(k) implies !has_block(b.blocks, k)
        && is_wanted(g, prune, b.blocks, k) && is_refused(
        g,
        t,
        prune,
        b.blocks.len(),
        b.used,
        k,
    ) by {
        if a.refused.contains(k) {
            refused_stays(g, t, prune, a, b, k);
            if has_block(b.blocks, k) {
                let x = choose|x: int|
                    0 <= x < b.blocks.len() && (#[trigger] b.blocks[x]).first_out == k;
                assert(a.blocks[x].first_out == k);
            }
        }
    }
    assert forall|o: usize| #[trigger] b.led.contains(o) implies exists|i: int, j: int| #[trigger]
        leads_on(g, b.blocks, o, i, j) && !is_shown_by(
            prune.fanout_out,
            b.blocks[i].outputs.len() as int,
            j,
        ) by {
        if a.led.contains(o) {
            let (i, y) = choose|i: int, j: int| #[trigger]
                leads_on(g, a.blocks, o, i, j) && !is_shown_by(
                    prune.fanout_out,
                    a.blocks[i].outputs.len() as int,
                    j,
                );
            assert(leads_on(g, b.blocks, o, i, y));
            assert(b.blocks[i].outputs == a.blocks[i].outputs);
        }
    }
    assert forall|i: int, x: int| 0 <= i < head && 0 <= x < b.blocks[i].outputs.len() implies
        #[trigger] is_done(g, prune, b, i, x) by {
        assert(b.blocks[i].outputs == a.blocks[i].outputs);
        assert(is_done(g, prune, a, i, x));
        done_stays(g, prune, a, b, i, x);
    }
    assert forall|x: int|
        0 <= x < b.blocks[head].outputs.len() && #[trigger] more(x) implies is_done(
        g,
        prune,
        b,
        head,
        x,
    ) by {
        assert(b.blocks[head].outputs == a.blocks[head].outputs);
        if x != j {
            assert(some(x));
            assert(is_done(g, prune, a, head, x));
            done_stays(g, prune, a, b, head, x);
        }
    }
}

/// An output leads to another block than its own.
proof fn leads_elsewhere(
    g: Lists,
    t: Lists,
    prune: BlockPrune,
    st: Walking,
    head: int,
    ci: int,
    o: usize,
)
    requires
        running(g, t, prune, st),
        0 <= head < st.blocks.len(),
        0 <= ci < st.blocks.len(),
        st.blocks[head].outputs.contains(o),
        g[o as int].len() > 0,
        g[o as int][0] == st.blocks[ci].first_out,
        transposed(g, t),
    ensures
        ci != head,
{
    let c = st.blocks[head];
    assert(complete(g, t, c));
    let y = c.outputs.index_of(o);
    assert(c.outputs[y] == c.first_out + y);
    assert(g[o as int].contains(g[o as int][0]));
    if ci == head {
        assert(c.outputs[0] == c.first_out);
        assert(t[c.outputs[0] as int] == c.inputs);
        let x = c.inputs.index_of(o);
        assert(c.inputs[x] < c.first_out);
    }
}

#[verifier::rlimit(40)]
proof fn adopting_grows(
    g: Lists,
    t: Lists,
    prune: BlockPrune,
    st: Walking,
    head: int,
    key: usize,
    o: usize,
)
    requires
        running(g, t, prune, st),
        steady(g, t, prune, st, head),
        0 <= head < st.blocks.len(),
        find(st.blocks, key) is Some,
        st.blocks[head].outputs.contains(o),
        g[o as int].len() > 0,
        g[o as int][0] == key,
        transposed(g, t),
    ensures
        ({
            let b = adopted(st, head, key, o);
            &&& grows(st, b)
            &&& b.blocks.len() == st.blocks.len()
            &&& b.refused == st.refused
            &&& b.beyond == st.beyond
            &&& b.led == st.led
            &&& hangs(b.blocks)
            &&& is_hung(b.blocks, key)
            &&& is_no_deeper(b.blocks, key, st.blocks[head].level + 1)
        }),
{
    steady_hangs(g, t, prune, st, head);
    find_is_in(st.blocks, key);
    let ci = find(st.blocks, key)->0;
    let b = adopted(st, head, key, o);
    assert(st.blocks[ci].level <= st.blocks[head].level + 1) by {
        reveal(steady);
        reveal(in_levels);
    }
    leads_elsewhere(g, t, prune, st, head, ci, o);
    assert(st.blocks.len() <= u32::MAX);
    assert(b.blocks[ci].first_out == key);
    assert(b.blocks[ci].parent is Some);
    assert(b.blocks[ci].level == st.blocks[ci].level);
    assert forall|i: int| 0 <= i < b.blocks.len() implies #[trigger] hangs_at(b.blocks, i) by {
        assert(hangs_at(st.blocks, i));
        assert(b.blocks[i].level == st.blocks[i].level);
        if let Some((p, _)) = b.blocks[i].parent {
            if i != ci || st.blocks[ci].parent is Some {
                assert(st.blocks[i].parent == b.blocks[i].parent);
                assert(b.blocks[p as int].level == st.blocks[p as int].level);
            }
        } else {
            assert(st.blocks[i].parent is None);
        }
    }
}

/// A hidden output asked where it leads.
#[verifier::rlimit(40)]
proof fn asking_one(
    g: Lists,
    t: Lists,
    prune: BlockPrune,
    st: Walking,
    b: BlockView,
    head: int,
    k: int,
    some: spec_fn(int) -> bool,
    more: spec_fn(int) -> bool,
)
    requires
        going(g, t, prune, st, head, some),
        walking(g, t, prune, st, b, head),
        st.blocks[head].level == b.level,
        transposed(g, t),
        0 <= k < b.outputs.len(),
        !is_shown_by(prune.fanout_out, b.outputs.len() as int, k),
        forall|x: int| #[trigger] more(x) ==> some(x) || x == k,
    ensures
        ({
            let next = past_hidden(g, st, head, b.outputs[k]);
            &&& going(g, t, prune, next, head, more)
            &&& walking(g, t, prune, next, b, head)
            &&& grows(st, next)
        }),
{
    let o = b.outputs[k];
    let next = past_hidden(g, st, head, o);
    reveal(is_done);
    assert(st.blocks[head].outputs[k] == o);
    steady_hangs(g, t, prune, st, head);
    if g[o as int].len() == 0 {
        going_on(g, t, prune, st, st, head, some, more, k);
    } else {
        let key = g[o as int][0];
        assert(leads(g, st.blocks, key, head, k));
        assert(leads_on(g, st.blocks, o, head, k));
        let marked = Walking { led: st.led.insert(o), ..st };
        let none = |x: int| false;
        assert(going(g, t, prune, marked, head, some)) by {
            assert forall|q: usize| #[trigger]
                marked.led.contains(q) && !st.led.contains(q) implies exists|i: int, j: int|
                #[trigger]
                leads_on(g, marked.blocks, q, i, j) && !is_shown_by(
                    prune.fanout_out,
                    marked.blocks[i].outputs.len() as int,
                    j,
                ) by {
                assert(leads_on(g, marked.blocks, o, head, k));
            }
            going_on(g, t, prune, st, marked, head, some, some, -1);
        }
        has_is_find(st.blocks, key);
        if find(st.blocks, key) is Some {
            assert(st.blocks[head].outputs.contains(o));
            adopted_keeps(g, t, prune, marked, head, key, o);
            adopting_grows(g, t, prune, marked, head, key, o);
            assert(grows(st, marked));
            grows_on(st, marked, next);
            assert(next.led.contains(o));
            assert(is_done(g, prune, next, head, k)) by {
                assert(next.blocks[head].outputs == st.blocks[head].outputs);
                assert(next.blocks[head].level == st.blocks[head].level);
            }
            going_on(g, t, prune, marked, next, head, some, more, k);
        } else {
            assert(grows(st, next));
            assert(is_led_to(g, next.blocks, key));
            assert(is_done(g, prune, next, head, k));
            going_on(g, t, prune, marked, next, head, some, more, k);
        }
    }
}

/// The hidden outputs of a block, from the `k`th on, asked where they lead.
proof fn asking(
    g: Lists,
    t: Lists,
    prune: BlockPrune,
    st: Walking,
    b: BlockView,
    head: int,
    k: int,
)
    requires
        going(
            g,
            t,
            prune,
            st,
            head,
            |x: int| x < k && !is_shown_by(prune.fanout_out, b.outputs.len() as int, x),
        ),
        walking(g, t, prune, st, b, head),
        cut_by(prune, b),
        st.blocks[head].level == b.level,
        transposed(g, t),
        0 <= k <= b.outputs.len(),
    ensures
        ({
            let end = past_all_hidden(g, st, b, head, k);
            &&& going(
                g,
                t,
                prune,
                end,
                head,
                |x: int| !is_shown_by(prune.fanout_out, b.outputs.len() as int, x),
            )
            &&& walking(g, t, prune, end, b, head)
            &&& grows(st, end)
        }),
    decreases b.outputs.len() - k,
{
    let n = b.outputs.len();
    let some = |x: int| x < k && !is_shown_by(prune.fanout_out, n as int, x);
    let more = |x: int| x < k + 1 && !is_shown_by(prune.fanout_out, n as int, x);
    let all = |x: int| !is_shown_by(prune.fanout_out, n as int, x);
    cut_counts(n, prune.fanout_out);
    if k < n {
        if b.kept_out.keeps(n, k) {
            going_so(g, t, prune, st, head, some, more);
            asking(g, t, prune, st, b, head, k + 1);
        } else {
            let next = past_hidden(g, st, head, b.outputs[k]);
            asking_one(g, t, prune, st, b, head, k, some, more);
            assert(next.blocks[head].level == b.level);
            asking(g, t, prune, next, b, head, k + 1);
            grows_on(st, next, past_all_hidden(g, next, b, head, k + 1));
        }
    } else {
        going_so(g, t, prune, st, head, some, all);
    }
}

/// A kept output followed.
#[verifier::rlimit(40)]
proof fn following(
    g: Lists,
    t: Lists,
    prune: BlockPrune,
    st: Walking,
    b: BlockView,
    head: int,
    j: int,
    some: spec_fn(int) -> bool,
    more: spec_fn(int) -> bool,
)
    requires
        going(g, t, prune, st, head, some),
        walking(g, t, prune, st, b, head),
        st.blocks[head].level == b.level,
        st.blocks[head].inputs == b.inputs,
        well_formed(g),
        well_formed(t),
        g.len() == t.len() <= usize::MAX,
        transposed(g, t),
        0 <= j < b.outputs.len(),
        is_shown_by(prune.fanout_out, b.outputs.len() as int, j),
        forall|x: int| #[trigger] more(x) ==> some(x) || x == j,
    ensures
        past_kept(g, t, prune, true, st, b, head, b.outputs[j]) matches Ok(next) ==> going(
            g,
            t,
            prune,
            next,
            head,
            more,
        ) && walking(g, t, prune, next, b, head) && grows(st, next),
{
    let o = b.outputs[j];
    assert(b.outputs.contains(o));
    assert(st.blocks[head].outputs[j] == o);
    steady_hangs(g, t, prune, st, head);
    reveal(is_done);
    kept_keeps(g, t, prune, st, b, head, o);
    assert(o < g.len());
    if g[o as int].len() == 0 {
        going_on(g, t, prune, st, st, head, some, more, j);
    } else {
        let key = g[o as int][0];
        assert(successor_list(g[o as int], g.len()));
        assert(key < g.len());
        assert(leads(g, st.blocks, key, head, j));
        has_is_find(st.blocks, key);
        if find(st.blocks, key) is Some {
            adopted_keeps(g, t, prune, st, head, key, o);
            adopting_grows(g, t, prune, st, head, key, o);
            let next = adopted(st, head, key, o);
            assert(next.blocks[head].outputs == st.blocks[head].outputs);
            assert(next.blocks[head].level == st.blocks[head].level);
            assert(is_done(g, prune, next, head, j));
            going_on(g, t, prune, st, next, head, some, more, j);
        } else if !expands(prune, b.level) {
            assert(!may_go_on(prune, b.level));
            let next = Walking { beyond: st.beyond.insert(key), ..st };
            assert(is_led_to(g, next.blocks, key));
            assert(is_done(g, prune, next, head, j));
            going_on(g, t, prune, st, next, head, some, more, j);
        } else if st.refused.contains(key) {
            assert(is_done(g, prune, st, head, j));
            going_on(g, t, prune, st, st, head, some, more, j);
        } else {
            cut_counts(t[key as int].len(), prune.fanout_in);
            cut_counts(g[o as int].len(), prune.fanout_out);
            match seat(prune, st, t[key as int].len(), g[o as int].len()) {
                None => {
                    let next = Walking { refused: st.refused.insert(key), ..st };
                    assert(is_wanted(g, prune, next.blocks, key));
                    assert(g[o as int][0] == key);
                    assert(is_over(
                        prune,
                        st.blocks.len(),
                        st.used,
                        t[key as int].len(),
                        g[o as int].len(),
                    ));
                    assert(is_refused(g, t, prune, next.blocks.len(), next.used, key));
                    assert(is_done(g, prune, next, head, j));
                    going_on(g, t, prune, st, next, head, some, more, j);
                },
                Some(cost) => {
                    if let Ok(c) = fetched(g, t, key, true) {
                        adding(g, t, prune, st, b, head, j, c, cost, some, more);
                    }
                },
            }
        }
    }
}

#[verifier::rlimit(40)]
proof fn joining_grows(
    g: Lists,
    t: Lists,
    prune: BlockPrune,
    st: Walking,
    b: BlockView,
    head: int,
    j: int,
    c: BlockView,
    cost: nat,
)
    requires
        walking(g, t, prune, st, b, head),
        st.blocks[head].level == b.level,
        st.blocks[head].inputs == b.inputs,
        well_formed(g),
        well_formed(t),
        g.len() == t.len() <= usize::MAX,
        transposed(g, t),
        0 <= j < b.outputs.len(),
        g[b.outputs[j] as int].len() > 0,
        ({
            let key = g[b.outputs[j] as int][0];
            &&& find(st.blocks, key) is None
            &&& fetched(g, t, key, true) == Ok::<BlockView, Seq<char>>(c)
            &&& seat(prune, st, t[key as int].len(), g[b.outputs[j] as int].len()) == Some(cost)
        }),
    ensures
        ({
            let key = g[b.outputs[j] as int][0];
            let next = joined(prune, st, c, cost, b.level + 1, Some((head as u32, b.outputs[j])));
            &&& walking(g, t, prune, next, b, head)
            &&& grows(st, next)
            &&& next.blocks[st.blocks.len() as int].first_out == key
            &&& next.blocks[head] == st.blocks[head]
            &&& !has_block(st.blocks, key)
            &&& head < u32::MAX
        }),
{
    let o = b.outputs[j];
    let key = g[o as int][0];
    let parent = Some((head as u32, o));
    let next = joined(prune, st, c, cost, b.level + 1, parent);
    let n = st.blocks.len() as int;
    assert(b.outputs.contains(o));
    assert(o < g.len());
    assert(successor_list(g[o as int], g.len()));
    assert(key < g.len());
    has_is_find(st.blocks, key);
    fetched_is_complete(g, t, key);
    assert(g[o as int].contains(key));
    assert(t[key as int].contains(o));
    let i = c.inputs.index_of(o);
    assert(g[c.inputs[i] as int] == c.outputs);
    assert(c.outputs[0] == c.first_out);
    assert(c.first_out == key);
    joined_keeps(g, t, prune, st, c, cost, b.level + 1, parent);
    assert(next.blocks[n].first_out == key);
    assert(next.blocks[head] == st.blocks[head]);
    assert(grows(st, next)) by {
        assert forall|i: int| 0 <= i < st.blocks.len() implies (#[trigger] next.blocks[i]).first_out
            == st.blocks[i].first_out && next.blocks[i].inputs == st.blocks[i].inputs
            && next.blocks[i].outputs == st.blocks[i].outputs && next.blocks[i].level
            == st.blocks[i].level by {
            assert(next.blocks[i] == st.blocks[i]);
        }
    }
    assert(head < u32::MAX);
}

/// A block more, a level below block `head`, last.
spec fn with_one(st: Walking, next: Walking, head: int) -> bool {
    let n = st.blocks.len() as int;
    &&& 0 <= head < n
    &&& next.blocks.len() == n + 1
    &&& forall|i: int| 0 <= i < n ==> #[trigger] next.blocks[i] == st.blocks[i]
    &&& next.blocks[n].level == st.blocks[head].level + 1
    &&& (next.blocks[n].parent matches Some((p, _)) && p == head)
    &&& next.refused == st.refused
    &&& next.beyond == st.beyond
    &&& next.led == st.led
    &&& st.used <= next.used
    &&& !st.refused.contains(next.blocks[n].first_out)
}

#[verifier::rlimit(40)]
proof fn adding_levels(st: Walking, next: Walking, head: int)
    requires
        with_one(st, next, head),
        in_levels(st.blocks, head),
    ensures
        in_levels(next.blocks, head),
{
    reveal(in_levels);
    let n = st.blocks.len() as int;
    assert(next.blocks[head] == st.blocks[head]);
    assert forall|i: int| 0 <= i < next.blocks.len() implies #[trigger] hangs_at(
        next.blocks,
        i,
    ) by {
        if i < n {
            assert(hangs_at(st.blocks, i));
            assert(next.blocks[i] == st.blocks[i]);
            if let Some((p, _)) = next.blocks[i].parent {
                assert(next.blocks[p as int] == st.blocks[p as int]);
            }
        }
    }
    assert forall|i: int, x: int| 0 <= i <= x < next.blocks.len() implies (
    #[trigger] next.blocks[i]).level <= (#[trigger] next.blocks[x]).level by {
        if x < n {
            assert(st.blocks[i].level <= st.blocks[x].level);
        } else if i < n {
            assert(st.blocks[i].level <= st.blocks[head].level + 1);
        }
    }
    assert forall|i: int| 0 <= i < next.blocks.len() implies (#[trigger] next.blocks[i]).level
        <= next.blocks[head].level + 1 by {
        if i < n {
            assert(st.blocks[i].level <= st.blocks[head].level + 1);
        }
    }
}

#[verifier::rlimit(40)]
proof fn adding_is_steady(
    g: Lists,
    t: Lists,
    prune: BlockPrune,
    st: Walking,
    next: Walking,
    head: int,
)
    requires
        with_one(st, next, head),
        grows(st, next),
        steady(g, t, prune, st, head),
    ensures
        steady(g, t, prune, next, head),
{
    reveal(steady);
    let n = st.blocks.len() as int;
    adding_levels(st, next, head);
    led_stays(g, prune, st, next);
    assert forall|k: usize| #[trigger] next.refused.contains(k) implies !has_block(next.blocks, k)
        && is_wanted(g, prune, next.blocks, k) && is_refused(
        g,
        t,
        prune,
        next.blocks.len(),
        next.used,
        k,
    ) by {
        assert(st.refused.contains(k));
        refused_stays(g, t, prune, st, next, k);
        if has_block(next.blocks, k) {
            let x = choose|x: int|
                0 <= x < next.blocks.len() && (#[trigger] next.blocks[x]).first_out == k;
            if x < n {
                assert(st.blocks[x].first_out == k);
            }
        }
    }
    assert forall|q: usize| #[trigger] next.led.contains(q) implies exists|i: int, j: int|
        #[trigger]
        leads_on(g, next.blocks, q, i, j) && !is_shown_by(
            prune.fanout_out,
            next.blocks[i].outputs.len() as int,
            j,
        ) by {
        assert(st.led.contains(q));
        let (i, y) = choose|i: int, j: int| #[trigger]
            leads_on(g, st.blocks, q, i, j) && !is_shown_by(
                prune.fanout_out,
                st.blocks[i].outputs.len() as int,
                j,
            );
        assert(leads_on(g, next.blocks, q, i, y));
        assert(next.blocks[i] == st.blocks[i]);
    }
    assert forall|i: int, x: int| 0 <= i < head && 0 <= x < next.blocks[i].outputs.len() implies
        #[trigger] is_done(g, prune, next, i, x) by {
        assert(next.blocks[i] == st.blocks[i]);
        assert(is_done(g, prune, st, i, x));
        done_stays(g, prune, st, next, i, x);
    }
}

#[verifier::rlimit(40)]
proof fn adding(
    g: Lists,
    t: Lists,
    prune: BlockPrune,
    st: Walking,
    b: BlockView,
    head: int,
    j: int,
    c: BlockView,
    cost: nat,
    some: spec_fn(int) -> bool,
    more: spec_fn(int) -> bool,
)
    requires
        going(g, t, prune, st, head, some),
        walking(g, t, prune, st, b, head),
        st.blocks[head].level == b.level,
        st.blocks[head].inputs == b.inputs,
        well_formed(g),
        well_formed(t),
        g.len() == t.len() <= usize::MAX,
        transposed(g, t),
        0 <= j < b.outputs.len(),
        is_shown_by(prune.fanout_out, b.outputs.len() as int, j),
        forall|x: int| #[trigger] more(x) ==> some(x) || x == j,
        g[b.outputs[j] as int].len() > 0,
        ({
            let key = g[b.outputs[j] as int][0];
            &&& find(st.blocks, key) is None
            &&& !st.refused.contains(key)
            &&& fetched(g, t, key, true) == Ok::<BlockView, Seq<char>>(c)
            &&& seat(prune, st, t[key as int].len(), g[b.outputs[j] as int].len()) == Some(cost)
        }),
    ensures
        ({
            let next = joined(prune, st, c, cost, b.level + 1, Some((head as u32, b.outputs[j])));
            &&& going(g, t, prune, next, head, more)
            &&& walking(g, t, prune, next, b, head)
            &&& grows(st, next)
        }),
{
    let o = b.outputs[j];
    let key = g[o as int][0];
    let parent = Some((head as u32, o));
    let next = joined(prune, st, c, cost, b.level + 1, parent);
    let n = st.blocks.len() as int;
    joining_grows(g, t, prune, st, b, head, j, c, cost);
    adding_is_steady(g, t, prune, st, next, head);
    assert forall|x: int|
        0 <= x < next.blocks[head].outputs.len() && #[trigger] more(x) implies is_done(
        g,
        prune,
        next,
        head,
        x,
    ) by {
        if x == j {
            assert(is_hung(next.blocks, key));
            assert(is_no_deeper(next.blocks, key, b.level + 1));
            reveal(is_done);
        } else {
            assert(some(x));
            assert(is_done(g, prune, st, head, x));
            done_stays(g, prune, st, next, head, x);
        }
    }
}

/// The kept outputs of a block, from the `k`th of them on, followed.
#[verifier::rlimit(40)]
proof fn following_all(
    g: Lists,
    t: Lists,
    prune: BlockPrune,
    st: Walking,
    b: BlockView,
    head: int,
    k: int,
)
    requires
        ({
            let shown = b.kept_out.shown(b.outputs.len());
            going(
                g,
                t,
                prune,
                st,
                head,
                |x: int|
                    !is_shown_by(prune.fanout_out, b.outputs.len() as int, x) || shown.take(
                        k,
                    ).contains(x as usize),
            )
        }),
        walking(g, t, prune, st, b, head),
        cut_by(prune, b),
        b.outputs.len() <= usize::MAX,
        st.blocks[head].level == b.level,
        st.blocks[head].inputs == b.inputs,
        well_formed(g),
        well_formed(t),
        g.len() == t.len() <= usize::MAX,
        transposed(g, t),
        0 <= k <= b.kept_out.shown(b.outputs.len()).len(),
    ensures
        past_all_kept(g, t, prune, true, st, b, head, k) matches Ok(end) ==> going(
            g,
            t,
            prune,
            end,
            head,
            |x: int| true,
        ) && grows(st, end),
    decreases b.kept_out.shown(b.outputs.len()).len() - k,
{
    let n = b.outputs.len();
    let shown = b.kept_out.shown(n);
    let some = |x: int|
        !is_shown_by(prune.fanout_out, n as int, x) || shown.take(k).contains(x as usize);
    cut_counts(n, prune.fanout_out);
    assert(b.kept_out.fits(n));
    shown_is_exact(b.kept_out, n as usize);
    if k < shown.len() {
        let j = shown[k] as int;
        assert(shown.contains(shown[k]));
        let more = |x: int|
            !is_shown_by(prune.fanout_out, n as int, x) || shown.take(k + 1).contains(x as usize);
        let these = |x: int| some(x) || x == j;
        assert(shown.take(k + 1) =~= shown.take(k).push(shown[k]));
        following(g, t, prune, st, b, head, j, some, these);
        if let Ok(next) = past_kept(g, t, prune, true, st, b, head, b.outputs[j]) {
            assert(next.blocks[head].outputs == st.blocks[head].outputs);
            assert forall|x: int|
                0 <= x < next.blocks[head].outputs.len() && #[trigger] more(x) implies these(
                x,
            ) by {
                if is_shown_by(prune.fanout_out, n as int, x) {
                    let y = shown.take(k + 1).index_of(x as usize);
                    if y < k {
                        assert(shown.take(k)[y] == x as usize);
                        assert(shown.take(k).contains(x as usize));
                    } else {
                        assert(x == j);
                    }
                }
            }
            going_so(g, t, prune, next, head, these, more);
            assert(next.blocks[head].level == b.level && next.blocks[head].inputs == b.inputs);
            following_all(g, t, prune, next, b, head, k + 1);
            if let Ok(end) = past_all_kept(g, t, prune, true, st, b, head, k) {
                grows_on(st, next, end);
            }
        }
    } else {
        let all = |x: int| true;
        assert(shown.take(k) =~= shown);
        assert forall|x: int|
            0 <= x < st.blocks[head].outputs.len() && #[trigger] all(x) implies some(x) by {
            if is_shown_by(prune.fanout_out, n as int, x) {
                assert(b.kept_out.keeps(n, x));
                assert(shown.contains(x as usize));
            }
        }
        going_so(g, t, prune, st, head, some, all);
    }
}

proof fn going_further(g: Lists, t: Lists, prune: BlockPrune, st: Walking, head: int)
    requires
        going(g, t, prune, st, head, |x: int| true),
        head < st.blocks.len(),
    ensures
        going(g, t, prune, st, head + 1, |x: int| false),
{
    reveal(steady);
    let all = |x: int| true;
    assert forall|i: int, j: int|
        0 <= i < head + 1 && 0 <= j < st.blocks[i].outputs.len() implies #[trigger] is_done(
        g,
        prune,
        st,
        i,
        j,
    ) by {
        if i == head {
            assert(all(j));
        }
    }
    assert(in_levels(st.blocks, head + 1)) by {
        reveal(in_levels);
        if head + 1 < st.blocks.len() {
            assert forall|i: int| 0 <= i < st.blocks.len() implies (#[trigger] st.blocks[i]).level
                <= st.blocks[head + 1].level + 1 by {
                assert(st.blocks[i].level <= st.blocks[head].level + 1);
                assert(st.blocks[head].level <= st.blocks[head + 1].level);
            }
        }
    }
}

#[verifier::rlimit(40)]
proof fn expanding_all(g: Lists, t: Lists, prune: BlockPrune, st: Walking, head: int)
    requires
        going(g, t, prune, st, head, |x: int| false),
        well_formed(g),
        well_formed(t),
        g.len() == t.len() <= usize::MAX,
        transposed(g, t),
    ensures
        all_expanded(g, t, prune, true, st, head) matches Ok(end) ==> going(
            g,
            t,
            prune,
            end,
            end.blocks.len() as int,
            |x: int| false,
        ) && grows(st, end),
    decreases u32::MAX - head,
{
    assert(st.blocks.len() <= u32::MAX);
    if head < st.blocks.len() {
        let b = st.blocks[head];
        assert(complete(g, t, b));
        assert(cut_by(prune, b));
        let n = b.outputs.len();
        assert(n <= usize::MAX) by {
            assert(b.outputs[n - 1] == b.first_out + n - 1);
        }
        let none = |x: int| false;
        let first = |x: int| x < 0 && !is_shown_by(prune.fanout_out, n as int, x);
        going_so(g, t, prune, st, head, none, first);
        asking(g, t, prune, st, b, head, 0);
        let asked = past_all_hidden(g, st, b, head, 0);
        let shown = b.kept_out.shown(n);
        let hidden = |x: int| !is_shown_by(prune.fanout_out, n as int, x);
        let start = |x: int|
            !is_shown_by(prune.fanout_out, n as int, x) || shown.take(0).contains(x as usize);
        assert(asked.blocks[head].outputs == b.outputs);
        assert(asked.blocks[head].level == b.level && asked.blocks[head].inputs == b.inputs);
        assert(shown.take(0).len() == 0);
        going_so(g, t, prune, asked, head, hidden, start);
        following_all(g, t, prune, asked, b, head, 0);
        if let Ok(next) = expanded(g, t, prune, true, st, head) {
            grows_on(st, asked, next);
            going_further(g, t, prune, next, head);
            if head < u32::MAX {
                expanding_all(g, t, prune, next, head + 1);
                if let Ok(end) = all_expanded(g, t, prune, true, st, head) {
                    grows_on(st, next, end);
                }
            }
        }
    }
}

proof fn seating_all(
    g: Lists,
    t: Lists,
    prune: BlockPrune,
    mode: Seed,
    st: Walking,
    roots: Seq<usize>,
    k: int,
)
    requires
        all_seeds(st),
        0 <= k,
    ensures
        all_seated(g, t, prune, mode, true, st, roots, k) matches Ok(end) ==> all_seeds(end),
    decreases roots.len() - k,
{
    if k < roots.len() {
        if let Ok(next) = seated(g, t, prune, mode, true, st, roots[k]) {
            assert(all_seeds(next)) by {
                assert forall|i: int| 0 <= i < next.blocks.len() implies (
                #[trigger] next.blocks[i]).parent is None && next.blocks[i].level == 0 by {
                    if i < st.blocks.len() {
                        assert(next.blocks[i] == st.blocks[i]);
                    }
                }
            }
            seating_all(g, t, prune, mode, next, roots, k + 1);
        }
    }
}

/// Only seeds were seated, and nothing was asked yet.
spec fn all_seeds(st: Walking) -> bool {
    &&& forall|i: int|
        0 <= i < st.blocks.len() ==> (#[trigger] st.blocks[i]).parent is None && st.blocks[i].level
            == 0
    &&& st.refused == Set::<usize>::empty()
    &&& st.beyond == Set::<usize>::empty()
    &&& st.led == Set::<usize>::empty()
}

/// A walk that is done, before anything is un-hidden.
#[verifier::rlimit(40)]
proof fn everything_had_its_turn(
    g: Lists,
    t: Lists,
    roots: Seq<usize>,
    prune: BlockPrune,
    mode: Seed,
)
    requires
        well_formed(g),
        well_formed(t),
        g.len() == t.len() <= usize::MAX,
        transposed(g, t),
    ensures
        found(g, t, roots, prune, mode, true) matches Ok(st) ==> going(
            g,
            t,
            prune,
            st,
            st.blocks.len() as int,
            |x: int| false,
        ),
{
    if let Ok(end) = found(g, t, roots, prune, mode, true) {
        let start = not_started();
        seated_keeps(g, t, prune, mode, start, roots, 0);
        seating_all(g, t, prune, mode, start, roots, 0);
        let st = all_seated(g, t, prune, mode, true, start, roots, 0)->Ok_0;
        let none = |x: int| false;
        assert(going(g, t, prune, st, 0, none)) by {
            reveal(steady);
            reveal(in_levels);
        }
        expanding_all(g, t, prune, st, 0);
    }
}

/// Linked blocks hang from seeds, no block by fewer steps than its own level says.
proof fn levels_by_parents(g: Lists, t: Lists, blocks: Seq<BlockView>, i: int)
    requires
        linked(g, t, blocks),
        hangs(blocks),
        0 <= i < blocks.len(),
    ensures
        climb(blocks, i, blocks[i].first_out as nat) is Some,
        blocks[i].level <= climb(blocks, i, blocks[i].first_out as nat)->0,
    decreases blocks[i].first_out,
{
    a_parent_comes_first(g, t, blocks, i);
    assert(hangs_at(blocks, i));
    if let Some((p, _)) = blocks[i].parent {
        levels_by_parents(g, t, blocks, p as int);
        let f = (blocks[i].first_out - 1) as nat;
        climb_more(blocks, p as int, blocks[p as int].first_out as nat, f);
    }
}

proof fn climb_more(blocks: Seq<BlockView>, i: int, a: nat, b: nat)
    requires
        climb(blocks, i, a) is Some,
        a <= b,
    ensures
        climb(blocks, i, b) == climb(blocks, i, a),
    decreases a,
{
    if let Some((p, _)) = blocks[i].parent {
        climb_more(blocks, p as int, (a - 1) as nat, (b - 1) as nat);
    }
}

proof fn unhiding_hangs_nothing(g: Lists, t: Lists, blocks: Seq<BlockView>)
    requires
        linked(g, t, blocks),
        hangs(blocks),
    ensures
        linked(g, t, unhidden(blocks)),
        hangs(unhidden(blocks)),
        unhidden(blocks).len() == blocks.len(),
        forall|k: int|
            0 <= k < blocks.len() ==> (#[trigger] unhidden(blocks)[k]).level == blocks[k].level,
{
    let shown = unhidden(blocks);
    assert forall|k: int| 0 <= k < shown.len() implies (#[trigger] shown[k]).parent
        == blocks[k].parent && shown[k].level == blocks[k].level && shown[k].first_out
        == blocks[k].first_out && shown[k].inputs == blocks[k].inputs && shown[k].outputs
        == blocks[k].outputs by {}
    assert(linked(g, t, shown)) by {
        assert forall|k: int| 0 <= k < shown.len() implies complete(g, t, #[trigger] shown[k]) by {
            assert(complete(g, t, blocks[k]));
        }
        assert forall|a: int, b: int| 0 <= a < b < shown.len() implies (#[trigger] shown[a]).first_out
            != (#[trigger] shown[b]).first_out by {
            assert(blocks[a].first_out != blocks[b].first_out);
        }
        assert forall|k: int| 0 <= k < shown.len() implies #[trigger] fed(shown, k) by {
            assert(fed(blocks, k));
            if let Some((p, _)) = shown[k].parent {
                assert(shown[p as int].outputs == blocks[p as int].outputs);
            }
        }
    }
    assert forall|k: int| 0 <= k < shown.len() implies #[trigger] hangs_at(shown, k) by {
        assert(hangs_at(blocks, k));
        assert(blocks[k].level == shown[k].level);
        if let Some((p, _)) = shown[k].parent {
            assert(shown[p as int].level == blocks[p as int].level);
        }
    }
}

/// The levels of a walk that is done are no less than those it had on the way.
#[verifier::rlimit(40)]
proof fn levels_are_no_less(
    g: Lists,
    t: Lists,
    roots: Seq<usize>,
    prune: BlockPrune,
    mode: Seed,
    i: int,
)
    requires
        well_formed(g),
        well_formed(t),
        g.len() == t.len() <= usize::MAX,
        transposed(g, t),
        found(g, t, roots, prune, mode, true) is Ok,
        0 <= i < (found(g, t, roots, prune, mode, true)->Ok_0).blocks.len(),
    ensures
        (found(g, t, roots, prune, mode, true)->Ok_0).blocks[i].level <= (walked(
            g,
            t,
            roots,
            prune,
            mode,
            true,
        )->Ok_0).blocks[i].level,
{
    let st = found(g, t, roots, prune, mode, true)->Ok_0;
    everything_had_its_turn(g, t, roots, prune, mode);
    steady_hangs(g, t, prune, st, st.blocks.len() as int);
    let shown = unhidden(st.blocks);
    unhiding_hangs_nothing(g, t, st.blocks);
    levels_by_parents(g, t, shown, i);
    let f = choose|fuel: nat| climb(shown, i, fuel) is Some;
    assert(rooted(shown, i));
    climb_agrees(shown, i, f, shown[i].first_out as nat);
}

/// A walk goes as deep as it was told. Whatever block is drawn, less deep than was
/// asked for, and whichever of its outputs it keeps, or the fanout shows, that leads
/// on: the block it leads to is drawn, or it was refused because it would have been
/// over the budget of blocks or of nodes.
#[verifier::rlimit(40)]
pub proof fn a_walk_goes_as_deep_as_it_was_told(
    g: Lists,
    t: Lists,
    roots: Seq<usize>,
    prune: BlockPrune,
    mode: Seed,
    i: int,
    j: int,
)
    requires
        well_formed(g),
        well_formed(t),
        g.len() == t.len() <= usize::MAX,
        transposed(g, t),
    ensures
        walked(g, t, roots, prune, mode, true) matches Ok(w) ==> {
            let b = w.blocks[i];
            let o = b.outputs[j] as int;
            (0 <= i < w.blocks.len() && 0 <= j < b.outputs.len() && g[o].len() > 0 && may_go_on(
                prune,
                b.level,
            ) && (b.kept_out.keeps(b.outputs.len(), j) || is_shown_by(
                prune.fanout_out,
                b.outputs.len() as int,
                j,
            ))) ==> {
                ||| has_block(w.blocks, g[o][0])
                ||| is_refused(
                    g,
                    t,
                    prune,
                    w.blocks.len(),
                    planned(prune, w.blocks),
                    g[o][0],
                )
            }
        },
{
    if let Ok(st) = found(g, t, roots, prune, mode, true) {
        let w = walked(g, t, roots, prune, mode, true)->Ok_0;
        everything_had_its_turn(g, t, roots, prune, mode);
        same_plan(prune, st.blocks, w.blocks);
        used_is_planned(prune, st.blocks);
        reveal(steady);
        reveal(is_done);
        if 0 <= i < w.blocks.len() && 0 <= j < w.blocks[i].outputs.len() {
            levels_are_no_less(g, t, roots, prune, mode, i);
            assert(w.blocks[i].outputs == st.blocks[i].outputs);
            assert(is_done(g, prune, st, i, j));
            let key = g[w.blocks[i].outputs[j] as int][0];
            let deep = st.blocks[i].level + 1;
            if is_no_deeper(st.blocks, key, deep) {
                let x = choose|x: int|
                    0 <= x < st.blocks.len() && (#[trigger] st.blocks[x]).first_out == key
                        && st.blocks[x].level <= deep;
                assert(w.blocks[x].first_out == key);
            } else if w.blocks[i].kept_out.keeps(w.blocks[i].outputs.len(), j)
                && g[w.blocks[i].outputs[j] as int].len() > 0 {
                revealed_leads_to_a_block(g, t, prune, st.blocks, i, j);
                same_firsts(g, st.blocks, w.blocks);
                assert(has_block(w.blocks, key) || is_shown_by(
                    prune.fanout_out,
                    w.blocks[i].outputs.len() as int,
                    j,
                ));
            }
        }
    }
}

/// What un-hiding shows of the outputs leads to a block that is drawn.
proof fn revealed_leads_to_a_block(
    g: Lists,
    t: Lists,
    prune: BlockPrune,
    blocks: Seq<BlockView>,
    i: int,
    j: int,
)
    requires
        linked(g, t, blocks),
        forall|i: int| 0 <= i < blocks.len() ==> cut_by(prune, #[trigger] blocks[i]),
        0 <= i < blocks.len(),
        0 <= j < blocks[i].outputs.len(),
        unhidden(blocks)[i].kept_out.keeps(blocks[i].outputs.len(), j),
    ensures
        is_shown_by(prune.fanout_out, blocks[i].outputs.len() as int, j) || has_block(
            blocks,
            g[blocks[i].outputs[j] as int][0],
        ),
{
    let n = blocks[i].outputs.len();
    assert(complete(g, t, blocks[i]));
    assert(cut_by(prune, blocks[i]));
    assert(blocks[i].outputs[n - 1] == blocks[i].first_out + n - 1);
    assert(blocks[i].inputs[0] < blocks[i].first_out);
    cut_counts(n, prune.fanout_out);
    let p = |x: usize| wanted_out(blocks, i, x);
    revealing_is_exact(blocks[i].kept_out, n, p, j as usize);
    assert(unhidden(blocks)[i].kept_out == blocks[i].kept_out.revealing(n, p));
    if !blocks[i].kept_out.keeps(n, j) {
        let at = j as usize;
        assert(p(at));
        let (b, ii) = choose|b: int, ii: int| feeds(blocks, i, at, b, ii);
        assert(complete(g, t, blocks[b]));
        assert(blocks[i].outputs[j] == blocks[i].first_out + j);
        assert(g[blocks[b].inputs[ii] as int] == blocks[b].outputs);
        assert(blocks[b].outputs[0] == blocks[b].first_out);
    }
}

proof fn same_plan(prune: BlockPrune, a: Seq<BlockView>, b: Seq<BlockView>)
    requires
        a.len() == b.len(),
        forall|i: int|
            0 <= i < a.len() ==> (#[trigger] b[i]).inputs == a[i].inputs && b[i].outputs
                == a[i].outputs,
    ensures
        planned(prune, a) == planned(prune, b),
    decreases a.len(),
{
    if a.len() > 0 {
        let n = a.len() - 1;
        assert(b[n].inputs == a[n].inputs);
        assert forall|i: int| 0 <= i < n implies (#[trigger] b.drop_last()[i]).inputs
            == a.drop_last()[i].inputs && b.drop_last()[i].outputs == a.drop_last()[i].outputs by {
            assert(b[i].inputs == a[i].inputs);
        }
        same_plan(prune, a.drop_last(), b.drop_last());
    }
}

/// From the block at `a` one output leads to the block at `b`.
pub open spec fn is_step(g: Lists, t: Lists, a: usize, b: usize) -> bool {
    exists|o: usize|
        g[t[a as int][0] as int].contains(o) && (#[trigger] g[o as int]).len() > 0 && g[o as int][0]
            == b
}

/// The block at `b` is no more than `n` steps from the block at `a`.
pub open spec fn is_within(g: Lists, t: Lists, a: usize, b: usize, n: nat) -> bool
    decreases n,
{
    a == b || (n > 0 && exists|c: usize|
        is_within(g, t, a, c, (n - 1) as nat) && #[trigger] is_step(g, t, c, b))
}

/// Nothing was refused.
pub open spec fn none_refused(g: Lists, t: Lists, prune: BlockPrune, blocks: Seq<BlockView>) -> bool {
    forall|key: usize| !#[trigger]
        is_refused(g, t, prune, blocks.len(), planned(prune, blocks), key)
}

#[verifier::rlimit(40)]
proof fn within_is_drawn(
    g: Lists,
    t: Lists,
    prune: BlockPrune,
    st: Walking,
    key: usize,
    n: nat,
)
    requires
        going(g, t, prune, st, st.blocks.len() as int, |x: int| false),
        stepped(prune, st.blocks),
        prune.fanout_out is None,
        forall|k: usize| !st.refused.contains(k),
        prune.depth matches Some(d) ==> n <= d,
        is_within(g, t, st.blocks[0].first_out, key, n),
    ensures
        is_no_deeper(st.blocks, key, n),
    decreases n,
{
    reveal(steady);
    reveal(is_done);
    let s = st.blocks[0].first_out;
    if s == key {
        assert(st.blocks[0].level <= n);
    } else {
        let c = choose|c: usize|
            is_within(g, t, s, c, (n - 1) as nat) && #[trigger] is_step(g, t, c, key);
        within_is_drawn(g, t, prune, st, c, (n - 1) as nat);
        let i = choose|i: int|
            0 <= i < st.blocks.len() && (#[trigger] st.blocks[i]).first_out == c
                && st.blocks[i].level <= n - 1;
        let b = st.blocks[i];
        assert(complete(g, t, b));
        assert(b.outputs[0] == b.first_out);
        assert(t[b.outputs[0] as int] == b.inputs);
        assert(g[b.inputs[0] as int] == b.outputs);
        let o = choose|o: usize|
            g[t[c as int][0] as int].contains(o) && (#[trigger] g[o as int]).len() > 0
                && g[o as int][0] == key;
        let j = b.outputs.index_of(o);
        assert(b.outputs[j] == o);
        assert(is_done(g, prune, st, i, j));
        let deep = b.level + 1;
        let x = choose|x: int|
            0 <= x < st.blocks.len() && (#[trigger] st.blocks[x]).first_out == key
                && st.blocks[x].level <= deep;
        assert(st.blocks[x].level <= n);
    }
}

proof fn drawn_is_within(
    g: Lists,
    t: Lists,
    prune: BlockPrune,
    blocks: Seq<BlockView>,
    i: int,
)
    requires
        linked(g, t, blocks),
        stepped(prune, blocks),
        0 <= i < blocks.len(),
    ensures
        is_within(g, t, blocks[0].first_out, blocks[i].first_out, blocks[i].level),
    decreases i,
{
    if i > 0 {
        assert(a_step_below(blocks, i));
        let (p, o) = blocks[i].parent->0;
        drawn_is_within(g, t, prune, blocks, p as int);
        assert(fed(blocks, i));
        let b = blocks[i];
        let a = blocks[p as int];
        assert(complete(g, t, b));
        assert(complete(g, t, a));
        let k = b.inputs.index_of(o);
        assert(g[b.inputs[k] as int] == b.outputs);
        assert(b.outputs[0] == b.first_out);
        assert(a.outputs[0] == a.first_out);
        assert(t[a.outputs[0] as int] == a.inputs);
        assert(g[a.inputs[0] as int] == a.outputs);
        assert(g[o as int][0] == b.first_out);
        assert(is_step(g, t, a.first_out, b.first_out));
    }
}

/// From one root the levels of the blocks stay those that they were found at.
proof fn one_root_has_its_levels(
    g: Lists,
    t: Lists,
    root: usize,
    prune: BlockPrune,
    mode: Seed,
)
    requires
        well_formed(g),
        well_formed(t),
        g.len() == t.len() <= usize::MAX,
        transposed(g, t),
        found(g, t, seq![root], prune, mode, true) is Ok,
    ensures
        ({
            let st = found(g, t, seq![root], prune, mode, true)->Ok_0;
            let w = walked(g, t, seq![root], prune, mode, true)->Ok_0;
            &&& stepped(prune, st.blocks)
            &&& forall|i: int|
                0 <= i < w.blocks.len() ==> (#[trigger] w.blocks[i]).level == st.blocks[i].level
                    && w.blocks[i].first_out == st.blocks[i].first_out
        }),
{
    let st = found(g, t, seq![root], prune, mode, true)->Ok_0;
    let w = walked(g, t, seq![root], prune, mode, true)->Ok_0;
    found_from_one_is_stepped(g, t, root, prune, mode);
    let shown = unhidden(st.blocks);
    assert(stepped(prune, shown)) by {
        assert forall|k: int| 0 < k < shown.len() implies #[trigger] a_step_below(shown, k) by {
            assert(a_step_below(st.blocks, k));
        }
        assert forall|k: int| 0 <= k < shown.len() implies within_depth(
            prune,
            (#[trigger] shown[k]).level,
        ) by {
            assert(within_depth(prune, st.blocks[k].level));
        }
    }
    assert forall|i: int| 0 <= i < w.blocks.len() implies (#[trigger] w.blocks[i]).level
        == st.blocks[i].level && w.blocks[i].first_out == st.blocks[i].first_out by {
        climbing(prune, shown, i);
        assert(rooted(shown, i));
        climb_agrees(
            shown,
            i,
            shown[i].level,
            choose|fuel: nat| climb(shown, i, fuel) is Some,
        );
    }
}

/// From one root, with no fanout and nothing refused, the blocks that are drawn are
/// exactly those that outputs lead to from the seed in no more steps than the depth
/// asked for, and each is at a level no deeper than it has to be.
#[verifier::rlimit(40)]
pub proof fn one_root_draws_what_is_within_reach(
    g: Lists,
    t: Lists,
    root: usize,
    prune: BlockPrune,
    mode: Seed,
    key: usize,
    n: nat,
)
    requires
        well_formed(g),
        well_formed(t),
        g.len() == t.len() <= usize::MAX,
        transposed(g, t),
        prune.fanout_out is None,
        prune.depth matches Some(d) ==> n <= d,
    ensures
        walked(g, t, seq![root], prune, mode, true) matches Ok(w) ==> (none_refused(
            g,
            t,
            prune,
            w.blocks,
        ) ==> {
            let s = w.blocks[0].first_out;
            &&& w.blocks.len() > 0
            &&& w.blocks[0].level == 0
            &&& is_within(g, t, s, key, n) <==> is_no_deeper(w.blocks, key, n)
            &&& prune.depth matches Some(d) ==> (has_block(w.blocks, key) <==> is_within(
                g,
                t,
                s,
                key,
                d as nat,
            ))
        }),
{
    let roots = seq![root];
    if let Ok(st) = found(g, t, roots, prune, mode, true) {
        let w = walked(g, t, roots, prune, mode, true)->Ok_0;
        everything_had_its_turn(g, t, roots, prune, mode);
        one_root_has_its_levels(g, t, root, prune, mode);
        same_plan(prune, st.blocks, w.blocks);
        used_is_planned(prune, st.blocks);
        if none_refused(g, t, prune, w.blocks) {
            reveal(steady);
            assert forall|k: usize| !st.refused.contains(k) by {
                if st.refused.contains(k) {
                    assert(is_refused(g, t, prune, st.blocks.len(), st.used, k));
                }
            }
            reach_both_ways(g, t, prune, st, key, n);
            assert(is_no_deeper(w.blocks, key, n) <==> is_no_deeper(st.blocks, key, n)) by {
                same_reach(st.blocks, w.blocks, key, n);
            }
            if let Some(d) = prune.depth {
                reach_both_ways(g, t, prune, st, key, d as nat);
                same_reach(st.blocks, w.blocks, key, d as nat);
                if has_block(w.blocks, key) {
                    let x = choose|x: int|
                        0 <= x < w.blocks.len() && (#[trigger] w.blocks[x]).first_out == key;
                    assert(within_depth(prune, st.blocks[x].level));
                    assert(w.blocks[x].level <= d);
                    assert(is_no_deeper(w.blocks, key, d as nat));
                }
                if is_no_deeper(w.blocks, key, d as nat) {
                    let x = choose|x: int|
                        0 <= x < w.blocks.len() && (#[trigger] w.blocks[x]).first_out == key
                            && w.blocks[x].level <= d;
                    assert(has_block(w.blocks, key));
                }
            }
        }
    }
}

proof fn same_reach(a: Seq<BlockView>, b: Seq<BlockView>, key: usize, n: nat)
    requires
        a.len() == b.len(),
        forall|i: int|
            0 <= i < b.len() ==> (#[trigger] b[i]).level == a[i].level && b[i].first_out
                == a[i].first_out,
    ensures
        is_no_deeper(a, key, n) <==> is_no_deeper(b, key, n),
{
    if is_no_deeper(a, key, n) {
        let i = choose|i: int|
            0 <= i < a.len() && (#[trigger] a[i]).first_out == key && a[i].level <= n;
        assert(b[i].first_out == key && b[i].level <= n);
    }
    if is_no_deeper(b, key, n) {
        let i = choose|i: int|
            0 <= i < b.len() && (#[trigger] b[i]).first_out == key && b[i].level <= n;
        assert(a[i].first_out == key && a[i].level <= n);
    }
}

proof fn within_more(g: Lists, t: Lists, a: usize, b: usize, m: nat, n: nat)
    requires
        is_within(g, t, a, b, m),
        m <= n,
    ensures
        is_within(g, t, a, b, n),
    decreases m,
{
    if a != b {
        let c = choose|c: usize|
            is_within(g, t, a, c, (m - 1) as nat) && #[trigger] is_step(g, t, c, b);
        within_more(g, t, a, c, (m - 1) as nat, (n - 1) as nat);
        assert(is_within(g, t, a, c, (n - 1) as nat) && is_step(g, t, c, b));
    }
}

proof fn reach_both_ways(
    g: Lists,
    t: Lists,
    prune: BlockPrune,
    st: Walking,
    key: usize,
    n: nat,
)
    requires
        going(g, t, prune, st, st.blocks.len() as int, |x: int| false),
        stepped(prune, st.blocks),
        prune.fanout_out is None,
        forall|k: usize| !st.refused.contains(k),
        prune.depth matches Some(d) ==> n <= d,
    ensures
        is_within(g, t, st.blocks[0].first_out, key, n) <==> is_no_deeper(st.blocks, key, n),
{
    if is_within(g, t, st.blocks[0].first_out, key, n) {
        within_is_drawn(g, t, prune, st, key, n);
    }
    if is_no_deeper(st.blocks, key, n) {
        let i = choose|i: int|
            0 <= i < st.blocks.len() && (#[trigger] st.blocks[i]).first_out == key
                && st.blocks[i].level <= n;
        drawn_is_within(g, t, prune, st.blocks, i);
        within_more(g, t, st.blocks[0].first_out, key, st.blocks[i].level, n);
    }
}

proof fn found_from_one_is_stepped(
    g: Lists,
    t: Lists,
    root: usize,
    prune: BlockPrune,
    mode: Seed,
)
    requires
        well_formed(g),
        well_formed(t),
        g.len() == t.len() <= usize::MAX,
        transposed(g, t),
    ensures
        found(g, t, seq![root], prune, mode, true) matches Ok(st) ==> stepped(prune, st.blocks),
{
    let roots = seq![root];
    if let Ok(st) = found(g, t, roots, prune, mode, true) {
        let start = not_started();
        reveal_with_fuel(all_seated, 2);
        seated_keeps(g, t, prune, mode, start, roots, 0);
        let first = all_seated(g, t, prune, mode, true, start, roots, 0)->Ok_0;
        find_is_in(start.blocks, (seeded(g, t, roots[0], mode, true)->Ok_0).0.first_out);
        assert(first.blocks.len() == 1);
        assert(stepped(prune, first.blocks));
        expanding_steps(g, t, prune, first, 0);
    }
}

/// A drawn block that a drawn output leads to hangs under a block: a seed is only at
/// the top where nothing that is drawn leads to it.
pub proof fn what_is_led_to_hangs_under_a_block(
    g: Lists,
    t: Lists,
    roots: Seq<usize>,
    prune: BlockPrune,
    mode: Seed,
    key: usize,
)
    requires
        well_formed(g),
        well_formed(t),
        g.len() == t.len() <= usize::MAX,
        transposed(g, t),
    ensures
        walked(g, t, roots, prune, mode, true) matches Ok(w) ==> (is_led_to(g, w.blocks, key)
            && has_block(w.blocks, key) ==> is_hung(w.blocks, key)),
{
    if let Ok(st) = found(g, t, roots, prune, mode, true) {
        let w = walked(g, t, roots, prune, mode, true)->Ok_0;
        everything_had_its_turn(g, t, roots, prune, mode);
        if is_led_to(g, w.blocks, key) && has_block(w.blocks, key) {
            reveal(steady);
            reveal(is_done);
            let (i, j) = choose|i: int, j: int| #[trigger] leads(g, w.blocks, key, i, j);
            assert(w.blocks[i].outputs == st.blocks[i].outputs);
            assert(is_done(g, prune, st, i, j));
            let y = choose|y: int|
                0 <= y < w.blocks.len() && (#[trigger] w.blocks[y]).first_out == key;
            assert(st.blocks[y].first_out == key);
            let x = choose|x: int|
                0 <= x < st.blocks.len() && (#[trigger] st.blocks[x]).first_out == key
                    && st.blocks[x].parent is Some;
            assert(w.blocks[x].first_out == key && w.blocks[x].parent is Some);
        }
    }
}

/// The blocks that are not drawn, though an output that is drawn or hidden leads to
/// them.
pub open spec fn undrawn(g: Lists, blocks: Seq<BlockView>) -> Set<usize> {
    Set::new(|key: usize| is_led_to(g, blocks, key) && !has_block(blocks, key))
}

proof fn bounded_set(s: Set<usize>, n: nat)
    requires
        s.finite(),
        forall|k: usize| #[trigger] s.contains(k) ==> k < n,
    ensures
        s.len() <= n,
    decreases n,
{
    if n == 0 {
        assert(s =~= Set::empty());
    } else if n - 1 <= usize::MAX {
        let top = (n - 1) as usize;
        bounded_set(s.remove(top), (n - 1) as nat);
    } else {
        bounded_set(s, (n - 1) as nat);
    }
}

proof fn led_is_within(g: Lists, t: Lists, blocks: Seq<BlockView>, key: usize)
    requires
        linked(g, t, blocks),
        well_formed(g),
        is_led_to(g, blocks, key),
    ensures
        key < g.len(),
{
    let (i, j) = choose|i: int, j: int| #[trigger] leads(g, blocks, key, i, j);
    assert(complete(g, t, blocks[i]));
    let o = blocks[i].outputs[j] as int;
    assert(o < g.len());
    assert(successor_list(g[o], g.len()));
    assert(g[o][0] < g.len());
}

/// Every block that an output leads to is drawn or counted, and counted once: as
/// refused by a budget or as beyond the depth. From one root the refused ones are
/// exactly those that a shown output leads to from a block less deep than was asked
/// for.
#[verifier::rlimit(40)]
pub proof fn every_block_led_to_is_drawn_or_counted(
    g: Lists,
    t: Lists,
    roots: Seq<usize>,
    prune: BlockPrune,
    mode: Seed,
)
    requires
        well_formed(g),
        well_formed(t),
        g.len() == t.len() <= usize::MAX,
        transposed(g, t),
    ensures
        walked(g, t, roots, prune, mode, true) matches Ok(w) ==> {
            &&& undrawn(g, w.blocks).finite()
            &&& w.report.blocks_refused_by_budget + w.report.blocks_beyond_depth == undrawn(
                g,
                w.blocks,
            ).len()
            &&& roots.len() == 1 ==> w.report.blocks_refused_by_budget == undrawn(
                g,
                w.blocks,
            ).filter(|key: usize| is_wanted(g, prune, w.blocks, key)).len()
        },
{
    if let Ok(st) = found(g, t, roots, prune, mode, true) {
        let w = walked(g, t, roots, prune, mode, true)->Ok_0;
        everything_had_its_turn(g, t, roots, prune, mode);
        reveal(steady);
        reveal(is_done);
        let all = undrawn(g, w.blocks);
        let only = st.beyond.filter(|key: usize| only_beyond(st, key));
        same_firsts(g, st.blocks, w.blocks);
        assert forall|key: usize| st.refused.contains(key) implies #[trigger] is_led_to(
            g,
            st.blocks,
            key,
        ) by {
            let (i, j) = choose|i: int, j: int| #[trigger]
                leads(g, st.blocks, key, i, j) && is_shown_by(
                    prune.fanout_out,
                    st.blocks[i].outputs.len() as int,
                    j,
                ) && may_go_on(prune, st.blocks[i].level);
            assert(leads(g, st.blocks, key, i, j));
        }
        assert forall|key: usize| all.contains(key) <==> (st.refused + only).contains(key) by {
            has_is_find(st.blocks, key);
            if all.contains(key) {
                let (i, j) = choose|i: int, j: int| #[trigger] leads(g, st.blocks, key, i, j);
                assert(is_done(g, prune, st, i, j));
                if is_hung(st.blocks, key) {
                    let x = choose|x: int|
                        0 <= x < st.blocks.len() && (#[trigger] st.blocks[x]).first_out == key
                            && st.blocks[x].parent is Some;
                    assert(st.blocks[x].first_out == key);
                }
            }
            if st.refused.contains(key) {
                assert(is_led_to(g, st.blocks, key));
            }
        }
        assert(all =~= st.refused + only);
        st.beyond.lemma_len_filter(|key: usize| only_beyond(st, key));
        vstd::set_lib::lemma_set_disjoint_lens(st.refused, only);
        assert(st.refused.disjoint(only));
        assert forall|key: usize| #[trigger] all.contains(key) implies key < g.len() by {
            led_is_within(g, t, st.blocks, key);
        }
        bounded_set(all, g.len());
        if roots.len() == 1 {
            assert(roots =~= seq![roots[0]]);
            one_root_has_its_levels(g, t, roots[0], prune, mode);
            let wanted = all.filter(|key: usize| is_wanted(g, prune, w.blocks, key));
            assert forall|key: usize| wanted.contains(key) <==> st.refused.contains(key) by {
                same_wants(g, prune, st.blocks, w.blocks, key);
                if wanted.contains(key) {
                    let (i, j) = choose|i: int, j: int| #[trigger]
                        leads(g, st.blocks, key, i, j) && is_shown_by(
                            prune.fanout_out,
                            st.blocks[i].outputs.len() as int,
                            j,
                        ) && may_go_on(prune, st.blocks[i].level);
                    assert(is_done(g, prune, st, i, j));
                    let deep = st.blocks[i].level + 1;
                    if is_no_deeper(st.blocks, key, deep) {
                        let x = choose|x: int|
                            0 <= x < st.blocks.len() && (#[trigger] st.blocks[x]).first_out == key
                                && st.blocks[x].level <= deep;
                        assert(st.blocks[x].first_out == key);
                    }
                }
                if st.refused.contains(key) {
                    assert(is_led_to(g, st.blocks, key));
                }
            }
            assert(wanted =~= st.refused);
        }
    }
}

proof fn same_firsts(g: Lists, a: Seq<BlockView>, b: Seq<BlockView>)
    requires
        a.len() == b.len(),
        forall|i: int|
            0 <= i < b.len() ==> (#[trigger] b[i]).first_out == a[i].first_out && b[i].outputs
                == a[i].outputs,
    ensures
        forall|key: usize| has_block(a, key) <==> #[trigger] has_block(b, key),
        forall|key: usize| is_led_to(g, a, key) <==> #[trigger] is_led_to(g, b, key),
        forall|o: usize, i: int, j: int|
            leads_on(g, a, o, i, j) <==> #[trigger] leads_on(g, b, o, i, j),
{
    assert forall|key: usize| has_block(a, key) <==> #[trigger] has_block(b, key) by {
        if has_block(a, key) {
            let i = choose|i: int| 0 <= i < a.len() && (#[trigger] a[i]).first_out == key;
            assert(b[i].first_out == key);
        }
        if has_block(b, key) {
            let i = choose|i: int| 0 <= i < b.len() && (#[trigger] b[i]).first_out == key;
            assert(a[i].first_out == key);
        }
    }
    assert forall|key: usize| is_led_to(g, a, key) <==> #[trigger] is_led_to(g, b, key) by {
        if is_led_to(g, a, key) {
            let (i, j) = choose|i: int, j: int| #[trigger] leads(g, a, key, i, j);
            assert(b[i].outputs == a[i].outputs);
            assert(leads(g, b, key, i, j));
        }
        if is_led_to(g, b, key) {
            let (i, j) = choose|i: int, j: int| #[trigger] leads(g, b, key, i, j);
            assert(b[i].outputs == a[i].outputs);
            assert(leads(g, a, key, i, j));
        }
    }
    assert forall|o: usize, i: int, j: int|
        leads_on(g, a, o, i, j) <==> #[trigger] leads_on(g, b, o, i, j) by {
        if 0 <= i < b.len() {
            assert(b[i].outputs == a[i].outputs);
        }
    }
}

proof fn same_wants(
    g: Lists,
    prune: BlockPrune,
    a: Seq<BlockView>,
    b: Seq<BlockView>,
    key: usize,
)
    requires
        a.len() == b.len(),
        forall|i: int|
            0 <= i < b.len() ==> (#[trigger] b[i]).level == a[i].level && b[i].outputs
                == a[i].outputs,
    ensures
        is_wanted(g, prune, a, key) <==> is_wanted(g, prune, b, key),
{
    if is_wanted(g, prune, a, key) {
        let (i, j) = choose|i: int, j: int| #[trigger]
            leads(g, a, key, i, j) && is_shown_by(prune.fanout_out, a[i].outputs.len() as int, j)
                && may_go_on(prune, a[i].level);
        assert(b[i].outputs == a[i].outputs);
        assert(leads(g, b, key, i, j));
    }
    if is_wanted(g, prune, b, key) {
        let (i, j) = choose|i: int, j: int| #[trigger]
            leads(g, b, key, i, j) && is_shown_by(prune.fanout_out, b[i].outputs.len() as int, j)
                && may_go_on(prune, b[i].level);
        assert(b[i].outputs == a[i].outputs);
        assert(leads(g, a, key, i, j));
    }
}

/// Output `j` of block `i` is hidden, and leads on.
pub open spec fn hides_on(g: Lists, blocks: Seq<BlockView>, o: usize, i: int, j: int) -> bool {
    leads_on(g, blocks, o, i, j) && !blocks[i].kept_out.keeps(blocks[i].outputs.len(), j)
}

/// The hidden outputs that lead to a block.
pub open spec fn hidden_on(g: Lists, blocks: Seq<BlockView>) -> Set<usize> {
    Set::new(|o: usize| exists|i: int, j: int| #[trigger] hides_on(g, blocks, o, i, j))
}

/// Un-hiding hides nothing.
proof fn unhiding_only_shows(g: Lists, t: Lists, prune: BlockPrune, blocks: Seq<BlockView>)
    requires
        linked(g, t, blocks),
        forall|i: int| 0 <= i < blocks.len() ==> cut_by(prune, #[trigger] blocks[i]),
    ensures
        unhidden(blocks).len() == blocks.len(),
        forall|i: int, j: int|
            0 <= i < blocks.len() && 0 <= j < blocks[i].outputs.len()
                && blocks[i].kept_out.keeps(blocks[i].outputs.len(), j) ==> #[trigger] unhidden(
                blocks,
            )[i].kept_out.keeps(blocks[i].outputs.len(), j),
{
    let end = unhidden(blocks);
    assert forall|i: int, j: int|
        0 <= i < blocks.len() && 0 <= j < blocks[i].outputs.len() && blocks[i].kept_out.keeps(
            blocks[i].outputs.len(),
            j,
        ) implies #[trigger] end[i].kept_out.keeps(blocks[i].outputs.len(), j) by {
        let n = blocks[i].outputs.len();
        assert(complete(g, t, blocks[i]));
        assert(cut_by(prune, blocks[i]));
        assert(blocks[i].outputs[n - 1] == blocks[i].first_out + n - 1);
        assert(blocks[i].inputs[0] < blocks[i].first_out);
        cut_counts(n, prune.fanout_out);
        let p = |x: usize| wanted_out(blocks, i, x);
        revealing_is_exact(blocks[i].kept_out, n, p, j as usize);
        assert(end[i].kept_out == blocks[i].kept_out.revealing(n, p));
    }
}

/// The report has how many outputs are hidden in the end that lead to a block.
#[verifier::rlimit(40)]
pub proof fn hidden_outputs_that_lead_on_are_counted(
    g: Lists,
    t: Lists,
    roots: Seq<usize>,
    prune: BlockPrune,
    mode: Seed,
)
    requires
        well_formed(g),
        well_formed(t),
        g.len() == t.len() <= usize::MAX,
        transposed(g, t),
    ensures
        walked(g, t, roots, prune, mode, true) matches Ok(w) ==> {
            &&& hidden_on(g, w.blocks).finite()
            &&& w.report.hidden_outputs_with_consumer == hidden_on(g, w.blocks).len()
        },
{
    if let Ok(st) = found(g, t, roots, prune, mode, true) {
        let w = walked(g, t, roots, prune, mode, true)->Ok_0;
        everything_had_its_turn(g, t, roots, prune, mode);
        a_walk_is_linked_and_within_its_budgets(g, t, roots, prune, mode);
        unhiding_only_shows(g, t, prune, st.blocks);
        reveal(steady);
        reveal(is_done);
        same_firsts(g, st.blocks, w.blocks);
        let all = hidden_on(g, w.blocks);
        let told = st.led.filter(|o: usize| !shows_output(w.blocks, o));
        assert forall|o: usize| all.contains(o) <==> told.contains(o) by {
            if all.contains(o) {
                let (i, j) = choose|i: int, j: int| #[trigger] hides_on(g, w.blocks, o, i, j);
                assert(leads_on(g, w.blocks, o, i, j));
                assert(w.blocks[i].outputs == st.blocks[i].outputs);
                assert(is_done(g, prune, st, i, j));
                assert(!st.blocks[i].kept_out.keeps(st.blocks[i].outputs.len(), j));
                assert(cut_by(prune, st.blocks[i]));
                cut_counts(st.blocks[i].outputs.len(), prune.fanout_out);
                assert(st.led.contains(o));
                if shows_output(w.blocks, o) {
                    let (b, k) = choose|b: int, k: int| is_shown_output(w.blocks, o, b, k);
                    one_output_one_place(g, t, w.blocks, i, j, b, k);
                }
            }
            if told.contains(o) {
                let (i, j) = choose|i: int, j: int| #[trigger]
                    leads_on(g, st.blocks, o, i, j) && !is_shown_by(
                        prune.fanout_out,
                        st.blocks[i].outputs.len() as int,
                        j,
                    );
                assert(leads_on(g, w.blocks, o, i, j));
                assert(!is_shown_output(w.blocks, o, i, j));
                assert(hides_on(g, w.blocks, o, i, j));
            }
        }
        assert(all =~= told);
        st.led.lemma_len_filter(|o: usize| !shows_output(w.blocks, o));
        assert forall|o: usize| #[trigger] all.contains(o) implies o < g.len() by {
            let (i, j) = choose|i: int, j: int| #[trigger] hides_on(g, w.blocks, o, i, j);
            assert(complete(g, t, w.blocks[i]));
            assert(w.blocks[i].outputs[j] < g.len());
        }
        bounded_set(all, g.len());
    }
}

proof fn one_output_one_place(
    g: Lists,
    t: Lists,
    blocks: Seq<BlockView>,
    i: int,
    j: int,
    b: int,
    k: int,
)
    requires
        linked(g, t, blocks),
        0 <= i < blocks.len(),
        0 <= b < blocks.len(),
        0 <= j < blocks[i].outputs.len(),
        0 <= k < blocks[b].outputs.len(),
        blocks[i].outputs[j] == blocks[b].outputs[k],
    ensures
        i == b,
        j == k,
{
    if i != b {
        outputs_are_of_one_block(g, t, blocks, i, b, blocks[i].outputs[j]);
    }
    assert(complete(g, t, blocks[i]));
    assert(blocks[i].outputs[j] == blocks[i].first_out + j);
    assert(blocks[b].outputs[k] == blocks[b].first_out + k);
}

/// The deepest level of a walk is the level of one of its blocks, and none is deeper;
/// all its blocks are counted, and as checked if they were.
pub proof fn the_deepest_level_is_that_of_a_block(
    g: Lists,
    t: Lists,
    roots: Seq<usize>,
    prune: BlockPrune,
    mode: Seed,
    check: bool,
)
    ensures
        walked(g, t, roots, prune, mode, check) matches Ok(w) ==> {
            &&& w.blocks.len() <= usize::MAX ==> w.report.blocks_drawn == w.blocks.len()
            &&& w.blocks.len() <= usize::MAX && check ==> w.report.blocks_checked == w.blocks.len()
            &&& !check ==> w.report.blocks_checked == 0
            &&& deepest(w.blocks) <= usize::MAX ==> {
                &&& forall|i: int|
                    0 <= i < w.blocks.len() ==> (#[trigger] w.blocks[i]).level
                        <= w.report.deepest_level
                &&& w.blocks.len() > 0 ==> exists|i: int|
                    0 <= i < w.blocks.len() && (#[trigger] w.blocks[i]).level
                        == w.report.deepest_level
            }
        },
{
    if let Ok(w) = walked(g, t, roots, prune, mode, check) {
        deepest_is_a_level(w.blocks);
    }
}

proof fn deepest_is_a_level(blocks: Seq<BlockView>)
    ensures
        forall|i: int| 0 <= i < blocks.len() ==> (#[trigger] blocks[i]).level <= deepest(blocks),
        blocks.len() > 0 ==> exists|i: int|
            0 <= i < blocks.len() && (#[trigger] blocks[i]).level == deepest(blocks),
        blocks.len() == 0 ==> deepest(blocks) == 0,
    decreases blocks.len(),
{
    if blocks.len() > 0 {
        let f = blocks.drop_last();
        let n = blocks.len() - 1;
        deepest_is_a_level(f);
        assert forall|i: int| 0 <= i < blocks.len() implies (#[trigger] blocks[i]).level <= deepest(
            blocks,
        ) by {
            if i < n {
                assert(f[i].level <= deepest(f));
            }
        }
        if blocks.last().level > deepest(f) || f.len() == 0 {
            assert(blocks[n].level == deepest(blocks));
        } else {
            let i = choose|i: int| 0 <= i < f.len() && (#[trigger] f[i]).level == deepest(f);
            assert(blocks[i].level == deepest(blocks));
        }
    }
}

/// Whether a root stands for the block that made it: one is there, and was asked for
/// or there is no other.
pub open spec fn is_for_its_maker(g: Lists, t: Lists, mode: Seed, root: usize) -> bool {
    t[root as int].len() > 0 && (mode == Seed::Producing || g[root as int].len() == 0)
}

/// Block `i` is the one that a root stands for: the block that made it, or the block
/// that spends it.
pub open spec fn is_block_of(
    g: Lists,
    t: Lists,
    mode: Seed,
    root: usize,
    blocks: Seq<BlockView>,
    i: int,
) -> bool {
    &&& root < g.len()
    &&& 0 <= i < blocks.len()
    &&& if is_for_its_maker(g, t, mode, root) {
        blocks[i].outputs.contains(root)
    } else {
        blocks[i].inputs.contains(root)
    }
}

/// The block that a root stands for is there.
pub open spec fn has_a_block(
    g: Lists,
    t: Lists,
    mode: Seed,
    root: usize,
    blocks: Seq<BlockView>,
) -> bool {
    exists|i: int| #[trigger] is_block_of(g, t, mode, root, blocks, i)
}

/// Block `i` is one that one of the roots stands for.
pub open spec fn has_a_root(
    g: Lists,
    t: Lists,
    mode: Seed,
    roots: Seq<usize>,
    blocks: Seq<BlockView>,
    i: int,
) -> bool {
    exists|r: int|
        0 <= r < roots.len() && #[trigger] is_block_of(g, t, mode, roots[r], blocks, i)
}

/// The roots before the `k`th have their blocks.
pub(crate) open spec fn has_its_roots(
    g: Lists,
    t: Lists,
    mode: Seed,
    roots: Seq<usize>,
    blocks: Seq<BlockView>,
    k: int,
) -> bool {
    &&& forall|r: int| 0 <= r < k ==> has_a_block(g, t, mode, #[trigger] roots[r], blocks)
    &&& forall|i: int|
        0 <= i < blocks.len() && (#[trigger] blocks[i]).parent is None ==> has_a_root(
            g,
            t,
            mode,
            roots.take(k),
            blocks,
            i,
        )
}

pub(crate) proof fn seating_has_its_root(g: Lists, t: Lists, mode: Seed, root: usize, b: BlockView)
    requires
        well_formed(g),
        well_formed(t),
        g.len() == t.len() <= usize::MAX,
        transposed(g, t),
        seeded(g, t, root, mode, true) matches Ok((s, _)) && s == b,
    ensures
        is_block_of(g, t, mode, root, seq![b], 0),
        complete(g, t, b),
{
    let blocks = seq![b];
    if is_for_its_maker(g, t, mode, root) {
        a_fetched_block_holds_its_key(g, t, root, true);
        fetched_is_complete(g, t, root);
    } else {
        let key = g[root as int][0];
        assert(successor_list(g[root as int], g.len()));
        assert(key < g.len());
        assert(g[root as int].contains(key));
        a_fetched_block_holds_its_key(g, t, key, true);
        fetched_is_complete(g, t, key);
    }
    assert(blocks[0] == b);
}

proof fn same_block_same_sides(g: Lists, t: Lists, a: BlockView, b: BlockView)
    requires
        complete(g, t, a),
        complete(g, t, b),
        a.first_out == b.first_out,
    ensures
        a.inputs == b.inputs,
        a.outputs == b.outputs,
{
    assert(a.outputs[0] == b.outputs[0]);
    assert(t[a.outputs[0] as int] == a.inputs);
    assert(t[b.outputs[0] as int] == b.inputs);
    assert(g[a.inputs[0] as int] == a.outputs);
    assert(g[b.inputs[0] as int] == b.outputs);
}

proof fn seating_one_root(
    g: Lists,
    t: Lists,
    prune: BlockPrune,
    mode: Seed,
    st: Walking,
    roots: Seq<usize>,
    k: int,
)
    requires
        well_formed(g),
        well_formed(t),
        g.len() == t.len() <= usize::MAX,
        transposed(g, t),
        linked(g, t, st.blocks),
        has_its_roots(g, t, mode, roots, st.blocks, k),
        0 <= k < roots.len(),
    ensures
        seated(g, t, prune, mode, true, st, roots[k]) matches Ok(next) ==> has_its_roots(
            g,
            t,
            mode,
            roots,
            next.blocks,
            k + 1,
        ),
{
    if let Ok(next) = seated(g, t, prune, mode, true, st, roots[k]) {
        let b = (seeded(g, t, roots[k], mode, true)->Ok_0).0;
        seating_has_its_root(g, t, mode, roots[k], b);
        assert(seq![b][0] == b);
        find_is_in(st.blocks, b.first_out);
        let n = st.blocks.len() as int;
        let at = if find(st.blocks, b.first_out) is Some {
            find(st.blocks, b.first_out)->0
        } else {
            n
        };
        if at < n {
            assert(complete(g, t, st.blocks[at]));
            same_block_same_sides(g, t, st.blocks[at], b);
        }
        assert(is_block_of(g, t, mode, roots[k], next.blocks, at));
        assert forall|r: int| 0 <= r < k + 1 implies has_a_block(
            g,
            t,
            mode,
            #[trigger] roots[r],
            next.blocks,
        ) by {
            if r < k {
                let i = choose|i: int| is_block_of(g, t, mode, roots[r], st.blocks, i);
                assert(next.blocks[i] == st.blocks[i]);
                assert(is_block_of(g, t, mode, roots[r], next.blocks, i));
            }
        }
        let some = roots.take(k);
        let more = roots.take(k + 1);
        assert forall|i: int|
            0 <= i < next.blocks.len() && (
            #[trigger] next.blocks[i]).parent is None implies has_a_root(
            g,
            t,
            mode,
            more,
            next.blocks,
            i,
        ) by {
            if i < n {
                assert(next.blocks[i] == st.blocks[i]);
                let r = choose|r: int|
                    0 <= r < some.len() && #[trigger] is_block_of(
                        g,
                        t,
                        mode,
                        some[r],
                        st.blocks,
                        i,
                    );
                assert(is_block_of(g, t, mode, more[r], next.blocks, i));
            } else {
                assert(is_block_of(g, t, mode, more[k], next.blocks, i));
            }
        }
    }
}

pub(crate) proof fn seating_all_roots(
    g: Lists,
    t: Lists,
    prune: BlockPrune,
    mode: Seed,
    st: Walking,
    roots: Seq<usize>,
    k: int,
)
    requires
        well_formed(g),
        well_formed(t),
        g.len() == t.len() <= usize::MAX,
        transposed(g, t),
        running(g, t, prune, st),
        has_its_roots(g, t, mode, roots, st.blocks, k),
        0 <= k <= roots.len(),
    ensures
        all_seated(g, t, prune, mode, true, st, roots, k) matches Ok(end) ==> has_its_roots(
            g,
            t,
            mode,
            roots,
            end.blocks,
            roots.len() as int,
        ),
    decreases roots.len() - k,
{
    if k < roots.len() {
        if let Ok(next) = seated(g, t, prune, mode, true, st, roots[k]) {
            seating_one_root(g, t, prune, mode, st, roots, k);
            seated_keeps(g, t, prune, mode, st, seq![roots[k]], 0);
            reveal_with_fuel(all_seated, 2);
            seating_all_roots(g, t, prune, mode, next, roots, k + 1);
        }
    }
}

/// What a walk finds is more than it seated.
#[verifier::rlimit(40)]
proof fn what_was_seated_grows(
    g: Lists,
    t: Lists,
    roots: Seq<usize>,
    prune: BlockPrune,
    mode: Seed,
)
    requires
        well_formed(g),
        well_formed(t),
        g.len() == t.len() <= usize::MAX,
        transposed(g, t),
        found(g, t, roots, prune, mode, true) is Ok,
    ensures
        all_seated(g, t, prune, mode, true, not_started(), roots, 0) is Ok,
        grows(
            all_seated(g, t, prune, mode, true, not_started(), roots, 0)->Ok_0,
            found(g, t, roots, prune, mode, true)->Ok_0,
        ),
{
    let start = not_started();
    seated_keeps(g, t, prune, mode, start, roots, 0);
    seating_all(g, t, prune, mode, start, roots, 0);
    let first = all_seated(g, t, prune, mode, true, start, roots, 0)->Ok_0;
    let none = |x: int| false;
    assert(going(g, t, prune, first, 0, none)) by {
        reveal(steady);
        reveal(in_levels);
    }
    expanding_all(g, t, prune, first, 0);
}

/// A walk starts where it was told. For every root the block it stands for is drawn:
/// the one that made it, where that was asked for or nothing spends it, else the one
/// that spends it. And every block that hangs under none is one that a root stands
/// for.
#[verifier::rlimit(40)]
pub proof fn a_walk_starts_where_it_was_told(
    g: Lists,
    t: Lists,
    roots: Seq<usize>,
    prune: BlockPrune,
    mode: Seed,
)
    requires
        well_formed(g),
        well_formed(t),
        g.len() == t.len() <= usize::MAX,
        transposed(g, t),
    ensures
        walked(g, t, roots, prune, mode, true) matches Ok(w) ==> {
            &&& forall|r: int|
                0 <= r < roots.len() ==> has_a_block(g, t, mode, #[trigger] roots[r], w.blocks)
            &&& forall|i: int|
                0 <= i < w.blocks.len() && (#[trigger] w.blocks[i]).parent is None ==> has_a_root(
                    g,
                    t,
                    mode,
                    roots,
                    w.blocks,
                    i,
                )
        },
{
    if let Ok(st) = found(g, t, roots, prune, mode, true) {
        let w = walked(g, t, roots, prune, mode, true)->Ok_0;
        let start = not_started();
        seating_all_roots(g, t, prune, mode, start, roots, 0);
        let first = all_seated(g, t, prune, mode, true, start, roots, 0)->Ok_0;
        what_was_seated_grows(g, t, roots, prune, mode);
        assert(roots.take(roots.len() as int) =~= roots);
        assert forall|i: int| 0 <= i < first.blocks.len() implies (
        #[trigger] w.blocks[i]).inputs == first.blocks[i].inputs && w.blocks[i].outputs
            == first.blocks[i].outputs && (first.blocks[i].parent is Some
            ==> w.blocks[i].parent is Some) by {
            assert(st.blocks[i].inputs == first.blocks[i].inputs);
        }
        assert forall|i: int| first.blocks.len() <= i < w.blocks.len() implies (
        #[trigger] w.blocks[i]).parent is Some by {
            assert(st.blocks[i].parent is Some);
        }
        roots_stay(g, t, mode, roots, first.blocks, w.blocks);
    }
}

proof fn roots_stay(
    g: Lists,
    t: Lists,
    mode: Seed,
    roots: Seq<usize>,
    a: Seq<BlockView>,
    b: Seq<BlockView>,
)
    requires
        has_its_roots(g, t, mode, roots, a, roots.len() as int),
        a.len() <= b.len(),
        forall|i: int|
            0 <= i < a.len() ==> (#[trigger] b[i]).inputs == a[i].inputs && b[i].outputs
                == a[i].outputs && (a[i].parent is Some ==> b[i].parent is Some),
        forall|i: int| a.len() <= i < b.len() ==> (#[trigger] b[i]).parent is Some,
    ensures
        has_its_roots(g, t, mode, roots, b, roots.len() as int),
{
    assert(roots.take(roots.len() as int) =~= roots);
    assert forall|r: int| 0 <= r < roots.len() implies has_a_block(
        g,
        t,
        mode,
        #[trigger] roots[r],
        b,
    ) by {
        let i = choose|i: int| #[trigger] is_block_of(g, t, mode, roots[r], a, i);
        assert(b[i].inputs == a[i].inputs);
        assert(is_block_of(g, t, mode, roots[r], b, i));
    }
    assert forall|i: int| 0 <= i < b.len() && (#[trigger] b[i]).parent is None implies has_a_root(
        g,
        t,
        mode,
        roots,
        b,
        i,
    ) by {
        assert(a[i].parent is None);
        let r = choose|r: int|
            0 <= r < roots.len() && #[trigger] is_block_of(g, t, mode, roots[r], a, i);
        assert(is_block_of(g, t, mode, roots[r], b, i));
    }
}

/// A walk shows what its fanouts show: of every side all that is at either end, half
/// of what the fanout allows at each, and nothing of a side is hidden that the fanout
/// is enough for.
pub proof fn a_walk_shows_what_its_fanouts_show(
    g: Lists,
    t: Lists,
    roots: Seq<usize>,
    prune: BlockPrune,
    mode: Seed,
    i: int,
    j: int,
)
    requires
        well_formed(g),
        well_formed(t),
        g.len() == t.len() <= usize::MAX,
        transposed(g, t),
    ensures
        walked(g, t, roots, prune, mode, true) matches Ok(w) ==> (0 <= i < w.blocks.len() ==> {
            let b = w.blocks[i];
            &&& 0 <= j < b.outputs.len() && is_shown_by(
                prune.fanout_out,
                b.outputs.len() as int,
                j,
            ) ==> b.kept_out.keeps(b.outputs.len(), j)
            &&& 0 <= j < b.inputs.len() && is_shown_by(prune.fanout_in, b.inputs.len() as int, j)
                ==> b.kept_in.keeps(b.inputs.len(), j)
        }),
{
    if let Ok(st) = found(g, t, roots, prune, mode, true) {
        let w = walked(g, t, roots, prune, mode, true)->Ok_0;
        a_walk_is_linked_and_within_its_budgets(g, t, roots, prune, mode);
        unhiding_only_shows(g, t, prune, st.blocks);
        if 0 <= i < w.blocks.len() {
            let b = st.blocks[i];
            assert(cut_by(prune, b));
            cut_counts(b.outputs.len(), prune.fanout_out);
            cut_counts(b.inputs.len(), prune.fanout_in);
            if 0 <= j < b.outputs.len() && is_shown_by(
                prune.fanout_out,
                b.outputs.len() as int,
                j,
            ) {
                assert(unhidden(st.blocks)[i].kept_out.keeps(b.outputs.len(), j));
            }
            if 0 <= j < b.inputs.len() && is_shown_by(
                prune.fanout_in,
                b.inputs.len() as int,
                j,
            ) {
                let half = outputs_unhidden(st.blocks);
                let n = b.inputs.len();
                let p = |x: usize| wanted_in(half, i, x);
                linked_blocks_are_blocks(g, t, prune, st.blocks);
                fits_after(st.blocks, i, i);
                revealing_is_exact(b.kept_in, n, p, j as usize);
                assert(half[i].kept_in == b.kept_in);
                assert(unhidden(st.blocks)[i].kept_in == b.kept_in.revealing(n, p));
            }
        }
    }
}

} // verus!
