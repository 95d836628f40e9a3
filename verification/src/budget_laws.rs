//! What a walk's budget of nodes comes to.

use vstd::prelude::*;

use crate::blocks::{BlockView, Seed};
use crate::graph::{successor_list, well_formed, Lists};
use crate::kept::{shown_is_exact, Cut};
use crate::report::BlockPrune;
use crate::settle::{
    all_blocks, feeds, is_fed, outputs_unhidden, unhidden, wanted_in, wanted_out,
};
use crate::settle_laws::{consumer_is_in, fits_after, revealing_is_exact};
use crate::walk::{found, walked};
use crate::walk_laws::{
    a_walk_is_linked_and_within_its_budgets, complete, cut_by, linked, shown_total, transposed,
};

verus! {

/// Kept input `i` of block `b` is node `v`.
pub open spec fn shows_in(blocks: Seq<BlockView>, v: usize, b: int, i: int) -> bool {
    &&& 0 <= b < blocks.len()
    &&& 0 <= i < blocks[b].inputs.len()
    &&& blocks[b].kept_in.keeps(blocks[b].inputs.len(), i)
    &&& blocks[b].inputs[i] == v
}

/// Kept output `j` of block `b` is node `v`.
pub open spec fn shows_out(blocks: Seq<BlockView>, v: usize, b: int, j: int) -> bool {
    &&& 0 <= b < blocks.len()
    &&& 0 <= j < blocks[b].outputs.len()
    &&& blocks[b].kept_out.keeps(blocks[b].outputs.len(), j)
    &&& blocks[b].outputs[j] == v
}

/// Node `v` is kept on some side of some block.
pub open spec fn is_shown(blocks: Seq<BlockView>, v: usize) -> bool {
    ||| exists|b: int, i: int| shows_in(blocks, v, b, i)
    ||| exists|b: int, j: int| shows_out(blocks, v, b, j)
}

/// The nodes that are kept on some side of some block.
pub open spec fn shown_ids(blocks: Seq<BlockView>) -> Set<usize> {
    Set::new(|v: usize| is_shown(blocks, v))
}

/// Un-hiding shows no node that was not shown somewhere, and hides none.
pub proof fn unhiding_shows_the_same_nodes(blocks: Seq<BlockView>)
    requires
        all_blocks(blocks),
    ensures
        shown_ids(unhidden(blocks)) == shown_ids(blocks),
{
    let half = outputs_unhidden(blocks);
    let end = unhidden(blocks);
    assert forall|v: usize| is_shown(end, v) <==> is_shown(blocks, v) by {
        if is_shown(blocks, v) {
            if exists|b: int, i: int| shows_in(blocks, v, b, i) {
                let (b, i) = choose|b: int, i: int| shows_in(blocks, v, b, i);
                fits_after(blocks, b, b);
                revealing_is_exact(
                    half[b].kept_in,
                    blocks[b].inputs.len(),
                    |x: usize| wanted_in(half, b, x),
                    i as usize,
                );
                assert(shows_in(end, v, b, i));
            } else {
                let (b, j) = choose|b: int, j: int| shows_out(blocks, v, b, j);
                fits_after(blocks, b, b);
                revealing_is_exact(
                    blocks[b].kept_out,
                    blocks[b].outputs.len(),
                    |x: usize| wanted_out(blocks, b, x),
                    j as usize,
                );
                assert(shows_out(end, v, b, j));
            }
        }
        if is_shown(end, v) {
            if exists|b: int, i: int| shows_in(end, v, b, i) {
                let (b, i) = choose|b: int, i: int| shows_in(end, v, b, i);
                fits_after(blocks, b, b);
                revealing_is_exact(
                    half[b].kept_in,
                    blocks[b].inputs.len(),
                    |x: usize| wanted_in(half, b, x),
                    i as usize,
                );
                if blocks[b].kept_in.keeps(blocks[b].inputs.len(), i) {
                    assert(shows_in(blocks, v, b, i));
                } else {
                    let at = i as usize;
                    assert(wanted_in(half, b, at));
                    let (q, o) = choose|q: int, o: int| #[trigger] is_fed(half, b, at, q, o);
                    consumer_is_in(half, half[q].outputs[o]);
                    a_kept_output_was_shown(blocks, q, o);
                }
            } else {
                let (b, j) = choose|b: int, j: int| shows_out(end, v, b, j);
                a_kept_output_was_shown(blocks, b, j);
            }
        }
    }
    assert(shown_ids(end) =~= shown_ids(blocks));
}

proof fn a_kept_output_was_shown(blocks: Seq<BlockView>, q: int, o: int)
    requires
        all_blocks(blocks),
        0 <= q < blocks.len(),
        0 <= o < blocks[q].outputs.len(),
        outputs_unhidden(blocks)[q].kept_out.keeps(blocks[q].outputs.len(), o),
    ensures
        is_shown(blocks, blocks[q].outputs[o]),
{
    let v = blocks[q].outputs[o];
    fits_after(blocks, q, q);
    assert(blocks[q].is_block());
    revealing_is_exact(
        blocks[q].kept_out,
        blocks[q].outputs.len(),
        |x: usize| wanted_out(blocks, q, x),
        o as usize,
    );
    if blocks[q].kept_out.keeps(blocks[q].outputs.len(), o) {
        assert(shows_out(blocks, v, q, o));
    } else {
        let at = o as usize;
        assert(wanted_out(blocks, q, at));
        let (b, i) = choose|b: int, i: int| #[trigger] feeds(blocks, q, at, b, i);
        assert(shows_in(blocks, v, b, i));
    }
}

/// The nodes kept of a side.
spec fn kept_of(side: Seq<usize>, cut: Cut) -> Seq<usize> {
    cut.shown(side.len()).map_values(|i: usize| side[i as int])
}

proof fn few_are_shown(blocks: Seq<BlockView>)
    requires
        all_blocks(blocks),
    ensures
        shown_ids(blocks).finite(),
        shown_ids(blocks).len() <= shown_total(blocks),
    decreases blocks.len(),
{
    if blocks.len() == 0 {
        assert(shown_ids(blocks) =~= Set::<usize>::empty());
    } else {
        let front = blocks.drop_last();
        let n = front.len() as int;
        let b = blocks[n];
        assert forall|i: int| 0 <= i < front.len() implies (#[trigger] front[i]).is_block() by {
            assert(blocks[i].is_block());
        }
        few_are_shown(front);
        fits_after(blocks, n, n);
        shown_is_exact(b.kept_in, b.inputs.len() as usize);
        shown_is_exact(b.kept_out, b.outputs.len() as usize);
        let ins = kept_of(b.inputs, b.kept_in);
        let outs = kept_of(b.outputs, b.kept_out);
        ins.lemma_cardinality_of_set();
        outs.lemma_cardinality_of_set();
        let all = shown_ids(front).union(ins.to_set()).union(outs.to_set());
        assert forall|v: usize| shown_ids(blocks).contains(v) implies all.contains(v) by {
            if exists|x: int, i: int| shows_in(blocks, v, x, i) {
                let (x, i) = choose|x: int, i: int| shows_in(blocks, v, x, i);
                if x < n {
                    assert(shows_in(front, v, x, i));
                } else {
                    let s = b.kept_in.shown(b.inputs.len());
                    assert(s.contains(i as usize));
                    let k = s.index_of(i as usize);
                    assert(ins[k] == v);
                }
            } else {
                let (x, j) = choose|x: int, j: int| shows_out(blocks, v, x, j);
                if x < n {
                    assert(shows_out(front, v, x, j));
                } else {
                    let s = b.kept_out.shown(b.outputs.len());
                    assert(s.contains(j as usize));
                    let k = s.index_of(j as usize);
                    assert(outs[k] == v);
                }
            }
        }
        vstd::set_lib::lemma_len_union(shown_ids(front), ins.to_set());
        vstd::set_lib::lemma_len_union(shown_ids(front).union(ins.to_set()), outs.to_set());
        assert(shown_ids(blocks).subset_of(all));
        vstd::set_lib::lemma_len_subset(shown_ids(blocks), all);
    }
}

/// Complete blocks cut by the fanouts are blocks.
pub(crate) proof fn linked_blocks_are_blocks(
    g: Lists,
    t: Lists,
    prune: BlockPrune,
    blocks: Seq<BlockView>,
)
    requires
        well_formed(t),
        g.len() == t.len() <= usize::MAX,
        linked(g, t, blocks),
        forall|i: int| 0 <= i < blocks.len() ==> cut_by(prune, #[trigger] blocks[i]),
    ensures
        all_blocks(blocks),
{
    assert forall|i: int| 0 <= i < blocks.len() implies (#[trigger] blocks[i]).is_block() by {
        let b = blocks[i];
        assert(complete(g, t, b));
        assert(cut_by(prune, b));
        assert(t[b.outputs[0] as int] == b.inputs);
        assert(b.outputs[0] < g.len());
        assert(successor_list(t[b.outputs[0] as int], t.len()));
        let n = b.outputs.len();
        assert(b.outputs[n - 1] == b.first_out + n - 1);
        assert(b.inputs[b.inputs.len() - 1] < b.first_out);
    }
}

/// The budgets hold of a walk that is done, un-hiding included: no more blocks than
/// were allowed, and no more nodes on all of their sides, a node that is on two of
/// them counted once.
pub proof fn the_budgets_hold_to_the_end(
    g: Lists,
    t: Lists,
    roots: Seq<usize>,
    prune: BlockPrune,
    mode: Seed,
)
    requires
        well_formed(g),
        well_formed(t),
        g.len() == t.len() <= usize::MAX,
        transposed(g, t),
    ensures
        walked(g, t, roots, prune, mode, true) matches Ok(w) ==> {
            &&& w.blocks.len() <= prune.max_blocks
            &&& shown_ids(w.blocks).finite()
            &&& shown_ids(w.blocks).len() <= prune.max_nodes
        },
{
    a_walk_is_linked_and_within_its_budgets(g, t, roots, prune, mode);
    if let Ok(st) = found(g, t, roots, prune, mode, true) {
        let w = walked(g, t, roots, prune, mode, true)->Ok_0;
        linked_blocks_are_blocks(g, t, prune, st.blocks);
        few_are_shown(st.blocks);
        unhiding_shows_the_same_nodes(st.blocks);
        let end = unhidden(st.blocks);
        assert forall|v: usize| is_shown(w.blocks, v) <==> is_shown(end, v) by {
            if exists|b: int, i: int| shows_in(w.blocks, v, b, i) {
                let (b, i) = choose|b: int, i: int| shows_in(w.blocks, v, b, i);
                assert(shows_in(end, v, b, i));
            }
            if exists|b: int, j: int| shows_out(w.blocks, v, b, j) {
                let (b, j) = choose|b: int, j: int| shows_out(w.blocks, v, b, j);
                assert(shows_out(end, v, b, j));
            }
            if exists|b: int, i: int| shows_in(end, v, b, i) {
                let (b, i) = choose|b: int, i: int| shows_in(end, v, b, i);
                assert(shows_in(w.blocks, v, b, i));
            }
            if exists|b: int, j: int| shows_out(end, v, b, j) {
                let (b, j) = choose|b: int, j: int| shows_out(end, v, b, j);
                assert(shows_out(w.blocks, v, b, j));
            }
        }
        assert(shown_ids(w.blocks) =~= shown_ids(end));
    }
}

} // verus!
