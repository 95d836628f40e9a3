//! What settling leaves behind.

use vstd::prelude::*;

use crate::blocks::BlockView;
use crate::graph::Lists;
use crate::kept::{span, Cut};
use crate::settle::{
    all_blocks, ascending_filter, consumer, feeds, inputs_unhidden, is_fed, is_nearest,
    outputs_unhidden, producer, revealing_is_unique, unhidden, wanted_in, wanted_out,
};
use crate::walk_laws::{complete, linked, outputs_are_of_one_block};

verus! {

/// Revealing keeps what was kept and what is revealed, and nothing else.
pub proof fn revealing_is_exact(cut: Cut, n: nat, p: spec_fn(usize) -> bool, j: usize)
    requires
        cut.fits(n),
        j < n <= usize::MAX,
    ensures
        cut.revealing(n, p).keeps(n, j as int) <==> cut.keeps(n, j as int) || p(j),
{
    if let Cut::Ends { head, tail, extra } = cut {
        let s = span(head as int, n - tail);
        let q = |i: usize| extra.contains(i) || p(i);
        let more = s.filter(q);
        broadcast use vstd::seq_lib::group_filter_ensures;

        if head <= j < n - tail {
            assert(s[j - head] == j);
            assert(s.contains(j));
            if extra.contains(j) || p(j) {
                filter_has(s, q, j - head);
            }
            if more.contains(j) {
                let k = more.index_of(j);
                assert(q(more[k]));
            }
        }
    }
}

proof fn filter_has(s: Seq<usize>, q: spec_fn(usize) -> bool, k: int)
    requires
        0 <= k < s.len(),
        q(s[k]),
    ensures
        s.filter(q).contains(s[k]),
{
    broadcast use vstd::seq_lib::group_filter_ensures;

    assert(s.filter(q).contains(s[k]));
}

/// No node is an output of two of the blocks, nor an input of two.
pub open spec fn apart(blocks: Seq<BlockView>) -> bool {
    &&& forall|i: int, j: int, u: usize|
        0 <= i < blocks.len() && 0 <= j < blocks.len() && #[trigger] blocks[i].outputs.contains(u)
            && #[trigger] blocks[j].outputs.contains(u) ==> i == j
    &&& forall|i: int, j: int, u: usize|
        0 <= i < blocks.len() && 0 <= j < blocks.len() && #[trigger] blocks[i].inputs.contains(u)
            && #[trigger] blocks[j].inputs.contains(u) ==> i == j
}

/// Linked blocks share no output and no input.
pub proof fn linked_blocks_are_apart(g: Lists, t: Lists, blocks: Seq<BlockView>)
    requires
        linked(g, t, blocks),
    ensures
        apart(blocks),
{
    assert forall|i: int, j: int, u: usize|
        0 <= i < blocks.len() && 0 <= j < blocks.len() && #[trigger] blocks[i].outputs.contains(u)
            && #[trigger] blocks[j].outputs.contains(u) implies i == j by {
        outputs_are_of_one_block(g, t, blocks, i, j, u);
    }
    assert forall|i: int, j: int, u: usize|
        0 <= i < blocks.len() && 0 <= j < blocks.len() && #[trigger] blocks[i].inputs.contains(u)
            && #[trigger] blocks[j].inputs.contains(u) implies i == j by {
        assert(complete(g, t, blocks[i]));
        assert(complete(g, t, blocks[j]));
        let x = blocks[i].inputs.index_of(u);
        let y = blocks[j].inputs.index_of(u);
        assert(g[blocks[i].inputs[x] as int] == blocks[i].outputs);
        assert(g[blocks[j].inputs[y] as int] == blocks[j].outputs);
        let o = blocks[i].outputs[0];
        assert(blocks[i].outputs.contains(o));
        assert(blocks[j].outputs.contains(o));
        outputs_are_of_one_block(g, t, blocks, i, j, o);
    }
}

/// The producer of an output is the block whose output it is.
pub(crate) proof fn producer_is_the_block(blocks: Seq<BlockView>, q: int, j: int)
    requires
        apart(blocks),
        all_blocks(blocks),
        0 <= q < blocks.len(),
        0 <= j < blocks[q].outputs.len(),
    ensures
        producer(blocks, blocks[q].outputs[j]) == Some(q),
{
    let b = blocks[q];
    let u = b.outputs[j];
    assert(b.is_block());
    assert forall|i: int|
        0 <= i < blocks.len() && (#[trigger] blocks[i]).first_out <= u && i != q implies blocks[i].first_out
        < b.first_out by {
        if blocks[i].first_out >= b.first_out {
            assert(blocks[i].is_block());
            let k = blocks[i].first_out - b.first_out;
            assert(b.outputs[k] == blocks[i].first_out);
            assert(blocks[i].outputs[0] == blocks[i].first_out);
            assert(blocks[q].outputs.contains(blocks[i].first_out));
            assert(blocks[i].outputs.contains(blocks[i].first_out));
        }
    }
    assert(is_nearest(blocks, u, q));
    let c = choose|i: int| is_nearest(blocks, u, i);
    assert(is_nearest(blocks, u, c));
    assert(blocks[c].first_out >= blocks[q].first_out);
}

proof fn consumer_of_take(blocks: Seq<BlockView>, b: int, ii: int, n: int)
    requires
        apart(blocks),
        0 <= b < n <= blocks.len(),
        0 <= ii < blocks[b].inputs.len(),
        blocks[b].inputs.no_duplicates(),
    ensures
        consumer(blocks.take(n), blocks[b].inputs[ii]) == Some((b, ii)),
    decreases n,
{
    let u = blocks[b].inputs[ii];
    let some = blocks.take(n);
    assert(some.last() == blocks[n - 1]);
    assert(some.drop_last() =~= blocks.take(n - 1));
    assert(blocks[b].inputs.contains(u));
    if b == n - 1 {
        let k = blocks[b].inputs.index_of(u);
        assert(blocks[b].inputs[k] == u && k == ii);
    } else {
        assert(!blocks[n - 1].inputs.contains(u));
        consumer_of_take(blocks, b, ii, n - 1);
    }
}

/// The same sides, whatever is kept of them.
spec fn same_sides(a: Seq<BlockView>, b: Seq<BlockView>) -> bool {
    &&& a.len() == b.len()
    &&& forall|i: int|
        0 <= i < a.len() ==> (#[trigger] b[i]).inputs == a[i].inputs && b[i].outputs == a[i].outputs
            && b[i].first_out == a[i].first_out
}

proof fn apart_by_sides(a: Seq<BlockView>, b: Seq<BlockView>)
    requires
        apart(a),
        same_sides(a, b),
    ensures
        apart(b),
{
    assert forall|i: int, j: int, u: usize|
        0 <= i < b.len() && 0 <= j < b.len() && #[trigger] b[i].outputs.contains(u)
            && #[trigger] b[j].outputs.contains(u) implies i == j by {
        assert(a[i].outputs.contains(u) && a[j].outputs.contains(u));
    }
    assert forall|i: int, j: int, u: usize|
        0 <= i < b.len() && 0 <= j < b.len() && #[trigger] b[i].inputs.contains(u)
            && #[trigger] b[j].inputs.contains(u) implies i == j by {
        assert(a[i].inputs.contains(u) && a[j].inputs.contains(u));
    }
}

pub(crate) proof fn fits_after(blocks: Seq<BlockView>, q: int, b: int)
    requires
        all_blocks(blocks),
        0 <= q < blocks.len(),
        0 <= b < blocks.len(),
    ensures
        blocks[q].kept_out.fits(blocks[q].outputs.len()),
        blocks[b].kept_in.fits(blocks[b].inputs.len()),
        blocks[q].outputs.len() <= usize::MAX,
        blocks[b].inputs.len() <= usize::MAX,
        blocks[b].inputs.no_duplicates(),
{
    assert(blocks[q].is_block());
    assert(blocks[b].is_block());
    let s = blocks[b].inputs;
    crate::kept::ascending_fits(s, 0, blocks[b].first_out as int);
    assert forall|i: int, j: int|
        0 <= i < s.len() && 0 <= j < s.len() && i != j implies s[i] != s[j] by {
        if i < j {
            assert(s[i] < s[j]);
        } else {
            assert(s[j] < s[i]);
        }
    }
}

/// Once blocks that share no output and no input are settled, a node that is an
/// output of one and an input of another is shown by both or by neither: nothing
/// the page shows is hidden anywhere on it.
pub proof fn nothing_shown_is_hidden(
    blocks: Seq<BlockView>,
    q: int,
    j: usize,
    b: int,
    ii: usize,
)
    requires
        apart(blocks),
        all_blocks(blocks),
        0 <= q < blocks.len(),
        j < blocks[q].outputs.len(),
        0 <= b < blocks.len(),
        ii < blocks[b].inputs.len(),
        blocks[q].outputs[j as int] == blocks[b].inputs[ii as int],
    ensures
        ({
            let end = unhidden(blocks);
            end[b].kept_in.keeps(end[b].inputs.len(), ii as int) <==> end[q].kept_out.keeps(
                end[q].outputs.len(),
                j as int,
            )
        }),
{
    let u = blocks[b].inputs[ii as int];
    let half = outputs_unhidden(blocks);
    let end = inputs_unhidden(half);
    fits_after(blocks, q, b);
    assert(same_sides(blocks, half));
    apart_by_sides(blocks, half);
    assert(blocks[q].is_block());
    producer_is_the_block(blocks, q, j as int);
    let n_out = blocks[q].outputs.len();
    let n_in = blocks[b].inputs.len();
    let p_out = |x: usize| wanted_out(blocks, q, x);
    revealing_is_exact(blocks[q].kept_out, n_out, p_out, j);
    assert(half[q].kept_out == blocks[q].kept_out.revealing(n_out, p_out));
    let p_in = |x: usize| wanted_in(half, b, x);
    revealing_is_exact(half[b].kept_in, n_in, p_in, ii);
    assert(end[b].kept_in == half[b].kept_in.revealing(n_in, p_in));
    assert(end[q].kept_out == half[q].kept_out);
    consumer_of_take(half, b, ii as int, half.len() as int);
    assert(half.take(half.len() as int) =~= half);
    if blocks[b].kept_in.keeps(n_in, ii as int) {
        assert(blocks[q].outputs[j as int] == blocks[q].first_out + j);
        assert(feeds(blocks, q, j, b, ii as int));
        assert(wanted_out(blocks, q, j));
    }
    if half[q].kept_out.keeps(n_out, j as int) {
        assert(is_fed(half, b, ii, q, j as int));
        assert(wanted_in(half, b, ii));
    }
    if wanted_in(half, b, ii) {
        let (q2, oi) = choose|q2: int, oi: int| is_fed(half, b, ii, q2, oi);
        let v = half[q2].outputs[oi];
        consumer_is_in(half, v);
        assert(v == u);
        assert(half[q2].outputs.contains(u));
        assert(half[q].outputs.contains(u));
        assert(blocks[q].outputs[oi] == blocks[q].first_out + oi);
        assert(blocks[q].outputs[j as int] == blocks[q].first_out + j);
    }
}

/// Settling keeps the sides of every block, and cuts that fit them.
pub(crate) proof fn settling_keeps_blocks(blocks: Seq<BlockView>)
    requires
        all_blocks(blocks),
    ensures
        all_blocks(unhidden(blocks)),
        unhidden(blocks).len() == blocks.len(),
        apart(blocks) ==> apart(unhidden(blocks)),
        forall|i: int|
            0 <= i < blocks.len() ==> (#[trigger] unhidden(blocks)[i]).inputs == blocks[i].inputs
                && unhidden(blocks)[i].outputs == blocks[i].outputs
                && unhidden(blocks)[i].first_out == blocks[i].first_out
                && unhidden(blocks)[i].parent == blocks[i].parent,
{
    let half = outputs_unhidden(blocks);
    let end = unhidden(blocks);
    assert(same_sides(blocks, end));
    if apart(blocks) {
        apart_by_sides(blocks, end);
    }
    assert forall|i: int| 0 <= i < end.len() implies (#[trigger] end[i]).is_block() by {
        assert(blocks[i].is_block());
        fits_after(blocks, i, i);
        let n_out = blocks[i].outputs.len();
        let n_in = blocks[i].inputs.len();
        revealing_fits(blocks[i].kept_out, n_out as usize, |x: usize| wanted_out(blocks, i, x));
        revealing_fits(half[i].kept_in, n_in as usize, |x: usize| wanted_in(half, i, x));
    }
}

/// Un-hiding once settles it: a second time changes nothing.
pub proof fn a_second_unhiding_changes_nothing(blocks: Seq<BlockView>)
    requires
        apart(blocks),
        all_blocks(blocks),
    ensures
        unhidden(unhidden(blocks)) == unhidden(blocks),
{
    let end = unhidden(blocks);
    settling_keeps_blocks(blocks);
    let again = outputs_unhidden(end);
    assert forall|q: int| 0 <= q < end.len() implies #[trigger] again[q] == end[q] by {
        let n = end[q].outputs.len();
        let p = |j: usize| wanted_out(end, q, j);
        fits_after(end, q, q);
        assert(end[q].is_block());
        assert forall|j: usize| j < n implies (#[trigger] end[q].kept_out.keeps(n, j as int)
            <==> end[q].kept_out.keeps(n, j as int) || p(j)) by {
            if p(j) {
                let (b, ii) = choose|b: int, ii: int| feeds(end, q, j, b, ii);
                assert(end[b].is_block());
                fits_after(end, q, b);
                assert(end[q].outputs[j as int] == end[q].first_out + j);
                nothing_shown_is_hidden(blocks, q, j, b, ii as usize);
            }
        }
        revealing_is_unique(end[q].kept_out, end[q].kept_out, n as usize, p);
    }
    assert(again =~= end);
    let twice = inputs_unhidden(end);
    assert forall|b: int| 0 <= b < end.len() implies #[trigger] twice[b] == end[b] by {
        let n = end[b].inputs.len();
        let p = |ii: usize| wanted_in(end, b, ii);
        fits_after(end, b, b);
        assert forall|ii: usize| ii < n implies (#[trigger] end[b].kept_in.keeps(n, ii as int)
            <==> end[b].kept_in.keeps(n, ii as int) || p(ii)) by {
            if p(ii) {
                let (q, oi) = choose|q: int, oi: int| is_fed(end, b, ii, q, oi);
                consumer_is_in(end, end[q].outputs[oi]);
                fits_after(end, q, b);
                nothing_shown_is_hidden(blocks, q, oi as usize, b, ii);
            }
        }
        revealing_is_unique(end[b].kept_in, end[b].kept_in, n as usize, p);
    }
    assert(twice =~= end);
}

proof fn revealing_fits(cut: Cut, n: usize, p: spec_fn(usize) -> bool)
    requires
        cut.fits(n as nat),
    ensures
        cut.revealing(n as nat, p).fits(n as nat),
{
    if let Cut::Ends { head, tail, extra } = cut {
        let s = span(head as int, n - tail);
        let q = |i: usize| extra.contains(i) || p(i);
        ascending_filter(s, q);
        broadcast use vstd::seq_lib::group_filter_ensures;

        let more = s.filter(q);
        assert forall|i: int| 0 <= i < more.len() implies head <= #[trigger] more[i] < n - tail by {
            assert(more.contains(more[i]));
            let k = s.index_of(more[i]);
            assert(s[k] == more[i]);
        }
    }
}

pub(crate) proof fn consumer_is_in(blocks: Seq<BlockView>, u: usize)
    ensures
        consumer(blocks, u) matches Some((b, ii)) ==> 0 <= b < blocks.len() && 0 <= ii
            < blocks[b].inputs.len() && blocks[b].inputs[ii] == u,
    decreases blocks.len(),
{
    if blocks.len() > 0 && !blocks.last().inputs.contains(u) {
        consumer_is_in(blocks.drop_last(), u);
    }
}

} // verus!
