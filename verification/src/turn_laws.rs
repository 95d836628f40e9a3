//! In which order a walk over blocks comes by them.

use vstd::prelude::*;

use crate::blocks::{seeded, BlockView, Seed};
use crate::follow_laws::{has_a_root, is_block_of, seating_all_roots, seating_has_its_root};
use crate::graph::{well_formed, Lists};
use crate::kept::shown_is_exact;
use crate::report::BlockPrune;
use crate::walk::{
    adopted, all_expanded, all_seated, expanded, find, find_is_in, found, not_started,
    past_all_hidden, past_all_kept, past_hidden, past_kept, seated, walked, Walking,
};
use crate::walk_laws::{
    complete, cut_by, expanded_keeps, hidden_keeps, kept_keeps, running, seated_keeps, transposed,
    walking,
};

verus! {

/// One block was found before another: from a block before that one's, or from the same
/// and through an output before.
pub open spec fn is_found_before(a: BlockView, b: BlockView) -> bool {
    match (a.parent, b.parent) {
        (Some((p, o)), Some((q, u))) => p < q || p == q && o < u,
        _ => false,
    }
}

/// The blocks from the `m`th on were found in this order, through outputs before `o` of
/// block `head` or of blocks before that.
spec fn in_turn(blocks: Seq<BlockView>, m: int, head: int, o: int) -> bool {
    &&& 0 <= m <= blocks.len()
    &&& forall|i: int|
        m <= i < blocks.len() ==> ((#[trigger] blocks[i]).parent matches Some((p, u)) && (p < head
            || p == head && u < o))
    &&& forall|i: int, j: int|
        m <= i < j < blocks.len() ==> is_found_before(#[trigger] blocks[i], #[trigger] blocks[j])
}

proof fn adopting_in_turn(st: Walking, m: int, head: int, o: int, bi: int, key: usize, u: usize)
    requires
        in_turn(st.blocks, m, head, o),
        find(st.blocks, key) is Some,
    ensures
        in_turn(adopted(st, bi, key, u).blocks, m, head, o),
        adopted(st, bi, key, u).blocks.len() == st.blocks.len(),
        adopted(st, bi, key, u).blocks.take(m).len() == st.blocks.take(m).len(),
{
    find_is_in(st.blocks, key);
    let ci = find(st.blocks, key)->0;
    let next = adopted(st, bi, key, u).blocks;
    if ci != bi && st.blocks[ci].parent is None {
        assert(ci < m);
        assert forall|i: int| m <= i < next.len() implies #[trigger] next[i] == st.blocks[i] by {}
    }
}

proof fn asking_in_turn(
    g: Lists,
    st: Walking,
    b: BlockView,
    m: int,
    head: int,
    k: int,
)
    requires
        in_turn(st.blocks, m, head, 0),
        0 <= k,
    ensures
        in_turn(past_all_hidden(g, st, b, head, k).blocks, m, head, 0),
    decreases b.outputs.len() - k,
{
    if k < b.outputs.len() {
        if b.kept_out.keeps(b.outputs.len(), k) {
            asking_in_turn(g, st, b, m, head, k + 1);
        } else {
            let o = b.outputs[k];
            let next = past_hidden(g, st, head, o);
            if g[o as int].len() > 0 {
                let key = g[o as int][0];
                let marked = Walking { led: st.led.insert(o), ..st };
                if find(st.blocks, key) is Some {
                    adopting_in_turn(marked, m, head, 0, head, key, o);
                }
            }
            asking_in_turn(g, next, b, m, head, k + 1);
        }
    }
}

proof fn turn_goes_on(blocks: Seq<BlockView>, m: int, head: int, o: int, later: int)
    requires
        in_turn(blocks, m, head, o),
        o <= later,
    ensures
        in_turn(blocks, m, head, later),
        in_turn(blocks, m, head + 1, 0),
{
}

#[verifier::rlimit(40)]
proof fn following_in_turn(
    g: Lists,
    t: Lists,
    prune: BlockPrune,
    st: Walking,
    b: BlockView,
    m: int,
    head: int,
    j: int,
    o: int,
)
    requires
        in_turn(st.blocks, m, head, o),
        walking(g, t, prune, st, b, head),
        head < u32::MAX,
        well_formed(g),
        well_formed(t),
        g.len() == t.len() <= usize::MAX,
        transposed(g, t),
        cut_by(prune, b),
        0 <= j <= b.kept_out.shown(b.outputs.len()).len(),
        b.outputs.len() <= usize::MAX,
        j < b.kept_out.shown(b.outputs.len()).len() ==> o <= b.outputs[b.kept_out.shown(
            b.outputs.len(),
        )[j] as int],
    ensures
        past_all_kept(g, t, prune, true, st, b, head, j) matches Ok(end) ==> in_turn(
            end.blocks,
            m,
            head + 1,
            0,
        ),
    decreases b.kept_out.shown(b.outputs.len()).len() - j,
{
    let n = b.outputs.len();
    let shown = b.kept_out.shown(n);
    assert(b.kept_out.fits(n));
    shown_is_exact(b.kept_out, n as usize);
    if j < shown.len() {
        let u = b.outputs[shown[j] as int];
        assert(shown[j] < n);
        assert(b.outputs.contains(u));
        kept_keeps(g, t, prune, st, b, head, u);
        turn_goes_on(st.blocks, m, head, o, u as int);
        if let Ok(next) = past_kept(g, t, prune, true, st, b, head, u) {
            let after = u + 1;
            if g[u as int].len() > 0 && find(st.blocks, g[u as int][0]) is Some {
                adopting_in_turn(st, m, head, u as int, head, g[u as int][0], u);
                turn_goes_on(next.blocks, m, head, u as int, after);
            } else if next.blocks.len() == st.blocks.len() {
                turn_goes_on(next.blocks, m, head, u as int, after);
            } else {
                let last = st.blocks.len() as int;
                assert(next.blocks[last].parent == Some((head as u32, u)));
                assert forall|i: int| 0 <= i < last implies #[trigger] next.blocks[i]
                    == st.blocks[i] by {}
            }
            if j + 1 < shown.len() {
                assert(shown[j] < shown[j + 1]);
                assert(b.outputs[shown[j] as int] == b.first_out + shown[j]);
                assert(b.outputs[shown[j + 1] as int] == b.first_out + shown[j + 1]);
            }
            following_in_turn(g, t, prune, next, b, m, head, j + 1, after);
        }
    } else {
        turn_goes_on(st.blocks, m, head, o, o);
    }
}

spec fn had_its_turn(blocks: Seq<BlockView>, m: int) -> bool {
    exists|h: int| #[trigger] in_turn(blocks, m, h, 0)
}

#[verifier::rlimit(40)]
proof fn expanding_in_turn(
    g: Lists,
    t: Lists,
    prune: BlockPrune,
    st: Walking,
    m: int,
    head: int,
)
    requires
        in_turn(st.blocks, m, head, 0),
        running(g, t, prune, st),
        0 <= head <= st.blocks.len(),
        well_formed(g),
        well_formed(t),
        g.len() == t.len() <= usize::MAX,
        transposed(g, t),
    ensures
        all_expanded(g, t, prune, true, st, head) matches Ok(end) ==> had_its_turn(end.blocks, m),
    decreases u32::MAX - head,
{
    if head < st.blocks.len() && head < u32::MAX {
        let b = st.blocks[head];
        assert(complete(g, t, b));
        assert(cut_by(prune, b));
        let n = b.outputs.len();
        assert(b.outputs[n - 1] == b.first_out + n - 1);
        assert(b.inputs[0] < b.first_out);
        asking_in_turn(g, st, b, m, head, 0);
        hidden_keeps(g, t, prune, st, b, head, 0);
        following_in_turn(g, t, prune, past_all_hidden(g, st, b, head, 0), b, m, head, 0, 0);
        expanded_keeps(g, t, prune, st, head);
        if let Ok(next) = expanded(g, t, prune, true, st, head) {
            assert(in_turn(next.blocks, m, head + 1, 0));
            expanding_in_turn(g, t, prune, next, m, head + 1);
            assert(all_expanded(g, t, prune, true, st, head) == all_expanded(
                g,
                t,
                prune,
                true,
                next,
                head + 1,
            ));
        }
    } else {
        assert(all_expanded(g, t, prune, true, st, head) == Ok::<Walking, Seq<char>>(st));
        assert(in_turn(st.blocks, m, head, 0));
        assert(had_its_turn(st.blocks, m));
    }
}

/// The blocks of a walk from the `m`th on are in the order in which the outputs of those
/// before lead to them.
pub open spec fn are_in_turn(blocks: Seq<BlockView>, m: int) -> bool {
    &&& 0 < m <= blocks.len()
    &&& forall|i: int, j: int|
        m <= i < j < blocks.len() ==> is_found_before(#[trigger] blocks[i], #[trigger] blocks[j])
    &&& forall|i: int| m <= i < blocks.len() ==> (#[trigger] blocks[i]).parent is Some
}

/// The seeds of a walk come first, that of the first root before all. The other blocks
/// come in the order in which they are found: those that outputs of an earlier block
/// lead to before those of a later one, and of one block in the order of the outputs.
#[verifier::rlimit(40)]
pub proof fn blocks_come_in_the_order_they_are_found(
    g: Lists,
    t: Lists,
    roots: Seq<usize>,
    prune: BlockPrune,
    mode: Seed,
)
    requires
        well_formed(g),
        well_formed(t),
        g.len() == t.len() <= usize::MAX,
        transposed(g, t),
    ensures
        walked(g, t, roots, prune, mode, true) matches Ok(w) ==> {
            &&& is_block_of(g, t, mode, roots[0], w.blocks, 0)
            &&& exists|m: int|
                {
                    &&& #[trigger] are_in_turn(w.blocks, m)
                    &&& forall|i: int|
                        0 <= i < m ==> #[trigger] has_a_root(g, t, mode, roots, w.blocks, i)
                }
        },
{
    if let Ok(st) = found(g, t, roots, prune, mode, true) {
        let w = walked(g, t, roots, prune, mode, true)->Ok_0;
        let start = not_started();
        seated_keeps(g, t, prune, mode, start, roots, 0);
        seating_all_roots(g, t, prune, mode, start, roots, 0);
        seeds_have_no_parent(g, t, prune, mode, start, roots, 0);
        let first = all_seated(g, t, prune, mode, true, start, roots, 0)->Ok_0;
        let m = first.blocks.len() as int;
        assert(in_turn(first.blocks, m, 0, 0));
        expanding_in_turn(g, t, prune, first, m, 0);
        let h = choose|h: int| #[trigger] in_turn(st.blocks, m, h, 0);
        sides_stay(g, t, prune, first, 0);
        assert(roots.take(roots.len() as int) =~= roots);
        assert forall|i: int| 0 <= i < w.blocks.len() implies (#[trigger] w.blocks[i]).parent
            == st.blocks[i].parent && w.blocks[i].inputs == st.blocks[i].inputs
            && w.blocks[i].outputs == st.blocks[i].outputs by {}
        assert forall|i: int| 0 <= i < m implies #[trigger] has_a_root(
            g,
            t,
            mode,
            roots,
            w.blocks,
            i,
        ) by {
            assert(first.blocks[i].parent is None);
            let r = choose|r: int|
                0 <= r < roots.len() && #[trigger] is_block_of(
                    g,
                    t,
                    mode,
                    roots[r],
                    first.blocks,
                    i,
                );
            assert(st.blocks[i].inputs == first.blocks[i].inputs);
            assert(is_block_of(g, t, mode, roots[r], w.blocks, i));
        }
        the_first_root_is_first(g, t, prune, mode, roots);
        assert(st.blocks[0].inputs == first.blocks[0].inputs);
        assert forall|i: int, j: int| m <= i < j < w.blocks.len() implies is_found_before(
            #[trigger] w.blocks[i],
            #[trigger] w.blocks[j],
        ) by {
            assert(is_found_before(st.blocks[i], st.blocks[j]));
        }
        assert(are_in_turn(w.blocks, m));
    }
}

proof fn seeds_have_no_parent(
    g: Lists,
    t: Lists,
    prune: BlockPrune,
    mode: Seed,
    st: Walking,
    roots: Seq<usize>,
    k: int,
)
    requires
        forall|i: int| 0 <= i < st.blocks.len() ==> (#[trigger] st.blocks[i]).parent is None,
    ensures
        all_seated(g, t, prune, mode, true, st, roots, k) matches Ok(end) ==> {
            &&& forall|i: int|
                0 <= i < end.blocks.len() ==> (#[trigger] end.blocks[i]).parent is None
            &&& st.blocks.len() <= end.blocks.len()
            &&& forall|i: int|
                0 <= i < st.blocks.len() ==> #[trigger] end.blocks[i] == st.blocks[i]
        },
    decreases roots.len() - k,
{
    if k < roots.len() {
        if let Ok(next) = seated(g, t, prune, mode, true, st, roots[k]) {
            assert forall|i: int| 0 <= i < next.blocks.len() implies (
            #[trigger] next.blocks[i]).parent is None by {
                if i < st.blocks.len() {
                    assert(next.blocks[i] == st.blocks[i]);
                }
            }
            seeds_have_no_parent(g, t, prune, mode, next, roots, k + 1);
            if let Ok(end) = all_seated(g, t, prune, mode, true, st, roots, k) {
                assert forall|i: int| 0 <= i < st.blocks.len() implies #[trigger] end.blocks[i]
                    == st.blocks[i] by {
                    assert(end.blocks[i] == next.blocks[i]);
                }
            }
        }
    }
}

proof fn the_first_root_is_first(
    g: Lists,
    t: Lists,
    prune: BlockPrune,
    mode: Seed,
    roots: Seq<usize>,
)
    requires
        well_formed(g),
        well_formed(t),
        g.len() == t.len() <= usize::MAX,
        transposed(g, t),
        roots.len() > 0,
        all_seated(g, t, prune, mode, true, not_started(), roots, 0) is Ok,
    ensures
        is_block_of(
            g,
            t,
            mode,
            roots[0],
            (all_seated(g, t, prune, mode, true, not_started(), roots, 0)->Ok_0).blocks,
            0,
        ),
{
    let start = not_started();
    let next = seated(g, t, prune, mode, true, start, roots[0])->Ok_0;
    let b = (seeded(g, t, roots[0], mode, true)->Ok_0).0;
    seating_has_its_root(g, t, mode, roots[0], b);
    assert(seq![b][0] == b);
    find_is_in(start.blocks, b.first_out);
    assert(next.blocks.len() == 1);
    assert(next.blocks[0].parent is None);
    seeds_have_no_parent(g, t, prune, mode, next, roots, 1);
    let end = all_seated(g, t, prune, mode, true, start, roots, 0)->Ok_0;
    assert(end.blocks[0] == next.blocks[0]);
}

/// The blocks that are there keep their sides.
spec fn same_sides(a: Seq<BlockView>, b: Seq<BlockView>) -> bool {
    &&& a.len() <= b.len()
    &&& forall|i: int|
        0 <= i < a.len() ==> (#[trigger] b[i]).inputs == a[i].inputs && b[i].outputs == a[i].outputs
}

proof fn hidden_keep_sides(g: Lists, st: Walking, b: BlockView, bi: int, k: int)
    ensures
        same_sides(st.blocks, past_all_hidden(g, st, b, bi, k).blocks),
    decreases b.outputs.len() - k,
{
    if k < b.outputs.len() {
        if b.kept_out.keeps(b.outputs.len(), k) {
            hidden_keep_sides(g, st, b, bi, k + 1);
        } else {
            let o = b.outputs[k];
            let next = past_hidden(g, st, bi, o);
            if g[o as int].len() > 0 {
                find_is_in(st.blocks, g[o as int][0]);
            }
            assert(same_sides(st.blocks, next.blocks));
            hidden_keep_sides(g, next, b, bi, k + 1);
            sides_go_on(st.blocks, next.blocks, past_all_hidden(g, next, b, bi, k + 1).blocks);
        }
    }
}

proof fn sides_go_on(a: Seq<BlockView>, b: Seq<BlockView>, c: Seq<BlockView>)
    requires
        same_sides(a, b),
        same_sides(b, c),
    ensures
        same_sides(a, c),
{
    assert forall|i: int| 0 <= i < a.len() implies (#[trigger] c[i]).inputs == a[i].inputs
        && c[i].outputs == a[i].outputs by {
        assert(b[i].inputs == a[i].inputs);
    }
}

proof fn kept_keep_sides(
    g: Lists,
    t: Lists,
    prune: BlockPrune,
    st: Walking,
    b: BlockView,
    bi: int,
    j: int,
)
    ensures
        past_all_kept(g, t, prune, true, st, b, bi, j) matches Ok(end) ==> same_sides(
            st.blocks,
            end.blocks,
        ),
    decreases b.kept_out.shown(b.outputs.len()).len() - j,
{
    let shown = b.kept_out.shown(b.outputs.len());
    if j < shown.len() {
        let o = b.outputs[shown[j] as int];
        if g[o as int].len() > 0 {
            find_is_in(st.blocks, g[o as int][0]);
        }
        if let Ok(next) = past_kept(g, t, prune, true, st, b, bi, o) {
            assert(same_sides(st.blocks, next.blocks));
            kept_keep_sides(g, t, prune, next, b, bi, j + 1);
            if let Ok(end) = past_all_kept(g, t, prune, true, next, b, bi, j + 1) {
                sides_go_on(st.blocks, next.blocks, end.blocks);
            }
        }
    }
}

proof fn sides_stay(g: Lists, t: Lists, prune: BlockPrune, st: Walking, bi: int)
    requires
        0 <= bi,
    ensures
        all_expanded(g, t, prune, true, st, bi) matches Ok(end) ==> same_sides(
            st.blocks,
            end.blocks,
        ),
    decreases u32::MAX - bi,
{
    if bi < st.blocks.len() && bi < u32::MAX {
        let b = st.blocks[bi];
        let asked = past_all_hidden(g, st, b, bi, 0);
        hidden_keep_sides(g, st, b, bi, 0);
        kept_keep_sides(g, t, prune, asked, b, bi, 0);
        if let Ok(next) = expanded(g, t, prune, true, st, bi) {
            sides_go_on(st.blocks, asked.blocks, next.blocks);
            sides_stay(g, t, prune, next, bi + 1);
            if let Ok(end) = all_expanded(g, t, prune, true, next, bi + 1) {
                sides_go_on(st.blocks, next.blocks, end.blocks);
            }
        }
    }
}

} // verus!
