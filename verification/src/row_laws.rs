//! What is on the rows of a drawing of blocks.

use vstd::prelude::*;

use crate::blocks::BlockView;
use crate::budget_laws::{shows_in, shows_out};
use crate::graph::Lists;
use crate::kept::{ascending, gap, row_after, row_width, row_width_concat, shown_is_exact, Slot};
use crate::node_laws::{
    all_belong, belongs, is_drawn, keeps_input, keeps_output, outputs_drawn, seated_belong,
};
use crate::rows::{
    more_inputs, more_seated, node_of, node_of_is_in, output_nodes, outputs_of, outside,
    row_has_entries, row_names_entries, seat_slot, seat_slots, seated_inputs, with_gap, Placed,
    Role, RowSlot, Seated, Seating,
};
use crate::scene_laws::{once, outputs_once};
use crate::settle::all_blocks;
use crate::settle_laws::{fits_after, linked_blocks_are_apart};
use crate::walk_laws::linked;

verus! {

/// How many entries of a side a place on a row stands for: a node for one, an
/// ellipsis for those it hides.
pub open spec fn stands_for(s: RowSlot) -> nat {
    match s {
        RowSlot::Node(_) => 1,
        RowSlot::Gap(h) => h as nat,
    }
}

/// How many entries of a side a row stands for.
pub open spec fn all_stand_for(row: Seq<RowSlot>) -> nat
    decreases row.len(),
{
    if row.len() == 0 {
        0
    } else {
        all_stand_for(row.drop_last()) + stands_for(row.last())
    }
}

/// How many entries of a side the ellipses of a row hide.
pub open spec fn all_hidden(row: Seq<RowSlot>) -> nat
    decreases row.len(),
{
    if row.len() == 0 {
        0
    } else {
        all_hidden(row.drop_last()) + match row.last() {
            RowSlot::Node(_) => 0,
            RowSlot::Gap(h) => h as nat,
        }
    }
}

pub(crate) open spec fn gaps_of(slots: Seq<Slot>) -> nat
    decreases slots.len(),
{
    if slots.len() == 0 {
        0
    } else {
        gaps_of(slots.drop_last()) + match slots.last() {
            Slot::Node(_) => 0,
            Slot::Gap(h) => h as nat,
        }
    }
}

proof fn gaps_join(a: Seq<Slot>, b: Seq<Slot>)
    ensures
        gaps_of(a + b) == gaps_of(a) + gaps_of(b),
    decreases b.len(),
{
    if b.len() == 0 {
        assert(a + b =~= a);
    } else {
        assert((a + b).drop_last() =~= a + b.drop_last());
        gaps_join(a, b.drop_last());
    }
}

pub(crate) proof fn gaps_within(slots: Seq<Slot>, k: int)
    requires
        0 <= k <= slots.len(),
    ensures
        gaps_of(slots.take(k)) <= gaps_of(slots),
        row_width(slots.take(k)) <= row_width(slots),
{
    assert(slots =~= slots.take(k) + slots.skip(k));
    gaps_join(slots.take(k), slots.skip(k));
    row_width_concat(slots.take(k), slots.skip(k));
}

/// Place `k` of a row of slots: a kept entry where the entries before it end, or a run
/// of entries that are not kept.
pub(crate) open spec fn stands_right(slots: Seq<Slot>, shown: Seq<usize>, last: int, k: int) -> bool {
    let e = last + 1 + row_width(slots.take(k));
    match slots[k] {
        Slot::Node(oi) => oi == e && shown.contains(oi),
        Slot::Gap(h) => {
            &&& h > 0
            &&& forall|j: usize| e <= j < e + h ==> !#[trigger] shown.contains(j)
            &&& k + 1 < slots.len() ==> slots[k + 1] is Node
        },
    }
}

#[verifier::rlimit(40)]
pub(crate) proof fn a_row_stands_right(shown: Seq<usize>, last: int, n: int)
    requires
        -1 <= last < n || n == 0 && last == -1,
        n <= usize::MAX,
        ascending(shown),
        forall|j: int| 0 <= j < shown.len() ==> last < #[trigger] shown[j] < n,
    ensures
        forall|k: int|
            0 <= k < row_after(shown, last, n).len() ==> #[trigger] stands_right(
                row_after(shown, last, n),
                shown,
                last,
                k,
            ),
        row_width(row_after(shown, last, n)) == n - 1 - last,
        gaps_of(row_after(shown, last, n)) + shown.len() == n - 1 - last,
    decreases shown.len(),
{
    let all = row_after(shown, last, n);
    reveal_with_fuel(row_width, 3);
    reveal_with_fuel(gaps_of, 3);
    if shown.len() == 0 {
        assert forall|k: int| 0 <= k < all.len() implies #[trigger] stands_right(
            all,
            shown,
            last,
            k,
        ) by {
            assert(all.take(k) =~= Seq::empty());
        }
        assert(all.len() <= 1);
    } else {
        let rest = shown.drop_first();
        let at = shown[0] as int;
        assert forall|j: int| 0 <= j < rest.len() implies at < #[trigger] rest[j] < n by {
            assert(shown[0] < shown[j + 1]);
        }
        a_row_stands_right(rest, at, n);
        let g = gap(at - last - 1);
        let m = seq![Slot::Node(shown[0])];
        let front = g + m;
        let back = row_after(rest, at, n);
        assert(all =~= front + back);
        row_width_concat(g, m);
        row_width_concat(front, back);
        gaps_join(g, m);
        gaps_join(front, back);
        assert(m.drop_last() =~= Seq::empty());
        assert(g.len() <= 1);
        if g.len() == 1 {
            assert(g.drop_last() =~= Seq::empty());
        }
        assert(row_width(front) == at - last);
        assert forall|k: int| 0 <= k < all.len() implies #[trigger] stands_right(
            all,
            shown,
            last,
            k,
        ) by {
            if k >= front.len() {
                let y = k - front.len();
                assert(stands_right(back, rest, at, y));
                assert(all.take(k) =~= front + back.take(y));
                row_width_concat(front, back.take(y));
                assert(all[k] == back[y]);
                match back[y] {
                    Slot::Node(oi) => {
                        let z = rest.index_of(oi);
                        assert(shown[z + 1] == oi);
                    },
                    Slot::Gap(h) => {
                        let e = at + 1 + row_width(back.take(y));
                        assert forall|j: usize| e <= j < e + h implies !#[trigger] shown.contains(
                            j,
                        ) by {
                            if shown.contains(j) {
                                let z = shown.index_of(j);
                                assert(rest[z - 1] == j);
                                assert(rest.contains(j));
                            }
                        }
                        if k + 1 < all.len() {
                            assert(all[k + 1] == back[y + 1]);
                        }
                    },
                }
            } else if k == g.len() {
                assert(all.take(k) =~= g);
                assert(all[k] == Slot::Node(shown[0]));
                assert(shown.contains(shown[0]));
            } else {
                assert(all.take(k) =~= Seq::empty());
                assert(all[k] == g[0]);
                assert(all[k + 1] == Slot::Node(shown[0]));
                assert forall|j: usize| last + 1 <= j < at implies !#[trigger] shown.contains(
                    j,
                ) by {
                    if shown.contains(j) {
                        let z = shown.index_of(j);
                        assert(shown[0] <= shown[z]);
                    }
                }
            }
        }
    }
}

/// A slot is that of graph node `u`.
spec fn is_slot_of(b: BlockView, s: Slot, u: usize) -> bool {
    s matches Slot::Node(ii) && b.inputs[ii as int] == u
}

/// One of the first `k` slots is that of graph node `u`.
spec fn is_met(b: BlockView, slots: Seq<Slot>, k: int, u: usize) -> bool {
    exists|j: int| 0 <= j < k && is_slot_of(b, #[trigger] slots[j], u)
}

/// One of the first `k` slots is that of a node that was drawn before.
spec fn has_met(b: BlockView, start: Seq<Placed>, slots: Seq<Slot>, k: int) -> bool {
    exists|j: int|
        0 <= j < k && (#[trigger] slots[j] matches Slot::Node(ii) && is_drawn(
            start,
            b.inputs[ii as int],
        ))
}

/// A row in the making: its nodes are new ones, in order, each gap hides something and
/// no two are next to each other.
pub open spec fn is_row(row: Seq<RowSlot>, from: int, to: int) -> bool {
    &&& forall|x: int|
        0 <= x < row.len() ==> match #[trigger] row[x] {
            RowSlot::Node(i) => from <= i < to,
            RowSlot::Gap(h) => h > 0,
        }
    &&& forall|x: int, y: int|
        0 <= x < y < row.len() ==> match (#[trigger] row[x], #[trigger] row[y]) {
            (RowSlot::Node(i), RowSlot::Node(j)) => i < j,
            (RowSlot::Gap(_), RowSlot::Gap(_)) => x + 1 < y,
            _ => true,
        }
}

/// What the seating of a block comes to after `k` of its slots.
spec fn seats(
    g: Lists,
    b: BlockView,
    bi: int,
    start: Seq<Placed>,
    st: Seating,
    slots: Seq<Slot>,
    k: int,
) -> bool {
    &&& once(st.nodes)
    &&& start.len() <= st.nodes.len()
    &&& forall|i: int|
        0 <= i < start.len() ==> is_seen(b, slots, k, start[i], #[trigger] st.nodes[i])
    &&& forall|i: int|
        start.len() <= i < st.nodes.len() ==> is_new(g, b, bi, slots, k, #[trigger] st.nodes[i])
    &&& forall|i: int|
        start.len() <= i < st.nodes.len() ==> #[trigger] is_on(st.row, i)
    &&& is_row(st.row, start.len() as int, st.nodes.len() as int)
    &&& all_hidden(st.row) == gaps_of(slots.take(k))
    &&& st.drawn > 0 <==> has_met(b, start, slots, k)
    &&& forall|u: usize| #[trigger] is_met(b, slots, k, u) ==> is_drawn(st.nodes, u)
}

/// Node `i` is on a row.
pub open spec fn is_on(row: Seq<RowSlot>, i: int) -> bool {
    exists|x: int| 0 <= x < row.len() && (#[trigger] row[x] matches RowSlot::Node(j) && j == i)
}

spec fn is_seen(b: BlockView, slots: Seq<Slot>, k: int, p: Placed, q: Placed) -> bool {
    &&& q.graph == p.graph
    &&& q.role == p.role
    &&& q.outdeg == p.outdeg
    &&& q.consumed <==> p.consumed || is_met(b, slots, k, p.graph)
}

spec fn is_new(
    g: Lists,
    b: BlockView,
    bi: int,
    slots: Seq<Slot>,
    k: int,
    q: Placed,
) -> bool {
    &&& (q.role matches Role::Outside { block, .. } && block == bi)
    &&& q.consumed
    &&& q.outdeg == g[q.graph as int].len() as usize
    &&& is_met(b, slots, k, q.graph)
}

/// The slots of a side, in order and each entry once.
spec fn are_slots(b: BlockView, slots: Seq<Slot>) -> bool {
    &&& gaps_of(slots) <= usize::MAX
    &&& forall|x: int|
        0 <= x < slots.len() ==> (#[trigger] slots[x] matches Slot::Gap(h) ==> h > 0)
    &&& forall|x: int, y: int, u: usize|
        0 <= x < y < slots.len() && is_slot_of(b, #[trigger] slots[x], u) ==> !#[trigger]
            is_slot_of(b, slots[y], u)
}

proof fn met_more(b: BlockView, slots: Seq<Slot>, k: int, u: usize)
    requires
        0 <= k < slots.len(),
    ensures
        is_met(b, slots, k + 1, u) <==> is_met(b, slots, k, u) || is_slot_of(b, slots[k], u),
{
    if is_met(b, slots, k + 1, u) {
        let j = choose|j: int| 0 <= j < k + 1 && is_slot_of(b, #[trigger] slots[j], u);
        if j < k {
            assert(is_slot_of(b, slots[j], u));
        }
    }
    if is_met(b, slots, k, u) {
        let j = choose|j: int| 0 <= j < k && is_slot_of(b, #[trigger] slots[j], u);
        assert(is_slot_of(b, slots[j], u));
    }
    if is_slot_of(b, slots[k], u) {
        assert(is_met(b, slots, k + 1, u));
    }
}

proof fn has_met_more(b: BlockView, start: Seq<Placed>, slots: Seq<Slot>, k: int)
    requires
        0 <= k < slots.len(),
    ensures
        has_met(b, start, slots, k + 1) <==> has_met(b, start, slots, k) || (
        slots[k] matches Slot::Node(ii) && is_drawn(start, b.inputs[ii as int])),
{
    if has_met(b, start, slots, k + 1) {
        let j = choose|j: int|
            0 <= j < k + 1 && (#[trigger] slots[j] matches Slot::Node(ii) && is_drawn(
                start,
                b.inputs[ii as int],
            ));
        if j < k {
            assert(has_met(b, start, slots, k));
        }
    }
    if has_met(b, start, slots, k) {
        let j = choose|j: int|
            0 <= j < k && (#[trigger] slots[j] matches Slot::Node(ii) && is_drawn(
                start,
                b.inputs[ii as int],
            ));
        assert(0 <= j < k + 1);
        assert(has_met(b, start, slots, k + 1));
    }
}

proof fn a_gap_is_hidden(row: Seq<RowSlot>, hidden: usize)
    requires
        all_hidden(row) + hidden <= usize::MAX,
        hidden > 0,
    ensures
        all_hidden(with_gap(row, hidden)) == all_hidden(row) + hidden,
        forall|from: int, to: int| #[trigger]
            is_row(row, from, to) ==> is_row(with_gap(row, hidden), from, to),
        forall|i: int| #[trigger] is_on(row, i) ==> is_on(with_gap(row, hidden), i),
{
    let next = with_gap(row, hidden);
    let n = row.len() as int;
    if n > 0 && row.last() is Gap {
        assert(next.drop_last() =~= row.drop_last());
    } else {
        assert(next.drop_last() =~= row);
    }
    assert forall|from: int, to: int| #[trigger] is_row(row, from, to) implies is_row(
        next,
        from,
        to,
    ) by {
        assert forall|x: int, y: int| 0 <= x < y < next.len() implies match (
            #[trigger] next[x],
            #[trigger] next[y],
        ) {
            (RowSlot::Node(i), RowSlot::Node(j)) => i < j,
            (RowSlot::Gap(_), RowSlot::Gap(_)) => x + 1 < y,
            _ => true,
        } by {
            if y < n {
                assert(row[x] == next[x] || x == n - 1);
                assert((row[x], row[y]) == (row[x], row[y]));
            } else {
                assert(next[x] == row[x]);
            }
        }
    }
    assert forall|i: int| #[trigger] is_on(row, i) implies is_on(next, i) by {
        let x = choose|x: int|
            0 <= x < row.len() && (#[trigger] row[x] matches RowSlot::Node(j) && j == i);
        assert(next[x] == row[x]);
    }
}

#[verifier::rlimit(40)]
proof fn seating_goes_on(
    g: Lists,
    t: Lists,
    b: BlockView,
    bi: int,
    start: Seq<Placed>,
    st: Seating,
    slots: Seq<Slot>,
    k: int,
)
    requires
        seats(g, b, bi, start, st, slots, k),
        are_slots(b, slots),
        0 <= k < slots.len(),
        0 <= bi <= u32::MAX,
        st.nodes.len() <= u32::MAX,
    ensures
        seats(g, b, bi, start, seat_slot(g, t, b, bi, st, slots[k]), slots, k + 1),
{
    let next = seat_slot(g, t, b, bi, st, slots[k]);
    assert(slots.take(k + 1).drop_last() =~= slots.take(k));
    gaps_within(slots, k + 1);
    has_met_more(b, start, slots, k);
    if let Slot::Node(ii) = slots[k] {
        node_of_is_in(st.nodes, b.inputs[ii as int]);
    }
    assert forall|u: usize| #[trigger] is_met(b, slots, k + 1, u) implies is_drawn(
        next.nodes,
        u,
    ) by {
        met_more(b, slots, k, u);
        node_of_is_in(st.nodes, u);
        if is_met(b, slots, k, u) {
            let i = choose|i: int| 0 <= i < st.nodes.len() && (#[trigger] st.nodes[i]).graph == u;
            assert(next.nodes[i].graph == u);
        } else {
            match node_of(st.nodes, u) {
                Some(i) => {
                    assert(next.nodes[i].graph == u);
                },
                None => {
                    assert(next.nodes[st.nodes.len() as int].graph == u);
                },
            }
        }
    }
    match slots[k] {
        Slot::Gap(hidden) => {
            a_gap_is_hidden(st.row, hidden);
            assert forall|i: int| 0 <= i < start.len() implies is_seen(
                b,
                slots,
                k + 1,
                start[i],
                #[trigger] next.nodes[i],
            ) by {
                assert(is_seen(b, slots, k, start[i], st.nodes[i]));
                met_more(b, slots, k, start[i].graph);
            }
            assert forall|i: int| start.len() <= i < next.nodes.len() implies is_new(
                g,
                b,
                bi,
                slots,
                k + 1,
                #[trigger] next.nodes[i],
            ) by {
                assert(is_new(g, b, bi, slots, k, st.nodes[i]));
                met_more(b, slots, k, st.nodes[i].graph);
            }
            assert forall|i: int| start.len() <= i < next.nodes.len() implies #[trigger] is_on(
                next.row,
                i,
            ) by {
                assert(is_on(st.row, i));
            }
        },
        Slot::Node(ii) => {
            let u = b.inputs[ii as int];
            assert(is_slot_of(b, slots[k], u));
            node_of_is_in(st.nodes, u);
            match node_of(st.nodes, u) {
                Some(at) => {
                    assert(at < start.len()) by {
                        if at >= start.len() {
                            assert(is_new(g, b, bi, slots, k, st.nodes[at]));
                            let j = choose|j: int|
                                0 <= j < k && is_slot_of(b, #[trigger] slots[j], u);
                            assert(!is_slot_of(b, slots[k], u));
                        }
                    }
                    assert(is_seen(b, slots, k, start[at], st.nodes[at]));
                    assert(start[at].graph == u);
                    assert(is_drawn(start, u));
                    assert forall|i: int| 0 <= i < start.len() implies is_seen(
                        b,
                        slots,
                        k + 1,
                        start[i],
                        #[trigger] next.nodes[i],
                    ) by {
                        assert(is_seen(b, slots, k, start[i], st.nodes[i]));
                        met_more(b, slots, k, start[i].graph);
                        if i < at {
                            assert(st.nodes[i].graph != st.nodes[at].graph);
                        } else if at < i {
                            assert(st.nodes[at].graph != st.nodes[i].graph);
                        }
                    }
                    assert forall|i: int| start.len() <= i < next.nodes.len() implies is_new(
                        g,
                        b,
                        bi,
                        slots,
                        k + 1,
                        #[trigger] next.nodes[i],
                    ) by {
                        assert(is_new(g, b, bi, slots, k, st.nodes[i]));
                        met_more(b, slots, k, st.nodes[i].graph);
                    }
                    assert forall|i: int, j: int| 0 <= i < j < next.nodes.len() implies (
                    #[trigger] next.nodes[i]).graph != (#[trigger] next.nodes[j]).graph by {
                        assert(st.nodes[i].graph != st.nodes[j].graph);
                    }
                },
                None => {
                    let n = st.nodes.len() as int;
                    assert(!is_drawn(start, u)) by {
                        if is_drawn(start, u) {
                            let i = choose|i: int|
                                0 <= i < start.len() && (#[trigger] start[i]).graph == u;
                            assert(is_seen(b, slots, k, start[i], st.nodes[i]));
                        }
                    }
                    assert(next.row.drop_last() =~= st.row);
                    assert forall|i: int| 0 <= i < start.len() implies is_seen(
                        b,
                        slots,
                        k + 1,
                        start[i],
                        #[trigger] next.nodes[i],
                    ) by {
                        assert(is_seen(b, slots, k, start[i], st.nodes[i]));
                        met_more(b, slots, k, start[i].graph);
                        assert(next.nodes[i] == st.nodes[i]);
                        assert(st.nodes[i].graph != u);
                    }
                    assert forall|i: int| start.len() <= i < next.nodes.len() implies is_new(
                        g,
                        b,
                        bi,
                        slots,
                        k + 1,
                        #[trigger] next.nodes[i],
                    ) by {
                        met_more(b, slots, k, next.nodes[i].graph);
                        if i < n {
                            assert(next.nodes[i] == st.nodes[i]);
                            assert(is_new(g, b, bi, slots, k, st.nodes[i]));
                        } else {
                            assert(next.nodes[i] == outside(g, t, bi, u));
                        }
                    }
                    assert forall|i: int|
                        start.len() <= i < next.nodes.len() implies #[trigger] is_on(
                        next.row,
                        i,
                    ) by {
                        if i < n {
                            assert(is_on(st.row, i));
                            let x = choose|x: int|
                                0 <= x < st.row.len() && (
                                #[trigger] st.row[x] matches RowSlot::Node(j) && j == i);
                            assert(next.row[x] == st.row[x]);
                        } else {
                            assert(next.row[next.row.len() - 1] == RowSlot::Node(n as u32));
                        }
                    }
                    assert forall|i: int, j: int| 0 <= i < j < next.nodes.len() implies (
                    #[trigger] next.nodes[i]).graph != (#[trigger] next.nodes[j]).graph by {
                        assert(next.nodes[i] == st.nodes[i]);
                        if j < n {
                            assert(next.nodes[j] == st.nodes[j]);
                        } else {
                            assert(st.nodes[i].graph != u);
                        }
                    }
                    assert forall|x: int, y: int| 0 <= x < y < next.row.len() implies match (
                        #[trigger] next.row[x],
                        #[trigger] next.row[y],
                    ) {
                        (RowSlot::Node(i), RowSlot::Node(j)) => i < j,
                        (RowSlot::Gap(_), RowSlot::Gap(_)) => x + 1 < y,
                        _ => true,
                    } by {
                        assert(next.row[x] == st.row[x]);
                        if y < st.row.len() {
                            assert(next.row[y] == st.row[y]);
                        }
                    }
                    assert(is_row(next.row, start.len() as int, n + 1));
                },
            }
        },
    }
}

proof fn seating_ends(
    g: Lists,
    t: Lists,
    b: BlockView,
    bi: int,
    start: Seq<Placed>,
    st: Seating,
    slots: Seq<Slot>,
    k: int,
)
    requires
        seats(g, b, bi, start, st, slots, k),
        are_slots(b, slots),
        0 <= k <= slots.len(),
        0 <= bi <= u32::MAX,
        seat_slots(g, t, b, bi, st, slots, k).nodes.len() <= u32::MAX,
    ensures
        seats(
            g,
            b,
            bi,
            start,
            seat_slots(g, t, b, bi, st, slots, k),
            slots,
            slots.len() as int,
        ),
    decreases slots.len() - k,
{
    if k < slots.len() {
        more_seated(g, t, b, bi, st, slots, k);
        let next = seat_slot(g, t, b, bi, st, slots[k]);
        seating_goes_on(g, t, b, bi, start, st, slots, k);
        seating_ends(g, t, b, bi, start, next, slots, k + 1);
    }
}

proof fn widths_rise(slots: Seq<Slot>, x: int, y: int)
    requires
        0 <= x < y <= slots.len(),
        slots[x] is Node,
    ensures
        row_width(slots.take(x)) < row_width(slots.take(y)),
{
    let some = slots.take(y);
    gaps_within(some, x + 1);
    assert(some.take(x + 1).drop_last() =~= slots.take(x));
    assert(some.take(x + 1).last() == slots[x]);
}

/// The slots of the inputs of a block.
proof fn slots_of_inputs(blocks: Seq<BlockView>, bi: int)
    requires
        all_blocks(blocks),
        0 <= bi < blocks.len(),
    ensures
        ({
            let b = blocks[bi];
            let slots = b.kept_in.row(b.inputs.len());
            &&& are_slots(b, slots)
            &&& forall|u: usize|
                is_met(b, slots, slots.len() as int, u) <==> #[trigger] keeps_input(blocks, u, bi)
            &&& gaps_of(slots) + b.kept_in.count(b.inputs.len()) == b.inputs.len()
            &&& forall|k: int|
                0 <= k < slots.len() ==> #[trigger] stands_right(
                    slots,
                    b.kept_in.shown(b.inputs.len()),
                    -1,
                    k,
                )
        }),
{
    let b = blocks[bi];
    let n = b.inputs.len();
    let slots = b.kept_in.row(n);
    let shown = b.kept_in.shown(n);
    fits_after(blocks, bi, bi);
    assert(b.is_block());
    shown_is_exact(b.kept_in, n as usize);
    a_row_stands_right(shown, -1, n as int);
    row_names_entries(shown, -1, n as int);
    assert forall|x: int| 0 <= x < slots.len() implies (#[trigger] slots[x] matches Slot::Gap(h)
        ==> h > 0) by {
        assert(stands_right(slots, shown, -1, x));
    }
    assert forall|x: int, y: int, u: usize|
        0 <= x < y < slots.len() && is_slot_of(b, #[trigger] slots[x], u) implies !#[trigger]
    is_slot_of(b, slots[y], u) by {
        assert(stands_right(slots, shown, -1, x));
        assert(stands_right(slots, shown, -1, y));
        if is_slot_of(b, slots[y], u) {
            widths_rise(slots, x, y);
            let (ii, jj) = (slots[x]->Node_0, slots[y]->Node_0);
            assert(b.inputs[ii as int] < b.inputs[jj as int]);
        }
    }
    assert forall|u: usize|
        is_met(b, slots, slots.len() as int, u) <==> #[trigger] keeps_input(blocks, u, bi) by {
        if is_met(b, slots, slots.len() as int, u) {
            let j = choose|j: int| 0 <= j < slots.len() && is_slot_of(b, #[trigger] slots[j], u);
            let ii = slots[j]->Node_0;
            assert(shown.contains(ii));
            assert(shows_in(blocks, u, bi, ii as int));
        }
        if keeps_input(blocks, u, bi) {
            let i = choose|i: int| #[trigger] shows_in(blocks, u, bi, i);
            assert(shown.contains(i as usize));
            row_has_entries(shown, -1, n as int, i as usize);
            let j = choose|j: int|
                0 <= j < row_after(shown, -1, n as int).len() && #[trigger] row_after(
                    shown,
                    -1,
                    n as int,
                )[j] == Slot::Node(i as usize);
            assert(is_slot_of(b, slots[j], u));
        }
    }
}

/// One of the first blocks keeps a node as an input.
pub open spec fn is_taken_before(blocks: Seq<BlockView>, u: usize, count: int) -> bool {
    exists|b: int| 0 <= b < count && #[trigger] keeps_input(blocks, u, b)
}

/// Some block keeps a node as an output.
pub open spec fn is_some_output(blocks: Seq<BlockView>, u: usize) -> bool {
    exists|q: int| #[trigger] keeps_output(blocks, u, q)
}

/// A block has inputs that a block on the page made and others beside them.
pub open spec fn is_mixed(blocks: Seq<BlockView>, b: int) -> bool {
    &&& exists|u: usize| #[trigger] keeps_input(blocks, u, b) && is_some_output(blocks, u)
    &&& (exists|u: usize| #[trigger] keeps_input(blocks, u, b) && !is_some_output(blocks, u))
        || blocks[b].kept_in.count(blocks[b].inputs.len()) < blocks[b].inputs.len()
}

/// How many of the first blocks are mixed.
pub open spec fn mixed_before(blocks: Seq<BlockView>, count: nat) -> nat
    decreases count,
{
    if count == 0 {
        0
    } else {
        mixed_before(blocks, (count - 1) as nat) + if is_mixed(blocks, count - 1) {
            1nat
        } else {
            0nat
        }
    }
}

pub(crate) open spec fn is_known(g: Lists, blocks: Seq<BlockView>, p: Placed, count: int) -> bool {
    &&& p.outdeg == g[p.graph as int].len() as usize
    &&& p.consumed <==> is_taken_before(blocks, p.graph, count)
}

pub(crate) open spec fn is_on_its_row(p: Placed, in_rows: Seq<Seq<RowSlot>>, i: int) -> bool {
    p.role matches Role::Outside { block, .. } ==> block < in_rows.len() && is_on(
        in_rows[block as int],
        i,
    )
}

pub(crate) open spec fn has_its_nodes(nodes: Seq<Placed>, row: Seq<RowSlot>, b: int) -> bool {
    forall|x: int|
        0 <= x < row.len() ==> (#[trigger] row[x] matches RowSlot::Node(i) ==> i < nodes.len() && (
        nodes[i as int].role matches Role::Outside { block, .. } && block == b))
}

/// The seating of the first blocks.
pub(crate) open spec fn is_seated(g: Lists, t: Lists, blocks: Seq<BlockView>, st: Seated, count: nat) -> bool {
    &&& once(st.nodes)
    &&& st.in_rows.len() == count
    &&& forall|i: int|
        0 <= i < st.nodes.len() ==> is_known(g, blocks, #[trigger] st.nodes[i], count as int)
    &&& forall|i: int|
        0 <= i < st.nodes.len() ==> is_on_its_row(#[trigger] st.nodes[i], st.in_rows, i)
    &&& forall|b: int|
        0 <= b < count ==> {
            &&& is_row(#[trigger] st.in_rows[b], 0, st.nodes.len() as int)
            &&& has_its_nodes(st.nodes, st.in_rows[b], b)
            &&& all_hidden(st.in_rows[b]) + blocks[b].kept_in.count(blocks[b].inputs.len())
                == blocks[b].inputs.len()
        }
    &&& st.mixed == mixed_before(blocks, count)
}

proof fn outputs_are_known(g: Lists, blocks: Seq<BlockView>, n: int)
    requires
        0 <= n <= blocks.len(),
    ensures
        forall|i: int|
            0 <= i < output_nodes(g, blocks.take(n)).len() ==> is_known(
                g,
                blocks,
                #[trigger] output_nodes(g, blocks.take(n))[i],
                0,
            ) && output_nodes(g, blocks.take(n))[i].role is Output,
    decreases n,
{
    let all = output_nodes(g, blocks.take(n));
    if n > 0 {
        outputs_are_known(g, blocks, n - 1);
        let front = output_nodes(g, blocks.take(n - 1));
        assert(blocks.take(n).drop_last() =~= blocks.take(n - 1));
        let last = outputs_of(g, blocks[n - 1], n - 1);
        assert(all == front + last);
        assert forall|i: int| 0 <= i < all.len() implies is_known(
            g,
            blocks,
            #[trigger] all[i],
            0,
        ) && all[i].role is Output by {
            if i < front.len() {
                assert(all[i] == front[i]);
            } else {
                assert(all[i] == last[i - front.len()]);
            }
        }
    }
}

/// What is drawn before block `bi` is seated, of what that block keeps, is what some
/// block keeps as an output.
proof fn drawn_before(
    g: Lists,
    t: Lists,
    blocks: Seq<BlockView>,
    st: Seated,
    bi: nat,
    u: usize,
)
    requires
        linked(g, t, blocks),
        all_blocks(blocks),
        all_belong(t, blocks, st.nodes),
        outputs_drawn(blocks, st.nodes),
        is_seated(g, t, blocks, st, bi),
        bi < blocks.len(),
        keeps_input(blocks, u, bi as int),
    ensures
        is_drawn(st.nodes, u) <==> is_some_output(blocks, u),
{
    if is_drawn(st.nodes, u) {
        let i = choose|i: int| 0 <= i < st.nodes.len() && (#[trigger] st.nodes[i]).graph == u;
        assert(belongs(t, blocks, st.nodes[i]));
        assert(is_on_its_row(st.nodes[i], st.in_rows, i));
        match st.nodes[i].role {
            Role::Output { block } => {
                assert(keeps_output(blocks, u, block as int));
            },
            Role::Outside { block, .. } => {
                let x = choose|x: int| #[trigger] shows_in(blocks, u, block as int, x);
                let y = choose|y: int| #[trigger] shows_in(blocks, u, bi as int, y);
                linked_blocks_are_apart(g, t, blocks);
                assert(blocks[block as int].inputs.contains(u));
                assert(blocks[bi as int].inputs.contains(u));
            },
        }
    }
    if is_some_output(blocks, u) {
        let q = choose|q: int| #[trigger] keeps_output(blocks, u, q);
        let j = choose|j: int| #[trigger] shows_out(blocks, u, q, j);
        assert(is_drawn(st.nodes, u));
    }
}

proof fn row_is_wider(row: Seq<RowSlot>, a: int, b: int, c: int, d: int)
    requires
        is_row(row, a, b),
        c <= a,
        b <= d,
    ensures
        is_row(row, c, d),
{
}

proof fn hides_if_any(row: Seq<RowSlot>)
    ensures
        all_hidden(row) > 0 ==> row.len() > 0,
        (row.len() > 0 && (forall|x: int| 0 <= x < row.len() ==> !(#[trigger] row[x] is Node)) && (
        forall|x: int| 0 <= x < row.len() ==> (#[trigger] row[x] matches RowSlot::Gap(h) ==> h
            > 0))) ==> all_hidden(row) > 0,
{
    if row.len() > 0 {
        assert(row.last() == row[row.len() - 1]);
    }
}

#[verifier::rlimit(40)]
proof fn seating_a_block(g: Lists, t: Lists, blocks: Seq<BlockView>, count: nat)
    requires
        linked(g, t, blocks),
        all_blocks(blocks),
        0 < count <= blocks.len() <= u32::MAX,
        is_seated(
            g,
            t,
            blocks,
            seated_inputs(g, t, blocks, (count - 1) as nat),
            (count - 1) as nat,
        ),
        seated_inputs(g, t, blocks, count).nodes.len() <= u32::MAX,
    ensures
        is_seated(g, t, blocks, seated_inputs(g, t, blocks, count), count),
{
    let c = (count - 1) as nat;
    let bi = count - 1;
    let st = seated_inputs(g, t, blocks, c);
    let end = seated_inputs(g, t, blocks, count);
    let b = blocks[bi];
    let slots = b.kept_in.row(b.inputs.len());
    let first = Seating { nodes: st.nodes, row: Seq::empty(), drawn: 0 };
    let one = seat_slots(g, t, b, bi, first, slots, 0);
    slots_of_inputs(blocks, bi);
    assert(slots.take(0) =~= Seq::empty());
    assert(seats(g, b, bi, st.nodes, first, slots, 0)) by {
        assert forall|i: int| 0 <= i < st.nodes.len() implies is_seen(
            b,
            slots,
            0,
            st.nodes[i],
            #[trigger] first.nodes[i],
        ) by {}
    }
    assert(end.nodes == one.nodes);
    assert(end.in_rows == st.in_rows.push(one.row));
    seating_ends(g, t, b, bi, st.nodes, first, slots, 0);
    assert(slots.take(slots.len() as int) =~= slots);
    seated_belong(g, t, blocks, c);
    let n = slots.len() as int;
    assert forall|i: int| 0 <= i < end.nodes.len() implies is_known(
        g,
        blocks,
        #[trigger] end.nodes[i],
        count as int,
    ) by {
        let p = end.nodes[i];
        assert(is_met(b, slots, n, p.graph) <==> keeps_input(blocks, p.graph, bi));
        if i < st.nodes.len() {
            assert(is_seen(b, slots, n, st.nodes[i], one.nodes[i]));
            assert(is_known(g, blocks, st.nodes[i], bi));
            if is_taken_before(blocks, p.graph, count as int) {
                let x = choose|x: int| 0 <= x < count && #[trigger] keeps_input(blocks, p.graph, x);
                assert(x == bi || is_taken_before(blocks, p.graph, bi));
            }
            if is_taken_before(blocks, p.graph, bi) {
                let x = choose|x: int| 0 <= x < bi && #[trigger] keeps_input(blocks, p.graph, x);
                assert(is_taken_before(blocks, p.graph, count as int));
            }
        } else {
            assert(is_new(g, b, bi, slots, n, one.nodes[i]));
        }
    }
    assert forall|i: int| 0 <= i < end.nodes.len() implies is_on_its_row(
        #[trigger] end.nodes[i],
        end.in_rows,
        i,
    ) by {
        if i < st.nodes.len() {
            assert(is_seen(b, slots, n, st.nodes[i], one.nodes[i]));
            assert(is_on_its_row(st.nodes[i], st.in_rows, i));
            if let Role::Outside { block, .. } = end.nodes[i].role {
                assert(end.in_rows[block as int] == st.in_rows[block as int]);
            }
        } else {
            assert(is_new(g, b, bi, slots, n, one.nodes[i]));
            assert(is_on(one.row, i));
            assert(end.in_rows[bi] == one.row);
        }
    }
    assert forall|x: int| 0 <= x < count implies is_row(
        #[trigger] end.in_rows[x],
        0,
        end.nodes.len() as int,
    ) && has_its_nodes(end.nodes, end.in_rows[x], x) && all_hidden(end.in_rows[x])
        + blocks[x].kept_in.count(blocks[x].inputs.len()) == blocks[x].inputs.len() by {
        if x < bi {
            assert(end.in_rows[x] == st.in_rows[x]);
            row_is_wider(st.in_rows[x], 0, st.nodes.len() as int, 0, end.nodes.len() as int);
            assert forall|y: int| 0 <= y < st.in_rows[x].len() implies (
            #[trigger] st.in_rows[x][y] matches RowSlot::Node(i) ==> i < end.nodes.len() && (
            end.nodes[i as int].role matches Role::Outside { block, .. } && block == x)) by {
                if let RowSlot::Node(i) = st.in_rows[x][y] {
                    assert(is_seen(b, slots, n, st.nodes[i as int], one.nodes[i as int]));
                }
            }
        } else {
            assert(end.in_rows[x] == one.row);
            row_is_wider(one.row, st.nodes.len() as int, end.nodes.len() as int, 0, end.nodes.len() as int);
            assert forall|y: int| 0 <= y < one.row.len() implies (
            #[trigger] one.row[y] matches RowSlot::Node(i) ==> i < end.nodes.len() && (
            end.nodes[i as int].role matches Role::Outside { block, .. } && block == x)) by {
                if let RowSlot::Node(i) = one.row[y] {
                    assert(is_new(g, b, bi, slots, n, one.nodes[i as int]));
                }
            }
        }
    }
    seating_is_mixed(g, t, blocks, st, one, c);
}

/// A block is mixed if some of its inputs were drawn already and its row is not empty.
#[verifier::rlimit(40)]
proof fn seating_is_mixed(
    g: Lists,
    t: Lists,
    blocks: Seq<BlockView>,
    st: Seated,
    one: Seating,
    c: nat,
)
    requires
        linked(g, t, blocks),
        all_blocks(blocks),
        c < blocks.len(),
        all_belong(t, blocks, st.nodes),
        outputs_drawn(blocks, st.nodes),
        is_seated(g, t, blocks, st, c),
        ({
            let b = blocks[c as int];
            let slots = b.kept_in.row(b.inputs.len());
            seats(g, b, c as int, st.nodes, one, slots, slots.len() as int)
        }),
    ensures
        is_mixed(blocks, c as int) <==> one.drawn > 0 && one.row.len() > 0,
{
    let bi = c as int;
    let b = blocks[bi];
    let slots = b.kept_in.row(b.inputs.len());
    let n = slots.len() as int;
    slots_of_inputs(blocks, bi);
    assert(slots.take(n) =~= slots);
    // What was drawn already is what some block keeps as an output.
    if has_met(b, st.nodes, slots, n) {
        let j = choose|j: int|
            0 <= j < n && (#[trigger] slots[j] matches Slot::Node(ii) && is_drawn(
                st.nodes,
                b.inputs[ii as int],
            ));
        let u = b.inputs[slots[j]->Node_0 as int];
        assert(is_slot_of(b, slots[j], u));
        assert(is_met(b, slots, n, u));
        assert(keeps_input(blocks, u, bi));
        drawn_before(g, t, blocks, st, c, u);
    }
    if exists|u: usize| #[trigger] keeps_input(blocks, u, bi) && is_some_output(blocks, u) {
        let u = choose|u: usize| #[trigger]
            keeps_input(blocks, u, bi) && is_some_output(blocks, u);
        drawn_before(g, t, blocks, st, c, u);
        assert(is_met(b, slots, n, u));
        let j = choose|j: int| 0 <= j < n && is_slot_of(b, #[trigger] slots[j], u);
        assert(has_met(b, st.nodes, slots, n));
    }
    // What is on the row is hidden, or what no block keeps as an output.
    hides_if_any(one.row);
    if one.row.len() > 0 && all_hidden(one.row) == 0 {
        let x = choose|x: int| 0 <= x < one.row.len() && #[trigger] one.row[x] is Node;
        let i = one.row[x]->Node_0 as int;
        let p = one.nodes[i];
        assert(is_new(g, b, bi, slots, n, p));
        assert(keeps_input(blocks, p.graph, bi));
        drawn_before(g, t, blocks, st, c, p.graph);
        if is_drawn(st.nodes, p.graph) {
            let y = choose|y: int|
                0 <= y < st.nodes.len() && (#[trigger] st.nodes[y]).graph == p.graph;
            assert(is_seen(b, slots, n, st.nodes[y], one.nodes[y]));
            assert(one.nodes[y].graph != one.nodes[i].graph);
        }
        assert(keeps_input(blocks, p.graph, bi) && !is_some_output(blocks, p.graph));
    }
    if exists|u: usize| #[trigger] keeps_input(blocks, u, bi) && !is_some_output(blocks, u) {
        let u = choose|u: usize| #[trigger]
            keeps_input(blocks, u, bi) && !is_some_output(blocks, u);
        drawn_before(g, t, blocks, st, c, u);
        assert(is_met(b, slots, n, u));
        unmet_is_new(g, t, blocks, st, one, c, u);
    }
}

/// A kept input that was not drawn before is on the row.
proof fn unmet_is_new(
    g: Lists,
    t: Lists,
    blocks: Seq<BlockView>,
    st: Seated,
    one: Seating,
    c: nat,
    u: usize,
)
    requires
        linked(g, t, blocks),
        all_blocks(blocks),
        c < blocks.len(),
        ({
            let b = blocks[c as int];
            let slots = b.kept_in.row(b.inputs.len());
            seats(g, b, c as int, st.nodes, one, slots, slots.len() as int)
        }),
        keeps_input(blocks, u, c as int),
        !is_drawn(st.nodes, u),
        is_drawn(one.nodes, u),
    ensures
        one.row.len() > 0,
{
    let i = choose|i: int| 0 <= i < one.nodes.len() && (#[trigger] one.nodes[i]).graph == u;
    let b = blocks[c as int];
    let slots = b.kept_in.row(b.inputs.len());
    if i < st.nodes.len() {
        assert(is_seen(b, slots, slots.len() as int, st.nodes[i], one.nodes[i]));
        assert(st.nodes[i].graph == u);
    }
    assert(is_on(one.row, i));
}

pub(crate) proof fn all_are_seated(g: Lists, t: Lists, blocks: Seq<BlockView>, count: nat)
    requires
        linked(g, t, blocks),
        all_blocks(blocks),
        count <= blocks.len() <= u32::MAX,
        seated_inputs(g, t, blocks, count).nodes.len() <= u32::MAX,
    ensures
        is_seated(g, t, blocks, seated_inputs(g, t, blocks, count), count),
    decreases count,
{
    if count == 0 {
        outputs_once(g, t, blocks, blocks.len() as int);
        outputs_are_known(g, blocks, blocks.len() as int);
        assert(blocks.take(blocks.len() as int) =~= blocks);
    } else {
        more_inputs(g, t, blocks, (count - 1) as nat, count);
        all_are_seated(g, t, blocks, (count - 1) as nat);
        seating_a_block(g, t, blocks, count);
    }
}

} // verus!
