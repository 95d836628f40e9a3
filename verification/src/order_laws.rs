//! In which order the boxes of a drawing of blocks hang.

use vstd::prelude::*;

use crate::arc_laws::{beside_has, boxes_by_number, outside_box_at, row_has, span_has};
use crate::blocks::BlockView;
use crate::boxes::{
    beside, box_row, box_tree, has_in_box, in_box, kids_of, seeds_of, tree_root, whole_row,
};
use crate::kept::{ascending, span};
use crate::rows::RowSlot;
use crate::settle::{ascending_filter, ascending_unique, hangs, parents_within};

verus! {

/// A list of blocks: just these, in order.
pub open spec fn lists(list: Seq<usize>, p: spec_fn(int) -> bool) -> bool {
    &&& ascending(list)
    &&& forall|c: usize| #[trigger] list.contains(c) <==> p(c as int)
}

/// The input boxes are numbered after the blocks.
proof fn input_boxes_come_after(
    blocks: Seq<BlockView>,
    in_rows: Seq<Seq<RowSlot>>,
    out_rows: Seq<Seq<RowSlot>>,
    c: int,
)
    requires
        0 <= c < blocks.len() <= u32::MAX,
        box_tree(blocks, in_rows, out_rows).len() <= usize::MAX,
        has_in_box(blocks, in_rows, c),
    ensures
        in_box(blocks, in_rows, c) >= blocks.len(),
{
    outside_box_at(blocks, in_rows, c, blocks.len());
}

/// All entries are numbers of input boxes.
spec fn are_inputs(blocks: Seq<BlockView>, row: Seq<usize>) -> bool {
    forall|i: int| 0 <= i < row.len() ==> #[trigger] row[i] >= blocks.len()
}

proof fn beside_are_inputs(
    blocks: Seq<BlockView>,
    in_rows: Seq<Seq<RowSlot>>,
    out_rows: Seq<Seq<RowSlot>>,
    p: int,
    early: bool,
    k: nat,
)
    requires
        blocks.len() <= u32::MAX,
        box_tree(blocks, in_rows, out_rows).len() <= usize::MAX,
        k <= kids_of(blocks, p).len(),
    ensures
        are_inputs(blocks, beside(blocks, in_rows, kids_of(blocks, p), early, k)),
    decreases k,
{
    if k > 0 {
        let kids = kids_of(blocks, p);
        beside_are_inputs(blocks, in_rows, out_rows, p, early, (k - 1) as nat);
        let c = kids[k - 1] as int;
        kids_are_kids(blocks, p);
        assert(kids.contains(kids[k - 1]));
        if in_rows[c].len() > 0 {
            assert(has_in_box(blocks, in_rows, c));
            input_boxes_come_after(blocks, in_rows, out_rows, c);
        }
    }
}

proof fn kids_are_kids(blocks: Seq<BlockView>, p: int)
    requires
        blocks.len() <= u32::MAX,
    ensures
        lists(kids_of(blocks, p), |c: int| hangs(blocks, c, p)),
{
    let n = blocks.len() as int;
    let q = |c: usize| hangs(blocks, c as int, p);
    assert(ascending(span(0, n)));
    ascending_filter(span(0, n), q);
    assert forall|c: usize| #[trigger] kids_of(blocks, p).contains(c) <==> hangs(
        blocks,
        c as int,
        p,
    ) by {
        if c < n {
            span_has(n, c);
        }
    }
}

proof fn seeds_are_seeds(blocks: Seq<BlockView>)
    requires
        blocks.len() <= u32::MAX,
    ensures
        lists(seeds_of(blocks), |c: int| 0 <= c < blocks.len() && blocks[c].parent is None),
{
    let n = blocks.len() as int;
    let q = |c: usize| blocks[c as int].parent is None;
    assert(ascending(span(0, n)));
    ascending_filter(span(0, n), q);
    assert forall|c: usize| #[trigger] seeds_of(blocks).contains(c) <==> (0 <= c < n
        && blocks[c as int].parent is None) by {
        if c < n {
            span_has(n, c);
        } else if span(0, n).contains(c) {
            let i = span(0, n).index_of(c);
        }
    }
}

/// The blocks of a row of boxes are those of its list, in order.
proof fn a_row_has_its_list(
    blocks: Seq<BlockView>,
    in_rows: Seq<Seq<RowSlot>>,
    out_rows: Seq<Seq<RowSlot>>,
    list: Seq<usize>,
    k: nat,
)
    requires
        blocks.len() <= u32::MAX,
        box_tree(blocks, in_rows, out_rows).len() <= usize::MAX,
        ascending(list),
        forall|i: int| 0 <= i < list.len() ==> #[trigger] list[i] < blocks.len(),
        k <= list.len(),
    ensures
        ({
            let row = box_row(blocks, in_rows, list, k);
            &&& forall|i: int|
                0 <= i < row.len() && #[trigger] row[i] < blocks.len() ==> list.take(
                    k as int,
                ).contains(row[i])
            &&& forall|i: int, j: int|
                0 <= i < j < row.len() && #[trigger] row[i] < blocks.len() && #[trigger] row[j]
                    < blocks.len() ==> row[i] < row[j]
        }),
    decreases k,
{
    if k > 0 {
        a_row_has_its_list(blocks, in_rows, out_rows, list, (k - 1) as nat);
        let p = list[k - 1];
        let kids = kids_of(blocks, p as int);
        let front = box_row(blocks, in_rows, list, (k - 1) as nat);
        let early = beside(blocks, in_rows, kids, true, kids.len());
        let late = beside(blocks, in_rows, kids, false, kids.len());
        let row = box_row(blocks, in_rows, list, k);
        beside_are_inputs(blocks, in_rows, out_rows, p as int, true, kids.len());
        beside_are_inputs(blocks, in_rows, out_rows, p as int, false, kids.len());
        let at = (front.len() + early.len()) as int;
        assert forall|i: int|
            0 <= i < row.len() && #[trigger] row[i] < blocks.len() implies i < front.len() || i
            == at by {
            if front.len() <= i < at {
                assert(row[i] == early[i - front.len()]);
            } else if i > at {
                assert(row[i] == late[i - at - 1]);
            }
        }
        assert(row[at] == p);
        let some = list.take(k - 1);
        let more = list.take(k as int);
        assert forall|i: int|
            0 <= i < row.len() && #[trigger] row[i] < blocks.len() implies more.contains(
            row[i],
        ) by {
            if i < front.len() {
                assert(row[i] == front[i]);
                let y = some.index_of(front[i]);
                assert(more[y] == row[i]);
            } else {
                assert(more[k - 1] == p);
            }
        }
        assert forall|i: int, j: int|
            0 <= i < j < row.len() && #[trigger] row[i] < blocks.len() && #[trigger] row[j]
                < blocks.len() implies row[i] < row[j] by {
            if j < front.len() {
                assert(row[i] == front[i] && row[j] == front[j]);
            } else {
                assert(j == at);
                assert(row[i] == front[i]);
                let y = some.index_of(front[i]);
                assert(list[y] < list[k - 1]);
            }
        }
    }
}

/// Between two places of a row there are only input boxes.
pub open spec fn only_inputs_between(row: Seq<usize>, n: nat, a: int, b: int) -> bool {
    forall|i: int| a < i < b && 0 <= i < row.len() ==> #[trigger] row[i] >= n
}

/// An input box of a row is at place `y`, beside the block at place `x`: before it or
/// after it, with no block between.
pub open spec fn is_beside(
    row: Seq<usize>,
    n: nat,
    block: usize,
    inputs: usize,
    before: bool,
    x: int,
    y: int,
) -> bool {
    &&& 0 <= x < row.len()
    &&& 0 <= y < row.len()
    &&& row[x] == block
    &&& row[y] == inputs
    &&& y < x <==> before
    &&& only_inputs_between(row, n, x, y)
    &&& only_inputs_between(row, n, y, x)
}

/// An input box of a row is beside a block of it.
pub open spec fn has_beside(
    row: Seq<usize>,
    n: nat,
    block: usize,
    inputs: usize,
    before: bool,
) -> bool {
    exists|x: int, y: int| #[trigger] is_beside(row, n, block, inputs, before, x, y)
}

proof fn input_boxes_are_beside(
    blocks: Seq<BlockView>,
    in_rows: Seq<Seq<RowSlot>>,
    out_rows: Seq<Seq<RowSlot>>,
    list: Seq<usize>,
    x: int,
    k: nat,
    z: int,
)
    requires
        blocks.len() <= u32::MAX,
        box_tree(blocks, in_rows, out_rows).len() <= usize::MAX,
        0 <= x < k <= list.len(),
        0 <= z < kids_of(blocks, list[x] as int).len(),
        in_rows[kids_of(blocks, list[x] as int)[z] as int].len() > 0,
    ensures
        ({
            let kids = kids_of(blocks, list[x] as int);
            has_beside(
                box_row(blocks, in_rows, list, k),
                blocks.len(),
                list[x],
                in_box(blocks, in_rows, kids[z] as int),
                z < kids.len() - 1 - z,
            )
        }),
    decreases k,
{
    let p = list[k - 1];
    let front = box_row(blocks, in_rows, list, (k - 1) as nat);
    let row = box_row(blocks, in_rows, list, k);
    if x == k - 1 {
        let kids = kids_of(blocks, p as int);
        let early = beside(blocks, in_rows, kids, true, kids.len());
        let late = beside(blocks, in_rows, kids, false, kids.len());
        let want = in_box(blocks, in_rows, kids[z] as int);
        let is_early = z < kids.len() - 1 - z;
        beside_are_inputs(blocks, in_rows, out_rows, p as int, true, kids.len());
        beside_are_inputs(blocks, in_rows, out_rows, p as int, false, kids.len());
        beside_has(blocks, in_rows, kids, is_early, z, kids.len());
        let at = (front.len() + early.len()) as int;
        assert(row[at] == p);
        if is_early {
            let i = early.index_of(want);
            let b = front.len() + i;
            assert(row[b] == want);
            assert forall|j: int| b < j < at && 0 <= j < row.len() implies #[trigger] row[j]
                >= blocks.len() by {
                assert(row[j] == early[j - front.len()]);
            }
            assert(is_beside(row, blocks.len(), p, want, is_early, at, b));
        } else {
            let i = late.index_of(want);
            let b = at + 1 + i;
            assert(row[b] == want);
            assert forall|j: int| at < j < b && 0 <= j < row.len() implies #[trigger] row[j]
                >= blocks.len() by {
                assert(row[j] == late[j - at - 1]);
            }
            assert(is_beside(row, blocks.len(), p, want, is_early, at, b));
        }
    } else {
        input_boxes_are_beside(blocks, in_rows, out_rows, list, x, (k - 1) as nat, z);
        let kids = kids_of(blocks, list[x] as int);
        let want = in_box(blocks, in_rows, kids[z] as int);
        let before = z < kids.len() - 1 - z;
        let (a, b) = choose|a: int, b: int| #[trigger]
            is_beside(front, blocks.len(), list[x], want, before, a, b);
        assert forall|j: int| 0 <= j < front.len() implies #[trigger] row[j] == front[j] by {}
        assert(is_beside(row, blocks.len(), list[x], want, before, a, b));
    }
}

/// Under the box of a block hang the boxes of the blocks that hang under it, in order,
/// and no other block's.
pub proof fn a_box_has_the_boxes_of_its_blocks(
    blocks: Seq<BlockView>,
    in_rows: Seq<Seq<RowSlot>>,
    out_rows: Seq<Seq<RowSlot>>,
    p: int,
    c: usize,
)
    requires
        0 <= p < blocks.len() <= u32::MAX,
        box_tree(blocks, in_rows, out_rows).len() <= usize::MAX,
        c < blocks.len(),
    ensures
        ({
            let row = box_tree(blocks, in_rows, out_rows)[p].children;
            &&& row.contains(c) <==> hangs(blocks, c as int, p)
            &&& forall|i: int, j: int|
                0 <= i < j < row.len() && #[trigger] row[i] < blocks.len() && #[trigger] row[j]
                    < blocks.len() ==> row[i] < row[j]
        }),
{
    boxes_by_number(blocks, in_rows, out_rows, p);
    let kids = kids_of(blocks, p);
    kids_are_kids(blocks, p);
    assert forall|i: int| 0 <= i < kids.len() implies #[trigger] kids[i] < blocks.len() by {
        assert(kids.contains(kids[i]));
    }
    a_row_has_its_list(blocks, in_rows, out_rows, kids, kids.len());
    assert(kids.take(kids.len() as int) =~= kids);
    let row = box_tree(blocks, in_rows, out_rows)[p].children;
    if row.contains(c) {
        let i = row.index_of(c);
        assert(kids.contains(row[i]));
    }
    if hangs(blocks, c as int, p) {
        assert(kids.contains(c));
        let x = kids.index_of(c);
        row_has(blocks, in_rows, kids, x, kids.len());
    }
}

/// The outside inputs of a block are beside the block it hangs under, on the row of
/// boxes that has that one, with no other block between: before it if fewer of the
/// blocks that hang there come before this one than after it, else after it.
pub proof fn inputs_are_beside_the_block_above(
    blocks: Seq<BlockView>,
    in_rows: Seq<Seq<RowSlot>>,
    out_rows: Seq<Seq<RowSlot>>,
    p: usize,
    kids: Seq<usize>,
    z: int,
)
    requires
        p < blocks.len() <= u32::MAX,
        parents_within(blocks),
        box_tree(blocks, in_rows, out_rows).len() <= usize::MAX,
        lists(kids, |c: int| hangs(blocks, c, p as int)),
        0 <= z < kids.len(),
        in_rows[kids[z] as int].len() > 0,
    ensures
        ({
            let boxes = box_tree(blocks, in_rows, out_rows);
            let above = match blocks[p as int].parent {
                Some((q, _)) => q as int,
                None => tree_root(blocks, in_rows) as int,
            };
            &&& 0 <= above < boxes.len()
            &&& has_beside(
                boxes[above].children,
                blocks.len(),
                p,
                in_box(blocks, in_rows, kids[z] as int),
                z < kids.len() - 1 - z,
            )
        }),
{
    let boxes = box_tree(blocks, in_rows, out_rows);
    kids_are_kids(blocks, p as int);
    ascending_unique(kids, kids_of(blocks, p as int));
    match blocks[p as int].parent {
        Some((q, _)) => {
            let list = kids_of(blocks, q as int);
            kids_are_kids(blocks, q as int);
            boxes_by_number(blocks, in_rows, out_rows, q as int);
            assert(hangs(blocks, p as int, q as int));
            assert(list.contains(p));
            let x = list.index_of(p);
            input_boxes_are_beside(blocks, in_rows, out_rows, list, x, list.len(), z);
        },
        None => {
            let list = seeds_of(blocks);
            seeds_are_seeds(blocks);
            assert(list.contains(p));
            let x = list.index_of(p);
            input_boxes_are_beside(blocks, in_rows, out_rows, list, x, list.len(), z);
            let top = whole_row(blocks, in_rows, list);
            let before = z < kids.len() - 1 - z;
            let want = in_box(blocks, in_rows, kids[z] as int);
            let (a, b) = choose|a: int, b: int| #[trigger]
                is_beside(top, blocks.len(), p, want, before, a, b);
            assert(kids.contains(kids[z]));
            assert(has_in_box(blocks, in_rows, kids[z] as int));
            input_boxes_come_after(blocks, in_rows, out_rows, kids[z] as int);
            assert(a != b);
            assert(top.len() > 1);
            let root = tree_root(blocks, in_rows) as int;
            assert(root == boxes.len() - 1);
            assert(boxes[root].children == top);
        },
    }
}

} // verus!
