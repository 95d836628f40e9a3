//! The boxes a drawing of blocks is laid out in.
//!
//! Every input of a block sits on the row above the block's outputs. A block is
//! one box, as broad as its output row and one row deep, hung under the block
//! that fed it, so that its drawn inputs are on the row above. Its outside
//! inputs go in a box of their own, beside the parent's box on the same row: on
//! the side of the parent the block is on, the first half of the children
//! before the parent and the rest after. A seed has no parent to sit under, so
//! its outside inputs are a row of its own box, which is two rows deep.

use vstd::prelude::*;

use crate::blocks::{Block, BlockView};
use crate::kept::{ascending, ascending_fits, span};
use crate::rows::{row_views, RowSlot};
use crate::settle::{ascending_filter, ascending_unique, children_of, hangs, parents_within};
use crate::walk::views;

verus! {

/// What a box of the layout stands for.
#[derive(Clone, Copy, Debug, PartialEq, Eq, Structural)]
pub enum BoxKind {
    /// A block: its output row, and a seed's input row.
    Block(usize),
    /// The outside inputs of a block.
    Outside(usize),
    /// Nothing: the box several seeds hang from.
    Root,
}

/// A box of the layout: what it stands for, how many slots its broadest row
/// has, how many rows deep it is, and the boxes that hang under it.
pub struct TreeBox {
    pub kind: BoxKind,
    pub slots: usize,
    pub rows: usize,
    pub children: Vec<usize>,
}

/// A box as a mathematical value.
pub struct BoxView {
    pub kind: BoxKind,
    pub slots: nat,
    pub rows: nat,
    pub children: Seq<usize>,
}

impl View for TreeBox {
    type V = BoxView;

    open spec fn view(&self) -> BoxView {
        BoxView {
            kind: self.kind,
            slots: self.slots as nat,
            rows: self.rows as nat,
            children: self.children@,
        }
    }
}

/// How broad a row of so many slots is, in nodes: the slots a node apart.
pub fn breadth_of(slots: usize) -> (breadth: u128)
    ensures
        breadth == if slots == 0 { 1 } else { 2 * slots - 1 },
{
    if slots == 0 {
        1
    } else {
        2 * (slots as u128) - 1
    }
}

/// The blocks that hang under block `p`, in order.
pub open spec fn kids_of(blocks: Seq<BlockView>, p: int) -> Seq<usize> {
    span(0, blocks.len() as int).filter(|c: usize| hangs(blocks, c as int, p))
}

/// The blocks that hang under none, in order.
pub open spec fn seeds_of(blocks: Seq<BlockView>) -> Seq<usize> {
    span(0, blocks.len() as int).filter(|c: usize| blocks[c as int].parent is None)
}

/// Whether the outside inputs of block `c` have a box of their own.
pub open spec fn has_in_box(blocks: Seq<BlockView>, in_rows: Seq<Seq<RowSlot>>, c: int) -> bool {
    blocks[c].parent is Some && in_rows[c].len() > 0
}

/// How many of the first blocks have a box for their outside inputs.
pub open spec fn in_boxes_before(
    blocks: Seq<BlockView>,
    in_rows: Seq<Seq<RowSlot>>,
    count: nat,
) -> nat
    decreases count,
{
    if count == 0 {
        0
    } else {
        in_boxes_before(blocks, in_rows, (count - 1) as nat) + if has_in_box(
            blocks,
            in_rows,
            count - 1,
        ) {
            1nat
        } else {
            0nat
        }
    }
}

/// The number of the box with the outside inputs of block `c`: the blocks' own
/// boxes come first.
pub open spec fn in_box(blocks: Seq<BlockView>, in_rows: Seq<Seq<RowSlot>>, c: int) -> usize {
    (blocks.len() + in_boxes_before(blocks, in_rows, c as nat)) as usize
}

/// The boxes of outside inputs, of the first `k` blocks of `kids`, that go on
/// one side of their parent: before it or after it.
pub open spec fn beside(
    blocks: Seq<BlockView>,
    in_rows: Seq<Seq<RowSlot>>,
    kids: Seq<usize>,
    early: bool,
    k: nat,
) -> Seq<usize>
    decreases k,
{
    if k == 0 {
        Seq::empty()
    } else {
        let front = beside(blocks, in_rows, kids, early, (k - 1) as nat);
        let c = kids[k - 1] as int;
        if in_rows[c].len() > 0 && (2 * (k - 1) < kids.len() - 1) == early {
            front.push(in_box(blocks, in_rows, c))
        } else {
            front
        }
    }
}

/// The boxes on a row for the first `k` blocks of `list`: each block's box with
/// the input boxes of its children on either side.
pub open spec fn box_row(
    blocks: Seq<BlockView>,
    in_rows: Seq<Seq<RowSlot>>,
    list: Seq<usize>,
    k: nat,
) -> Seq<usize>
    decreases k,
{
    if k == 0 {
        Seq::empty()
    } else {
        let p = list[k - 1];
        let kids = kids_of(blocks, p as int);
        box_row(blocks, in_rows, list, (k - 1) as nat) + beside(
            blocks,
            in_rows,
            kids,
            true,
            kids.len(),
        ).push(p) + beside(blocks, in_rows, kids, false, kids.len())
    }
}

/// All the boxes on the row of the blocks of `list`.
pub open spec fn whole_row(
    blocks: Seq<BlockView>,
    in_rows: Seq<Seq<RowSlot>>,
    list: Seq<usize>,
) -> Seq<usize> {
    box_row(blocks, in_rows, list, list.len())
}

/// A row has a slot, whether anything sits on it or not.
pub open spec fn at_least_one(n: nat) -> nat {
    if n == 0 {
        1
    } else {
        n
    }
}

/// How many rows deep the box of block `bi` is.
pub open spec fn rows_deep(blocks: Seq<BlockView>, in_rows: Seq<Seq<RowSlot>>, bi: int) -> nat {
    if blocks[bi].parent is None && in_rows[bi].len() > 0 {
        2
    } else {
        1
    }
}

/// The box of block `bi`.
pub open spec fn block_box(
    blocks: Seq<BlockView>,
    in_rows: Seq<Seq<RowSlot>>,
    out_rows: Seq<Seq<RowSlot>>,
    bi: int,
) -> BoxView {
    let outs = at_least_one(out_rows[bi].len());
    BoxView {
        kind: BoxKind::Block(bi as usize),
        slots: if blocks[bi].parent is None && in_rows[bi].len() > outs {
            in_rows[bi].len()
        } else {
            outs
        },
        rows: rows_deep(blocks, in_rows, bi),
        children: whole_row(blocks, in_rows, kids_of(blocks, bi)),
    }
}

/// The block that block `b` hangs under, where it hangs under one.
pub open spec fn parent_of(b: BlockView) -> int {
    match b.parent {
        Some((p, _)) => p as int,
        None => 0,
    }
}

/// The box of the outside inputs of block `bi`, as deep as its parent's.
pub open spec fn outside_box(
    blocks: Seq<BlockView>,
    in_rows: Seq<Seq<RowSlot>>,
    bi: int,
) -> BoxView {
    BoxView {
        kind: BoxKind::Outside(bi as usize),
        slots: in_rows[bi].len(),
        rows: rows_deep(blocks, in_rows, parent_of(blocks[bi])),
        children: Seq::empty(),
    }
}

/// The boxes of the outside inputs of the first blocks.
pub open spec fn outside_boxes(
    blocks: Seq<BlockView>,
    in_rows: Seq<Seq<RowSlot>>,
    count: nat,
) -> Seq<BoxView>
    decreases count,
{
    if count == 0 {
        Seq::empty()
    } else {
        let front = outside_boxes(blocks, in_rows, (count - 1) as nat);
        if has_in_box(blocks, in_rows, count - 1) {
            front.push(outside_box(blocks, in_rows, count - 1))
        } else {
            front
        }
    }
}

/// The boxes of the drawing: one per block, one per input box, and, where more
/// than one box is at the top, one for them to hang from.
pub open spec fn box_tree(
    blocks: Seq<BlockView>,
    in_rows: Seq<Seq<RowSlot>>,
    out_rows: Seq<Seq<RowSlot>>,
) -> Seq<BoxView> {
    let own = Seq::new(blocks.len(), |bi: int| block_box(blocks, in_rows, out_rows, bi));
    let solid = own + outside_boxes(blocks, in_rows, blocks.len());
    let top = whole_row(blocks, in_rows, seeds_of(blocks));
    if top.len() > 1 {
        solid.push(BoxView { kind: BoxKind::Root, slots: 0, rows: 0, children: top })
    } else {
        solid
    }
}

/// The number of the box everything hangs from.
pub open spec fn tree_root(
    blocks: Seq<BlockView>,
    in_rows: Seq<Seq<RowSlot>>,
) -> nat {
    let top = whole_row(blocks, in_rows, seeds_of(blocks));
    if top.len() > 1 {
        blocks.len() + outside_boxes(blocks, in_rows, blocks.len()).len()
    } else {
        top[0] as nat
    }
}

pub(crate) proof fn outside_boxes_count(blocks: Seq<BlockView>, in_rows: Seq<Seq<RowSlot>>, count: nat)
    ensures
        outside_boxes(blocks, in_rows, count).len() == in_boxes_before(blocks, in_rows, count),
        in_boxes_before(blocks, in_rows, count) <= count,
    decreases count,
{
    if count > 0 {
        outside_boxes_count(blocks, in_rows, (count - 1) as nat);
    }
}

/// The numbers of the input boxes are what the blocks and their rows say.
spec fn numbered(
    ids: Seq<Option<usize>>,
    blocks: Seq<BlockView>,
    in_rows: Seq<Seq<RowSlot>>,
) -> bool {
    &&& ids.len() == blocks.len() == in_rows.len()
    &&& forall|c: int|
        #![trigger ids[c]]
        0 <= c < blocks.len() ==> ids[c] == if has_in_box(blocks, in_rows, c) {
            Some(in_box(blocks, in_rows, c))
        } else {
            None
        }
}

/// The children of each block are what the blocks say.
spec fn families(kids: Seq<Vec<usize>>, blocks: Seq<BlockView>) -> bool {
    &&& kids.len() == blocks.len()
    &&& forall|p: int| 0 <= p < blocks.len() ==> (#[trigger] kids[p])@ == kids_of(blocks, p)
}

/// The input boxes of the children of a block that go on one side of it.
fn side(ids: &Vec<Option<usize>>, kids: &Vec<usize>, early: bool, Ghost(blocks): Ghost<
    Seq<BlockView>,
>, Ghost(in_rows): Ghost<Seq<Seq<RowSlot>>>) -> (row: Vec<usize>)
    requires
        numbered(ids@, blocks, in_rows),
        kids@.len() <= u32::MAX,
        forall|k: int|
            #![trigger kids@[k]]
            0 <= k < kids@.len() ==> kids@[k] < blocks.len() && blocks[kids@[k] as int].parent is Some,
    ensures
        row@ == beside(blocks, in_rows, kids@, early, kids@.len()),
{
    let mut row: Vec<usize> = Vec::new();
    let mut k: usize = 0;
    while k < kids.len()
        invariant
            k <= kids@.len() <= u32::MAX,
            numbered(ids@, blocks, in_rows),
            forall|k: int|
                #![trigger kids@[k]]
                0 <= k < kids@.len() ==> kids@[k] < blocks.len() && blocks[kids@[k] as int].parent is Some,
            row@ == beside(blocks, in_rows, kids@, early, k as nat),
        decreases kids@.len() - k,
    {
        let c: usize = kids[k];
        if let Some(id) = ids[c] {
            if (2 * (k as u64) < (kids.len() - 1) as u64) == early {
                row.push(id);
            }
        }
        k += 1;
    }
    row
}

/// The boxes on the row of the blocks of `list`.
fn row_of(ids: &Vec<Option<usize>>, kids: &Vec<Vec<usize>>, list: &Vec<usize>, Ghost(blocks): Ghost<
    Seq<BlockView>,
>, Ghost(in_rows): Ghost<Seq<Seq<RowSlot>>>) -> (row: Vec<usize>)
    requires
        numbered(ids@, blocks, in_rows),
        families(kids@, blocks),
        blocks.len() <= u32::MAX,
        forall|k: int| #![trigger list@[k]] 0 <= k < list@.len() ==> list@[k] < blocks.len(),
    ensures
        row@ == whole_row(blocks, in_rows, list@),
{
    let mut row: Vec<usize> = Vec::new();
    let mut k: usize = 0;
    while k < list.len()
        invariant
            k <= list@.len(),
            numbered(ids@, blocks, in_rows),
            families(kids@, blocks),
            blocks.len() <= u32::MAX,
            forall|k: int| #![trigger list@[k]] 0 <= k < list@.len() ==> list@[k] < blocks.len(),
            row@ == box_row(blocks, in_rows, list@, k as nat),
        decreases list@.len() - k,
    {
        let p: usize = list[k];
        proof {
            kids_are_children(blocks, p as int);
        }
        assert(kids@[p as int]@ == kids_of(blocks, p as int));
        let mut before = side(ids, &kids[p], true, Ghost(blocks), Ghost(in_rows));
        let mut after = side(ids, &kids[p], false, Ghost(blocks), Ghost(in_rows));
        before.push(p);
        row.append(&mut before);
        row.append(&mut after);
        k += 1;
    }
    row
}

/// The children of a block are blocks, and hang under it.
proof fn kids_are_children(blocks: Seq<BlockView>, p: int)
    requires
        blocks.len() <= u32::MAX,
    ensures
        ascending(kids_of(blocks, p)),
        kids_of(blocks, p).len() <= blocks.len(),
        forall|c: usize| #[trigger] kids_of(blocks, p).contains(c) <==> hangs(blocks, c as int, p),
        forall|k: int|
            #![trigger kids_of(blocks, p)[k]]
            0 <= k < kids_of(blocks, p).len() ==> hangs(blocks, kids_of(blocks, p)[k] as int, p),
{
    let s = span(0, blocks.len() as int);
    let q = |c: usize| hangs(blocks, c as int, p);
    ascending_filter(s, q);
    let kids = kids_of(blocks, p);
    assert forall|c: usize| hangs(blocks, c as int, p) implies #[trigger] kids.contains(c) by {
        assert(s[c as int] == c);
    }
    assert forall|k: int| #![trigger kids[k]] 0 <= k < kids.len() implies hangs(
        blocks,
        kids[k] as int,
        p,
    ) && 0 <= kids[k] < blocks.len() by {
        assert(kids.contains(kids[k]));
    }
    ascending_fits(kids, 0, blocks.len() as int);
}

proof fn seeds_are_seeds(blocks: Seq<BlockView>)
    requires
        blocks.len() <= u32::MAX,
    ensures
        ascending(seeds_of(blocks)),
        forall|c: usize| #[trigger]
            seeds_of(blocks).contains(c) <==> c < blocks.len() && blocks[c as int].parent is None,
{
    let s = span(0, blocks.len() as int);
    let q = |c: usize| blocks[c as int].parent is None;
    ascending_filter(s, q);
    assert forall|c: usize| c < blocks.len() implies #[trigger] s.contains(c) by {
        assert(s[c as int] == c);
    }
}

/// The boxes of a drawing of blocks, the boxes of the blocks' outside inputs
/// among them, and the box everything hangs from.
pub struct Boxes {
    pub boxes: Vec<TreeBox>,
    pub in_boxes: Vec<Option<usize>>,
    pub root: usize,
}

/// Boxes as mathematical values.
pub open spec fn box_views(boxes: Seq<TreeBox>) -> Seq<BoxView> {
    boxes.map_values(|b: TreeBox| b@)
}

/// Whether any of the blocks hangs under none.
pub open spec fn has_seed(blocks: Seq<BlockView>) -> bool {
    exists|i: int| 0 <= i < blocks.len() && (#[trigger] blocks[i]).parent is None
}

/// A box without what hangs under it.
spec fn bare(b: BoxView) -> BoxView {
    BoxView { children: Seq::empty(), ..b }
}

/// Arranges the boxes of the drawing.
pub fn arrange(blocks: &Vec<Block>, in_rows: &Vec<Vec<RowSlot>>, out_rows: &Vec<Vec<RowSlot>>) -> (r:
    Boxes)
    requires
        parents_within(views(blocks@)),
        blocks@.len() <= u32::MAX,
        in_rows@.len() == blocks@.len(),
        out_rows@.len() == blocks@.len(),
        has_seed(views(blocks@)),
    ensures
        box_views(r.boxes@) == box_tree(
            views(blocks@),
            row_views(in_rows@),
            row_views(out_rows@),
        ),
        r.root == tree_root(views(blocks@), row_views(in_rows@)),
        r.in_boxes@.len() == blocks@.len(),
        forall|c: int|
            #![trigger r.in_boxes@[c]]
            0 <= c < blocks@.len() ==> r.in_boxes@[c] == if has_in_box(
                views(blocks@),
                row_views(in_rows@),
                c,
            ) {
                Some(in_box(views(blocks@), row_views(in_rows@), c))
            } else {
                None
            },
{
    let ghost all = views(blocks@);
    let ghost ins = row_views(in_rows@);
    let ghost outs = row_views(out_rows@);
    let n: usize = blocks.len();
    let mut boxes: Vec<TreeBox> = Vec::new();
    let mut bi: usize = 0;
    while bi < n
        invariant
            bi <= n == blocks@.len(),
            all == views(blocks@),
            ins == row_views(in_rows@),
            outs == row_views(out_rows@),
            in_rows@.len() == n,
            out_rows@.len() == n,
            boxes@.len() == bi,
            forall|i: int|
                0 <= i < bi ==> (#[trigger] boxes@[i])@ == bare(block_box(all, ins, outs, i)),
        decreases n - bi,
    {
        assert(ins[bi as int] == in_rows@[bi as int]@);
        assert(outs[bi as int] == out_rows@[bi as int]@);
        let seed = blocks[bi].parent.is_none();
        let row: usize = out_rows[bi].len();
        let input_row: usize = in_rows[bi].len();
        let mut slots: usize = if row == 0 { 1 } else { row };
        if seed && input_row > slots {
            slots = input_row;
        }
        let rows: usize = if seed && input_row > 0 { 2 } else { 1 };
        let b = TreeBox { kind: BoxKind::Block(bi), slots, rows, children: Vec::new() };
        assert(b@ == bare(block_box(all, ins, outs, bi as int)));
        boxes.push(b);
        bi += 1;
    }
    let mut ids: Vec<Option<usize>> = Vec::new();
    let mut c: usize = 0;
    while c < n
        invariant
            c <= n == blocks@.len(),
            all == views(blocks@),
            parents_within(all),
            ins == row_views(in_rows@),
            in_rows@.len() == n,
            ids@.len() == c,
            boxes@.len() == n + in_boxes_before(all, ins, c as nat),
            forall|i: int|
                0 <= i < n ==> (#[trigger] boxes@[i])@ == bare(block_box(all, ins, outs, i)),
            forall|i: int|
                0 <= i < in_boxes_before(all, ins, c as nat) ==> boxes@[n + i]@
                    == #[trigger] outside_boxes(all, ins, c as nat)[i],
            forall|i: int|
                #![trigger ids@[i]]
                0 <= i < c ==> ids@[i] == if has_in_box(all, ins, i) {
                    Some(in_box(all, ins, i))
                } else {
                    None
                },
        decreases n - c,
    {
        proof {
            outside_boxes_count(all, ins, c as nat);
        }
        assert(ins[c as int] == in_rows@[c as int]@);
        assert(all[c as int] == blocks@[c as int]@);
        let mut id: Option<usize> = None;
        if let Some((p, _)) = blocks[c].parent {
            if in_rows[c].len() > 0 {
                let at: usize = p as usize;
                assert(ins[at as int] == in_rows@[at as int]@);
                let deep = blocks[at].parent.is_none() && in_rows[at].len() > 0;
                let rows: usize = if deep { 2 } else { 1 };
                let b = TreeBox {
                    kind: BoxKind::Outside(c),
                    slots: in_rows[c].len(),
                    rows,
                    children: Vec::new(),
                };
                assert(b@ == outside_box(all, ins, c as int));
                id = Some(boxes.len());
                boxes.push(b);
            }
        }
        ids.push(id);
        c += 1;
    }
    proof {
        outside_boxes_count(all, ins, n as nat);
    }
    let kids = children_of(blocks);
    proof {
        assert forall|p: int| 0 <= p < n implies (#[trigger] kids@[p])@ == kids_of(all, p) by {
            kids_are_children(all, p);
            let own = kids@[p]@;
            let said = kids_of(all, p);
            assert forall|x: usize|
                #![trigger own.contains(x)]
                #![trigger said.contains(x)]
                own.contains(x) <==> said.contains(x) by {
                assert(own.contains(x) <==> hangs(all, x as int, p));
            }
            ascending_unique(own, said);
        }
    }
    let ghost built = boxes@;
    let mut p: usize = 0;
    while p < n
        invariant
            p <= n == blocks@.len(),
            n <= u32::MAX,
            all == views(blocks@),
            all.len() == n,
            numbered(ids@, all, ins),
            families(kids@, all),
            boxes@.len() == built.len() >= n,
            forall|i: int| n <= i < boxes@.len() ==> #[trigger] boxes@[i] == built[i],
            forall|i: int|
                0 <= i < n ==> (#[trigger] boxes@[i])@ == if i < p {
                    block_box(all, ins, outs, i)
                } else {
                    bare(block_box(all, ins, outs, i))
                },
        decreases n - p,
    {
        proof {
            kids_are_children(all, p as int);
        }
        assert(kids@[p as int]@ == kids_of(all, p as int));
        let row = row_of(&ids, &kids, &kids[p], Ghost(all), Ghost(ins));
        assert(boxes@[p as int]@ == bare(block_box(all, ins, outs, p as int)));
        boxes[p].children = row;
        assert(boxes@[p as int]@ == block_box(all, ins, outs, p as int));
        p += 1;
    }
    let mut seeds: Vec<usize> = Vec::new();
    let mut i: usize = 0;
    while i < n
        invariant
            i <= n == blocks@.len(),
            all == views(blocks@),
            ascending(seeds@),
            forall|x: usize|
                #![trigger seeds@.contains(x)]
                seeds@.contains(x) <==> x < i && all[x as int].parent is None,
        decreases n - i,
    {
        if blocks[i].parent.is_none() {
            let ghost held = seeds@;
            seeds.push(i);
            proof {
                assert forall|x: usize| #[trigger] seeds@.contains(x) <==> held.contains(x) || x
                    == i by {
                    if held.contains(x) {
                        let k = held.index_of(x);
                        assert(seeds@[k] == x);
                    }
                    if x == i {
                        assert(seeds@[held.len() as int] == x);
                    }
                }
                assert forall|a: int, b: int| 0 <= a < b < seeds@.len() implies seeds@[a]
                    < seeds@[b] by {
                    if b == held.len() {
                        assert(held.contains(held[a]));
                    }
                }
            }
        }
        i += 1;
    }
    proof {
        seeds_are_seeds(all);
        let said = seeds_of(all);
        assert forall|x: usize|
            #![trigger seeds@.contains(x)]
            #![trigger said.contains(x)]
            seeds@.contains(x) <==> said.contains(x) by {}
        ascending_unique(seeds@, said);
        assert forall|k: int| #![trigger seeds@[k]] 0 <= k < seeds@.len() implies seeds@[k]
            < all.len() by {
            assert(seeds@.contains(seeds@[k]));
        }
        let s = choose|i: int| 0 <= i < all.len() && (#[trigger] all[i]).parent is None;
        assert(seeds@.contains(s as usize));
    }
    let top = row_of(&ids, &kids, &seeds, Ghost(all), Ghost(ins));
    proof {
        row_is_not_empty(all, ins, seeds@, seeds@.len());
    }
    let ghost solid = box_views(boxes@);
    proof {
        let own = Seq::new(all.len(), |bi: int| block_box(all, ins, outs, bi));
        let more = outside_boxes(all, ins, n as nat);
        assert forall|k: int| 0 <= k < solid.len() implies solid[k] == (own + more)[k] by {
            if k < n {
                assert(boxes@[k]@ == block_box(all, ins, outs, k));
            } else {
                assert(boxes@[k] == built[k]);
                assert(built[n + (k - n)]@ == more[k - n]);
            }
        }
        assert(solid =~= own + more);
    }
    let root: usize = if top.len() > 1 {
        let at: usize = boxes.len();
        let ghost tv = top@;
        boxes.push(TreeBox { kind: BoxKind::Root, slots: 0, rows: 0, children: top });
        assert(box_views(boxes@) =~= solid.push(
            BoxView { kind: BoxKind::Root, slots: 0, rows: 0, children: tv },
        ));
        at
    } else {
        top[0]
    };
    Boxes { boxes, in_boxes: ids, root }
}

proof fn row_is_not_empty(
    blocks: Seq<BlockView>,
    in_rows: Seq<Seq<RowSlot>>,
    list: Seq<usize>,
    k: nat,
)
    requires
        0 < k <= list.len(),
    ensures
        box_row(blocks, in_rows, list, k).len() > 0,
{
}

} // verus!
