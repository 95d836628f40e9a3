//! What holds of the boxes that the rows of a drawing of blocks lie in.

use vstd::prelude::*;

use crate::arc_laws::{
    boxes_by_number, is_ground_of, outside_box_at, the_ground_is_of_its_drawing,
};
use crate::block_places::{ground, Corner, Ground};
use crate::block_scene::{BlockScene, SceneView};
use crate::blocks::BlockView;
use crate::boxes::{box_tree, has_in_box, in_box, outside_boxes_count};
use crate::crossings::UNIT;
use crate::rows::{Ellipsis, Placed, Role, Row, RowSlot};

verus! {

/// The larger of two.
pub open spec fn larger_of(a: nat, b: nat) -> nat {
    if a < b {
        b
    } else {
        a
    }
}

/// Every row fits the box it lies in, and no box is broader than its broadest row,
/// or than one node where it has none. A block's own box has its output row, and a
/// seed's its input row too, above it; the inputs of any other block lie in a box of
/// their own, as deep as that of the block it hangs under.
pub proof fn every_row_fits_its_box(
    blocks: Seq<BlockView>,
    in_rows: Seq<Seq<RowSlot>>,
    out_rows: Seq<Seq<RowSlot>>,
    bi: int,
)
    requires
        0 <= bi < blocks.len() <= u32::MAX,
        box_tree(blocks, in_rows, out_rows).len() <= usize::MAX,
    ensures
        ({
            let boxes = box_tree(blocks, in_rows, out_rows);
            let (ins, outs) = (in_rows[bi].len(), out_rows[bi].len());
            &&& bi < boxes.len()
            &&& blocks[bi].parent is None ==> {
                &&& boxes[bi].slots == larger_of(1, larger_of(ins, outs))
                &&& boxes[bi].rows == if ins > 0 {
                    2nat
                } else {
                    1
                }
            }
            &&& blocks[bi].parent matches Some((p, _)) ==> {
                &&& boxes[bi].slots == larger_of(1, outs)
                &&& boxes[bi].rows == 1
                &&& ins > 0 ==> {
                    let b = in_box(blocks, in_rows, bi) as int;
                    &&& blocks.len() <= b < boxes.len()
                    &&& boxes[b].slots == ins
                    &&& boxes[b].children.len() == 0
                    &&& p < blocks.len() ==> boxes[b].rows == boxes[p as int].rows
                }
            }
        }),
{
    boxes_by_number(blocks, in_rows, out_rows, bi);
    if let Some((p, _)) = blocks[bi].parent {
        if p < blocks.len() {
            boxes_by_number(blocks, in_rows, out_rows, p as int);
        }
        if in_rows[bi].len() > 0 {
            assert(has_in_box(blocks, in_rows, bi));
            outside_boxes_count(blocks, in_rows, bi as nat);
            outside_box_at(blocks, in_rows, bi, blocks.len());
        }
    }
}

/// How long a row of a drawing is.
pub open spec fn row_length(scene: SceneView, bi: int, row: Row) -> int {
    match row {
        Row::Input => scene.in_rows[bi].len() as int,
        Row::Output => scene.out_rows[bi].len() as int,
    }
}

/// The box a row lies in.
pub open spec fn box_of(scene: SceneView, bi: int, row: Row) -> int {
    match row {
        Row::Output => bi,
        Row::Input => match scene.blocks[bi].parent {
            None => bi,
            Some(_) => in_box(scene.blocks, scene.in_rows, bi) as int,
        },
    }
}

/// The ground has the rows of the drawing.
pub open spec fn has_rows_of(gr: Ground, scene: SceneView) -> bool {
    &&& is_ground_of(gr, scene)
    &&& forall|i: int|
        0 <= i < scene.blocks.len() ==> #[trigger] gr.in_rows[i] == scene.in_rows[i].len()
    &&& forall|i: int|
        0 <= i < scene.blocks.len() ==> #[trigger] gr.out_rows[i] == scene.out_rows[i].len()
}

/// Every slot of a row is a node's room inside the box it lies in, in breadth and in
/// depth; the row is centred; it lies at the far edge of the box, but for the inputs
/// of a seed, which lie at the near edge, a row above the outputs.
pub proof fn every_slot_is_in_its_box(
    gr: Ground,
    scene: SceneView,
    bi: int,
    row: Row,
    k: int,
)
    requires
        has_rows_of(gr, scene),
        scene.boxes == box_tree(scene.blocks, scene.in_rows, scene.out_rows),
        scene.boxes.len() <= usize::MAX,
        0 <= bi < scene.blocks.len() <= u32::MAX,
        scene.blocks[bi].parent matches Some((p, _)) ==> p < scene.blocks.len(),
        0 <= k < row_length(scene, bi, row),
    ensures
        gr.place_of(bi, row, k) is Some,
        ({
            let (t, s) = gr.place_of(bi, row, k)->0;
            let b = box_of(scene, bi, row);
            let corner = gr.corners[b];
            let n = row_length(scene, bi, row);
            let wide = (2 * scene.boxes[b].slots - 1) * UNIT;
            let deep = scene.boxes[b].rows * UNIT;
            &&& corner.breadth + UNIT / 2 <= s <= corner.breadth + wide - UNIT / 2
            &&& corner.depth + UNIT / 2 <= t <= corner.depth + deep - UNIT / 2
            &&& (gr.place_of(bi, row, 0)->0).1 + (gr.place_of(bi, row, n - 1)->0).1 == 2
                * corner.breadth + wide
            &&& s == (gr.place_of(bi, row, 0)->0).1 + 2 * k * UNIT
            &&& t == if row == Row::Input && scene.blocks[bi].parent is None {
                corner.depth + UNIT / 2
            } else {
                corner.depth + deep - UNIT / 2
            }
            &&& row == Row::Input && scene.blocks[bi].parent is None && scene.out_rows[bi].len() > 0
                ==> (gr.place_of(bi, Row::Output, 0)->0).0 == t + UNIT
        }),
{
    every_row_fits_its_box(scene.blocks, scene.in_rows, scene.out_rows, bi);
    assert(gr.in_rows[bi] == scene.in_rows[bi].len());
    assert(gr.out_rows[bi] == scene.out_rows[bi].len());
    let b = box_of(scene, bi, row);
    let n = row_length(scene, bi, row);
    let slots = scene.boxes[b].slots as int;
    if row == Row::Input {
        assert(gr.in_boxes[bi] == if has_in_box(scene.blocks, scene.in_rows, bi) {
            Some(in_box(scene.blocks, scene.in_rows, bi))
        } else {
            None
        });
    }
    if let Some((p, _)) = scene.blocks[bi].parent {
        every_row_fits_its_box(scene.blocks, scene.in_rows, scene.out_rows, p as int);
    }
    assert(1 <= n <= slots);
    assert(gr.place_of(bi, row, k) is Some);
    assert((gr.place_of(bi, row, k)->0).1 == gr.corners[b].breadth + (slots - n) * UNIT + 2 * k * UNIT
        + UNIT / 2);
    let rows = scene.boxes[b].rows as int;
    assert(1 <= rows <= 2);
}

/// The ground that places are worked out from has the rows of the drawing it is made
/// of, and its boxes at the corners they were given. An output of the drawing is at its
/// slot of the output row of its block, an outside input at its slot of the input row,
/// and an ellipsis at its slot of the row that it is on.
pub proof fn the_ground_has_the_rows_of_its_drawing(
    scene: BlockScene,
    corners: Seq<Corner>,
    p: Placed,
    e: Ellipsis,
)
    requires
        corners.len() == scene.boxes.boxes@.len(),
        scene.in_rows@.len() == scene.blocks@.len(),
        scene.out_rows@.len() == scene.blocks@.len(),
        scene.boxes.in_boxes@.len() == scene.blocks@.len(),
        forall|c: int|
            0 <= c < scene.blocks@.len() ==> #[trigger] scene.boxes.in_boxes@[c] == if has_in_box(
                scene@.blocks,
                scene@.in_rows,
                c,
            ) {
                Some(in_box(scene@.blocks, scene@.in_rows, c))
            } else {
                None
            },
    ensures
        ({
            let gr = ground(scene, corners);
            &&& has_rows_of(gr, scene@)
            &&& gr.corners == corners
            &&& p.role matches Role::Output { block } ==> gr.node(p) == gr.place_of(
                block as int,
                Row::Output,
                p.slot as int,
            )
            &&& p.role matches Role::Outside { block, .. } ==> gr.node(p) == gr.place_of(
                block as int,
                Row::Input,
                p.slot as int,
            )
            &&& gr.ellipsis(e) == gr.place_of(e.block as int, e.row, e.slot as int)
        }),
{
    the_ground_is_of_its_drawing(scene, corners);
    let gr = ground(scene, corners);
    assert forall|i: int| 0 <= i < scene@.blocks.len() implies #[trigger] gr.in_rows[i]
        == scene@.in_rows[i].len() by {}
    assert forall|i: int| 0 <= i < scene@.blocks.len() implies #[trigger] gr.out_rows[i]
        == scene@.out_rows[i].len() by {}
}

} // verus!
