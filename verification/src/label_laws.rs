//! Where the labels of a drawing of blocks are set, and how much room they want.

use vstd::prelude::*;

use crate::labels::{last_mark, last_node, longest, Anchor};
use crate::rows::{Ellipsis, Placed, Role, Row};

verus! {

/// A node is on a row of block `bi`.
pub open spec fn is_of_row(p: Placed, bi: int, row: Row) -> bool {
    match p.role {
        Role::Output { block } => block == bi && row == Row::Output,
        Role::Outside { block, .. } => block == bi && row == Row::Input,
    }
}

/// What is set at a node or at an ellipsis of a row is at this slot of it.
pub open spec fn is_set_at(
    nodes: Seq<Placed>,
    ellipses: Seq<Ellipsis>,
    bi: int,
    row: Row,
    slot: usize,
    anchor: Anchor,
) -> bool {
    match anchor {
        Anchor::Beside(s) => {
            &&& s.part == 0
            &&& s.node < nodes.len()
            &&& is_of_row(nodes[s.node as int], bi, row)
            &&& nodes[s.node as int].slot == slot
        },
        Anchor::BesideDots(e) => {
            &&& e < ellipses.len()
            &&& ellipses[e as int].block == bi
            &&& ellipses[e as int].row == row
            &&& ellipses[e as int].slot == slot
        },
        _ => false,
    }
}

proof fn last_node_is_last(nodes: Seq<Placed>, bi: int, row: Row)
    requires
        nodes.len() <= u32::MAX,
    ensures
        last_node(nodes, bi, row) is None <==> forall|i: int|
            0 <= i < nodes.len() ==> !is_of_row(#[trigger] nodes[i], bi, row),
        last_node(nodes, bi, row) matches Some((slot, anchor)) ==> {
            &&& anchor is Beside
            &&& is_set_at(nodes, Seq::empty(), bi, row, slot, anchor)
            &&& forall|i: int|
                0 <= i < nodes.len() && is_of_row(#[trigger] nodes[i], bi, row) ==> nodes[i].slot
                    <= slot
        },
    decreases nodes.len(),
{
    if nodes.len() > 0 {
        let f = nodes.drop_last();
        let k = nodes.len() - 1;
        last_node_is_last(f, bi, row);
        assert(nodes[k] == nodes.last());
        assert forall|i: int| 0 <= i < k implies #[trigger] nodes[i] == f[i] by {}
        if last_node(nodes, bi, row) is None {
            assert forall|i: int| 0 <= i < nodes.len() implies !is_of_row(
                #[trigger] nodes[i],
                bi,
                row,
            ) by {
                if i < k {
                    assert(!is_of_row(f[i], bi, row));
                }
            }
        }
        if let Some((slot, anchor)) = last_node(nodes, bi, row) {
            assert forall|i: int|
                0 <= i < nodes.len() && is_of_row(#[trigger] nodes[i], bi, row) implies nodes[i].slot
                <= slot by {
                if i < k {
                    assert(is_of_row(f[i], bi, row));
                }
            }
        }
    }
}

/// The label of a row is set at the mark furthest along it, a node or an ellipsis, and
/// there is one exactly if there is anything on the row.
pub proof fn a_label_is_set_at_the_end_of_its_row(
    nodes: Seq<Placed>,
    ellipses: Seq<Ellipsis>,
    bi: int,
    row: Row,
)
    requires
        nodes.len() <= u32::MAX,
        ellipses.len() <= usize::MAX,
    ensures
        last_mark(nodes, ellipses, bi, row) is None <==> {
            &&& forall|i: int| 0 <= i < nodes.len() ==> !is_of_row(#[trigger] nodes[i], bi, row)
            &&& forall|e: int|
                0 <= e < ellipses.len() ==> !((#[trigger] ellipses[e]).block == bi
                    && ellipses[e].row == row)
        },
        last_mark(nodes, ellipses, bi, row) matches Some((slot, anchor)) ==> {
            &&& is_set_at(nodes, ellipses, bi, row, slot, anchor)
            &&& forall|i: int|
                0 <= i < nodes.len() && is_of_row(#[trigger] nodes[i], bi, row) ==> nodes[i].slot
                    <= slot
            &&& forall|e: int|
                0 <= e < ellipses.len() && (#[trigger] ellipses[e]).block == bi && ellipses[e].row
                    == row ==> ellipses[e].slot <= slot
        },
    decreases ellipses.len(),
{
    if ellipses.len() == 0 {
        last_node_is_last(nodes, bi, row);
    } else {
        let f = ellipses.drop_last();
        let k = ellipses.len() - 1;
        a_label_is_set_at_the_end_of_its_row(nodes, f, bi, row);
        assert(ellipses[k] == ellipses.last());
        assert forall|e: int| 0 <= e < k implies #[trigger] ellipses[e] == f[e] by {}
        if last_mark(nodes, ellipses, bi, row) is None {
            assert forall|e: int| 0 <= e < ellipses.len() implies !((
            #[trigger] ellipses[e]).block == bi && ellipses[e].row == row) by {
                if e < k {
                    assert(!(f[e].block == bi && f[e].row == row));
                }
            }
        }
        if let Some((slot, anchor)) = last_mark(nodes, ellipses, bi, row) {
            assert forall|e: int|
                0 <= e < ellipses.len() && (#[trigger] ellipses[e]).block == bi && ellipses[e].row
                    == row implies ellipses[e].slot <= slot by {
                if e < k {
                    assert(f[e].block == bi && f[e].row == row);
                }
            }
        }
    }
}

/// A label that stands on a row.
pub open spec fn is_on_a_row(label: (Anchor, Seq<char>)) -> bool {
    !(label.0 is Outward)
}

/// The margin that is kept is as long as the longest of the labels that stand on a row,
/// and no longer.
pub proof fn a_margin_has_room_for_every_label(labels: Seq<(Anchor, Seq<char>)>)
    ensures
        forall|i: int|
            0 <= i < labels.len() && is_on_a_row(#[trigger] labels[i]) ==> labels[i].1.len()
                <= longest(labels),
        longest(labels) > 0 ==> exists|i: int|
            0 <= i < labels.len() && is_on_a_row(#[trigger] labels[i]) && labels[i].1.len()
                == longest(labels),
    decreases labels.len(),
{
    if labels.len() > 0 {
        let f = labels.drop_last();
        let k = labels.len() - 1;
        a_margin_has_room_for_every_label(f);
        assert(labels[k] == labels.last());
        assert forall|i: int|
            0 <= i < labels.len() && is_on_a_row(#[trigger] labels[i]) implies labels[i].1.len()
            <= longest(labels) by {
            if i < k {
                assert(is_on_a_row(f[i]));
            }
        }
        if longest(labels) > 0 && longest(labels) == longest(f) {
            let i = choose|i: int|
                0 <= i < f.len() && is_on_a_row(#[trigger] f[i]) && f[i].1.len() == longest(f);
            assert(labels[i] == f[i]);
        }
    }
}

} // verus!
