//! The words on a page of blocks.
//!
//! A label is written beside its node, on the row, in the direction the row
//! runs: arcs meet a row only at its nodes. A row's one label, when labels are
//! compact, sits beside the row's last slot, and the hidden count of an ellipsis
//! on the outward side of the row.

use vstd::prelude::*;
use vstd::string::*;

use crate::block_scene::{BlockScene, SceneView};
use crate::blocks::{Block, BlockView};
use crate::ink::Spot;
use crate::rows::{Ellipsis, Placed, Role, Row};
use crate::settle::all_blocks;
use crate::text::{dec, push_dec, push_signed, push_wide, signed};

verus! {

/// What is written on a page: nothing, the id of every node, or one label a row.
#[derive(Clone, Copy, Debug, PartialEq, Eq, Structural)]
pub enum Labels {
    Nothing,
    Each,
    Compact,
}

/// What a label is set at, and on which side of it.
#[derive(Clone, Copy, Debug, PartialEq, Eq, Structural)]
pub enum Anchor {
    /// Beside the circle of a node, along its row.
    Beside(Spot),
    /// Beside the dots of an ellipsis, along its row.
    BesideDots(usize),
    /// On the outward side of an ellipsis: the past's side of an input row, the
    /// future's of an output row.
    Outward(usize, Row),
    /// Over a circle.
    Over(Spot),
    /// Under a circle.
    Under(Spot),
}

/// A label of a page.
pub struct Label {
    pub anchor: Anchor,
    pub text: String,
}

impl View for Label {
    type V = (Anchor, Seq<char>);

    open spec fn view(&self) -> (Anchor, Seq<char>) {
        (self.anchor, self.text@)
    }
}

/// The labels as mathematical values.
pub open spec fn label_views(labels: Seq<Label>) -> Seq<(Anchor, Seq<char>)> {
    Seq::new(labels.len(), |i: int| labels[i]@)
}

/// The printed id of a node: counted from the base, if there is one.
pub open spec fn name_of(g: usize, base: Option<i64>) -> Seq<char> {
    match base {
        None => dec(g as nat),
        Some(b) => signed(g - b),
    }
}

/// Appends the printed id of a node.
pub fn push_name(s: &mut String, g: usize, base: Option<i64>)
    ensures
        final(s)@ == old(s)@ + name_of(g, base),
{
    match base {
        None => push_dec(s, g as u64),
        Some(b) => push_signed(s, g as i128 - b as i128),
    }
}

/// Whether a node is on the input row of block `bi`.
pub open spec fn on_input_row(p: Placed, bi: int) -> bool {
    p.role matches Role::Outside { block, .. } && block == bi
}

/// Whether a node is on the output row of block `bi`.
pub open spec fn on_output_row(p: Placed, bi: int) -> bool {
    p.role matches Role::Output { block } && block == bi
}

/// Whether a node is on a row of block `bi`.
pub open spec fn on_row(p: Placed, bi: int, row: Row) -> bool {
    match row {
        Row::Input => on_input_row(p, bi),
        Row::Output => on_output_row(p, bi),
    }
}

fn is_on_row(p: &Placed, bi: usize, row: Row) -> (b: bool)
    ensures
        b == on_row(*p, bi as int, row),
{
    match p.role {
        Role::Output { block } => row == Row::Output && block as usize == bi,
        Role::Outside { block, .. } => row == Row::Input && block as usize == bi,
    }
}

/// The outside inputs of a block, on the input row: how many, and the least and
/// the greatest id of them.
pub open spec fn outside(nodes: Seq<Placed>, bi: int) -> (nat, usize, usize)
    decreases nodes.len(),
{
    if nodes.len() == 0 {
        (0, 0, 0)
    } else {
        let (n, low, high) = outside(nodes.drop_last(), bi);
        let g = nodes.last().graph;
        if !on_input_row(nodes.last(), bi) {
            (n, low, high)
        } else if n == 0 {
            (1, g, g)
        } else {
            (
                n + 1,
                if g < low {
                    g
                } else {
                    low
                },
                if g > high {
                    g
                } else {
                    high
                },
            )
        }
    }
}

fn find_outside(nodes: &Vec<Placed>, bi: usize) -> (r: (usize, usize, usize))
    ensures
        (r.0 as nat, r.1, r.2) == outside(nodes@, bi as int),
        r.0 <= nodes@.len(),
{
    let mut n: usize = 0;
    let mut low: usize = 0;
    let mut high: usize = 0;
    let mut i: usize = 0;
    while i < nodes.len()
        invariant
            n <= i <= nodes@.len(),
            (n as nat, low, high) == outside(nodes@.take(i as int), bi as int),
        decreases nodes@.len() - i,
    {
        assert(nodes@.take(i + 1).drop_last() =~= nodes@.take(i as int));
        if is_on_row(&nodes[i], bi, Row::Input) {
            let g: usize = nodes[i].graph;
            if n == 0 {
                low = g;
                high = g;
            } else {
                if g < low {
                    low = g;
                }
                if g > high {
                    high = g;
                }
            }
            n += 1;
        }
        i += 1;
    }
    assert(nodes@.take(nodes@.len() as int) =~= nodes@);
    (n, low, high)
}

/// What an output row says: its one node, or its range and the block's count.
pub open spec fn output_text(b: BlockView, base: Option<i64>) -> Seq<char> {
    let n = b.outputs.len();
    if n == 1 {
        name_of(b.first_out, base)
    } else {
        name_of(b.outputs[0], base) + "-"@ + name_of(b.outputs[n - 1], base) + " ("@ + dec(n)
            + ")"@
    }
}

/// What an input row says: the ids at its ends, and what is on it out of what
/// the block has. The kept inputs that are not on the row are drawn where their
/// producers put them; the hidden ones are on the row's ellipsis, and so count
/// as the row's. Nothing, if no input of the block is on it.
pub open spec fn input_text(nodes: Seq<Placed>, b: BlockView, bi: int, base: Option<i64>) -> Option<
    Seq<char>,
> {
    let (shown, low, high) = outside(nodes, bi);
    let n = b.inputs.len();
    let here = n - b.kept_in.count(n) + shown;
    let ends = if shown > 1 {
        name_of(low, base) + " ... "@ + name_of(high, base)
    } else {
        name_of(low, base)
    };
    if shown == 0 {
        None
    } else if n == 1 {
        Some(ends)
    } else if here == n {
        Some(ends + " ("@ + dec(n) + ")"@)
    } else {
        Some(ends + " ("@ + dec(here as nat) + " of "@ + dec(n) + ")"@)
    }
}

/// What a row of a block says when labels are compact.
pub open spec fn row_text(
    nodes: Seq<Placed>,
    b: BlockView,
    bi: int,
    row: Row,
    base: Option<i64>,
) -> Option<Seq<char>> {
    match row {
        Row::Output => Some(output_text(b, base)),
        Row::Input => input_text(nodes, b, bi, base),
    }
}

/// A text, if there is one.
pub open spec fn text_view(t: Option<String>) -> Option<Seq<char>> {
    match t {
        None => None,
        Some(s) => Some(s@),
    }
}

/// What a row of a block says when labels are compact.
pub fn say_row(nodes: &Vec<Placed>, b: &Block, bi: usize, row: Row, base: Option<i64>) -> (text:
    Option<String>)
    requires
        b@.is_block(),
    ensures
        text_view(text) == row_text(nodes@, b@, bi as int, row, base),
{
    let mut s = String::new();
    match row {
        Row::Output => {
            let n: usize = b.outputs.len();
            if n == 1 {
                push_name(&mut s, b.first_out, base);
            } else {
                push_name(&mut s, b.outputs[0], base);
                s.append("-");
                push_name(&mut s, b.outputs[n - 1], base);
                s.append(" (");
                push_dec(&mut s, n as u64);
                s.append(")");
            }
            assert(s@ =~= output_text(b@, base));
            Some(s)
        },
        Row::Input => {
            let (shown, low, high) = find_outside(nodes, bi);
            if shown == 0 {
                return None;
            }
            let n: usize = b.inputs.len();
            push_name(&mut s, low, base);
            if shown > 1 {
                s.append(" ... ");
                push_name(&mut s, high, base);
            }
            let here: u128 = b.kept_in.hidden(n) as u128 + shown as u128;
            if n != 1 {
                s.append(" (");
                if here != n as u128 {
                    push_wide(&mut s, here);
                    s.append(" of ");
                }
                push_dec(&mut s, n as u64);
                s.append(")");
            }
            assert(s@ =~= input_text(nodes@, b@, bi as int, base).unwrap());
            Some(s)
        },
    }
}

/// The node furthest along a row, with its slot.
pub open spec fn last_node(nodes: Seq<Placed>, bi: int, row: Row) -> Option<(usize, Anchor)>
    decreases nodes.len(),
{
    if nodes.len() == 0 {
        None
    } else {
        let before = last_node(nodes.drop_last(), bi, row);
        let p = nodes.last();
        if on_row(p, bi, row) && (before matches Some(b) ==> p.slot > b.0) {
            Some((p.slot, Anchor::Beside(Spot { part: 0, node: (nodes.len() - 1) as u32 })))
        } else {
            before
        }
    }
}

/// The mark furthest along a row: a node or an ellipsis.
pub open spec fn last_mark(
    nodes: Seq<Placed>,
    ellipses: Seq<Ellipsis>,
    bi: int,
    row: Row,
) -> Option<(usize, Anchor)>
    decreases ellipses.len(),
{
    if ellipses.len() == 0 {
        last_node(nodes, bi, row)
    } else {
        let before = last_mark(nodes, ellipses.drop_last(), bi, row);
        let e = ellipses.last();
        if e.block == bi && e.row == row && (before matches Some(b) ==> e.slot > b.0) {
            Some((e.slot, Anchor::BesideDots((ellipses.len() - 1) as usize)))
        } else {
            before
        }
    }
}

fn find_last_mark(nodes: &Vec<Placed>, ellipses: &Vec<Ellipsis>, bi: usize, row: Row) -> (end:
    Option<(usize, Anchor)>)
    requires
        nodes@.len() <= u32::MAX,
    ensures
        end == last_mark(nodes@, ellipses@, bi as int, row),
{
    let mut end: Option<(usize, Anchor)> = None;
    let mut i: usize = 0;
    while i < nodes.len()
        invariant
            i <= nodes@.len() <= u32::MAX,
            end == last_node(nodes@.take(i as int), bi as int, row),
        decreases nodes@.len() - i,
    {
        assert(nodes@.take(i + 1).drop_last() =~= nodes@.take(i as int));
        let p = nodes[i];
        let further = match end {
            None => true,
            Some((slot, _)) => p.slot > slot,
        };
        if is_on_row(&p, bi, row) && further {
            end = Some((p.slot, Anchor::Beside(Spot { part: 0, node: i as u32 })));
        }
        i += 1;
    }
    assert(nodes@.take(nodes@.len() as int) =~= nodes@);
    let mut k: usize = 0;
    assert(ellipses@.take(0) =~= Seq::<Ellipsis>::empty());
    while k < ellipses.len()
        invariant
            k <= ellipses@.len(),
            end == last_mark(nodes@, ellipses@.take(k as int), bi as int, row),
        decreases ellipses@.len() - k,
    {
        assert(ellipses@.take(k + 1).drop_last() =~= ellipses@.take(k as int));
        let e = ellipses[k];
        let further = match end {
            None => true,
            Some((slot, _)) => e.slot > slot,
        };
        if e.block as usize == bi && e.row == row && further {
            end = Some((e.slot, Anchor::BesideDots(k)));
        }
        k += 1;
    }
    assert(ellipses@.take(ellipses@.len() as int) =~= ellipses@);
    end
}

/// The hidden counts of the ellipses.
pub open spec fn dot_labels(ellipses: Seq<Ellipsis>) -> Seq<(Anchor, Seq<char>)> {
    Seq::new(
        ellipses.len(),
        |k: int|
            (
                Anchor::Outward(k as usize, ellipses[k].row),
                "+"@ + dec(ellipses[k].hidden as nat),
            ),
    )
}

/// The ids of the nodes, each beside its own.
pub open spec fn node_labels(nodes: Seq<Placed>, base: Option<i64>) -> Seq<(Anchor, Seq<char>)> {
    Seq::new(
        nodes.len(),
        |i: int|
            (Anchor::Beside(Spot { part: 0, node: i as u32 }), name_of(nodes[i].graph, base)),
    )
}

/// The label of one row, if it says anything and there is a mark to set it at.
pub open spec fn row_label(scene: SceneView, bi: int, row: Row, base: Option<i64>) -> Seq<
    (Anchor, Seq<char>),
> {
    match (
        row_text(scene.nodes, scene.blocks[bi], bi, row, base),
        last_mark(scene.nodes, scene.ellipses, bi, row),
    ) {
        (Some(text), Some(end)) => seq![(end.1, text)],
        _ => Seq::empty(),
    }
}

/// The labels of the rows of the first `upto` blocks.
pub open spec fn row_labels(scene: SceneView, base: Option<i64>, upto: int) -> Seq<
    (Anchor, Seq<char>),
>
    decreases upto,
{
    if upto <= 0 {
        Seq::empty()
    } else {
        row_labels(scene, base, upto - 1) + row_label(scene, upto - 1, Row::Input, base)
            + row_label(scene, upto - 1, Row::Output, base)
    }
}

/// Everything written on a page.
pub open spec fn page_labels(scene: SceneView, labels: Labels, base: Option<i64>) -> Seq<
    (Anchor, Seq<char>),
> {
    match labels {
        Labels::Nothing => Seq::empty(),
        Labels::Each => dot_labels(scene.ellipses) + node_labels(scene.nodes, base),
        Labels::Compact => dot_labels(scene.ellipses) + row_labels(
            scene,
            base,
            scene.blocks.len() as int,
        ),
    }
}

proof fn view_push(before: Seq<Label>, l: Label)
    ensures
        label_views(before.push(l)) == label_views(before).push(l@),
{
    assert(label_views(before.push(l)) =~= label_views(before).push(l@));
}

fn write_row(out: &mut Vec<Label>, scene: &BlockScene, bi: usize, row: Row, base: Option<i64>)
    requires
        bi < scene@.blocks.len(),
        scene@.blocks[bi as int].is_block(),
        scene@.nodes.len() <= u32::MAX,
    ensures
        label_views(final(out)@) == label_views(old(out)@) + row_label(
            scene@,
            bi as int,
            row,
            base,
        ),
{
    assert(scene@.blocks[bi as int] == scene.blocks@[bi as int]@);
    let text = say_row(&scene.nodes, &scene.blocks[bi], bi, row, base);
    let end = find_last_mark(&scene.nodes, &scene.ellipses, bi, row);
    if let Some(text) = text {
        if let Some((_, anchor)) = end {
            let ghost before = out@;
            let l = Label { anchor, text };
            proof {
                view_push(before, l);
            }
            out.push(l);
        }
    }
    assert(label_views(out@) =~= label_views(old(out)@) + row_label(scene@, bi as int, row, base));
}

/// Everything written on a page.
pub fn write_labels(scene: &BlockScene, labels: Labels, base: Option<i64>) -> (out: Vec<Label>)
    requires
        all_blocks(scene@.blocks),
        scene@.nodes.len() <= u32::MAX,
    ensures
        label_views(out@) == page_labels(scene@, labels, base),
{
    let mut out: Vec<Label> = Vec::new();
    assert(label_views(out@) =~= Seq::empty());
    if labels == Labels::Nothing {
        return out;
    }
    let ghost dots = dot_labels(scene.ellipses@);
    let mut k: usize = 0;
    while k < scene.ellipses.len()
        invariant
            k <= scene.ellipses@.len(),
            dots == dot_labels(scene.ellipses@),
            label_views(out@) == dots.take(k as int),
        decreases scene.ellipses@.len() - k,
    {
        let e = scene.ellipses[k];
        let mut text = "+".to_owned();
        push_dec(&mut text, e.hidden as u64);
        let l = Label { anchor: Anchor::Outward(k, e.row), text };
        proof {
            view_push(out@, l);
            assert(dots.take(k + 1) =~= dots.take(k as int).push(dots[k as int]));
        }
        out.push(l);
        k += 1;
    }
    assert(dots.take(dots.len() as int) =~= dots);
    if labels == Labels::Each {
        let ghost ids = node_labels(scene.nodes@, base);
        let mut i: usize = 0;
        assert(dots =~= dots + ids.take(0));
        while i < scene.nodes.len()
            invariant
                i <= scene.nodes@.len() <= u32::MAX,
                ids == node_labels(scene.nodes@, base),
                label_views(out@) == dots + ids.take(i as int),
            decreases scene.nodes@.len() - i,
        {
            let mut text = String::new();
            push_name(&mut text, scene.nodes[i].graph, base);
            assert(text@ =~= name_of(scene.nodes@[i as int].graph, base));
            let l = Label { anchor: Anchor::Beside(Spot { part: 0, node: i as u32 }), text };
            proof {
                view_push(out@, l);
                assert(ids.take(i + 1) =~= ids.take(i as int).push(ids[i as int]));
                assert(dots + ids.take(i + 1) =~= (dots + ids.take(i as int)).push(ids[i as int]));
            }
            out.push(l);
            i += 1;
        }
        assert(ids.take(ids.len() as int) =~= ids);
    } else {
        let mut bi: usize = 0;
        assert(dots =~= dots + row_labels(scene@, base, 0));
        while bi < scene.blocks.len()
            invariant
                bi <= scene.blocks@.len(),
                all_blocks(scene@.blocks),
                scene@.nodes.len() <= u32::MAX,
                label_views(out@) == dots + row_labels(scene@, base, bi as int),
            decreases scene.blocks@.len() - bi,
        {
            write_row(&mut out, scene, bi, Row::Input, base);
            write_row(&mut out, scene, bi, Row::Output, base);
            bi += 1;
            assert(label_views(out@) =~= dots + row_labels(scene@, base, bi as int));
        }
        assert(scene@.blocks.len() == scene.blocks@.len());
    }
    out
}

/// The length of the longest of the labels that stand on a row, which the page
/// keeps a margin for.
pub open spec fn longest(labels: Seq<(Anchor, Seq<char>)>) -> nat
    decreases labels.len(),
{
    if labels.len() == 0 {
        0
    } else {
        let before = longest(labels.drop_last());
        let (anchor, text) = labels.last();
        if !(anchor is Outward) && text.len() > before {
            text.len()
        } else {
            before
        }
    }
}

/// The length of the longest of the labels that stand on a row.
pub fn longest_label(labels: &Vec<Label>) -> (n: usize)
    ensures
        n == longest(label_views(labels@)),
{
    let mut n: usize = 0;
    let mut i: usize = 0;
    let ghost all = label_views(labels@);
    while i < labels.len()
        invariant
            i <= labels@.len(),
            all == label_views(labels@),
            n == longest(all.take(i as int)),
        decreases labels@.len() - i,
    {
        proof {
            assert(all.take(i + 1).drop_last() =~= all.take(i as int));
            assert(all.take(i + 1).last() == labels@[i as int]@);
        }
        let len: usize = labels[i].text.as_str().unicode_len();
        let outward = match labels[i].anchor {
            Anchor::Outward(_, _) => true,
            _ => false,
        };
        if !outward && len > n {
            n = len;
        }
        i += 1;
    }
    assert(all.take(all.len() as int) =~= all);
    n
}

} // verus!
