//! The page of a subtree: what is drawn, in which order and ink, and the words
//! beside it.
//!
//! A plain page is one drawing. An *hourglass* is two: the same root walked
//! forward on the graph and backward on its transpose, composed about the one
//! node they share. That node is entry 0 of both, and drawn by the first.

use std::collections::HashSet;

use vstd::prelude::*;

use crate::ink::{
    all_inked, at_work, begin_class, class, class_draws_its_circles, class_of, class_ops,
    inked, laid, nothing_wanted, one_more, painting_draws_the_marks, tally, tally_join, Op, Pen, Spot, Tone, Width, BATCH,
};
use crate::labels::{label_views, Anchor, Label};
use crate::scene::{Placed, Scene, NO_PARENT};
use crate::text::{dec, decimal};

verus! {

broadcast use vstd::std_specs::hash::group_hash_axioms;

/// One tree of a page: the descendants of the root, or, flipped, on the other
/// side of it, its ancestors.
pub struct Part<'a> {
    pub scene: &'a Scene,
    /// The graph ids whose successors the cut left out.
    pub truncated: &'a HashSet<usize>,
    pub flipped: bool,
}

/// What is drawn of a part.
pub struct PartView {
    pub entries: Seq<Placed>,
    pub truncated: Set<usize>,
}

impl<'a> View for Part<'a> {
    type V = PartView;

    open spec fn view(&self) -> PartView {
        PartView { entries: self.scene.entries(), truncated: self.truncated@ }
    }
}

/// The parts of a page as mathematical values.
pub open spec fn part_views(parts: Seq<Part>) -> Seq<PartView> {
    Seq::new(parts.len(), |p: int| parts[p]@)
}

/// One of the rounds a page is drawn in: the arcs, or a class of nodes.
#[derive(Clone, Copy, Debug, PartialEq, Eq, Structural)]
pub enum Round {
    Arcs,
    Class(u8),
}

/// Whether a part draws an entry: the root belongs to every part and is drawn by
/// the first.
pub open spec fn draws_entry(p: int, i: int) -> bool {
    p == 0 || i != 0
}

/// Whether an entry has nothing under it.
pub open spec fn is_leaf(entries: Seq<Placed>, i: int) -> bool {
    entries[i].subtree_end == i + 1
}

/// The class of an entry.
pub open spec fn entry_class(part: PartView, i: int, marks: Set<usize>) -> int {
    let g = part.entries[i].graph as usize;
    class_of(marks.contains(g), part.truncated.contains(g), is_leaf(part.entries, i))
}

/// Entry `i` of part `p`.
pub open spec fn entry(p: int, i: int) -> Spot {
    Spot { part: p as usize, node: i as u32 }
}

/// The mark an entry makes in a round, if it makes one: the line from its
/// parent, or its circle.
pub open spec fn mark_of(part: PartView, p: int, i: int, marks: Set<usize>, round: Round) -> Seq<
    Op,
> {
    match round {
        Round::Arcs => if part.entries[i].parent == NO_PARENT {
            Seq::empty()
        } else {
            seq![
                Op::Segment {
                    from: entry(p, part.entries[i].parent as int),
                    to: entry(p, i),
                },
            ]
        },
        Round::Class(c) => if draws_entry(p, i) && entry_class(part, i, marks) == c {
            seq![Op::Circle(entry(p, i))]
        } else {
            Seq::empty()
        },
    }
}

/// The marks of the first `upto` entries of a part, in one round.
pub open spec fn part_marks(part: PartView, p: int, marks: Set<usize>, round: Round, upto: int) -> Seq<
    Op,
>
    decreases upto,
{
    if upto <= 0 {
        Seq::empty()
    } else {
        part_marks(part, p, marks, round, upto - 1) + mark_of(part, p, upto - 1, marks, round)
    }
}

/// The marks of the first `upto` parts, in one round.
pub open spec fn round_marks(parts: Seq<PartView>, marks: Set<usize>, round: Round, upto: int) -> Seq<
    Op,
>
    decreases upto,
{
    if upto <= 0 {
        Seq::empty()
    } else {
        let part = parts[upto - 1];
        round_marks(parts, marks, round, upto - 1) + part_marks(
            part,
            upto - 1,
            marks,
            round,
            part.entries.len() as int,
        )
    }
}

/// The marks of one round.
pub open spec fn marks_in(parts: Seq<PartView>, marks: Set<usize>, round: Round) -> Seq<Op> {
    round_marks(parts, marks, round, parts.len() as int)
}

/// The classes below `upto`, one after another.
pub open spec fn classes(parts: Seq<PartView>, marks: Set<usize>, hollow: bool, upto: int) -> Seq<
    Op,
>
    decreases upto,
{
    if upto <= 0 {
        Seq::empty()
    } else {
        classes(parts, marks, hollow, upto - 1) + class_ops(
            marks_in(parts, marks, Round::Class((upto - 1) as u8)),
            upto - 1,
            hollow,
        )
    }
}

/// The arcs, in one grey and one width.
pub open spec fn arcs(parts: Seq<PartView>, marks: Set<usize>) -> Seq<Op> {
    seq![Op::SetStroke(Tone::Link), Op::SetWidth(Width::Arc)] + inked(
        marks_in(parts, marks, Round::Arcs),
        Op::Stroke,
        BATCH as int,
    )
}

/// Everything on the page but the labels: the arcs first, behind everything,
/// then the nodes class by class.
pub open spec fn page_ops(parts: Seq<PartView>, marks: Set<usize>, hollow: bool) -> Seq<Op> {
    arcs(parts, marks) + classes(parts, marks, hollow, 6)
}

fn mark_in_round(part: &Part, p: usize, i: u32, marks: &HashSet<usize>, round: Round) -> (mark:
    Option<Op>)
    requires
        i < part@.entries.len(),
    ensures
        mark_of(part@, p as int, i as int, marks@, round) == match mark {
            None => Seq::empty(),
            Some(op) => seq![op],
        },
{
    let node = part.scene.node(i);
    match round {
        Round::Arcs => if node.parent == NO_PARENT {
            None
        } else {
            Some(
                Op::Segment {
                    from: Spot { part: p, node: node.parent },
                    to: Spot { part: p, node: i },
                },
            )
        },
        Round::Class(c) => {
            let g: usize = node.graph as usize;
            if (p == 0 || i != 0) && class(
                marks.contains(&g),
                part.truncated.contains(&g),
                part.scene.is_leaf(i),
            ) == c {
                Some(Op::Circle(Spot { part: p, node: i }))
            } else {
                None
            }
        },
    }
}

/// Whether a round has anything to draw.
fn any_mark(parts: &Vec<Part>, marks: &HashSet<usize>, round: Round) -> (any: bool)
    ensures
        any == (marks_in(part_views(parts@), marks@, round).len() > 0),
{
    let ghost views = part_views(parts@);
    let mut any = false;
    let mut p: usize = 0;
    while p < parts.len()
        invariant
            p <= parts@.len(),
            views == part_views(parts@),
            any == (round_marks(views, marks@, round, p as int).len() > 0),
        decreases parts@.len() - p,
    {
        let n: usize = parts[p].scene.len();
        let mut i: usize = 0;
        let ghost before = round_marks(views, marks@, round, p as int);
        while i < n
            invariant
                i <= n <= u32::MAX,
                p < parts@.len(),
                views == part_views(parts@),
                n == views[p as int].entries.len(),
                before == round_marks(views, marks@, round, p as int),
                any == ((before + part_marks(views[p as int], p as int, marks@, round, i as int)).len()
                    > 0),
            decreases n - i,
        {
            if mark_in_round(&parts[p], p, i as u32, marks, round).is_some() {
                any = true;
            }
            i += 1;
        }
        p += 1;
    }
    assert(views.len() == parts@.len());
    any
}

/// Draws one round.
fn ink_round(pen: &mut Pen, parts: &Vec<Part>, marks: &HashSet<usize>, round: Round, paint: Op)
    requires
        old(pen).open() == 0,
    ensures
        final(pen).steps() == old(pen).steps() + inked(
            marks_in(part_views(parts@), marks@, round),
            paint,
            BATCH as int,
        ),
        final(pen).open() == 0,
{
    let ghost views = part_views(parts@);
    let ghost base = pen.steps();
    assert(pen.steps() =~= base + laid(Seq::empty(), paint, BATCH as int));
    let mut p: usize = 0;
    while p < parts.len()
        invariant
            p <= parts@.len(),
            views == part_views(parts@),
            at_work(
                *pen,
                base,
                round_marks(views, marks@, round, p as int),
                paint,
                BATCH as int,
            ),
        decreases parts@.len() - p,
    {
        let n: usize = parts[p].scene.len();
        let mut i: usize = 0;
        let ghost before = round_marks(views, marks@, round, p as int);
        assert(before =~= before + part_marks(views[p as int], p as int, marks@, round, 0));
        while i < n
            invariant
                i <= n <= u32::MAX,
                p < parts@.len(),
                views == part_views(parts@),
                n == views[p as int].entries.len(),
                before == round_marks(views, marks@, round, p as int),
                at_work(
                    *pen,
                    base,
                    before + part_marks(views[p as int], p as int, marks@, round, i as int),
                    paint,
                    BATCH as int,
                ),
            decreases n - i,
        {
            let ghost was = before + part_marks(
                views[p as int],
                p as int,
                marks@,
                round,
                i as int,
            );
            let ghost now = before + part_marks(views[p as int], p as int, marks@, round, i + 1);
            if let Some(op) = mark_in_round(&parts[p], p, i as u32, marks, round) {
                let ghost held = *pen;
                pen.mark(op, paint, BATCH);
                proof {
                    one_more(held, *pen, base, was, op, paint, BATCH as int);
                    assert(was.push(op) =~= now);
                }
            } else {
                assert(was =~= now);
            }
            i += 1;
        }
        p += 1;
    }
    assert(views.len() == parts@.len());
    let ghost held = *pen;
    pen.paint(paint);
    proof {
        all_inked(held, *pen, base, marks_in(views, marks@, round), paint, BATCH as int);
    }
}

/// Everything on the page but the labels, `marks` being the ids the caller asked
/// to have inked apart and `hollow` whether there is room for rings.
pub fn draw(parts: &Vec<Part>, marks: &HashSet<usize>, hollow: bool) -> (ops: Vec<Op>)
    ensures
        ops@ == page_ops(part_views(parts@), marks@, hollow),
{
    let ghost views = part_views(parts@);
    let mut pen = Pen::new();
    pen.say(Op::SetStroke(Tone::Link));
    pen.say(Op::SetWidth(Width::Arc));
    assert(pen.steps() =~= seq![Op::SetStroke(Tone::Link), Op::SetWidth(Width::Arc)]);
    ink_round(&mut pen, parts, marks, Round::Arcs, Op::Stroke);
    let ghost behind = pen.steps();
    assert(behind =~= behind + classes(views, marks@, hollow, 0));
    let mut wanted: u8 = 0;
    while wanted < 6
        invariant
            wanted <= 6,
            views == part_views(parts@),
            pen.open() == 0,
            pen.steps() == behind + classes(views, marks@, hollow, wanted as int),
        decreases 6 - wanted,
    {
        if any_mark(parts, marks, Round::Class(wanted)) {
            let paint = begin_class(&mut pen, wanted, hollow);
            ink_round(&mut pen, parts, marks, Round::Class(wanted), paint);
        }
        wanted += 1;
        assert(pen.steps() =~= behind + classes(views, marks@, hollow, wanted as int));
    }
    pen.finish()
}

/// The label of an entry: its graph id, over its circle or under it in turn, so
/// that neighbours get each other's clearance.
pub open spec fn entry_label(part: PartView, p: int, i: int) -> (Anchor, Seq<char>) {
    (
        if i % 2 == 0 {
            Anchor::Over(entry(p, i))
        } else {
            Anchor::Under(entry(p, i))
        },
        dec(part.entries[i].graph as nat),
    )
}

/// The labels of the first `upto` entries of a part.
pub open spec fn part_labels(part: PartView, p: int, upto: int) -> Seq<(Anchor, Seq<char>)>
    decreases upto,
{
    if upto <= 0 {
        Seq::empty()
    } else {
        let front = part_labels(part, p, upto - 1);
        if draws_entry(p, upto - 1) {
            front.push(entry_label(part, p, upto - 1))
        } else {
            front
        }
    }
}

/// The labels of the first `upto` parts.
pub open spec fn page_labels(parts: Seq<PartView>, upto: int) -> Seq<(Anchor, Seq<char>)>
    decreases upto,
{
    if upto <= 0 {
        Seq::empty()
    } else {
        let part = parts[upto - 1];
        page_labels(parts, upto - 1) + part_labels(part, upto - 1, part.entries.len() as int)
    }
}

/// Everything written on a page with labels.
pub fn write_labels(parts: &Vec<Part>) -> (out: Vec<Label>)
    ensures
        label_views(out@) == page_labels(part_views(parts@), parts@.len() as int),
{
    let ghost views = part_views(parts@);
    let mut out: Vec<Label> = Vec::new();
    assert(label_views(out@) =~= Seq::empty());
    let mut p: usize = 0;
    while p < parts.len()
        invariant
            p <= parts@.len(),
            views == part_views(parts@),
            label_views(out@) == page_labels(views, p as int),
        decreases parts@.len() - p,
    {
        let n: usize = parts[p].scene.len();
        let mut i: usize = 0;
        let ghost before = page_labels(views, p as int);
        assert(before =~= before + part_labels(views[p as int], p as int, 0));
        while i < n
            invariant
                i <= n <= u32::MAX,
                p < parts@.len(),
                views == part_views(parts@),
                n == views[p as int].entries.len(),
                label_views(out@) == before + part_labels(views[p as int], p as int, i as int),
            decreases n - i,
        {
            if p == 0 || i != 0 {
                let spot = Spot { part: p, node: i as u32 };
                let anchor = if i % 2 == 0 {
                    Anchor::Over(spot)
                } else {
                    Anchor::Under(spot)
                };
                let l = Label { anchor, text: decimal(parts[p].scene.node(i as u32).graph as u64) };
                let ghost was = out@;
                out.push(l);
                assert(label_views(out@) =~= label_views(was).push(l@));
            }
            i += 1;
            assert(label_views(out@) =~= before + part_labels(
                views[p as int],
                p as int,
                i as int,
            ));
        }
        p += 1;
    }
    out
}

/// Whether an entry is in a class, and drawn.
pub open spec fn in_class(parts: Seq<PartView>, marks: Set<usize>, p: int, i: int, c: int) -> bool {
    draws_entry(p, i) && entry_class(parts[p], i, marks) == c
}

proof fn circle_in_a_part(
    part: PartView,
    q: int,
    marks: Set<usize>,
    c: u8,
    upto: int,
    p: usize,
    i: u32,
)
    requires
        0 <= upto <= part.entries.len() <= u32::MAX,
        0 <= q <= usize::MAX,
    ensures
        ({
            let one = |op: Op| op == Op::Circle(Spot { part: p, node: i });
            tally(part_marks(part, q, marks, Round::Class(c), upto), one) == if q == p && i < upto
                && draws_entry(q, i as int) && entry_class(part, i as int, marks) == c {
                1nat
            } else {
                0
            }
        }),
    decreases upto,
{
    let one = |op: Op| op == Op::Circle(Spot { part: p, node: i });
    if upto > 0 {
        circle_in_a_part(part, q, marks, c, upto - 1, p, i);
        let front = part_marks(part, q, marks, Round::Class(c), upto - 1);
        let last = mark_of(part, q, upto - 1, marks, Round::Class(c));
        tally_join(front, last, one);
        let op = Op::Circle(entry(q, upto - 1));
        assert(seq![op].drop_last() =~= Seq::<Op>::empty());
        assert(tally(Seq::<Op>::empty(), one) == 0);
        assert(tally(seq![op], one) == if one(op) {
            1nat
        } else {
            0
        });
    }
}

proof fn circle_in_a_round(
    parts: Seq<PartView>,
    marks: Set<usize>,
    c: u8,
    upto: int,
    p: usize,
    i: u32,
)
    requires
        0 <= upto <= parts.len() <= usize::MAX,
        forall|q: int| 0 <= q < parts.len() ==> (#[trigger] parts[q]).entries.len() <= u32::MAX,
        p < parts.len(),
        i < parts[p as int].entries.len(),
    ensures
        ({
            let one = |op: Op| op == Op::Circle(Spot { part: p, node: i });
            tally(round_marks(parts, marks, Round::Class(c), upto), one) == if p < upto && in_class(
                parts,
                marks,
                p as int,
                i as int,
                c as int,
            ) {
                1nat
            } else {
                0
            }
        }),
    decreases upto,
{
    let one = |op: Op| op == Op::Circle(Spot { part: p, node: i });
    if upto > 0 {
        circle_in_a_round(parts, marks, c, upto - 1, p, i);
        let part = parts[upto - 1];
        let n = part.entries.len() as int;
        circle_in_a_part(part, upto - 1, marks, c, n, p, i);
        tally_join(
            round_marks(parts, marks, Round::Class(c), upto - 1),
            part_marks(part, upto - 1, marks, Round::Class(c), n),
            one,
        );
    }
}

proof fn circle_in_the_classes(
    parts: Seq<PartView>,
    marks: Set<usize>,
    hollow: bool,
    upto: int,
    p: usize,
    i: u32,
)
    requires
        upto <= 6,
        parts.len() <= usize::MAX,
        forall|q: int| 0 <= q < parts.len() ==> (#[trigger] parts[q]).entries.len() <= u32::MAX,
        p < parts.len(),
        i < parts[p as int].entries.len(),
    ensures
        ({
            let one = |op: Op| op == Op::Circle(Spot { part: p, node: i });
            tally(classes(parts, marks, hollow, upto), one) == if draws_entry(p as int, i as int)
                && entry_class(parts[p as int], i as int, marks) < upto {
                1nat
            } else {
                0
            }
        }),
    decreases upto,
{
    let one = |op: Op| op == Op::Circle(Spot { part: p, node: i });
    if upto > 0 {
        circle_in_the_classes(parts, marks, hollow, upto - 1, p, i);
        circle_in_a_round(parts, marks, (upto - 1) as u8, parts.len() as int, p, i);
        let circles = marks_in(parts, marks, Round::Class((upto - 1) as u8));
        class_draws_its_circles(circles, upto - 1, hollow, one);
        tally_join(
            classes(parts, marks, hollow, upto - 1),
            class_ops(circles, upto - 1, hollow),
            one,
        );
    }
}

proof fn arcs_are_segments(
    parts: Seq<PartView>,
    marks: Set<usize>,
    upto: int,
    wanted: spec_fn(Op) -> bool,
)
    requires
        forall|op: Op| #[trigger] wanted(op) ==> !(op is Segment),
    ensures
        tally(round_marks(parts, marks, Round::Arcs, upto), wanted) == 0,
    decreases upto,
{
    if upto > 0 {
        arcs_are_segments(parts, marks, upto - 1, wanted);
        let part = parts[upto - 1];
        let n = part.entries.len() as int;
        part_arcs_are_segments(part, upto - 1, marks, n, wanted);
        tally_join(
            round_marks(parts, marks, Round::Arcs, upto - 1),
            part_marks(part, upto - 1, marks, Round::Arcs, n),
            wanted,
        );
    }
}

proof fn part_arcs_are_segments(
    part: PartView,
    p: int,
    marks: Set<usize>,
    upto: int,
    wanted: spec_fn(Op) -> bool,
)
    requires
        forall|op: Op| #[trigger] wanted(op) ==> !(op is Segment),
    ensures
        tally(part_marks(part, p, marks, Round::Arcs, upto), wanted) == 0,
    decreases upto,
{
    if upto > 0 {
        part_arcs_are_segments(part, p, marks, upto - 1, wanted);
        let last = mark_of(part, p, upto - 1, marks, Round::Arcs);
        nothing_wanted(last, wanted);
        tally_join(part_marks(part, p, marks, Round::Arcs, upto - 1), last, wanted);
    }
}

/// A page has the circle of every node once, and that of the root the parts
/// share only in the first.
pub proof fn a_page_has_every_node_once(
    parts: Seq<PartView>,
    marks: Set<usize>,
    hollow: bool,
    p: usize,
    i: u32,
)
    requires
        parts.len() <= usize::MAX,
        forall|q: int| 0 <= q < parts.len() ==> (#[trigger] parts[q]).entries.len() <= u32::MAX,
        p < parts.len(),
        i < parts[p as int].entries.len(),
    ensures
        tally(
            page_ops(parts, marks, hollow),
            |op: Op| op == Op::Circle(Spot { part: p, node: i }),
        ) == if p > 0 && i == 0 {
            0nat
        } else {
            1
        },
{
    let one = |op: Op| op == Op::Circle(Spot { part: p, node: i });
    let head = seq![Op::SetStroke(Tone::Link), Op::SetWidth(Width::Arc)];
    let lines = marks_in(parts, marks, Round::Arcs);
    nothing_wanted(head, one);
    arcs_are_segments(parts, marks, parts.len() as int, one);
    painting_draws_the_marks(lines, Op::Stroke, BATCH as int, one);
    tally_join(head, inked(lines, Op::Stroke, BATCH as int), one);
    circle_in_the_classes(parts, marks, hollow, 6, p, i);
    tally_join(arcs(parts, marks), classes(parts, marks, hollow, 6), one);
}

} // verus!
