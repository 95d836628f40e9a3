//! The page of a drawing of blocks: what is drawn, in which order and ink, and
//! the words beside it.
//!
//! Arcs come first, behind everything: tree and cross arcs in one grey, the
//! stubs of outside inputs dashed, the stray arcs dotted in the ink of the cut;
//! then the dots of the ellipses, the nodes class by class, and the labels.

use std::collections::HashSet;

use vstd::prelude::*;

use crate::block_scene::{Arc, ArcKind, BlockScene, SceneView};
use crate::ink::{
    all_inked, at_work, begin_class, class, class_of, class_draws_its_circles, class_ops,
    inked, laid, nothing_wanted, one_more, painting_draws_the_marks, tally, tally_join, tally_push,
    Dash, Op, Pen, Spot, Tone, Width, BATCH, ELLIPSES,
};
use crate::rows::{Placed, Producer, Role};

verus! {

broadcast use vstd::std_specs::hash::group_hash_axioms;

/// A node of the one drawing on the page.
pub open spec fn spot(node: u32) -> Spot {
    Spot { part: 0, node }
}

/// The lines of the arcs of one kind, in order.
pub open spec fn arc_marks(arcs: Seq<Arc>, kind: ArcKind) -> Seq<Op>
    decreases arcs.len(),
{
    if arcs.len() == 0 {
        Seq::empty()
    } else {
        let a = arcs.last();
        let front = arc_marks(arcs.drop_last(), kind);
        if a.kind == kind {
            front.push(Op::Segment { from: spot(a.from), to: spot(a.to) })
        } else {
            front
        }
    }
}

/// Whether a node gets a stub: something that is not drawn made it.
pub open spec fn stubbed(p: Placed) -> bool {
    p.role matches Role::Outside { producer, .. } && producer == Producer::Undrawn
}

/// The stubs, in order.
pub open spec fn stub_marks(nodes: Seq<Placed>) -> Seq<Op>
    decreases nodes.len(),
{
    if nodes.len() == 0 {
        Seq::empty()
    } else {
        let front = stub_marks(nodes.drop_last());
        if stubbed(nodes.last()) {
            front.push(Op::Stub(spot((nodes.len() - 1) as u32)))
        } else {
            front
        }
    }
}

/// The dots of the ellipses, in order.
pub open spec fn dot_marks(n: nat) -> Seq<Op> {
    Seq::new(n, |k: int| Op::Dots(k as usize))
}

/// The class of a node: filled says the node has drawn out-arcs, the ink of the
/// cut that the graph goes on where the drawing does not.
pub open spec fn node_class(p: Placed, marks: Set<usize>) -> int {
    class_of(marks.contains(p.graph), p.outdeg > 0 && !p.consumed, !p.consumed)
}

/// The circles of the nodes of one class, in order.
pub open spec fn circle_marks(nodes: Seq<Placed>, marks: Set<usize>, class: int) -> Seq<Op>
    decreases nodes.len(),
{
    if nodes.len() == 0 {
        Seq::empty()
    } else {
        let front = circle_marks(nodes.drop_last(), marks, class);
        if node_class(nodes.last(), marks) == class {
            front.push(Op::Circle(spot((nodes.len() - 1) as u32)))
        } else {
            front
        }
    }
}

/// The arcs of one kind, painted.
pub open spec fn arc_ops(arcs: Seq<Arc>, kind: ArcKind) -> Seq<Op> {
    inked(arc_marks(arcs, kind), Op::Stroke, BATCH as int)
}

/// The cross arcs, dashed if they are to be.
pub open spec fn cross_ops(arcs: Seq<Arc>, dashed: bool) -> Seq<Op> {
    if arc_marks(arcs, ArcKind::Cross).len() == 0 {
        Seq::empty()
    } else if dashed {
        seq![Op::SetDash(Dash::Dashed)] + arc_ops(arcs, ArcKind::Cross) + seq![Op::Solid]
    } else {
        arc_ops(arcs, ArcKind::Cross)
    }
}

/// The stubs, dashed.
pub open spec fn stub_ops(nodes: Seq<Placed>) -> Seq<Op> {
    if stub_marks(nodes).len() == 0 {
        Seq::empty()
    } else {
        seq![Op::SetDash(Dash::Dashed)] + inked(stub_marks(nodes), Op::Stroke, BATCH as int)
            + seq![Op::Solid]
    }
}

/// The stray arcs, dotted in the ink of the cut.
pub open spec fn stray_ops(arcs: Seq<Arc>) -> Seq<Op> {
    if arc_marks(arcs, ArcKind::Stray).len() == 0 {
        Seq::empty()
    } else {
        seq![Op::SetStroke(Tone::Cut), Op::SetDash(Dash::Dotted)] + arc_ops(arcs, ArcKind::Stray)
            + seq![Op::Solid]
    }
}

/// The ellipses, in the ink of the cut.
pub open spec fn dots_ops(n: nat) -> Seq<Op> {
    if n == 0 {
        Seq::empty()
    } else {
        seq![Op::SetFill(Tone::Cut)] + inked(dot_marks(n), Op::Fill, ELLIPSES as int)
    }
}

/// The nodes of the classes below `upto`, class by class.
pub open spec fn node_ops(nodes: Seq<Placed>, marks: Set<usize>, hollow: bool, upto: int) -> Seq<
    Op,
>
    decreases upto,
{
    if upto <= 0 {
        Seq::empty()
    } else {
        node_ops(nodes, marks, hollow, upto - 1) + class_ops(
            circle_marks(nodes, marks, upto - 1),
            upto - 1,
            hollow,
        )
    }
}

/// Everything on the page but the labels.
pub open spec fn page_ops(
    scene: SceneView,
    marks: Set<usize>,
    dash_cross: bool,
    hollow: bool,
) -> Seq<Op> {
    seq![Op::SetStroke(Tone::Link), Op::SetWidth(Width::Arc)] + arc_ops(scene.arcs, ArcKind::Tree)
        + cross_ops(scene.arcs, dash_cross) + stub_ops(scene.nodes) + stray_ops(scene.arcs)
        + dots_ops(scene.ellipses.len()) + node_ops(scene.nodes, marks, hollow, 6)
}

fn any_arc(arcs: &Vec<Arc>, kind: ArcKind) -> (any: bool)
    ensures
        any == (arc_marks(arcs@, kind).len() > 0),
{
    let mut any = false;
    let mut i: usize = 0;
    while i < arcs.len()
        invariant
            i <= arcs@.len(),
            any == (arc_marks(arcs@.take(i as int), kind).len() > 0),
        decreases arcs@.len() - i,
    {
        assert(arcs@.take(i + 1).drop_last() =~= arcs@.take(i as int));
        if arcs[i].kind == kind {
            any = true;
        }
        i += 1;
    }
    assert(arcs@.take(arcs@.len() as int) =~= arcs@);
    any
}

fn ink_arcs(pen: &mut Pen, arcs: &Vec<Arc>, kind: ArcKind)
    requires
        old(pen).open() == 0,
    ensures
        final(pen).steps() == old(pen).steps() + arc_ops(arcs@, kind),
        final(pen).open() == 0,
{
    let ghost base = pen.steps();
    assert(pen.steps() =~= base + laid(Seq::empty(), Op::Stroke, BATCH as int));
    let mut i: usize = 0;
    while i < arcs.len()
        invariant
            i <= arcs@.len(),
            at_work(*pen, base, arc_marks(arcs@.take(i as int), kind), Op::Stroke, BATCH as int),
        decreases arcs@.len() - i,
    {
        assert(arcs@.take(i + 1).drop_last() =~= arcs@.take(i as int));
        let a = arcs[i];
        if a.kind == kind {
            let ghost before = *pen;
            let op = Op::Segment {
                from: Spot { part: 0, node: a.from },
                to: Spot { part: 0, node: a.to },
            };
            pen.mark(op, Op::Stroke, BATCH);
            proof {
                one_more(
                    before,
                    *pen,
                    base,
                    arc_marks(arcs@.take(i as int), kind),
                    op,
                    Op::Stroke,
                    BATCH as int,
                );
            }
        }
        i += 1;
    }
    assert(arcs@.take(arcs@.len() as int) =~= arcs@);
    let ghost before = *pen;
    pen.paint(Op::Stroke);
    proof {
        all_inked(before, *pen, base, arc_marks(arcs@, kind), Op::Stroke, BATCH as int);
    }
}

fn is_stubbed(p: &Placed) -> (b: bool)
    ensures
        b == stubbed(*p),
{
    match p.role {
        Role::Outside { producer, .. } => producer == Producer::Undrawn,
        Role::Output { .. } => false,
    }
}

fn any_stub(nodes: &Vec<Placed>) -> (any: bool)
    ensures
        any == (stub_marks(nodes@).len() > 0),
{
    let mut any = false;
    let mut i: usize = 0;
    while i < nodes.len()
        invariant
            i <= nodes@.len(),
            any == (stub_marks(nodes@.take(i as int)).len() > 0),
        decreases nodes@.len() - i,
    {
        assert(nodes@.take(i + 1).drop_last() =~= nodes@.take(i as int));
        if is_stubbed(&nodes[i]) {
            any = true;
        }
        i += 1;
    }
    assert(nodes@.take(nodes@.len() as int) =~= nodes@);
    any
}

fn ink_stubs(pen: &mut Pen, nodes: &Vec<Placed>)
    requires
        old(pen).open() == 0,
        nodes@.len() <= u32::MAX,
    ensures
        final(pen).steps() == old(pen).steps() + stub_ops(nodes@),
        final(pen).open() == 0,
{
    if !any_stub(nodes) {
        assert(pen.steps() =~= pen.steps() + stub_ops(nodes@));
        return ;
    }
    pen.say(Op::SetDash(Dash::Dashed));
    let ghost base = pen.steps();
    assert(pen.steps() =~= base + laid(Seq::empty(), Op::Stroke, BATCH as int));
    let mut i: usize = 0;
    while i < nodes.len()
        invariant
            i <= nodes@.len() <= u32::MAX,
            at_work(*pen, base, stub_marks(nodes@.take(i as int)), Op::Stroke, BATCH as int),
        decreases nodes@.len() - i,
    {
        assert(nodes@.take(i + 1).drop_last() =~= nodes@.take(i as int));
        if is_stubbed(&nodes[i]) {
            let ghost before = *pen;
            let op = Op::Stub(Spot { part: 0, node: i as u32 });
            pen.mark(op, Op::Stroke, BATCH);
            proof {
                one_more(
                    before,
                    *pen,
                    base,
                    stub_marks(nodes@.take(i as int)),
                    op,
                    Op::Stroke,
                    BATCH as int,
                );
            }
        }
        i += 1;
    }
    assert(nodes@.take(nodes@.len() as int) =~= nodes@);
    let ghost before = *pen;
    pen.paint(Op::Stroke);
    proof {
        all_inked(before, *pen, base, stub_marks(nodes@), Op::Stroke, BATCH as int);
    }
    pen.say(Op::Solid);
    assert(pen.steps() =~= old(pen).steps() + stub_ops(nodes@));
}

fn ink_dots(pen: &mut Pen, n: usize)
    requires
        old(pen).open() == 0,
    ensures
        final(pen).steps() == old(pen).steps() + dots_ops(n as nat),
        final(pen).open() == 0,
{
    if n == 0 {
        assert(pen.steps() =~= pen.steps() + dots_ops(0));
        return ;
    }
    pen.say(Op::SetFill(Tone::Cut));
    let ghost base = pen.steps();
    assert(pen.steps() =~= base + laid(Seq::empty(), Op::Fill, ELLIPSES as int));
    let mut i: usize = 0;
    assert(dot_marks(0) =~= Seq::<Op>::empty());
    while i < n
        invariant
            i <= n,
            at_work(*pen, base, dot_marks(i as nat), Op::Fill, ELLIPSES as int),
        decreases n - i,
    {
        let ghost before = *pen;
        pen.mark(Op::Dots(i), Op::Fill, ELLIPSES);
        proof {
            let op = Op::Dots(i);
            one_more(before, *pen, base, dot_marks(i as nat), op, Op::Fill, ELLIPSES as int);
            assert(dot_marks(i as nat).push(op) =~= dot_marks((i + 1) as nat));
        }
        i += 1;
    }
    let ghost before = *pen;
    pen.paint(Op::Fill);
    proof {
        all_inked(before, *pen, base, dot_marks(n as nat), Op::Fill, ELLIPSES as int);
        assert(pen.steps() =~= old(pen).steps() + dots_ops(n as nat));
    }
}

fn ink_class(pen: &mut Pen, nodes: &Vec<Placed>, marks: &HashSet<usize>, hollow: bool, wanted: u8)
    requires
        old(pen).open() == 0,
        nodes@.len() <= u32::MAX,
        wanted < 6,
    ensures
        final(pen).steps() == old(pen).steps() + class_ops(
            circle_marks(nodes@, marks@, wanted as int),
            wanted as int,
            hollow,
        ),
        final(pen).open() == 0,
{
    let mut any = false;
    let mut i: usize = 0;
    while i < nodes.len()
        invariant
            i <= nodes@.len(),
            any == (circle_marks(nodes@.take(i as int), marks@, wanted as int).len() > 0),
        decreases nodes@.len() - i,
    {
        assert(nodes@.take(i + 1).drop_last() =~= nodes@.take(i as int));
        let p = nodes[i];
        if class(marks.contains(&p.graph), p.outdeg > 0 && !p.consumed, !p.consumed) == wanted {
            any = true;
        }
        i += 1;
    }
    assert(nodes@.take(nodes@.len() as int) =~= nodes@);
    if !any {
        assert(pen.steps() =~= pen.steps() + Seq::<Op>::empty());
        return ;
    }
    let paint = begin_class(pen, wanted, hollow);
    let ghost base = pen.steps();
    assert(pen.steps() =~= base + laid(Seq::empty(), paint, BATCH as int));
    let mut i: usize = 0;
    while i < nodes.len()
        invariant
            i <= nodes@.len() <= u32::MAX,
            at_work(
                *pen,
                base,
                circle_marks(nodes@.take(i as int), marks@, wanted as int),
                paint,
                BATCH as int,
            ),
        decreases nodes@.len() - i,
    {
        assert(nodes@.take(i + 1).drop_last() =~= nodes@.take(i as int));
        let p = nodes[i];
        if class(marks.contains(&p.graph), p.outdeg > 0 && !p.consumed, !p.consumed) == wanted {
            let ghost before = *pen;
            let op = Op::Circle(Spot { part: 0, node: i as u32 });
            pen.mark(op, paint, BATCH);
            proof {
                one_more(
                    before,
                    *pen,
                    base,
                    circle_marks(nodes@.take(i as int), marks@, wanted as int),
                    op,
                    paint,
                    BATCH as int,
                );
            }
        }
        i += 1;
    }
    assert(nodes@.take(nodes@.len() as int) =~= nodes@);
    let ghost before = *pen;
    pen.paint(paint);
    proof {
        all_inked(
            before,
            *pen,
            base,
            circle_marks(nodes@, marks@, wanted as int),
            paint,
            BATCH as int,
        );
        assert(pen.steps() =~= old(pen).steps() + class_ops(
            circle_marks(nodes@, marks@, wanted as int),
            wanted as int,
            hollow,
        ));
    }
}

/// Everything on the page but the labels, `marks` being the ids the caller asked
/// to have inked apart and `hollow` whether there is room for rings.
pub fn draw(scene: &BlockScene, marks: &HashSet<usize>, dash_cross: bool, hollow: bool) -> (ops:
    Vec<Op>)
    requires
        scene@.nodes.len() <= u32::MAX,
    ensures
        ops@ == page_ops(scene@, marks@, dash_cross, hollow),
{
    let mut pen = Pen::new();
    pen.say(Op::SetStroke(Tone::Link));
    pen.say(Op::SetWidth(Width::Arc));
    let ghost head = seq![Op::SetStroke(Tone::Link), Op::SetWidth(Width::Arc)];
    assert(pen.steps() =~= head);
    ink_arcs(&mut pen, &scene.arcs, ArcKind::Tree);
    let ghost before = pen.steps();
    if any_arc(&scene.arcs, ArcKind::Cross) {
        if dash_cross {
            pen.say(Op::SetDash(Dash::Dashed));
        }
        ink_arcs(&mut pen, &scene.arcs, ArcKind::Cross);
        if dash_cross {
            pen.say(Op::Solid);
        }
    }
    assert(pen.steps() =~= before + cross_ops(scene.arcs@, dash_cross));
    ink_stubs(&mut pen, &scene.nodes);
    let ghost before = pen.steps();
    if any_arc(&scene.arcs, ArcKind::Stray) {
        pen.say(Op::SetStroke(Tone::Cut));
        pen.say(Op::SetDash(Dash::Dotted));
        ink_arcs(&mut pen, &scene.arcs, ArcKind::Stray);
        pen.say(Op::Solid);
    }
    assert(pen.steps() =~= before + stray_ops(scene.arcs@));
    ink_dots(&mut pen, scene.ellipses.len());
    let ghost before = pen.steps();
    let mut wanted: u8 = 0;
    assert(before =~= before + node_ops(scene.nodes@, marks@, hollow, 0));
    while wanted < 6
        invariant
            wanted <= 6,
            scene.nodes@.len() <= u32::MAX,
            pen.open() == 0,
            pen.steps() == before + node_ops(scene.nodes@, marks@, hollow, wanted as int),
        decreases 6 - wanted,
    {
        ink_class(&mut pen, &scene.nodes, marks, hollow, wanted);
        wanted += 1;
        assert(pen.steps() =~= before + node_ops(scene.nodes@, marks@, hollow, wanted as int));
    }
    pen.finish()
}

proof fn tally_arc_marks(arcs: Seq<Arc>, kind: ArcKind, wanted: spec_fn(Op) -> bool)
    requires
        forall|op: Op| #[trigger] wanted(op) ==> !(op is Segment),
    ensures
        tally(arc_marks(arcs, kind), wanted) == 0,
    decreases arcs.len(),
{
    if arcs.len() > 0 {
        tally_arc_marks(arcs.drop_last(), kind, wanted);
        let a = arcs.last();
        let op = Op::Segment { from: spot(a.from), to: spot(a.to) };
        tally_push(arc_marks(arcs.drop_last(), kind), op, wanted);
    }
}

proof fn tally_stub_marks(nodes: Seq<Placed>, wanted: spec_fn(Op) -> bool)
    requires
        forall|op: Op| #[trigger] wanted(op) ==> !(op is Stub),
    ensures
        tally(stub_marks(nodes), wanted) == 0,
    decreases nodes.len(),
{
    if nodes.len() > 0 {
        tally_stub_marks(nodes.drop_last(), wanted);
        let op = Op::Stub(spot((nodes.len() - 1) as u32));
        tally_push(stub_marks(nodes.drop_last()), op, wanted);
    }
}

proof fn tally_arcs(arcs: Seq<Arc>, kind: ArcKind, wanted: spec_fn(Op) -> bool)
    requires
        forall|op: Op| #[trigger] wanted(op) ==> op is Segment || op is Circle,
    ensures
        tally(arc_ops(arcs, kind), wanted) == tally(arc_marks(arcs, kind), wanted),
{
    painting_draws_the_marks(arc_marks(arcs, kind), Op::Stroke, BATCH as int, wanted);
}

/// What the part of the page before the nodes holds.
proof fn tally_behind(scene: SceneView, dash_cross: bool, wanted: spec_fn(Op) -> bool)
    requires
        forall|op: Op| #[trigger] wanted(op) ==> op is Segment || op is Circle,
    ensures
        tally(
            seq![Op::SetStroke(Tone::Link), Op::SetWidth(Width::Arc)] + arc_ops(
                scene.arcs,
                ArcKind::Tree,
            ) + cross_ops(scene.arcs, dash_cross) + stub_ops(scene.nodes) + stray_ops(scene.arcs)
                + dots_ops(scene.ellipses.len()),
            wanted,
        ) == tally(arc_marks(scene.arcs, ArcKind::Tree), wanted) + tally(
            arc_marks(scene.arcs, ArcKind::Cross),
            wanted,
        ) + tally(arc_marks(scene.arcs, ArcKind::Stray), wanted),
{
    let head = seq![Op::SetStroke(Tone::Link), Op::SetWidth(Width::Arc)];
    let tree = arc_ops(scene.arcs, ArcKind::Tree);
    let cross = cross_ops(scene.arcs, dash_cross);
    let stubs = stub_ops(scene.nodes);
    let strays = stray_ops(scene.arcs);
    let dots = dots_ops(scene.ellipses.len());
    nothing_wanted(head, wanted);
    tally_arcs(scene.arcs, ArcKind::Tree, wanted);
    tally_arcs(scene.arcs, ArcKind::Cross, wanted);
    tally_arcs(scene.arcs, ArcKind::Stray, wanted);
    let dashed = seq![Op::SetDash(Dash::Dashed)];
    let solid = seq![Op::Solid];
    nothing_wanted(dashed, wanted);
    nothing_wanted(solid, wanted);
    let crossed = arc_ops(scene.arcs, ArcKind::Cross);
    tally_join(dashed, crossed, wanted);
    tally_join(dashed + crossed, solid, wanted);
    let stub_lines = inked(stub_marks(scene.nodes), Op::Stroke, BATCH as int);
    tally_stub_marks(scene.nodes, wanted);
    painting_draws_the_marks(stub_marks(scene.nodes), Op::Stroke, BATCH as int, wanted);
    tally_join(dashed, stub_lines, wanted);
    tally_join(dashed + stub_lines, solid, wanted);
    let cut = seq![Op::SetStroke(Tone::Cut), Op::SetDash(Dash::Dotted)];
    let stray_lines = arc_ops(scene.arcs, ArcKind::Stray);
    nothing_wanted(cut, wanted);
    tally_join(cut, stray_lines, wanted);
    tally_join(cut + stray_lines, solid, wanted);
    let fill = seq![Op::SetFill(Tone::Cut)];
    let all_dots = dot_marks(scene.ellipses.len());
    nothing_wanted(fill, wanted);
    nothing_wanted(all_dots, wanted);
    painting_draws_the_marks(all_dots, Op::Fill, ELLIPSES as int, wanted);
    tally_join(fill, inked(all_dots, Op::Fill, ELLIPSES as int), wanted);
    tally_join(head, tree, wanted);
    tally_join(head + tree, cross, wanted);
    tally_join(head + tree + cross, stubs, wanted);
    tally_join(head + tree + cross + stubs, strays, wanted);
    tally_join(head + tree + cross + stubs + strays, dots, wanted);
}

proof fn tally_nodes(
    nodes: Seq<Placed>,
    marks: Set<usize>,
    hollow: bool,
    upto: int,
    wanted: spec_fn(Op) -> bool,
)
    requires
        forall|op: Op| #[trigger] wanted(op) ==> op is Segment,
    ensures
        tally(node_ops(nodes, marks, hollow, upto), wanted) == 0,
    decreases upto,
{
    if upto > 0 {
        tally_nodes(nodes, marks, hollow, upto - 1, wanted);
        let circles = circle_marks(nodes, marks, upto - 1);
        assert forall|i: int| 0 <= i < circles.len() implies !wanted(#[trigger] circles[i]) by {
            circles_are_circles(nodes, marks, upto - 1, i);
        }
        nothing_wanted(circles, wanted);
        let paint = crate::ink::class_paint(upto - 1, hollow);
        painting_draws_the_marks(circles, paint, BATCH as int, wanted);
        let head = crate::ink::class_head(upto - 1, hollow);
        nothing_wanted(head, wanted);
        tally_join(head, inked(circles, paint, BATCH as int), wanted);
        tally_join(
            node_ops(nodes, marks, hollow, upto - 1),
            class_ops(circles, upto - 1, hollow),
            wanted,
        );
    }
}

proof fn circles_are_circles(nodes: Seq<Placed>, marks: Set<usize>, class: int, i: int)
    requires
        0 <= i < circle_marks(nodes, marks, class).len(),
    ensures
        circle_marks(nodes, marks, class)[i] is Circle,
    decreases nodes.len(),
{
    let front = circle_marks(nodes.drop_last(), marks, class);
    if i < front.len() {
        circles_are_circles(nodes.drop_last(), marks, class, i);
    }
}

proof fn arcs_by_kind(arcs: Seq<Arc>)
    ensures
        ({
            let segment = |op: Op| op is Segment;
            tally(arc_marks(arcs, ArcKind::Tree), segment) + tally(
                arc_marks(arcs, ArcKind::Cross),
                segment,
            ) + tally(arc_marks(arcs, ArcKind::Stray), segment) == arcs.len()
        }),
    decreases arcs.len(),
{
    let segment = |op: Op| op is Segment;
    if arcs.len() > 0 {
        let f = arcs.drop_last();
        arcs_by_kind(f);
        let a = arcs.last();
        let op = Op::Segment { from: spot(a.from), to: spot(a.to) };
        tally_push(arc_marks(f, ArcKind::Tree), op, segment);
        tally_push(arc_marks(f, ArcKind::Cross), op, segment);
        tally_push(arc_marks(f, ArcKind::Stray), op, segment);
    }
}

/// A page has a line for every arc of the drawing, and no other.
pub proof fn a_page_has_every_arc(
    scene: SceneView,
    marks: Set<usize>,
    dash_cross: bool,
    hollow: bool,
)
    ensures
        tally(page_ops(scene, marks, dash_cross, hollow), |op: Op| op is Segment)
            == scene.arcs.len(),
{
    let segment = |op: Op| op is Segment;
    let behind = seq![Op::SetStroke(Tone::Link), Op::SetWidth(Width::Arc)] + arc_ops(
        scene.arcs,
        ArcKind::Tree,
    ) + cross_ops(scene.arcs, dash_cross) + stub_ops(scene.nodes) + stray_ops(scene.arcs)
        + dots_ops(scene.ellipses.len());
    tally_behind(scene, dash_cross, segment);
    tally_nodes(scene.nodes, marks, hollow, 6, segment);
    tally_join(behind, node_ops(scene.nodes, marks, hollow, 6), segment);
    arcs_by_kind(scene.arcs);
}

/// How many of the arcs go from one node to another.
pub open spec fn arcs_between(arcs: Seq<Arc>, from: u32, to: u32) -> nat
    decreases arcs.len(),
{
    if arcs.len() == 0 {
        0
    } else {
        arcs_between(arcs.drop_last(), from, to) + if arcs.last().from == from && arcs.last().to
            == to {
            1nat
        } else {
            0
        }
    }
}

proof fn lines_by_kind(arcs: Seq<Arc>, from: u32, to: u32)
    ensures
        ({
            let line = |op: Op| op == (Op::Segment { from: spot(from), to: spot(to) });
            tally(arc_marks(arcs, ArcKind::Tree), line) + tally(
                arc_marks(arcs, ArcKind::Cross),
                line,
            ) + tally(arc_marks(arcs, ArcKind::Stray), line) == arcs_between(arcs, from, to)
        }),
    decreases arcs.len(),
{
    let line = |op: Op| op == (Op::Segment { from: spot(from), to: spot(to) });
    if arcs.len() > 0 {
        let f = arcs.drop_last();
        lines_by_kind(f, from, to);
        let a = arcs.last();
        let op = Op::Segment { from: spot(a.from), to: spot(a.to) };
        tally_push(arc_marks(f, ArcKind::Tree), op, line);
        tally_push(arc_marks(f, ArcKind::Cross), op, line);
        tally_push(arc_marks(f, ArcKind::Stray), op, line);
    }
}

/// A page has a line from one node to another exactly as often as the drawing has an
/// arc from the one to the other.
pub proof fn a_line_goes_where_its_arc_goes(
    scene: SceneView,
    marks: Set<usize>,
    dash_cross: bool,
    hollow: bool,
    from: u32,
    to: u32,
)
    ensures
        tally(
            page_ops(scene, marks, dash_cross, hollow),
            |op: Op| op == (Op::Segment { from: spot(from), to: spot(to) }),
        ) == arcs_between(scene.arcs, from, to),
{
    let line = |op: Op| op == (Op::Segment { from: spot(from), to: spot(to) });
    let behind = seq![Op::SetStroke(Tone::Link), Op::SetWidth(Width::Arc)] + arc_ops(
        scene.arcs,
        ArcKind::Tree,
    ) + cross_ops(scene.arcs, dash_cross) + stub_ops(scene.nodes) + stray_ops(scene.arcs)
        + dots_ops(scene.ellipses.len());
    tally_behind(scene, dash_cross, line);
    tally_nodes(scene.nodes, marks, hollow, 6, line);
    tally_join(behind, node_ops(scene.nodes, marks, hollow, 6), line);
    lines_by_kind(scene.arcs, from, to);
}

proof fn circle_of_a_class(nodes: Seq<Placed>, marks: Set<usize>, class: int, node: u32)
    requires
        nodes.len() <= u32::MAX,
    ensures
        ({
            let one = |op: Op| op == Op::Circle(spot(node));
            tally(circle_marks(nodes, marks, class), one) == if node < nodes.len() && node_class(
                nodes[node as int],
                marks,
            ) == class {
                1nat
            } else {
                0
            }
        }),
    decreases nodes.len(),
{
    let one = |op: Op| op == Op::Circle(spot(node));
    if nodes.len() > 0 {
        let f = nodes.drop_last();
        circle_of_a_class(f, marks, class, node);
        let op = Op::Circle(spot((nodes.len() - 1) as u32));
        tally_push(circle_marks(f, marks, class), op, one);
    }
}

proof fn circle_of_the_classes(
    nodes: Seq<Placed>,
    marks: Set<usize>,
    hollow: bool,
    upto: int,
    node: u32,
)
    requires
        node < nodes.len() <= u32::MAX,
    ensures
        ({
            let one = |op: Op| op == Op::Circle(spot(node));
            tally(node_ops(nodes, marks, hollow, upto), one) == if node_class(
                nodes[node as int],
                marks,
            ) < upto {
                1nat
            } else {
                0
            }
        }),
    decreases upto,
{
    let one = |op: Op| op == Op::Circle(spot(node));
    if upto > 0 {
        circle_of_the_classes(nodes, marks, hollow, upto - 1, node);
        circle_of_a_class(nodes, marks, upto - 1, node);
        let circles = circle_marks(nodes, marks, upto - 1);
        class_draws_its_circles(circles, upto - 1, hollow, one);
        tally_join(
            node_ops(nodes, marks, hollow, upto - 1),
            class_ops(circles, upto - 1, hollow),
            one,
        );
    }
}

/// A page has the circle of every node exactly once.
pub proof fn a_page_has_every_node_once(
    scene: SceneView,
    marks: Set<usize>,
    dash_cross: bool,
    hollow: bool,
    node: u32,
)
    requires
        node < scene.nodes.len() <= u32::MAX,
    ensures
        tally(
            page_ops(scene, marks, dash_cross, hollow),
            |op: Op| op == Op::Circle(spot(node)),
        ) == 1,
{
    let one = |op: Op| op == Op::Circle(spot(node));
    let behind = seq![Op::SetStroke(Tone::Link), Op::SetWidth(Width::Arc)] + arc_ops(
        scene.arcs,
        ArcKind::Tree,
    ) + cross_ops(scene.arcs, dash_cross) + stub_ops(scene.nodes) + stray_ops(scene.arcs)
        + dots_ops(scene.ellipses.len());
    tally_behind(scene, dash_cross, one);
    tally_arc_marks(scene.arcs, ArcKind::Tree, one);
    tally_arc_marks(scene.arcs, ArcKind::Cross, one);
    tally_arc_marks(scene.arcs, ArcKind::Stray, one);
    circle_of_the_classes(scene.nodes, marks, hollow, 6, node);
    tally_join(behind, node_ops(scene.nodes, marks, hollow, 6), one);
}

} // verus!
