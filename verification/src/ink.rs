//! The ink the pages share: the palette, and the marks a page is made of.
//!
//! A page is planned as a list of [`Op`]s that name nodes rather than places,
//! so that what is drawn, in which order and in which ink, is settled before
//! anything is scaled.

use vstd::prelude::*;

verus! {

/// How many shapes go into one path before it is painted: a bound is kindness
/// to readers that walk a path recursively.
pub const BATCH: usize = 4096;

/// How many ellipses of three dots go into one path.
pub const ELLIPSES: usize = 1366;

/// Nodes a walk may place on a page when the caller does not say.
pub const PAGE_NODES: usize = 100_000;

/// The inks.
#[derive(Clone, Copy, Debug, PartialEq, Eq, Structural)]
pub enum Tone {
    Paper,
    /// A node with something under it.
    Inner,
    /// A node with nothing under it.
    Leaf,
    /// An arc.
    Link,
    /// What the cut took something from.
    Cut,
    /// A node the caller named.
    Mark,
    /// Words.
    Label,
}

impl Tone {
    /// The red, green and blue of the ink, from nothing to one, with two
    /// decimals.
    pub open spec fn amounts(self) -> (Seq<char>, Seq<char>, Seq<char>) {
        match self {
            Tone::Paper => ("1.00"@, "1.00"@, "1.00"@),
            Tone::Inner => ("0.00"@, "0.00"@, "0.00"@),
            Tone::Leaf => ("0.50"@, "0.50"@, "0.50"@),
            Tone::Link => ("0.78"@, "0.78"@, "0.78"@),
            Tone::Cut => ("0.82"@, "0.24"@, "0.10"@),
            Tone::Mark => ("0.16"@, "0.47"@, "0.84"@),
            Tone::Label => ("0.32"@, "0.32"@, "0.32"@),
        }
    }

    /// The red, green and blue of the ink.
    pub fn rgb(self) -> (c: (&'static str, &'static str, &'static str))
        ensures
            (c.0@, c.1@, c.2@) == self.amounts(),
    {
        match self {
            Tone::Paper => ("1.00", "1.00", "1.00"),
            Tone::Inner => ("0.00", "0.00", "0.00"),
            Tone::Leaf => ("0.50", "0.50", "0.50"),
            Tone::Link => ("0.78", "0.78", "0.78"),
            Tone::Cut => ("0.82", "0.24", "0.10"),
            Tone::Mark => ("0.16", "0.47", "0.84"),
            Tone::Label => ("0.32", "0.32", "0.32"),
        }
    }
}

/// The widths lines are drawn in.
#[derive(Clone, Copy, Debug, PartialEq, Eq, Structural)]
pub enum Width {
    Arc,
    Ring,
}

/// The dashes lines are drawn in.
#[derive(Clone, Copy, Debug, PartialEq, Eq, Structural)]
pub enum Dash {
    Dashed,
    Dotted,
}

/// A drawn node: which of the drawings on the page it is in, and where there.
#[derive(Clone, Copy, Debug, PartialEq, Eq, Structural)]
pub struct Spot {
    pub part: usize,
    pub node: u32,
}

/// One step of drawing a page.
#[derive(Clone, Copy, Debug, PartialEq, Eq, Structural)]
pub enum Op {
    SetStroke(Tone),
    SetFill(Tone),
    SetWidth(Width),
    SetDash(Dash),
    Solid,
    /// A line from one node to another.
    Segment { from: Spot, to: Spot },
    /// A short line to a node, from the side its row looks away from.
    Stub(Spot),
    /// The circle of a node.
    Circle(Spot),
    /// The three dots of an ellipsis.
    Dots(usize),
    Stroke,
    Fill,
    FillAndStroke,
}

/// What `marks` come to when the path is painted after every `per` of them, the
/// rest of the last path left unpainted.
pub open spec fn laid(marks: Seq<Op>, paint: Op, per: int) -> Seq<Op>
    decreases marks.len(),
{
    if marks.len() == 0 {
        Seq::empty()
    } else {
        let front = laid(marks.drop_last(), paint, per).push(marks.last());
        if marks.len() as int % per == 0 {
            front.push(paint)
        } else {
            front
        }
    }
}

/// What `marks` come to when they are painted, a path for every `per` of them.
pub open spec fn inked(marks: Seq<Op>, paint: Op, per: int) -> Seq<Op> {
    if marks.len() as int % per == 0 {
        laid(marks, paint, per)
    } else {
        laid(marks, paint, per).push(paint)
    }
}

/// How many of the steps are wanted.
pub open spec fn tally(ops: Seq<Op>, wanted: spec_fn(Op) -> bool) -> nat
    decreases ops.len(),
{
    if ops.len() == 0 {
        0
    } else {
        tally(ops.drop_last(), wanted) + if wanted(ops.last()) {
            1nat
        } else {
            0
        }
    }
}

/// What two lists of steps hold is what each holds.
pub(crate) proof fn tally_join(a: Seq<Op>, b: Seq<Op>, wanted: spec_fn(Op) -> bool)
    ensures
        tally(a + b, wanted) == tally(a, wanted) + tally(b, wanted),
    decreases b.len(),
{
    if b.len() == 0 {
        assert(a + b =~= a);
    } else {
        tally_join(a, b.drop_last(), wanted);
        assert((a + b).drop_last() =~= a + b.drop_last());
    }
}

/// One more step.
pub(crate) proof fn tally_push(a: Seq<Op>, op: Op, wanted: spec_fn(Op) -> bool)
    ensures
        tally(a.push(op), wanted) == tally(a, wanted) + if wanted(op) {
            1nat
        } else {
            0
        },
{
    assert(a.push(op).drop_last() =~= a);
}

/// Painting in paths draws every mark once, and nothing else.
pub(crate) proof fn painting_draws_the_marks(
    marks: Seq<Op>,
    paint: Op,
    per: int,
    wanted: spec_fn(Op) -> bool,
)
    requires
        per > 0,
        !wanted(paint),
    ensures
        tally(laid(marks, paint, per), wanted) == tally(marks, wanted),
        tally(inked(marks, paint, per), wanted) == tally(marks, wanted),
    decreases marks.len(),
{
    if marks.len() > 0 {
        let f = marks.drop_last();
        painting_draws_the_marks(f, paint, per, wanted);
        tally_push(laid(f, paint, per), marks.last(), wanted);
        tally_push(laid(f, paint, per).push(marks.last()), paint, wanted);
    }
    tally_push(laid(marks, paint, per), paint, wanted);
}

/// Drawing a class draws its circles.
pub(crate) proof fn class_draws_its_circles(
    circles: Seq<Op>,
    class: int,
    hollow: bool,
    wanted: spec_fn(Op) -> bool,
)
    requires
        forall|op: Op| #[trigger] wanted(op) ==> op is Circle,
    ensures
        tally(class_ops(circles, class, hollow), wanted) == tally(circles, wanted),
{
    let head = class_head(class, hollow);
    let paint = class_paint(class, hollow);
    if circles.len() > 0 {
        painting_draws_the_marks(circles, paint, BATCH as int, wanted);
        tally_join(head, inked(circles, paint, BATCH as int), wanted);
        nothing_wanted(head, wanted);
    }
}

/// Steps of which none is wanted.
pub(crate) proof fn nothing_wanted(ops: Seq<Op>, wanted: spec_fn(Op) -> bool)
    requires
        forall|i: int| 0 <= i < ops.len() ==> !wanted(#[trigger] ops[i]),
    ensures
        tally(ops, wanted) == 0,
    decreases ops.len(),
{
    if ops.len() > 0 {
        let f = ops.drop_last();
        assert forall|i: int| 0 <= i < f.len() implies !wanted(#[trigger] f[i]) by {
            assert(!wanted(ops[i]));
        }
        nothing_wanted(f, wanted);
        assert(!wanted(ops[ops.len() - 1]));
    }
}

/// A list of steps being written: how many marks the open path has.
pub struct Pen {
    ops: Vec<Op>,
    in_path: usize,
}

impl Pen {
    /// The steps so far.
    pub closed spec fn steps(&self) -> Seq<Op> {
        self.ops@
    }

    /// The marks in the open path.
    pub closed spec fn open(&self) -> nat {
        self.in_path as nat
    }

    /// Begins a list.
    pub fn new() -> (p: Pen)
        ensures
            p.steps() == Seq::<Op>::empty(),
            p.open() == 0,
    {
        Pen { ops: Vec::new(), in_path: 0 }
    }

    /// A step that is no mark.
    pub fn say(&mut self, op: Op)
        ensures
            final(self).steps() == old(self).steps().push(op),
            final(self).open() == old(self).open(),
    {
        self.ops.push(op);
    }

    /// A mark, painted with the rest of its path if the path is full.
    pub fn mark(&mut self, op: Op, paint: Op, per: usize)
        requires
            old(self).open() < per,
        ensures
            final(self).open() == if old(self).open() + 1 == per {
                0
            } else {
                old(self).open() + 1
            },
            final(self).steps() == if old(self).open() + 1 == per {
                old(self).steps().push(op).push(paint)
            } else {
                old(self).steps().push(op)
            },
    {
        self.ops.push(op);
        self.in_path += 1;
        if self.in_path == per {
            self.ops.push(paint);
            self.in_path = 0;
        }
    }

    /// Paints what is left of a path.
    pub fn paint(&mut self, paint: Op)
        ensures
            final(self).open() == 0,
            final(self).steps() == if old(self).open() > 0 {
                old(self).steps().push(paint)
            } else {
                old(self).steps()
            },
    {
        if self.in_path > 0 {
            self.ops.push(paint);
            self.in_path = 0;
        }
    }

    /// The list.
    pub fn finish(self) -> (ops: Vec<Op>)
        ensures
            ops@ == self.steps(),
    {
        self.ops
    }
}

/// Where a pen stands that began with `base` and has made `marks` since.
pub open spec fn at_work(pen: Pen, base: Seq<Op>, marks: Seq<Op>, paint: Op, per: int) -> bool {
    &&& pen.steps() == base + laid(marks, paint, per)
    &&& pen.open() == marks.len() as int % per
}

/// One more mark.
pub(crate) proof fn one_more(before: Pen, after: Pen, base: Seq<Op>, marks: Seq<Op>, op: Op, paint: Op, per: int)
    requires
        per > 0,
        at_work(before, base, marks, paint, per),
        after.open() == if before.open() + 1 == per {
            0
        } else {
            before.open() + 1
        },
        after.steps() == if before.open() + 1 == per {
            before.steps().push(op).push(paint)
        } else {
            before.steps().push(op)
        },
    ensures
        at_work(after, base, marks.push(op), paint, per),
{
    let n = marks.len() as int;
    assert(marks.push(op).drop_last() =~= marks);
    if n % per + 1 == per {
        assert((n + 1) % per == 0) by {
            vstd::arithmetic::div_mod::lemma_fundamental_div_mod(n, per);
            let q = n / per;
            assert(n + 1 == per * (q + 1)) by (nonlinear_arith)
                requires
                    n == per * q + n % per,
                    n % per + 1 == per,
            ;
            vstd::arithmetic::div_mod::lemma_mod_multiples_basic(q + 1, per);
            assert(per * (q + 1) == (q + 1) * per) by (nonlinear_arith);
        }
    } else {
        assert((n + 1) % per == n % per + 1) by {
            vstd::arithmetic::div_mod::lemma_fundamental_div_mod(n, per);
            let q = n / per;
            vstd::arithmetic::div_mod::lemma_fundamental_div_mod_converse(
                n + 1,
                per,
                q,
                n % per + 1,
            );
        }
    }
    assert(after.steps() =~= base + laid(marks.push(op), paint, per));
}

/// A pen that has painted the rest.
pub(crate) proof fn all_inked(before: Pen, after: Pen, base: Seq<Op>, marks: Seq<Op>, paint: Op, per: int)
    requires
        per > 0,
        at_work(before, base, marks, paint, per),
        after.steps() == if before.open() > 0 {
            before.steps().push(paint)
        } else {
            before.steps()
        },
    ensures
        after.steps() == base + inked(marks, paint, per),
{
    assert(after.steps() =~= base + inked(marks, paint, per));
}

/// The ink a class of nodes is drawn in. There are six: the even ones are filled
/// and the odd ones hollow, in pairs of what is whole, what is cut and what is
/// marked.
pub open spec fn class_tone(class: int) -> Tone {
    if class == 0 {
        Tone::Inner
    } else if class == 1 {
        Tone::Leaf
    } else if class < 4 {
        Tone::Cut
    } else {
        Tone::Mark
    }
}

/// The class of a node: a mark outranks a cut.
pub open spec fn class_of(marked: bool, cut: bool, leaf: bool) -> int {
    let odd: int = if leaf {
        1
    } else {
        0
    };
    if marked {
        4 + odd
    } else if cut {
        2 + odd
    } else {
        odd
    }
}

/// The class of a node.
pub fn class(marked: bool, cut: bool, leaf: bool) -> (c: u8)
    ensures
        c == class_of(marked, cut, leaf),
        c < 6,
{
    let odd: u8 = if leaf {
        1
    } else {
        0
    };
    if marked {
        4 + odd
    } else if cut {
        2 + odd
    } else {
        odd
    }
}

/// What names the ink of a class: a ring, where there is room for one, is paper
/// filled and the colour stroked.
pub open spec fn class_head(class: int, hollow: bool) -> Seq<Op> {
    if hollow && class % 2 == 1 {
        seq![
            Op::SetFill(Tone::Paper),
            Op::SetStroke(class_tone(class)),
            Op::SetWidth(Width::Ring),
        ]
    } else {
        seq![Op::SetFill(class_tone(class))]
    }
}

/// What paints the nodes of a class.
pub open spec fn class_paint(class: int, hollow: bool) -> Op {
    if hollow && class % 2 == 1 {
        Op::FillAndStroke
    } else {
        Op::Fill
    }
}

/// A class of nodes, drawn: nothing, and no ink named, where there is none.
pub open spec fn class_ops(circles: Seq<Op>, class: int, hollow: bool) -> Seq<Op> {
    if circles.len() == 0 {
        Seq::empty()
    } else {
        class_head(class, hollow) + inked(circles, class_paint(class, hollow), BATCH as int)
    }
}

/// Names the ink of a class, and says what paints it.
pub fn begin_class(pen: &mut Pen, class: u8, hollow: bool) -> (paint: Op)
    requires
        class < 6,
    ensures
        final(pen).steps() == old(pen).steps() + class_head(class as int, hollow),
        final(pen).open() == old(pen).open(),
        paint == class_paint(class as int, hollow),
{
    let tone = if class == 0 {
        Tone::Inner
    } else if class == 1 {
        Tone::Leaf
    } else if class < 4 {
        Tone::Cut
    } else {
        Tone::Mark
    };
    if hollow && class % 2 == 1 {
        pen.say(Op::SetFill(Tone::Paper));
        pen.say(Op::SetStroke(tone));
        pen.say(Op::SetWidth(Width::Ring));
        assert(pen.steps() =~= old(pen).steps() + class_head(class as int, hollow));
        Op::FillAndStroke
    } else {
        pen.say(Op::SetFill(tone));
        assert(pen.steps() =~= old(pen).steps() + class_head(class as int, hollow));
        Op::Fill
    }
}

} // verus!
