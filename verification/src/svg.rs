//! A forest as a page of circles.
//!
//! Two passes, so that the fill is named twice rather than once per circle: the
//! nodes with something under them, then the leaves.

use vstd::prelude::*;
use vstd::string::*;

verus! {

/// A circle of the drawing: its centre, as it is written, and whether it is a
/// leaf.
pub struct Circle {
    pub cx: String,
    pub cy: String,
    pub leaf: bool,
}

/// A circle as a mathematical value.
pub struct CircleView {
    pub cx: Seq<char>,
    pub cy: Seq<char>,
    pub leaf: bool,
}

impl View for Circle {
    type V = CircleView;

    open spec fn view(&self) -> CircleView {
        CircleView { cx: self.cx@, cy: self.cy@, leaf: self.leaf }
    }
}

/// Circles as mathematical values.
pub open spec fn circle_views(circles: Seq<Circle>) -> Seq<CircleView> {
    Seq::new(circles.len(), |i: int| circles[i]@)
}

/// What a drawing covers, as it is written: its corner, its size in nodes, and its
/// size on the page.
pub struct Extent {
    pub min_x: String,
    pub min_y: String,
    pub width: String,
    pub height: String,
    pub page_width: String,
    pub page_height: String,
}

/// The opening of the page, and its paper.
pub open spec fn opening(e: Extent) -> Seq<char> {
    "<svg xmlns=\"http://www.w3.org/2000/svg\" viewBox=\""@ + e.min_x@ + " "@ + e.min_y@ + " "@
        + e.width@ + " "@ + e.height@ + "\" width=\""@ + e.page_width@ + "\" height=\""@
        + e.page_height@ + "\">\n<rect x=\""@ + e.min_x@ + "\" y=\""@ + e.min_y@ + "\" width=\""@
        + e.width@ + "\" height=\""@ + e.height@ + "\" fill=\"#ffffff\"/>\n"@
}

/// A circle, written.
pub open spec fn circle_text(c: CircleView, radius: Seq<char>) -> Seq<char> {
    "<circle cx=\""@ + c.cx + "\" cy=\""@ + c.cy + "\" r=\""@ + radius + "\"/>\n"@
}

/// The leaves of the circles, or the others, written in order.
pub open spec fn circles_text(circles: Seq<CircleView>, leaves: bool, radius: Seq<char>) -> Seq<char>
    decreases circles.len(),
{
    if circles.len() == 0 {
        Seq::empty()
    } else {
        let front = circles_text(circles.drop_last(), leaves, radius);
        if circles.last().leaf == leaves {
            front + circle_text(circles.last(), radius)
        } else {
            front
        }
    }
}

/// The page.
pub open spec fn svg_text(e: Extent, radius: Seq<char>, circles: Seq<CircleView>) -> Seq<char> {
    opening(e) + "<g fill=\"#000000\">\n"@ + circles_text(circles, false, radius) + "</g>\n"@
        + "<g fill=\"#808080\">\n"@ + circles_text(circles, true, radius) + "</g>\n"@ + "</svg>\n"@
}

fn push_circles(out: &mut String, circles: &Vec<Circle>, leaves: bool, radius: &str)
    ensures
        final(out)@ == old(out)@ + circles_text(circle_views(circles@), leaves, radius@),
{
    let ghost all = circle_views(circles@);
    let mut i: usize = 0;
    assert(out@ =~= out@ + circles_text(all.take(0), leaves, radius@));
    while i < circles.len()
        invariant
            i <= circles@.len(),
            all == circle_views(circles@),
            out@ == old(out)@ + circles_text(all.take(i as int), leaves, radius@),
        decreases circles@.len() - i,
    {
        let c = &circles[i];
        let ghost before = out@;
        proof {
            assert(all.take(i + 1).drop_last() =~= all.take(i as int));
            assert(all.take(i + 1).last() == c@);
        }
        if c.leaf == leaves {
            out.append("<circle cx=\"");
            out.append(c.cx.as_str());
            out.append("\" cy=\"");
            out.append(c.cy.as_str());
            out.append("\" r=\"");
            out.append(radius);
            out.append("\"/>\n");
            assert(out@ =~= before + circle_text(c@, radius@));
            assert(out@ =~= old(out)@ + circles_text(all.take(i + 1), leaves, radius@));
        }
        i += 1;
    }
    assert(all.take(all.len() as int) =~= all);
}

/// Writes the circles as a page, unless there are none.
pub fn write_svg(e: &Extent, radius: &str, circles: &Vec<Circle>) -> (r: Result<String, String>)
    ensures
        match r {
            Ok(page) => circles@.len() > 0 && page@ == svg_text(
                *e,
                radius@,
                circle_views(circles@),
            ),
            Err(why) => circles@.len() == 0 && why@ == "nothing to draw"@,
        },
{
    if circles.len() == 0 {
        return Err("nothing to draw".to_owned());
    }
    let mut out = "<svg xmlns=\"http://www.w3.org/2000/svg\" viewBox=\"".to_owned();
    out.append(e.min_x.as_str());
    out.append(" ");
    out.append(e.min_y.as_str());
    out.append(" ");
    out.append(e.width.as_str());
    out.append(" ");
    out.append(e.height.as_str());
    out.append("\" width=\"");
    out.append(e.page_width.as_str());
    out.append("\" height=\"");
    out.append(e.page_height.as_str());
    out.append("\">\n<rect x=\"");
    out.append(e.min_x.as_str());
    out.append("\" y=\"");
    out.append(e.min_y.as_str());
    out.append("\" width=\"");
    out.append(e.width.as_str());
    out.append("\" height=\"");
    out.append(e.height.as_str());
    out.append("\" fill=\"#ffffff\"/>\n");
    out.append("<g fill=\"#000000\">\n");
    push_circles(&mut out, circles, false, radius);
    out.append("</g>\n");
    out.append("<g fill=\"#808080\">\n");
    push_circles(&mut out, circles, true, radius);
    out.append("</g>\n");
    out.append("</svg>\n");
    Ok(out)
}

} // verus!
