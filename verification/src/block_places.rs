//! Where the nodes of a drawing of blocks are, once its boxes have their places.
//!
//! A row lies across its box, centred, its slots two nodes apart: the output row
//! at the far edge of a block's box, the input row at the near edge of a seed's,
//! or at the far edge of the box beside the parent.

use vstd::prelude::*;

use crate::block_scene::BlockScene;
use crate::boxes::{BoxView, TreeBox};
use crate::crossings::{all_marks, arcs_over_nodes, near, passing, FAR, UNIT};
use crate::report::Report;
use crate::rows::{Ellipsis, Placed, Role, Row};

verus! {

/// Where a box begins: along the rows, and along the depth of the drawing.
#[derive(Clone, Copy, Debug, PartialEq, Eq, Structural)]
pub struct Corner {
    pub breadth: i64,
    pub depth: i64,
}

/// How many slots across a box is: at least one.
pub open spec fn across(slots: nat) -> int {
    if slots == 0 {
        1
    } else {
        slots as int
    }
}

/// The depth and the breadth of slot `k` of a row of `n`, in a box: the row is
/// at the near edge of the box or at the far one, and centred.
pub open spec fn slot_place(corner: Corner, b: BoxView, near_edge: bool, n: int, k: int) -> (int, int) {
    (
        if near_edge {
            corner.depth + UNIT / 2
        } else {
            corner.depth + b.rows * UNIT - UNIT / 2
        },
        corner.breadth + (across(b.slots) - n) * UNIT + 2 * k * UNIT + UNIT / 2,
    )
}

/// What the places are worked out from: the boxes and where they begin, which of
/// them have the outside inputs of which block, and how long the rows are.
pub struct Ground {
    pub boxes: Seq<BoxView>,
    pub corners: Seq<Corner>,
    pub in_boxes: Seq<Option<usize>>,
    pub in_rows: Seq<int>,
    pub out_rows: Seq<int>,
}

impl Ground {
    /// Slot `k` of a row of block `bi`, if there is such a row.
    pub open spec fn place_of(self, bi: int, row: Row, k: int) -> Option<(int, int)> {
        match row {
            Row::Output => if bi < self.out_rows.len() && bi < self.boxes.len() && bi
                < self.corners.len() {
                Some(slot_place(self.corners[bi], self.boxes[bi], false, self.out_rows[bi], k))
            } else {
                None
            },
            Row::Input => if bi >= self.in_rows.len() || bi >= self.in_boxes.len() {
                None
            } else {
                let (at, near_edge) = match self.in_boxes[bi] {
                    None => (bi, true),
                    Some(b) => (b as int, false),
                };
                if at < self.boxes.len() && at < self.corners.len() {
                    Some(
                        slot_place(self.corners[at], self.boxes[at], near_edge, self.in_rows[bi], k),
                    )
                } else {
                    None
                }
            },
        }
    }

    /// Where a node is: on the output row of its block, or on its input row.
    pub open spec fn node(self, p: Placed) -> Option<(int, int)> {
        match p.role {
            Role::Output { block } => self.place_of(block as int, Row::Output, p.slot as int),
            Role::Outside { block, .. } => self.place_of(block as int, Row::Input, p.slot as int),
        }
    }

    /// Where an ellipsis is.
    pub open spec fn ellipsis(self, e: Ellipsis) -> Option<(int, int)> {
        self.place_of(e.block as int, e.row, e.slot as int)
    }
}

/// The ground a drawing stands on, its boxes at these corners.
pub open spec fn ground(scene: BlockScene, corners: Seq<Corner>) -> Ground {
    Ground {
        boxes: scene.boxes.boxes@.map_values(|b: TreeBox| b@),
        corners,
        in_boxes: scene.boxes.in_boxes@,
        in_rows: Seq::new(scene.in_rows@.len(), |i: int| scene.in_rows@[i]@.len() as int),
        out_rows: Seq::new(scene.out_rows@.len(), |i: int| scene.out_rows@[i]@.len() as int),
    }
}

/// Whether a place is there, and within reach.
pub open spec fn reachable(place: Option<(int, int)>) -> bool {
    place matches Some((t, s)) && -FAR <= t <= FAR && -FAR <= s <= FAR
}

/// The depth and the breadth of every node and of every ellipsis.
pub struct Places {
    pub nodes: Vec<(i64, i64)>,
    pub ellipses: Vec<(i64, i64)>,
}

fn in_reach(t: i128, s: i128) -> (place: Option<(i64, i64)>)
    ensures
        place is Some <==> -FAR <= t <= FAR && -FAR <= s <= FAR,
        place matches Some(p) ==> p.0 == t && p.1 == s,
{
    let far: i128 = FAR as i128;
    if -far <= t && t <= far && -far <= s && s <= far {
        Some((t as i64, s as i64))
    } else {
        None
    }
}

fn place_slot(corner: Corner, b: &TreeBox, near_edge: bool, n: usize, k: usize) -> (place: Option<
    (i64, i64),
>)
    ensures
        ({
            let (t, s) = slot_place(corner, b@, near_edge, n as int, k as int);
            &&& place is Some <==> -FAR <= t <= FAR && -FAR <= s <= FAR
            &&& place matches Some(p) ==> p.0 == t && p.1 == s
        }),
{
    let unit: i128 = UNIT as i128;
    let half: i128 = unit / 2;
    let t: i128 = if near_edge {
        corner.depth as i128 + half
    } else {
        corner.depth as i128 + b.rows as i128 * unit - half
    };
    let slots: i128 = if b.slots == 0 {
        1
    } else {
        b.slots as i128
    };
    let s: i128 = corner.breadth as i128 + (slots - n as i128) * unit + 2 * k as i128 * unit + half;
    in_reach(t, s)
}

/// Where slot `k` of a row of block `bi` is, if there is such a row and it is
/// within reach.
fn place_on_row(
    scene: &BlockScene,
    corners: &Vec<Corner>,
    bi: usize,
    row: Row,
    k: usize,
) -> (place: Option<(i64, i64)>)
    ensures
        ({
            let p = ground(*scene, corners@).place_of(bi as int, row, k as int);
            &&& place is Some <==> reachable(p)
            &&& place matches Some(q) ==> p == Some((q.0 as int, q.1 as int))
        }),
{
    let boxes = &scene.boxes.boxes;
    match row {
        Row::Output => {
            if bi < scene.out_rows.len() && bi < boxes.len() && bi < corners.len() {
                place_slot(corners[bi], &boxes[bi], false, scene.out_rows[bi].len(), k)
            } else {
                None
            }
        },
        Row::Input => {
            if bi >= scene.in_rows.len() || bi >= scene.boxes.in_boxes.len() {
                return None;
            }
            let n: usize = scene.in_rows[bi].len();
            let (at, near_edge) = match scene.boxes.in_boxes[bi] {
                None => (bi, true),
                Some(b) => (b, false),
            };
            if at < boxes.len() && at < corners.len() {
                place_slot(corners[at], &boxes[at], near_edge, n, k)
            } else {
                None
            }
        },
    }
}

/// Where everything is, the boxes being at these corners, or nothing if a box has
/// no corner or anything is out of reach.
pub fn place_blocks(scene: &BlockScene, corners: &Vec<Corner>) -> (r: Option<Places>)
    ensures
        ({
            let g = ground(*scene, corners@);
            &&& r is Some <==> (forall|i: int|
                0 <= i < scene.nodes@.len() ==> reachable(g.node(#[trigger] scene.nodes@[i]))) && (
            forall|i: int|
                0 <= i < scene.ellipses@.len() ==> reachable(
                    g.ellipsis(#[trigger] scene.ellipses@[i]),
                ))
            &&& r matches Some(p) ==> {
                &&& p.nodes@.len() == scene.nodes@.len()
                &&& p.ellipses@.len() == scene.ellipses@.len()
                &&& forall|i: int|
                    0 <= i < p.nodes@.len() ==> g.node(scene.nodes@[i]) == Some(
                        ((#[trigger] p.nodes@[i]).0 as int, p.nodes@[i].1 as int),
                    )
                &&& forall|i: int|
                    0 <= i < p.ellipses@.len() ==> g.ellipsis(scene.ellipses@[i]) == Some(
                        ((#[trigger] p.ellipses@[i]).0 as int, p.ellipses@[i].1 as int),
                    )
            }
        }),
{
    let ghost g = ground(*scene, corners@);
    let mut nodes: Vec<(i64, i64)> = Vec::new();
    let mut i: usize = 0;
    while i < scene.nodes.len()
        invariant
            i <= scene.nodes@.len(),
            g == ground(*scene, corners@),
            nodes@.len() == i,
            forall|j: int| 0 <= j < i ==> reachable(g.node(#[trigger] scene.nodes@[j])),
            forall|j: int|
                0 <= j < i ==> g.node(scene.nodes@[j]) == Some(
                    ((#[trigger] nodes@[j]).0 as int, nodes@[j].1 as int),
                ),
        decreases scene.nodes@.len() - i,
    {
        let p = scene.nodes[i];
        let (block, row) = match p.role {
            Role::Output { block } => (block, Row::Output),
            Role::Outside { block, .. } => (block, Row::Input),
        };
        match place_on_row(scene, corners, block as usize, row, p.slot) {
            None => {
                assert(!reachable(g.node(scene.nodes@[i as int])));
                return None;
            },
            Some(place) => nodes.push(place),
        }
        i += 1;
    }
    let mut ellipses: Vec<(i64, i64)> = Vec::new();
    let mut k: usize = 0;
    while k < scene.ellipses.len()
        invariant
            k <= scene.ellipses@.len(),
            g == ground(*scene, corners@),
            ellipses@.len() == k,
            forall|j: int| 0 <= j < k ==> reachable(g.ellipsis(#[trigger] scene.ellipses@[j])),
            forall|j: int|
                0 <= j < k ==> g.ellipsis(scene.ellipses@[j]) == Some(
                    ((#[trigger] ellipses@[j]).0 as int, ellipses@[j].1 as int),
                ),
        decreases scene.ellipses@.len() - k,
    {
        let e = scene.ellipses[k];
        match place_on_row(scene, corners, e.block as usize, e.row, e.slot) {
            None => {
                assert(!reachable(g.ellipsis(scene.ellipses@[k as int])));
                return None;
            },
            Some(place) => ellipses.push(place),
        }
        k += 1;
    }
    Some(Places { nodes, ellipses })
}

/// Every arc is between nodes there are, and they can be numbered.
pub open spec fn arcs_within(scene: BlockScene) -> bool {
    &&& scene.nodes@.len() <= u32::MAX
    &&& forall|i: int|
        0 <= i < scene.arcs@.len() ==> (#[trigger] scene.arcs@[i]).from < scene.nodes@.len()
            && scene.arcs@[i].to < scene.nodes@.len()
}

/// Everything is within reach.
pub open spec fn all_reachable(scene: BlockScene, corners: Seq<Corner>) -> bool {
    let g = ground(scene, corners);
    &&& forall|i: int|
        0 <= i < scene.nodes@.len() ==> reachable(g.node(#[trigger] scene.nodes@[i]))
    &&& forall|i: int|
        0 <= i < scene.ellipses@.len() ==> reachable(g.ellipsis(#[trigger] scene.ellipses@[i]))
}

/// Where everything is, the boxes being at these corners, and the report with the
/// arcs that pass over what they do not end at.
pub fn settle_places(scene: &BlockScene, corners: &Vec<Corner>) -> (r: Option<(Places, Report)>)
    requires
        arcs_within(*scene),
    ensures
        r is Some <==> all_reachable(*scene, corners@),
        r matches Some((p, report)) ==> {
            let g = ground(*scene, corners@);
            &&& p.nodes@.len() == scene.nodes@.len()
            &&& p.ellipses@.len() == scene.ellipses@.len()
            &&& forall|i: int|
                0 <= i < p.nodes@.len() ==> g.node(scene.nodes@[i]) == Some(
                    ((#[trigger] p.nodes@[i]).0 as int, p.nodes@[i].1 as int),
                )
            &&& forall|i: int|
                0 <= i < p.ellipses@.len() ==> g.ellipsis(scene.ellipses@[i]) == Some(
                    ((#[trigger] p.ellipses@[i]).0 as int, p.ellipses@[i].1 as int),
                )
            &&& report == (Report {
                arcs_over_nodes: passing(
                    p.nodes@,
                    all_marks(p.nodes@, p.ellipses@),
                    scene.arcs@,
                ) as u64,
                ..scene.report
            })
        },
{
    match place_blocks(scene, corners) {
        None => None,
        Some(places) => {
            proof {
                let g = ground(*scene, corners@);
                let all = all_marks(places.nodes@, places.ellipses@);
                assert forall|i: int| 0 <= i < all.len() implies near(#[trigger] all[i]) by {
                    if i < places.nodes@.len() {
                        assert(reachable(g.node(scene.nodes@[i])));
                        assert(g.node(scene.nodes@[i]) == Some(
                            (places.nodes@[i].0 as int, places.nodes@[i].1 as int),
                        ));
                    } else {
                        let k = i - places.nodes@.len();
                        assert(reachable(g.ellipsis(scene.ellipses@[k])));
                        assert(g.ellipsis(scene.ellipses@[k]) == Some(
                            (places.ellipses@[k].0 as int, places.ellipses@[k].1 as int),
                        ));
                    }
                }
            }
            let over: u64 = arcs_over_nodes(&places.nodes, &places.ellipses, &scene.arcs);
            let mut report = scene.report;
            report.arcs_over_nodes = over;
            Some((places, report))
        },
    }
}

/// Two neighbouring slots of a row are two nodes apart, and level.
pub proof fn slots_are_two_nodes_apart(g: Ground, bi: int, row: Row, k: int)
    requires
        g.place_of(bi, row, k) is Some,
    ensures
        g.place_of(bi, row, k + 1) matches Some((t, s)) && t == g.place_of(bi, row, k).unwrap().0 && s
            == g.place_of(bi, row, k).unwrap().1 + 2 * UNIT,
{
}

} // verus!
