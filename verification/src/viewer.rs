//! What a window shows: which nodes a frame draws and in which order, what the
//! keys do, and what the panel says.
//!
//! A frame draws what is inside the window and nothing else. Its nodes are sorted
//! into *buckets*, one per colour, and each is filled once; the selection, a node
//! and its subtree, is left out of the buckets and drawn on top of them. A leaf
//! is a ring once there is room for one.

use vstd::prelude::*;
use vstd::string::*;

use crate::quadtree::{in_order, Patch, Quadtree};
use crate::records::Tx;
use crate::scene::{Placed, Scene, NO_PARENT};
use crate::text::{dec, padded, push_dec};

verus! {

/// How many nodes of a crowd say what colour it is.
pub const SAMPLES: usize = 8;

/// The nodes at the places of the permutation from `start` to `end`.
pub open spec fn stretch(order: Seq<u32>, start: u32, end: u32) -> Seq<u32> {
    order.subrange(start as int, end as int)
}

/// The nodes that the first `k` patches name one by one.
pub open spec fn named(order: Seq<u32>, patches: Seq<Patch>, k: int) -> Seq<u32>
    decreases k,
{
    if k <= 0 {
        Seq::empty()
    } else {
        let before = named(order, patches, k - 1);
        match patches[k - 1] {
            Patch::Nodes { start, end } => before + stretch(order, start, end),
            Patch::Cluster { .. } => before,
        }
    }
}

/// Those of the first `k` patches that stand for a crowd.
pub open spec fn crowds(patches: Seq<Patch>, k: int) -> Seq<Patch>
    decreases k,
{
    if k <= 0 {
        Seq::empty()
    } else {
        let before = crowds(patches, k - 1);
        if patches[k - 1] is Cluster {
            before.push(patches[k - 1])
        } else {
            before
        }
    }
}

/// The nodes and the crowds a walk came back with.
pub fn gather(tree: &Quadtree, patches: &Vec<Patch>) -> (r: (Vec<u32>, Vec<Patch>))
    requires
        in_order(patches@, tree.permutation().len()),
    ensures
        in_order(r.1@, tree.permutation().len()),
        r.0@ == named(tree.permutation(), patches@, patches@.len() as int),
        r.1@ == crowds(patches@, patches@.len() as int),
        forall|i: int| 0 <= i < r.0@.len() ==> #[trigger] r.0@[i] < tree.permutation().len(),
{
    let mut nodes: Vec<u32> = Vec::new();
    let mut squares: Vec<Patch> = Vec::new();
    let mut k: usize = 0;
    while k < patches.len()
        invariant
            k <= patches@.len(),
            in_order(patches@, tree.permutation().len()),
            nodes@ == named(tree.permutation(), patches@, k as int),
            squares@ == crowds(patches@, k as int),
            in_order(squares@, tree.permutation().len()),
            forall|i: int| 0 <= i < nodes@.len() ==> #[trigger] nodes@[i] < tree.permutation().len(),
        decreases patches@.len() - k,
    {
        let patch = patches[k];
        match patch {
            Patch::Nodes { start, end } => {
                let ghost before = nodes@;
                let mut at: u32 = start;
                assert(before =~= before + stretch(tree.permutation(), start, at));
                while at < end
                    invariant
                        start <= at <= end <= tree.permutation().len(),
                        nodes@ == before + stretch(tree.permutation(), start, at),
                        forall|i: int|
                            0 <= i < nodes@.len() ==> #[trigger] nodes@[i]
                                < tree.permutation().len(),
                    decreases end - at,
                {
                    nodes.push(tree.node(at));
                    at += 1;
                    assert(nodes@ =~= before + stretch(tree.permutation(), start, at));
                }
            },
            Patch::Cluster { .. } => squares.push(patch),
        }
        k += 1;
    }
    (nodes, squares)
}

/// How many nodes the crowds stand for.
pub open spec fn summarised(squares: Seq<Patch>) -> int {
    crate::quadtree::total(squares)
}

/// How many nodes the crowds stand for.
pub fn count_summarised(squares: &Vec<Patch>) -> (n: u128)
    requires
        forall|i: int| 0 <= i < squares@.len() ==> 0 <= (#[trigger] squares@[i]).size(),
    ensures
        n == summarised(squares@),
{
    let mut n: u128 = 0;
    let mut k: usize = 0;
    while k < squares.len()
        invariant
            k <= squares@.len(),
            forall|i: int| 0 <= i < squares@.len() ==> 0 <= (#[trigger] squares@[i]).size(),
            n == summarised(squares@.take(k as int)),
            n <= k * u32::MAX,
        decreases squares@.len() - k,
    {
        assert(squares@.take(k + 1).drop_last() =~= squares@.take(k as int));
        assert(squares@.take(k + 1).last() == squares@[k as int]);
        assert(0 <= squares@[k as int].size() <= u32::MAX);
        let held: u32 = match squares[k] {
            Patch::Nodes { start, end } => end - start,
            Patch::Cluster { start, end, .. } => end - start,
        };
        assert((k + 1) * u32::MAX == k * u32::MAX + u32::MAX) by (nonlinear_arith);
        assert(k * u32::MAX <= 0xffff_ffff_ffff_ffff * 0xffff_ffff) by (nonlinear_arith)
            requires
                0 <= k <= 0xffff_ffff_ffff_ffff,
        ;
        n = n + held as u128;
        k += 1;
    }
    assert(squares@.take(squares@.len() as int) =~= squares@);
    n
}

/// Whether an entry is part of the selection: a node and its subtree, which is a
/// range of entries.
pub open spec fn is_chosen(entries: Seq<Placed>, chosen: Option<u32>, i: u32) -> bool {
    chosen matches Some(c) && c <= i < entries[c as int].subtree_end
}

/// Whether an entry is drawn as a ring.
pub open spec fn is_ring(entries: Seq<Placed>, hollow: bool, i: u32) -> bool {
    hollow && entries[i as int].subtree_end == i + 1
}

/// Those of the first `k` nodes that are drawn in one bucket, as rings or not, in
/// order: what is selected is in none.
pub open spec fn in_bucket(
    entries: Seq<Placed>,
    nodes: Seq<u32>,
    chosen: Option<u32>,
    bucket: Seq<u16>,
    hollow: bool,
    b: int,
    rings: bool,
    k: int,
) -> Seq<u32>
    decreases k,
{
    if k <= 0 {
        Seq::empty()
    } else {
        let before = in_bucket(entries, nodes, chosen, bucket, hollow, b, rings, k - 1);
        let i = nodes[k - 1];
        if !is_chosen(entries, chosen, i) && bucket[i as int] == b && is_ring(entries, hollow, i)
            == rings {
            before.push(i)
        } else {
            before
        }
    }
}

/// Those of the first `k` nodes that are selected, in order.
pub open spec fn selected(entries: Seq<Placed>, nodes: Seq<u32>, chosen: Option<u32>, k: int) -> Seq<
    u32,
>
    decreases k,
{
    if k <= 0 {
        Seq::empty()
    } else {
        let before = selected(entries, nodes, chosen, k - 1);
        if is_chosen(entries, chosen, nodes[k - 1]) {
            before.push(nodes[k - 1])
        } else {
            before
        }
    }
}

/// The nodes of a frame, sorted.
pub struct Batches {
    /// By bucket, those that are filled.
    pub solid: Vec<Vec<u32>>,
    /// By bucket, those that are rings.
    pub rings: Vec<Vec<u32>>,
    /// Those that are selected.
    pub selected: Vec<u32>,
}

fn empty_batches(count: usize) -> (batches: Vec<Vec<u32>>)
    ensures
        batches@.len() == count,
        forall|b: int| 0 <= b < count ==> (#[trigger] batches@[b])@ == Seq::<u32>::empty(),
{
    let mut batches: Vec<Vec<u32>> = Vec::new();
    let mut b: usize = 0;
    while b < count
        invariant
            b <= count,
            batches@.len() == b,
            forall|j: int| 0 <= j < b ==> (#[trigger] batches@[j])@ == Seq::<u32>::empty(),
        decreases count - b,
    {
        let fresh: Vec<u32> = Vec::new();
        assert(fresh@ =~= Seq::<u32>::empty());
        batches.push(fresh);
        b += 1;
    }
    batches
}

/// Sorts the nodes of a frame into buckets; `bucket` has that of every entry.
pub fn sort_nodes(
    scene: &Scene,
    nodes: &Vec<u32>,
    chosen: Option<u32>,
    bucket: &Vec<u16>,
    count: usize,
    hollow: bool,
) -> (out: Batches)
    requires
        bucket@.len() == scene.entries().len(),
        forall|i: int| 0 <= i < bucket@.len() ==> #[trigger] bucket@[i] < count,
        forall|k: int| 0 <= k < nodes@.len() ==> #[trigger] nodes@[k] < scene.entries().len(),
        chosen matches Some(c) ==> c < scene.entries().len(),
    ensures
        out.solid@.len() == count,
        out.rings@.len() == count,
        forall|b: int|
            0 <= b < count ==> (#[trigger] out.solid@[b])@ == in_bucket(
                scene.entries(),
                nodes@,
                chosen,
                bucket@,
                hollow,
                b,
                false,
                nodes@.len() as int,
            ),
        forall|b: int|
            0 <= b < count ==> (#[trigger] out.rings@[b])@ == in_bucket(
                scene.entries(),
                nodes@,
                chosen,
                bucket@,
                hollow,
                b,
                true,
                nodes@.len() as int,
            ),
        out.selected@ == selected(scene.entries(), nodes@, chosen, nodes@.len() as int),
{
    let ghost entries = scene.entries();
    let mut solid = empty_batches(count);
    let mut rings = empty_batches(count);
    let mut picked: Vec<u32> = Vec::new();
    let mut k: usize = 0;
    while k < nodes.len()
        invariant
            k <= nodes@.len(),
            entries == scene.entries(),
            bucket@.len() == entries.len(),
            forall|i: int| 0 <= i < bucket@.len() ==> #[trigger] bucket@[i] < count,
            forall|k: int| 0 <= k < nodes@.len() ==> #[trigger] nodes@[k] < entries.len(),
            chosen matches Some(c) ==> c < entries.len(),
            solid@.len() == count,
            rings@.len() == count,
            forall|b: int|
                0 <= b < count ==> (#[trigger] solid@[b])@ == in_bucket(
                    entries,
                    nodes@,
                    chosen,
                    bucket@,
                    hollow,
                    b,
                    false,
                    k as int,
                ),
            forall|b: int|
                0 <= b < count ==> (#[trigger] rings@[b])@ == in_bucket(
                    entries,
                    nodes@,
                    chosen,
                    bucket@,
                    hollow,
                    b,
                    true,
                    k as int,
                ),
            picked@ == selected(entries, nodes@, chosen, k as int),
        decreases nodes@.len() - k,
    {
        let i: u32 = nodes[k];
        let inside = match chosen {
            None => false,
            Some(c) => c <= i && i < scene.node(c).subtree_end,
        };
        if inside {
            picked.push(i);
        } else {
            let b: usize = bucket[i as usize] as usize;
            if hollow && scene.is_leaf(i) {
                rings[b].push(i);
            } else {
                solid[b].push(i);
            }
        }
        k += 1;
    }
    Batches { solid, rings, selected: picked }
}

/// Which bucket of the two tones a node is in: leaves, and the rest.
pub fn two_tone(scene: &Scene, i: u32) -> (bucket: u16)
    requires
        i < scene.entries().len(),
    ensures
        bucket == 1 || bucket == 0,
        bucket == 1 <==> (forall|j: int|
            0 <= j < scene.entries().len() ==> (#[trigger] scene.entries()[j]).parent != i),
{
    if scene.is_leaf(i) {
        1
    } else {
        0
    }
}

/// The edges of the first `k` nodes: each from its parent, where it has one.
pub open spec fn edges(entries: Seq<Placed>, nodes: Seq<u32>, k: int) -> Seq<(u32, u32)>
    decreases k,
{
    if k <= 0 {
        Seq::empty()
    } else {
        let before = edges(entries, nodes, k - 1);
        let i = nodes[k - 1];
        if entries[i as int].parent == NO_PARENT {
            before
        } else {
            before.push((entries[i as int].parent, i))
        }
    }
}

/// The edges of the nodes of a frame.
pub fn links(scene: &Scene, nodes: &Vec<u32>) -> (out: Vec<(u32, u32)>)
    requires
        forall|k: int| 0 <= k < nodes@.len() ==> #[trigger] nodes@[k] < scene.entries().len(),
    ensures
        out@ == edges(scene.entries(), nodes@, nodes@.len() as int),
{
    let mut out: Vec<(u32, u32)> = Vec::new();
    let mut k: usize = 0;
    while k < nodes.len()
        invariant
            k <= nodes@.len(),
            forall|k: int| 0 <= k < nodes@.len() ==> #[trigger] nodes@[k] < scene.entries().len(),
            out@ == edges(scene.entries(), nodes@, k as int),
        decreases nodes@.len() - k,
    {
        let i: u32 = nodes[k];
        let parent: u32 = scene.node(i).parent;
        if parent != NO_PARENT {
            out.push((parent, i));
        }
        k += 1;
    }
    out
}

/// The places of a crowd that are looked at for its colour: at most so many, as
/// far apart as they go.
pub open spec fn sampled(start: u32, end: u32) -> Seq<u32> {
    let len = end - start;
    let step = if len / SAMPLES as int > 1 {
        len / SAMPLES as int
    } else {
        1
    };
    let n = if len < SAMPLES {
        len
    } else {
        SAMPLES as int
    };
    Seq::new(n as nat, |k: int| (start + k * step) as u32)
}

/// The places of a crowd that are looked at for its colour.
pub fn samples(start: u32, end: u32) -> (places: Vec<u32>)
    requires
        start <= end,
    ensures
        places@ == sampled(start, end),
        forall|k: int| 0 <= k < places@.len() ==> start <= #[trigger] places@[k] < end,
{
    let len: u32 = end - start;
    let step: u32 = if len / 8 > 1 {
        len / 8
    } else {
        1
    };
    let n: u32 = if len < 8 {
        len
    } else {
        8
    };
    let mut places: Vec<u32> = Vec::new();
    let mut k: u32 = 0;
    while k < n
        invariant
            k <= n,
            len == end - start,
            start <= end,
            step == if len / 8 > 1 {
                len / 8
            } else {
                1u32
            },
            n == if len < 8 {
                len
            } else {
                8u32
            },
            places@ == sampled(start, end).take(k as int),
            forall|j: int| 0 <= j < places@.len() ==> start <= #[trigger] places@[j] < end,
        decreases n - k,
    {
        assert(k * step < len) by {
            if len / 8 > 1 {
                assert(k * step <= 7 * step) by (nonlinear_arith)
                    requires
                        k <= 7,
                        step >= 0,
                ;
            } else {
                assert(k * step == k) by (nonlinear_arith)
                    requires
                        step == 1,
                ;
            }
        }
        places.push(start + k * step);
        k += 1;
        assert(places@ =~= sampled(start, end).take(k as int));
    }
    assert(sampled(start, end).take(n as int) =~= sampled(start, end));
    places
}

/// The keys a window listens to.
#[derive(Clone, Copy, Debug, PartialEq, Eq, Structural)]
pub enum Key {
    F,
    A,
    Home,
    P,
    E,
    Plus,
    Minus,
    Left,
    Right,
    Up,
    Down,
    Escape,
    Q,
    Other,
}

/// What a key asks of the window and its camera. A pan is in tenths of the
/// window, in the direction the drawing slides: the camera goes where an arrow
/// points.
#[derive(Clone, Copy, Debug, PartialEq, Eq, Structural)]
pub enum Action {
    FrameSelection,
    FrameAll,
    Zoom { notches: i8 },
    Pan { x: i8, y: i8 },
    Export,
    Redraw,
    Close,
    Ignore,
}

/// What a key asks for.
pub open spec fn action_of(key: Key) -> Action {
    match key {
        Key::F => Action::FrameSelection,
        Key::A | Key::Home => Action::FrameAll,
        Key::P | Key::Escape => Action::Redraw,
        Key::E => Action::Export,
        Key::Plus => Action::Zoom { notches: (-1) as i8 },
        Key::Minus => Action::Zoom { notches: 1 },
        Key::Left => Action::Pan { x: 1, y: 0 },
        Key::Right => Action::Pan { x: (-1) as i8, y: 0 },
        Key::Up => Action::Pan { x: 0, y: 1 },
        Key::Down => Action::Pan { x: 0, y: (-1) as i8 },
        Key::Q => Action::Close,
        Key::Other => Action::Ignore,
    }
}

/// The selection after a key: its parent, where it has one, nothing, or the same.
pub open spec fn chosen_after(entries: Seq<Placed>, chosen: Option<u32>, key: Key) -> Option<u32> {
    match (key, chosen) {
        (Key::Escape, _) => None,
        (Key::P, Some(i)) => if entries[i as int].parent == NO_PARENT {
            chosen
        } else {
            Some(entries[i as int].parent)
        },
        _ => chosen,
    }
}

/// What a key asks for, and the selection after it.
pub fn press(scene: &Scene, chosen: Option<u32>, key: Key) -> (r: (Action, Option<u32>))
    requires
        chosen matches Some(c) ==> c < scene.entries().len(),
    ensures
        r.0 == action_of(key),
        r.1 == chosen_after(scene.entries(), chosen, key),
{
    let after = match key {
        Key::Escape => None,
        Key::P => match chosen {
            Some(i) => {
                let up: u32 = scene.node(i).parent;
                if up == NO_PARENT {
                    chosen
                } else {
                    Some(up)
                }
            },
            None => None,
        },
        _ => chosen,
    };
    let action = match key {
        Key::F => Action::FrameSelection,
        Key::A | Key::Home => Action::FrameAll,
        Key::P | Key::Escape => Action::Redraw,
        Key::E => Action::Export,
        Key::Plus => Action::Zoom { notches: -1 },
        Key::Minus => Action::Zoom { notches: 1 },
        Key::Left => Action::Pan { x: 1, y: 0 },
        Key::Right => Action::Pan { x: -1, y: 0 },
        Key::Up => Action::Pan { x: 0, y: 1 },
        Key::Down => Action::Pan { x: 0, y: -1 },
        Key::Q => Action::Close,
        Key::Other => Action::Ignore,
    };
    (action, after)
}

/// The name of the `n`th page that a window writes.
pub open spec fn page_name_of(stem: Seq<char>, n: nat) -> Seq<char> {
    stem + "-"@ + (if n < 1000 {
        padded(n, 3)
    } else {
        dec(n)
    }) + ".pdf"@
}

/// The name of the `n`th page that a window writes.
pub fn page_name(stem: &str, n: usize) -> (name: String)
    ensures
        name@ == page_name_of(stem@, n as nat),
{
    let mut name = stem.to_owned();
    name.append("-");
    if n < 1000 {
        let ghost before = name@;
        proof {
            reveal_with_fuel(padded, 4);
        }
        name.push(crate::text::digit_char((n / 100) as u64));
        name.push(crate::text::digit_char((n / 10 % 10) as u64));
        name.push(crate::text::digit_char((n % 10) as u64));
        assert(name@ =~= before + padded(n as nat, 3));
    } else {
        push_dec(&mut name, n as u64);
    }
    name.append(".pdf");
    name
}

/// What a frame drew.
#[derive(Clone, Copy, Debug, PartialEq, Eq, Structural)]
pub struct Frame {
    /// Nodes drawn one by one.
    pub nodes: usize,
    /// Squares standing for more than one node.
    pub squares: usize,
    /// How many nodes those squares stood for.
    pub summarised: u32,
}

/// The first two lines of the panel: what there is, and what is on the screen.
pub open spec fn panel_text(nodes: nat, cells: nat, scale: Seq<char>, last: Frame) -> (
    Seq<char>,
    Seq<char>,
) {
    (
        dec(nodes) + " nodes, "@ + dec(cells) + " cells"@,
        if last.squares == 0 {
            scale + " px/node   showing "@ + dec(last.nodes as nat) + " nodes"@
        } else {
            scale + " px/node   showing "@ + dec(last.summarised as nat) + " nodes in "@ + dec(
                last.squares as nat,
            ) + " squares"@
        },
    )
}

/// The first two lines of the panel, the scale being told as it is to be written.
pub fn panel(nodes: usize, cells: usize, scale: &str, last: Frame) -> (lines: (String, String))
    ensures
        (lines.0@, lines.1@) == panel_text(nodes as nat, cells as nat, scale@, last),
{
    let mut first = String::new();
    push_dec(&mut first, nodes as u64);
    first.append(" nodes, ");
    push_dec(&mut first, cells as u64);
    first.append(" cells");
    assert(first@ =~= dec(nodes as nat) + " nodes, "@ + dec(cells as nat) + " cells"@);
    let mut second = scale.to_owned();
    second.append(" px/node   showing ");
    if last.squares == 0 {
        push_dec(&mut second, last.nodes as u64);
        second.append(" nodes");
    } else {
        push_dec(&mut second, last.summarised as u64);
        second.append(" nodes in ");
        push_dec(&mut second, last.squares as u64);
        second.append(" squares");
    }
    (first, second)
}

/// What a panel says of a selected node of a graph.
pub open spec fn node_text(entries: Seq<Placed>, i: u32) -> Seq<char> {
    "node "@ + dec(entries[i as int].graph as nat) + " — "@ + dec(
        (entries[i as int].subtree_end - i) as nat,
    ) + " in its subtree"@
}

/// What a panel says about the selection in a graph.
pub fn describe_node(scene: &Scene, chosen: Option<u32>) -> (line: String)
    requires
        chosen matches Some(c) ==> c < scene.entries().len(),
    ensures
        line@ == match chosen {
            Some(i) => node_text(scene.entries(), i),
            None => "nothing selected — click a node"@,
        },
{
    match chosen {
        Some(i) => {
            let range = scene.subtree(i);
            let mut line = "node ".to_owned();
            push_dec(&mut line, scene.node(i).graph as u64);
            line.append(" — ");
            push_dec(&mut line, (range.end - range.start) as u64);
            line.append(" in its subtree");
            line
        },
        None => "nothing selected — click a node".to_owned(),
    }
}

/// What a panel says of a selected transaction with so many under it.
pub open spec fn described(tx: Tx, below: nat) -> (Seq<char>, Seq<char>) {
    (
        "tx "@ + dec(tx.id as nat) + " in block "@ + dec(tx.block as nat) + " — "@ + dec(below)
            + " spending below it"@,
        "colour: "@ + dec(tx.blocks as nat) + " block(s), oldest "@ + dec(tx.oldest as nat)
            + ", newest "@ + dec(tx.newest as nat),
    )
}

/// What a panel says about the selection among transactions: two lines either
/// way, so that the panel does not change height.
pub fn describe(scene: &Scene, txs: &Vec<Tx>, chosen: Option<u32>) -> (lines: (String, String))
    requires
        chosen matches Some(c) ==> c < scene.entries().len() && scene.entries()[c as int].graph
            < txs@.len(),
    ensures
        match chosen {
            Some(i) => (lines.0@, lines.1@) == described(
                txs@[scene.entries()[i as int].graph as int],
                (scene.entries()[i as int].subtree_end - i - 1) as nat,
            ),
            None => lines.0@ == "nothing selected — click a transaction"@ && lines.1@ == ""@,
        },
{
    match chosen {
        Some(i) => {
            let tx = txs[scene.node(i).graph as usize];
            let range = scene.subtree(i);
            let mut first = "tx ".to_owned();
            push_dec(&mut first, tx.id);
            first.append(" in block ");
            push_dec(&mut first, tx.block as u64);
            first.append(" — ");
            push_dec(&mut first, (range.end - range.start - 1) as u64);
            first.append(" spending below it");
            let mut second = "colour: ".to_owned();
            push_dec(&mut second, tx.blocks as u64);
            second.append(" block(s), oldest ");
            push_dec(&mut second, tx.oldest as u64);
            second.append(", newest ");
            push_dec(&mut second, tx.newest as u64);
            (first, second)
        },
        None => ("nothing selected — click a transaction".to_owned(), "".to_owned()),
    }
}

} // verus!
