//! What is settled once a walk over blocks is done: what the page shows anyway
//! is not hidden, and levels follow from who hangs under whom.

use std::collections::HashMap;

use vstd::prelude::*;

use crate::blocks::{Block, BlockView};
use crate::kept::{ascending, keeping_is_exact, shown_is_exact, span, Cut};
use crate::walk::views;

verus! {

broadcast use vstd::std_specs::hash::group_hash_axioms;

impl Cut {
    /// The same cut with every entry of a side of `n` for which `p` holds kept
    /// as well.
    pub open spec fn revealing(self, n: nat, p: spec_fn(usize) -> bool) -> Cut {
        match self {
            Cut::All => Cut::All,
            Cut::Ends { head, tail, extra } => Cut::Ends {
                head,
                tail,
                extra: span(head as int, n - tail).filter(
                    |j: usize| extra.contains(j) || p(j),
                ),
            },
        }
    }
}

/// `b` cuts the side at the same ends as `a`.
pub open spec fn same_ends(a: Cut, b: Cut) -> bool {
    match (a, b) {
        (Cut::All, Cut::All) => true,
        (
            Cut::Ends { head: h1, tail: t1, extra: _ },
            Cut::Ends { head: h2, tail: t2, extra: _ },
        ) => h1 == h2 && t1 == t2,
        _ => false,
    }
}

pub(crate) proof fn ascending_filter(s: Seq<usize>, p: spec_fn(usize) -> bool)
    requires
        ascending(s),
    ensures
        ascending(s.filter(p)),
        forall|x: usize| #[trigger] s.filter(p).contains(x) <==> s.contains(x) && p(x),
    decreases s.len(),
{
    reveal(Seq::filter);
    if s.len() > 0 {
        let t = s.drop_last();
        ascending_filter(t, p);
        assert forall|x: usize| s.contains(x) <==> t.contains(x) || x == s.last() by {
            if s.contains(x) {
                let i = s.index_of(x);
                if i < t.len() {
                    assert(t[i] == x);
                }
            }
            if t.contains(x) {
                let i = t.index_of(x);
                assert(s[i] == x);
            }
        }
        if p(s.last()) {
            let f = t.filter(p);
            let g = f.push(s.last());
            assert forall|i: int, j: int| 0 <= i < j < g.len() implies g[i] < g[j] by {
                if j == f.len() {
                    assert(f.contains(f[i]));
                    let l = t.index_of(f[i]);
                    assert(s[l] < s[s.len() - 1]);
                }
            }
            assert forall|x: usize| #[trigger] g.contains(x) <==> f.contains(x) || x
                == s.last() by {
                if f.contains(x) {
                    let i = f.index_of(x);
                    assert(g[i] == x);
                }
                if x == s.last() {
                    assert(g[f.len() as int] == x);
                }
            }
        }
    }
}

pub(crate) proof fn ascending_unique(a: Seq<usize>, b: Seq<usize>)
    requires
        ascending(a),
        ascending(b),
        forall|x: usize|
            #![trigger a.contains(x)]
            #![trigger b.contains(x)]
            a.contains(x) <==> b.contains(x),
    ensures
        a == b,
    decreases a.len(),
{
    if a.len() == 0 {
        if b.len() > 0 {
            assert(b.contains(b[0]));
        }
        assert(a =~= b);
    } else {
        assert(a.contains(a[0]));
        let m = a.last();
        assert(a.contains(m));
        let i = b.index_of(m);
        let w = b.last();
        assert(b.contains(w));
        let j = a.index_of(w);
        assert(a[j] == w && b[i] == m);
        assert(m == w);
        let c = a.drop_last();
        let d = b.drop_last();
        assert forall|x: usize|
            #![trigger c.contains(x)]
            #![trigger d.contains(x)]
            c.contains(x) <==> d.contains(x) by {
            if c.contains(x) {
                let k = c.index_of(x);
                assert(a[k] == x && x < m);
                assert(a.contains(x));
                let l = b.index_of(x);
                assert(d[l] == x);
            }
            if d.contains(x) {
                let k = d.index_of(x);
                assert(b[k] == x && x < m);
                assert(b.contains(x));
                let l = a.index_of(x);
                assert(c[l] == x);
            }
        }
        ascending_unique(c, d);
        assert(a =~= c.push(m));
        assert(b =~= d.push(m));
    }
}

/// A cut is known by its ends and by which entries it keeps.
pub(crate) proof fn revealing_is_unique(a: Cut, b: Cut, n: usize, p: spec_fn(usize) -> bool)
    requires
        a.fits(n as nat),
        b.fits(n as nat),
        same_ends(a, b),
        forall|j: usize|
            j < n ==> (#[trigger] b.keeps(n as nat, j as int) <==> a.keeps(n as nat, j as int)
                || p(j)),
    ensures
        b == a.revealing(n as nat, p),
{
    if let (
        Cut::Ends { head, tail, extra },
        Cut::Ends { head: _, tail: _, extra: more },
    ) = (a, b) {
        let q = |j: usize| extra.contains(j) || p(j);
        let s = span(head as int, n - tail);
        ascending_filter(s, q);
        assert forall|x: usize|
            #![trigger more.contains(x)]
            #![trigger s.filter(q).contains(x)]
            more.contains(x) <==> s.filter(q).contains(x) by {
            if more.contains(x) {
                let i = more.index_of(x);
                assert(head <= more[i] < n - tail);
                assert(s[x - head] == x);
                assert(b.keeps(n as nat, x as int));
            }
            if s.filter(q).contains(x) {
                let i = s.index_of(x);
                assert(b.keeps(n as nat, x as int));
            }
        }
        ascending_unique(more, s.filter(q));
    }
}

/// Block `i` has the last output range to start at or before `u`, and is the
/// latest of those that start there.
pub open spec fn is_nearest(blocks: Seq<BlockView>, u: usize, i: int) -> bool {
    &&& 0 <= i < blocks.len()
    &&& blocks[i].first_out <= u
    &&& forall|j: int|
        0 <= j < blocks.len() && (#[trigger] blocks[j]).first_out <= u ==> blocks[j].first_out
            <= blocks[i].first_out
    &&& forall|j: int|
        i < j < blocks.len() ==> (#[trigger] blocks[j]).first_out != blocks[i].first_out
}

/// The drawn block node `u` is an output of.
pub open spec fn producer(blocks: Seq<BlockView>, u: usize) -> Option<int> {
    let i = choose|i: int| is_nearest(blocks, u, i);
    if is_nearest(blocks, u, i) && u < blocks[i].first_out + blocks[i].outputs.len() {
        Some(i)
    } else {
        None
    }
}

/// The drawn block node `u` is an input of, and its place among the inputs.
pub open spec fn consumer(blocks: Seq<BlockView>, u: usize) -> Option<(int, int)>
    decreases blocks.len(),
{
    if blocks.len() == 0 {
        None
    } else if blocks.last().inputs.contains(u) {
        Some((blocks.len() - 1, blocks.last().inputs.index_of(u)))
    } else {
        consumer(blocks.drop_last(), u)
    }
}

/// Kept input `ii` of block `b` is output `j` of block `q`.
pub open spec fn feeds(blocks: Seq<BlockView>, q: int, j: usize, b: int, ii: int) -> bool {
    &&& 0 <= b < blocks.len()
    &&& 0 <= ii < blocks[b].inputs.len()
    &&& blocks[b].kept_in.keeps(blocks[b].inputs.len(), ii)
    &&& producer(blocks, blocks[b].inputs[ii]) == Some(q)
    &&& blocks[b].inputs[ii] - blocks[q].first_out == j
}

/// Some drawn block shows output `j` of block `q` as an input.
pub open spec fn wanted_out(blocks: Seq<BlockView>, q: int, j: usize) -> bool {
    exists|b: int, ii: int| feeds(blocks, q, j, b, ii)
}

/// Kept output `oi` of block `q` is input `ii` of block `b`.
pub open spec fn is_fed(blocks: Seq<BlockView>, b: int, ii: usize, q: int, oi: int) -> bool {
    &&& 0 <= q < blocks.len()
    &&& 0 <= oi < blocks[q].outputs.len()
    &&& blocks[q].kept_out.keeps(blocks[q].outputs.len(), oi)
    &&& consumer(blocks, blocks[q].outputs[oi]) == Some((b, ii as int))
}

/// Some drawn block shows input `ii` of block `b` as an output.
pub open spec fn wanted_in(blocks: Seq<BlockView>, b: int, ii: usize) -> bool {
    exists|q: int, oi: int| is_fed(blocks, b, ii, q, oi)
}

/// The blocks with every output un-hidden that a drawn block shows as an
/// input.
pub open spec fn outputs_unhidden(blocks: Seq<BlockView>) -> Seq<BlockView> {
    Seq::new(
        blocks.len(),
        |q: int|
            BlockView {
                kept_out: blocks[q].kept_out.revealing(
                    blocks[q].outputs.len(),
                    |j: usize| wanted_out(blocks, q, j),
                ),
                ..blocks[q]
            },
    )
}

/// The blocks with every input un-hidden that a drawn block shows as an
/// output.
pub open spec fn inputs_unhidden(blocks: Seq<BlockView>) -> Seq<BlockView> {
    Seq::new(
        blocks.len(),
        |b: int|
            BlockView {
                kept_in: blocks[b].kept_in.revealing(
                    blocks[b].inputs.len(),
                    |ii: usize| wanted_in(blocks, b, ii),
                ),
                ..blocks[b]
            },
    )
}

/// The blocks with everything un-hidden that the page shows anyway.
pub open spec fn unhidden(blocks: Seq<BlockView>) -> Seq<BlockView> {
    inputs_unhidden(outputs_unhidden(blocks))
}

/// Block `i` is the latest whose outputs start at `key`.
pub open spec fn latest(blocks: Seq<BlockView>, key: usize, i: int) -> bool {
    &&& 0 <= i < blocks.len()
    &&& blocks[i].first_out == key
    &&& forall|j: int| i < j < blocks.len() ==> (#[trigger] blocks[j]).first_out != key
}

spec fn starts(ranges: Seq<(usize, usize)>, key: usize) -> bool {
    exists|a: int| 0 <= a < ranges.len() && #[trigger] ranges[a].0 == key
}

/// The blocks by where their outputs start: the starts in increasing order,
/// each with the latest block that starts there.
spec fn sorted_ranges(ranges: Seq<(usize, usize)>, blocks: Seq<BlockView>) -> bool {
    &&& forall|a: int, b: int| 0 <= a < b < ranges.len() ==> ranges[a].0 < ranges[b].0
    &&& forall|a: int|
        #![trigger ranges[a]]
        0 <= a < ranges.len() ==> latest(blocks, ranges[a].0, ranges[a].1 as int)
    &&& forall|j: int|
        0 <= j < blocks.len() ==> #[trigger] starts(ranges, blocks[j].first_out)
}

proof fn latest_after_push(blocks: Seq<BlockView>, b: BlockView, key: usize, i: int)
    requires
        latest(blocks, key, i),
        b.first_out != key,
    ensures
        latest(blocks.push(b), key, i),
{
    let after = blocks.push(b);
    assert forall|j: int| i < j < after.len() implies (#[trigger] after[j]).first_out != key by {
        if j < blocks.len() {
            assert(blocks[j].first_out != key);
        }
    }
}

proof fn range_replaced(
    held: Seq<(usize, usize)>,
    blocks: Seq<BlockView>,
    b: BlockView,
    at: int,
    i: usize,
)
    requires
        sorted_ranges(held, blocks),
        0 <= at < held.len(),
        held[at].0 == b.first_out,
        i == blocks.len(),
    ensures
        sorted_ranges(held.update(at, (b.first_out, i)), blocks.push(b)),
{
    let now = held.update(at, (b.first_out, i));
    let after = blocks.push(b);
    assert forall|a: int| #![trigger now[a]] 0 <= a < now.len() implies latest(
        after,
        now[a].0,
        now[a].1 as int,
    ) by {
        if a != at {
            assert(held[a].0 < held[at].0 || held[at].0 < held[a].0);
            latest_after_push(blocks, b, held[a].0, held[a].1 as int);
        }
    }
    assert forall|j: int| 0 <= j < after.len() implies #[trigger] starts(
        now,
        after[j].first_out,
    ) by {
        if j < blocks.len() {
            assert(starts(held, blocks[j].first_out));
            let a = choose|a: int| 0 <= a < held.len() && #[trigger] held[a].0
                == blocks[j].first_out;
            assert(now[a].0 == after[j].first_out);
        } else {
            assert(now[at].0 == after[j].first_out);
        }
    }
}

proof fn range_inserted(
    held: Seq<(usize, usize)>,
    blocks: Seq<BlockView>,
    b: BlockView,
    at: int,
    i: usize,
)
    requires
        sorted_ranges(held, blocks),
        0 <= at <= held.len(),
        forall|a: int| 0 <= a < at ==> (#[trigger] held[a]).0 < b.first_out,
        forall|a: int| at <= a < held.len() ==> (#[trigger] held[a]).0 > b.first_out,
        i == blocks.len(),
    ensures
        sorted_ranges(held.insert(at, (b.first_out, i)), blocks.push(b)),
{
    let now = held.insert(at, (b.first_out, i));
    let after = blocks.push(b);
    assert forall|a: int, c: int| 0 <= a < c < now.len() implies now[a].0 < now[c].0 by {
        if a != at && c != at {
            assert(held[if a < at { a } else { a - 1 }].0 < held[if c < at { c } else { c - 1 }].0);
        } else if a == at {
            assert(held[c - 1].0 > b.first_out);
        } else {
            assert(held[a].0 < b.first_out);
        }
    }
    assert forall|a: int| #![trigger now[a]] 0 <= a < now.len() implies latest(
        after,
        now[a].0,
        now[a].1 as int,
    ) by {
        if a != at {
            let a1 = if a < at { a } else { a - 1 };
            assert(now[a] == held[a1]);
            latest_after_push(blocks, b, held[a1].0, held[a1].1 as int);
        }
    }
    assert forall|j: int| 0 <= j < after.len() implies #[trigger] starts(
        now,
        after[j].first_out,
    ) by {
        if j < blocks.len() {
            assert(starts(held, blocks[j].first_out));
            let a = choose|a: int| 0 <= a < held.len() && #[trigger] held[a].0
                == blocks[j].first_out;
            assert(now[if a < at { a } else { a + 1 }].0 == after[j].first_out);
        } else {
            assert(now[at].0 == after[j].first_out);
        }
    }
}

fn ranges_of(blocks: &Vec<Block>) -> (ranges: Vec<(usize, usize)>)
    ensures
        sorted_ranges(ranges@, views(blocks@)),
{
    let mut ranges: Vec<(usize, usize)> = Vec::new();
    let ghost all = views(blocks@);
    for bi in 0..blocks.len()
        invariant
            all == views(blocks@),
            sorted_ranges(ranges@, all.take(bi as int)),
    {
        let key: usize = blocks[bi].first_out;
        let ghost held = ranges@;
        let ghost before = all.take(bi as int);
        assert(all.take(bi + 1) =~= before.push(all[bi as int]));
        let mut at: usize = ranges.len();
        while at > 0 && ranges[at - 1].0 >= key
            invariant
                ranges@ == held,
                at <= held.len(),
                forall|a: int| at <= a < held.len() ==> (#[trigger] held[a]).0 >= key,
            decreases at,
        {
            at -= 1;
        }
        if at < ranges.len() && ranges[at].0 == key {
            ranges[at] = (key, bi);
            proof {
                range_replaced(held, before, all[bi as int], at as int, bi);
            }
        } else {
            proof {
                assert forall|a: int| 0 <= a < at implies (#[trigger] held[a]).0 < key by {
                    assert(held[a].0 <= held[at - 1].0);
                }
                assert forall|a: int| at <= a < held.len() implies (#[trigger] held[a]).0
                    > key by {
                    assert(held[at as int].0 <= held[a].0);
                }
            }
            ranges.insert(at, (key, bi));
            proof {
                range_inserted(held, before, all[bi as int], at as int, bi);
            }
        }
    }
    assert(all.take(blocks@.len() as int) =~= all);
    ranges
}

/// The drawn block node `u` is an output of, by the sorted starts.
fn producer_of(ranges: &Vec<(usize, usize)>, blocks: &Vec<Block>, u: usize) -> (q: Option<usize>)
    requires
        sorted_ranges(ranges@, views(blocks@)),
    ensures
        match q {
            Some(i) => producer(views(blocks@), u) == Some(i as int) && i < blocks@.len()
                && blocks@[i as int].first_out <= u && u - blocks@[i as int].first_out
                < blocks@[i as int].outputs@.len(),
            None => producer(views(blocks@), u) is None,
        },
{
    let ghost all = views(blocks@);
    let mut lo: usize = 0;
    let mut hi: usize = ranges.len();
    while lo < hi
        invariant
            lo <= hi <= ranges@.len(),
            sorted_ranges(ranges@, all),
            forall|a: int| 0 <= a < lo ==> (#[trigger] ranges@[a]).0 <= u,
            forall|a: int| hi <= a < ranges@.len() ==> (#[trigger] ranges@[a]).0 > u,
        decreases hi - lo,
    {
        let mid: usize = lo + (hi - lo) / 2;
        if ranges[mid].0 <= u {
            proof {
                assert forall|a: int| 0 <= a <= mid implies (#[trigger] ranges@[a]).0 <= u by {
                    assert(ranges@[a].0 <= ranges@[mid as int].0);
                }
            }
            lo = mid + 1;
        } else {
            proof {
                assert forall|a: int| mid <= a < ranges@.len() implies (#[trigger] ranges@[a]).0
                    > u by {
                    assert(ranges@[mid as int].0 <= ranges@[a].0);
                }
            }
            hi = mid;
        }
    }
    if lo == 0 {
        proof {
            assert forall|i: int| !is_nearest(all, u, i) by {
                if is_nearest(all, u, i) {
                    assert(starts(ranges@, all[i].first_out));
                }
            }
        }
        return None;
    }
    let qi: usize = ranges[lo - 1].1;
    proof {
        let key = ranges@[lo - 1].0;
        assert(latest(all, key, qi as int));
        assert forall|j: int| 0 <= j < all.len() && (#[trigger] all[j]).first_out
            <= u implies all[j].first_out <= key by {
            assert(starts(ranges@, all[j].first_out));
            let a = choose|a: int| 0 <= a < ranges@.len() && #[trigger] ranges@[a].0
                == all[j].first_out;
            if a > lo - 1 {
                assert(ranges@[a].0 > u);
            } else {
                assert(ranges@[a].0 <= ranges@[lo - 1].0);
            }
        }
        assert(is_nearest(all, u, qi as int));
        nearest_is_unique(all, u, qi as int, choose|i: int| is_nearest(all, u, i));
    }
    if u - blocks[qi].first_out < blocks[qi].outputs.len() {
        Some(qi)
    } else {
        None
    }
}

proof fn nearest_is_unique(blocks: Seq<BlockView>, u: usize, i: int, j: int)
    requires
        is_nearest(blocks, u, i),
        is_nearest(blocks, u, j),
    ensures
        i == j,
{
    assert(blocks[i].first_out == blocks[j].first_out);
}

/// Every block of the drawing is a block.
pub open spec fn all_blocks(blocks: Seq<BlockView>) -> bool {
    forall|i: int| 0 <= i < blocks.len() ==> (#[trigger] blocks[i]).is_block()
}

/// The outputs that drawn blocks show as inputs: the producing block and the
/// place among its outputs.
fn outputs_wanted(blocks: &Vec<Block>) -> (wants: Vec<(usize, usize)>)
    requires
        all_blocks(views(blocks@)),
    ensures
        forall|e: int|
            #![trigger wants@[e]]
            0 <= e < wants@.len() ==> wants@[e].0 < blocks@.len() && wants@[e].1
                < blocks@[wants@[e].0 as int].outputs@.len() && wanted_out(
                views(blocks@),
                wants@[e].0 as int,
                wants@[e].1,
            ),
        forall|q: usize, j: usize|
            wanted_out(views(blocks@), q as int, j) ==> #[trigger] wants@.contains((q, j)),
{
    let ranges = ranges_of(blocks);
    let ghost all = views(blocks@);
    let mut wants: Vec<(usize, usize)> = Vec::new();
    for bi in 0..blocks.len()
        invariant
            all == views(blocks@),
            all_blocks(all),
            sorted_ranges(ranges@, all),
            forall|e: int|
                #![trigger wants@[e]]
                0 <= e < wants@.len() ==> wants@[e].0 < blocks@.len() && wants@[e].1
                    < blocks@[wants@[e].0 as int].outputs@.len() && wanted_out(
                    all,
                    wants@[e].0 as int,
                    wants@[e].1,
                ),
            forall|q: usize, j: usize, b: int, ii: int|
                b < bi && #[trigger] feeds(all, q as int, j, b, ii) ==> wants@.contains((q, j)),
    {
        assert(all[bi as int].is_block());
        let n: usize = blocks[bi].inputs.len();
        let kept = blocks[bi].kept_in.indices(n);
        proof {
            shown_is_exact(all[bi as int].kept_in, n);
        }
        for k in 0..kept.len()
            invariant
                all == views(blocks@),
                bi < blocks@.len(),
                n == blocks@[bi as int].inputs@.len(),
                sorted_ranges(ranges@, all),
                kept@ == all[bi as int].kept_in.shown(n as nat),
                forall|i: int| 0 <= i < kept@.len() ==> #[trigger] kept@[i] < n,
                forall|i: usize|
                    i < n ==> (#[trigger] kept@.contains(i) <==> all[bi as int].kept_in.keeps(
                        n as nat,
                        i as int,
                    )),
                forall|e: int|
                    #![trigger wants@[e]]
                    0 <= e < wants@.len() ==> wants@[e].0 < blocks@.len() && wants@[e].1
                        < blocks@[wants@[e].0 as int].outputs@.len() && wanted_out(
                        all,
                        wants@[e].0 as int,
                        wants@[e].1,
                    ),
                forall|q: usize, j: usize, b: int, ii: int|
                    b < bi && #[trigger] feeds(all, q as int, j, b, ii) ==> wants@.contains((q, j)),
                forall|q: usize, j: usize, i: int|
                    0 <= i < k && #[trigger] feeds(all, q as int, j, bi as int, kept@[i] as int)
                        ==> wants@.contains((q, j)),
        {
            let ii: usize = kept[k];
            let u: usize = blocks[bi].inputs[ii];
            let ghost held = wants@;
            assert(kept@.contains(ii));
            match producer_of(&ranges, blocks, u) {
                Some(qi) => {
                    let oi: usize = u - blocks[qi].first_out;
                    wants.push((qi, oi));
                    proof {
                        assert(feeds(all, qi as int, oi, bi as int, ii as int));
                        assert(wants@[held.len() as int] == (qi, oi));
                        assert forall|x: (usize, usize)| held.contains(x) implies
                            #[trigger] wants@.contains(x) by {
                            let e = held.index_of(x);
                            assert(wants@[e] == x);
                        }
                        assert(wants@.contains((qi, oi)));
                    }
                },
                None => {},
            }
        }
        proof {
            assert forall|q: usize, j: usize, b: int, ii: int|
                b < bi + 1 && #[trigger] feeds(all, q as int, j, b, ii) implies wants@.contains(
                (q, j),
            ) by {
                if b == bi {
                    assert(kept@.contains(ii as usize));
                    let i = kept@.index_of(ii as usize);
                    assert(feeds(all, q as int, j, bi as int, kept@[i] as int));
                }
            }
        }
    }
    proof {
        assert forall|q: usize, j: usize| wanted_out(all, q as int, j) implies
            #[trigger] wants@.contains((q, j)) by {
            let (b, ii) = choose|b: int, ii: int| feeds(all, q as int, j, b, ii);
            assert(feeds(all, q as int, j, b, ii));
        }
    }
    wants
}

/// The blocks with the wanted outputs kept.
fn keep_outputs(blocks: &mut Vec<Block>, wants: &Vec<(usize, usize)>)
    requires
        all_blocks(views(old(blocks)@)),
        forall|e: int|
            #![trigger wants@[e]]
            0 <= e < wants@.len() ==> wants@[e].0 < old(blocks)@.len() && wants@[e].1
                < old(blocks)@[wants@[e].0 as int].outputs@.len() && wanted_out(
                views(old(blocks)@),
                wants@[e].0 as int,
                wants@[e].1,
            ),
        forall|q: usize, j: usize|
            wanted_out(views(old(blocks)@), q as int, j) ==> #[trigger] wants@.contains((q, j)),
    ensures
        views(final(blocks)@) == outputs_unhidden(views(old(blocks)@)),
        all_blocks(views(final(blocks)@)),
{
    let ghost all = views(blocks@);
    let count: usize = blocks.len();
    for e in 0..wants.len()
        invariant
            all_blocks(all),
            blocks@.len() == all.len() == count,
            forall|e: int|
                #![trigger wants@[e]]
                0 <= e < wants@.len() ==> wants@[e].0 < all.len() && wants@[e].1
                    < all[wants@[e].0 as int].outputs.len(),
            forall|q: int|
                #![trigger blocks@[q]]
                0 <= q < all.len() ==> {
                    let n = all[q].outputs.len();
                    &&& blocks@[q]@ == (BlockView { kept_out: blocks@[q].kept_out@, ..all[q] })
                    &&& blocks@[q].kept_out@.fits(n)
                    &&& same_ends(all[q].kept_out, blocks@[q].kept_out@)
                    &&& forall|j: usize|
                        j < n ==> (#[trigger] blocks@[q].kept_out@.keeps(n, j as int)
                            <==> all[q].kept_out.keeps(n, j as int) || wants@.take(
                            e as int,
                        ).contains((q as usize, j)))
                },
    {
        let (qi, oi) = wants[e];
        let ghost held = blocks@;
        let n: usize = blocks[qi].outputs.len();
        assert(held[qi as int]@ == (BlockView { kept_out: held[qi as int].kept_out@, ..all[qi as int] }));
        blocks[qi].kept_out.keep(n, oi);
        proof {
            let ghost one = wants@.take(e as int);
            let ghost two = wants@.take(e + 1);
            assert forall|x: (usize, usize)| #[trigger] two.contains(x) <==> one.contains(x) || x
                == (qi, oi) by {
                if one.contains(x) {
                    let i = one.index_of(x);
                    assert(two[i] == x);
                }
                if x == (qi, oi) {
                    assert(two[e as int] == x);
                }
                if two.contains(x) {
                    let i = two.index_of(x);
                    if i < e {
                        assert(one[i] == x);
                    }
                }
            }
            keeping_is_exact(held[qi as int].kept_out@, n, oi);
            assert forall|q: int| #![trigger blocks@[q]] 0 <= q < all.len() implies {
                let n = all[q].outputs.len();
                &&& blocks@[q]@ == (BlockView { kept_out: blocks@[q].kept_out@, ..all[q] })
                &&& blocks@[q].kept_out@.fits(n)
                &&& same_ends(all[q].kept_out, blocks@[q].kept_out@)
                &&& forall|j: usize|
                    j < n ==> (#[trigger] blocks@[q].kept_out@.keeps(n, j as int)
                        <==> all[q].kept_out.keeps(n, j as int) || two.contains((q as usize, j)))
            } by {
                assert(held[q].kept_out@.fits(all[q].outputs.len()));
                if q != qi {
                    assert(blocks@[q] == held[q]);
                    assert forall|j: usize| j < all[q].outputs.len() implies (
                    #[trigger] blocks@[q].kept_out@.keeps(all[q].outputs.len(), j as int)
                        <==> all[q].kept_out.keeps(all[q].outputs.len(), j as int) || two.contains(
                        (q as usize, j),
                    )) by {
                        assert(held[q].kept_out@.keeps(all[q].outputs.len(), j as int)
                            <==> all[q].kept_out.keeps(all[q].outputs.len(), j as int)
                            || one.contains((q as usize, j)));
                    }
                } else {
                    assert forall|j: usize| j < all[q].outputs.len() implies (
                    #[trigger] blocks@[q].kept_out@.keeps(all[q].outputs.len(), j as int)
                        <==> all[q].kept_out.keeps(all[q].outputs.len(), j as int) || two.contains(
                        (q as usize, j),
                    )) by {
                        assert(held[q].kept_out@.keeps(all[q].outputs.len(), j as int)
                            <==> all[q].kept_out.keeps(all[q].outputs.len(), j as int)
                            || one.contains((q as usize, j)));
                    }
                }
            }
        }
    }
    proof {
        assert(wants@.take(wants@.len() as int) =~= wants@);
        let target = outputs_unhidden(all);
        assert forall|q: int| 0 <= q < all.len() implies views(blocks@)[q] == target[q] by {
            let p = |j: usize| wanted_out(all, q, j);
            assert(all[q].is_block());
            assert(blocks@[q].kept_out@.fits(all[q].outputs.len()));
            assert forall|j: usize| j < all[q].outputs.len() implies (
            #[trigger] blocks@[q].kept_out@.keeps(all[q].outputs.len(), j as int)
                <==> all[q].kept_out.keeps(all[q].outputs.len(), j as int) || p(j)) by {
                let x = (q as usize, j);
                if wants@.contains(x) {
                    let e = wants@.index_of(x);
                    assert(wants@[e].0 < all.len());
                }
            }
            revealing_is_unique(
                all[q].kept_out,
                blocks@[q].kept_out@,
                all[q].outputs.len() as usize,
                p,
            );
        }
        assert(views(blocks@) =~= target);
        assert forall|i: int| 0 <= i < target.len() implies (#[trigger] target[i]).is_block() by {
            assert(all[i].is_block());
            assert(blocks@[i].kept_out@.fits(all[i].outputs.len()));
        }
    }
}

/// The map from inputs to blocks says of `u` what the blocks say.
spec fn eats(map: Map<usize, (usize, usize)>, blocks: Seq<BlockView>, u: usize) -> bool {
    match consumer(blocks, u) {
        Some((b, ii)) => map.contains_key(u) && map[u].0 == b && map[u].1 == ii,
        None => !map.contains_key(u),
    }
}

/// The map is `held` with the first `k` of `inputs` set to their places in
/// block `bi`, as far as `u` is concerned.
spec fn grown(
    map: Map<usize, (usize, usize)>,
    held: Map<usize, (usize, usize)>,
    inputs: Seq<usize>,
    k: int,
    bi: usize,
    u: usize,
) -> bool {
    if inputs.contains(u) && inputs.index_of(u) < k {
        map.contains_key(u) && map[u].0 == bi && map[u].1 == inputs.index_of(u)
    } else {
        map.contains_key(u) == held.contains_key(u) && (held.contains_key(u) ==> map[u] == held[u])
    }
}

/// Every input of every drawn block, to its block and its place.
fn consumers_of(blocks: &Vec<Block>) -> (map: HashMap<usize, (usize, usize)>)
    requires
        all_blocks(views(blocks@)),
    ensures
        forall|u: usize| #[trigger] eats(map@, views(blocks@), u),
{
    let ghost all = views(blocks@);
    let mut map: HashMap<usize, (usize, usize)> = HashMap::new();
    let mut bi: usize = 0;
    while bi < blocks.len()
        invariant
            bi <= blocks@.len(),
            all == views(blocks@),
            all_blocks(all),
            forall|u: usize| #[trigger] eats(map@, all.take(bi as int), u),
        decreases blocks@.len() - bi,
    {
        let ghost before = all.take(bi as int);
        let ghost held = map@;
        let ghost inputs = all[bi as int].inputs;
        assert(all[bi as int].is_block());
        let n: usize = blocks[bi].inputs.len();
        proof {
            assert forall|u: usize| #[trigger] grown(map@, held, inputs, 0, bi, u) by {
                if inputs.contains(u) {
                    let k = inputs.index_of(u);
                    assert(inputs[k] == u);
                }
            }
        }
        let mut ii: usize = 0;
        while ii < n
            invariant
                ii <= n,
                all == views(blocks@),
                bi < blocks@.len(),
                inputs == blocks@[bi as int].inputs@,
                n == inputs.len(),
                ascending(inputs),
                forall|u: usize| #[trigger] grown(map@, held, inputs, ii as int, bi, u),
            decreases n - ii,
        {
            let u: usize = blocks[bi].inputs[ii];
            let ghost now = map@;
            map.insert(u, (bi, ii));
            proof {
                assert forall|x: usize| #[trigger] grown(
                    map@,
                    held,
                    inputs,
                    ii + 1,
                    bi,
                    x,
                ) by {
                    assert(grown(now, held, inputs, ii as int, bi, x));
                    assert(inputs[ii as int] == u);
                    let k = inputs.index_of(x);
                    if inputs.contains(x) {
                        assert(inputs[k] == x);
                    }
                }
            }
            ii += 1;
        }
        proof {
            let after = all.take(bi + 1);
            assert(after.drop_last() =~= before);
            assert(after.last() == all[bi as int]);
            assert forall|u: usize| #[trigger] eats(map@, after, u) by {
                assert(eats(held, before, u));
                assert(grown(map@, held, inputs, n as int, bi, u));
                if inputs.contains(u) {
                    let k = inputs.index_of(u);
                    assert(inputs[k] == u);
                }
            }
        }
        bi += 1;
    }
    assert(all.take(blocks@.len() as int) =~= all);
    map
}

proof fn consumer_is_in(blocks: Seq<BlockView>, u: usize)
    ensures
        consumer(blocks, u) matches Some((b, ii)) ==> 0 <= b < blocks.len() && 0 <= ii
            < blocks[b].inputs.len() && blocks[b].inputs[ii] == u,
    decreases blocks.len(),
{
    if blocks.len() > 0 && !blocks.last().inputs.contains(u) {
        consumer_is_in(blocks.drop_last(), u);
    }
}

/// The inputs that drawn blocks show as outputs: the consuming block and the
/// place among its inputs.
fn inputs_wanted(blocks: &Vec<Block>) -> (wants: Vec<(usize, usize)>)
    requires
        all_blocks(views(blocks@)),
    ensures
        forall|e: int|
            #![trigger wants@[e]]
            0 <= e < wants@.len() ==> wants@[e].0 < blocks@.len() && wants@[e].1
                < blocks@[wants@[e].0 as int].inputs@.len() && wanted_in(
                views(blocks@),
                wants@[e].0 as int,
                wants@[e].1,
            ),
        forall|q: usize, j: usize|
            wanted_in(views(blocks@), q as int, j) ==> #[trigger] wants@.contains((q, j)),
{
    let map = consumers_of(blocks);
    let ghost all = views(blocks@);
    let mut wants: Vec<(usize, usize)> = Vec::new();
    for qi in 0..blocks.len()
        invariant
            all == views(blocks@),
            all_blocks(all),
            forall|u: usize| #[trigger] eats(map@, all, u),
            forall|e: int|
                #![trigger wants@[e]]
                0 <= e < wants@.len() ==> wants@[e].0 < blocks@.len() && wants@[e].1
                    < blocks@[wants@[e].0 as int].inputs@.len() && wanted_in(
                    all,
                    wants@[e].0 as int,
                    wants@[e].1,
                ),
            forall|b: usize, ii: usize, q: int, oi: int|
                q < qi && #[trigger] is_fed(all, b as int, ii, q, oi) ==> wants@.contains((b, ii)),
    {
        assert(all[qi as int].is_block());
        let n: usize = blocks[qi].outputs.len();
        let kept = blocks[qi].kept_out.indices(n);
        proof {
            shown_is_exact(all[qi as int].kept_out, n);
        }
        for k in 0..kept.len()
            invariant
                all == views(blocks@),
                qi < blocks@.len(),
                n == blocks@[qi as int].outputs@.len(),
                forall|u: usize| #[trigger] eats(map@, all, u),
                kept@ == all[qi as int].kept_out.shown(n as nat),
                forall|i: int| 0 <= i < kept@.len() ==> #[trigger] kept@[i] < n,
                forall|i: usize|
                    i < n ==> (#[trigger] kept@.contains(i) <==> all[qi as int].kept_out.keeps(
                        n as nat,
                        i as int,
                    )),
                forall|e: int|
                    #![trigger wants@[e]]
                    0 <= e < wants@.len() ==> wants@[e].0 < blocks@.len() && wants@[e].1
                        < blocks@[wants@[e].0 as int].inputs@.len() && wanted_in(
                        all,
                        wants@[e].0 as int,
                        wants@[e].1,
                    ),
                forall|b: usize, ii: usize, q: int, oi: int|
                    q < qi && #[trigger] is_fed(all, b as int, ii, q, oi) ==> wants@.contains(
                        (b, ii),
                    ),
                forall|b: usize, ii: usize, i: int|
                    0 <= i < k && #[trigger] is_fed(all, b as int, ii, qi as int, kept@[i] as int)
                        ==> wants@.contains((b, ii)),
        {
            let oi: usize = kept[k];
            let u: usize = blocks[qi].outputs[oi];
            let ghost held = wants@;
            assert(kept@.contains(oi));
            assert(eats(map@, all, u));
            match map.get(&u) {
                Some(pair) => {
                    let at: (usize, usize) = *pair;
                    wants.push(at);
                    proof {
                        consumer_is_in(all, u);
                        assert(is_fed(all, at.0 as int, at.1, qi as int, oi as int));
                        assert(wants@[held.len() as int] == at);
                        assert forall|x: (usize, usize)| held.contains(x) implies
                            #[trigger] wants@.contains(x) by {
                            let e = held.index_of(x);
                            assert(wants@[e] == x);
                        }
                        assert(wants@.contains(at));
                    }
                },
                None => {},
            }
        }
        proof {
            assert forall|b: usize, ii: usize, q: int, oi: int|
                q < qi + 1 && #[trigger] is_fed(all, b as int, ii, q, oi) implies wants@.contains(
                (b, ii),
            ) by {
                if q == qi {
                    assert(kept@.contains(oi as usize));
                    let i = kept@.index_of(oi as usize);
                    assert(is_fed(all, b as int, ii, qi as int, kept@[i] as int));
                }
            }
        }
    }
    proof {
        assert forall|b: usize, ii: usize| wanted_in(all, b as int, ii) implies
            #[trigger] wants@.contains((b, ii)) by {
            let (q, oi) = choose|q: int, oi: int| is_fed(all, b as int, ii, q, oi);
            assert(is_fed(all, b as int, ii, q, oi));
        }
    }
    wants
}

/// The blocks with the wanted inputs kept.
fn keep_inputs(blocks: &mut Vec<Block>, wants: &Vec<(usize, usize)>)
    requires
        all_blocks(views(old(blocks)@)),
        forall|e: int|
            #![trigger wants@[e]]
            0 <= e < wants@.len() ==> wants@[e].0 < old(blocks)@.len() && wants@[e].1
                < old(blocks)@[wants@[e].0 as int].inputs@.len() && wanted_in(
                views(old(blocks)@),
                wants@[e].0 as int,
                wants@[e].1,
            ),
        forall|q: usize, j: usize|
            wanted_in(views(old(blocks)@), q as int, j) ==> #[trigger] wants@.contains((q, j)),
    ensures
        views(final(blocks)@) == inputs_unhidden(views(old(blocks)@)),
        all_blocks(views(final(blocks)@)),
{
    let ghost all = views(blocks@);
    let count: usize = blocks.len();
    for e in 0..wants.len()
        invariant
            all_blocks(all),
            blocks@.len() == all.len() == count,
            forall|e: int|
                #![trigger wants@[e]]
                0 <= e < wants@.len() ==> wants@[e].0 < all.len() && wants@[e].1
                    < all[wants@[e].0 as int].inputs.len(),
            forall|q: int|
                #![trigger blocks@[q]]
                0 <= q < all.len() ==> {
                    let n = all[q].inputs.len();
                    &&& blocks@[q]@ == (BlockView { kept_in: blocks@[q].kept_in@, ..all[q] })
                    &&& blocks@[q].kept_in@.fits(n)
                    &&& same_ends(all[q].kept_in, blocks@[q].kept_in@)
                    &&& forall|j: usize|
                        j < n ==> (#[trigger] blocks@[q].kept_in@.keeps(n, j as int)
                            <==> all[q].kept_in.keeps(n, j as int) || wants@.take(
                            e as int,
                        ).contains((q as usize, j)))
                },
    {
        let (qi, oi) = wants[e];
        let ghost held = blocks@;
        let n: usize = blocks[qi].inputs.len();
        assert(held[qi as int]@ == (BlockView { kept_in: held[qi as int].kept_in@, ..all[qi as int] }));
        blocks[qi].kept_in.keep(n, oi);
        proof {
            let ghost one = wants@.take(e as int);
            let ghost two = wants@.take(e + 1);
            assert forall|x: (usize, usize)| #[trigger] two.contains(x) <==> one.contains(x) || x
                == (qi, oi) by {
                if one.contains(x) {
                    let i = one.index_of(x);
                    assert(two[i] == x);
                }
                if x == (qi, oi) {
                    assert(two[e as int] == x);
                }
                if two.contains(x) {
                    let i = two.index_of(x);
                    if i < e {
                        assert(one[i] == x);
                    }
                }
            }
            keeping_is_exact(held[qi as int].kept_in@, n, oi);
            assert forall|q: int| #![trigger blocks@[q]] 0 <= q < all.len() implies {
                let n = all[q].inputs.len();
                &&& blocks@[q]@ == (BlockView { kept_in: blocks@[q].kept_in@, ..all[q] })
                &&& blocks@[q].kept_in@.fits(n)
                &&& same_ends(all[q].kept_in, blocks@[q].kept_in@)
                &&& forall|j: usize|
                    j < n ==> (#[trigger] blocks@[q].kept_in@.keeps(n, j as int)
                        <==> all[q].kept_in.keeps(n, j as int) || two.contains((q as usize, j)))
            } by {
                assert(held[q].kept_in@.fits(all[q].inputs.len()));
                if q != qi {
                    assert(blocks@[q] == held[q]);
                    assert forall|j: usize| j < all[q].inputs.len() implies (
                    #[trigger] blocks@[q].kept_in@.keeps(all[q].inputs.len(), j as int)
                        <==> all[q].kept_in.keeps(all[q].inputs.len(), j as int) || two.contains(
                        (q as usize, j),
                    )) by {
                        assert(held[q].kept_in@.keeps(all[q].inputs.len(), j as int)
                            <==> all[q].kept_in.keeps(all[q].inputs.len(), j as int)
                            || one.contains((q as usize, j)));
                    }
                } else {
                    assert forall|j: usize| j < all[q].inputs.len() implies (
                    #[trigger] blocks@[q].kept_in@.keeps(all[q].inputs.len(), j as int)
                        <==> all[q].kept_in.keeps(all[q].inputs.len(), j as int) || two.contains(
                        (q as usize, j),
                    )) by {
                        assert(held[q].kept_in@.keeps(all[q].inputs.len(), j as int)
                            <==> all[q].kept_in.keeps(all[q].inputs.len(), j as int)
                            || one.contains((q as usize, j)));
                    }
                }
            }
        }
    }
    proof {
        assert(wants@.take(wants@.len() as int) =~= wants@);
        let target = inputs_unhidden(all);
        assert forall|q: int| 0 <= q < all.len() implies views(blocks@)[q] == target[q] by {
            let p = |j: usize| wanted_in(all, q, j);
            assert(all[q].is_block());
            assert(blocks@[q].kept_in@.fits(all[q].inputs.len()));
            assert(blocks@[q].inputs.len() == all[q].inputs.len());
            assert forall|j: usize| j < all[q].inputs.len() implies (
            #[trigger] blocks@[q].kept_in@.keeps(all[q].inputs.len(), j as int)
                <==> all[q].kept_in.keeps(all[q].inputs.len(), j as int) || p(j)) by {
                let x = (q as usize, j);
                if wants@.contains(x) {
                    let e = wants@.index_of(x);
                    assert(wants@[e].0 < all.len());
                }
            }
            revealing_is_unique(
                all[q].kept_in,
                blocks@[q].kept_in@,
                all[q].inputs.len() as usize,
                p,
            );
        }
        assert(views(blocks@) =~= target);
        assert forall|i: int| 0 <= i < target.len() implies (#[trigger] target[i]).is_block() by {
            assert(all[i].is_block());
            assert(blocks@[i].kept_in@.fits(all[i].inputs.len()));
        }
    }
}

/// Un-hides what the page shows anyway: a hidden output that a drawn block
/// consumes through a kept input, and a hidden input that a drawn block
/// produced as a kept output.
pub fn unhide(blocks: &mut Vec<Block>)
    requires
        all_blocks(views(old(blocks)@)),
    ensures
        views(final(blocks)@) == unhidden(views(old(blocks)@)),
        all_blocks(views(final(blocks)@)),
{
    let outs = outputs_wanted(blocks);
    keep_outputs(blocks, &outs);
    let ins = inputs_wanted(blocks);
    keep_inputs(blocks, &ins);
}

/// How many blocks block `i` hangs under, one above another, as far as `fuel`
/// steps up tell.
pub open spec fn climb(blocks: Seq<BlockView>, i: int, fuel: nat) -> Option<nat>
    decreases fuel,
{
    match blocks[i].parent {
        None => Some(0),
        Some((p, _)) => if fuel == 0 {
            None
        } else {
            match climb(blocks, p as int, (fuel - 1) as nat) {
                Some(l) => Some(l + 1),
                None => None,
            }
        },
    }
}

/// Block `i` hangs under a seed, at whatever remove.
pub open spec fn rooted(blocks: Seq<BlockView>, i: int) -> bool {
    exists|fuel: nat| climb(blocks, i, fuel) is Some
}

/// The level of block `i` by its parents: how many blocks it hangs under. A
/// block that hangs under no seed keeps the level it has.
pub open spec fn level_by_parents(blocks: Seq<BlockView>, i: int) -> nat {
    if rooted(blocks, i) {
        climb(blocks, i, choose|fuel: nat| climb(blocks, i, fuel) is Some)->0
    } else {
        blocks[i].level
    }
}

/// The blocks with their levels taken from their parents.
pub open spec fn releveled(blocks: Seq<BlockView>) -> Seq<BlockView> {
    Seq::new(
        blocks.len(),
        |i: int| BlockView { level: level_by_parents(blocks, i), ..blocks[i] },
    )
}

/// Every parent is one of the blocks.
pub open spec fn parents_within(blocks: Seq<BlockView>) -> bool {
    forall|i: int|
        0 <= i < blocks.len() ==> ((#[trigger] blocks[i]).parent matches Some((p, _)) ==> p
            < blocks.len())
}

pub(crate) proof fn climb_agrees(blocks: Seq<BlockView>, i: int, f: nat, g: nat)
    requires
        climb(blocks, i, f) is Some,
        climb(blocks, i, g) is Some,
    ensures
        climb(blocks, i, f) == climb(blocks, i, g),
    decreases f,
{
    if let Some((p, _)) = blocks[i].parent {
        climb_agrees(blocks, p as int, (f - 1) as nat, (g - 1) as nat);
    }
}

/// A seed is at level 0, and a block that hangs under a seed is one level below
/// the block it hangs under.
pub proof fn a_level_counts_the_blocks_above(blocks: Seq<BlockView>, i: int)
    requires
        rooted(blocks, i),
    ensures
        match blocks[i].parent {
            None => level_by_parents(blocks, i) == 0,
            Some((p, _)) => rooted(blocks, p as int) && level_by_parents(blocks, i)
                == level_by_parents(blocks, p as int) + 1,
        },
{
    let f = choose|fuel: nat| climb(blocks, i, fuel) is Some;
    if let Some((p, _)) = blocks[i].parent {
        let g = (f - 1) as nat;
        assert(climb(blocks, p as int, g) is Some);
        climb_agrees(blocks, p as int, g, choose|fuel: nat| climb(blocks, p as int, fuel) is Some);
    }
}

pub open spec fn hangs(blocks: Seq<BlockView>, c: int, p: int) -> bool {
    &&& 0 <= c < blocks.len()
    &&& blocks[c].parent matches Some((q, _)) && q == p
}

/// The blocks that hang under each block, in order.
pub fn children_of(blocks: &Vec<Block>) -> (kids: Vec<Vec<usize>>)
    requires
        parents_within(views(blocks@)),
    ensures
        kids@.len() == blocks@.len(),
        forall|p: int|
            #![trigger kids@[p]]
            0 <= p < kids@.len() ==> ascending(kids@[p]@) && forall|c: usize|
                #[trigger] kids@[p]@.contains(c) <==> hangs(views(blocks@), c as int, p),
{
    let ghost all = views(blocks@);
    let mut kids: Vec<Vec<usize>> = Vec::new();
    for i in 0..blocks.len()
        invariant
            kids@.len() == i,
            forall|p: int| 0 <= p < i ==> (#[trigger] kids@[p])@ == Seq::<usize>::empty(),
    {
        kids.push(Vec::new());
    }
    let mut bi: usize = 0;
    while bi < blocks.len()
        invariant
            bi <= blocks@.len(),
            all == views(blocks@),
            parents_within(all),
            kids@.len() == blocks@.len(),
            forall|p: int|
                #![trigger kids@[p]]
                0 <= p < kids@.len() ==> ascending(kids@[p]@) && forall|c: usize|
                    #[trigger] kids@[p]@.contains(c) <==> c < bi && hangs(all, c as int, p),
        decreases blocks@.len() - bi,
    {
        assert(all[bi as int] == blocks@[bi as int]@);
        if let Some((p, _)) = blocks[bi].parent {
            let ghost held = kids@;
            let at: usize = p as usize;
            kids[at].push(bi);
            proof {
                let old_row = held[at as int]@;
                let row = kids@[at as int]@;
                assert(row == old_row.push(bi));
                assert forall|c: usize| #[trigger] row.contains(c) <==> old_row.contains(c) || c
                    == bi by {
                    if old_row.contains(c) {
                        let k = old_row.index_of(c);
                        assert(row[k] == c);
                    }
                    if c == bi {
                        assert(row[old_row.len() as int] == c);
                    }
                }
                assert forall|a: int, b: int| 0 <= a < b < row.len() implies row[a] < row[b] by {
                    if b == old_row.len() {
                        assert(old_row.contains(old_row[a]));
                    }
                }
                assert forall|q: int|
                    #![trigger kids@[q]]
                    0 <= q < kids@.len() implies ascending(kids@[q]@) && forall|c: usize|
                    #[trigger] kids@[q]@.contains(c) <==> c < bi + 1 && hangs(all, c as int, q) by {
                    assert(ascending(held[q]@));
                    if q != at {
                        assert(kids@[q] == held[q]);
                    }
                }
            }
        }
        bi += 1;
    }
    kids
}

/// Levels from the parents, once adoption has settled who hangs under whom.
pub fn relevel(blocks: &mut Vec<Block>)
    requires
        parents_within(views(old(blocks)@)),
    ensures
        views(final(blocks)@) == releveled(views(old(blocks)@)),
{
    let ghost all = views(blocks@);
    let n: usize = blocks.len();
    let kids = children_of(blocks);
    let mut queue: Vec<usize> = Vec::new();
    let mut bi: usize = 0;
    while bi < n
        invariant
            bi <= n,
            n == blocks@.len() == all.len(),
            forall|v: int|
                #![trigger blocks@[v]]
                0 <= v < n ==> blocks@[v]@ == (BlockView {
                    level: if v < bi && all[v].parent is None { 0 } else { all[v].level },
                    ..all[v]
                }),
            forall|x: int|
                #![trigger queue@[x]]
                0 <= x < queue@.len() ==> queue@[x] < bi && all[queue@[x] as int].parent is None,
            ascending(queue@),
            forall|v: usize|
                v < bi && all[v as int].parent is None ==> #[trigger] queue@.contains(v),
        decreases n - bi,
    {
        assert(blocks@[bi as int].parent == all[bi as int].parent);
        if blocks[bi].parent.is_none() {
            let ghost held = queue@;
            queue.push(bi);
            blocks[bi].level = 0;
            proof {
                assert forall|v: usize| v < bi + 1 && all[v as int].parent is None implies
                    #[trigger] queue@.contains(v) by {
                    if v < bi {
                        assert(held.contains(v));
                        let k = held.index_of(v);
                        assert(queue@[k] == v);
                    } else {
                        assert(queue@[held.len() as int] == v);
                    }
                }
            }
        }
        bi += 1;
    }
    let mut head: usize = 0;
    proof {
        assert forall|x: int| #![trigger queue@[x]] 0 <= x < queue@.len() implies climb(
            all,
            queue@[x] as int,
            blocks@[queue@[x] as int].level as nat,
        ) == Some(blocks@[queue@[x] as int].level as nat) by {
            assert(blocks@[queue@[x] as int]@.level == 0);
        }
        assert forall|v: int| #![trigger blocks@[v]] 0 <= v < n && !queue@.contains(
            v as usize,
        ) implies blocks@[v].level == all[v].level by {
            assert(blocks@[v]@.level == all[v].level);
        }
    }
    while head < queue.len()
        invariant
            head <= queue@.len(),
            n == blocks@.len() == all.len(),
            parents_within(all),
            kids@.len() == n,
            forall|p: int|
                #![trigger kids@[p]]
                0 <= p < n ==> ascending(kids@[p]@) && forall|c: usize|
                    #[trigger] kids@[p]@.contains(c) <==> hangs(all, c as int, p),
            forall|v: int|
                #![trigger blocks@[v]]
                0 <= v < n ==> blocks@[v]@ == (BlockView {
                    level: blocks@[v].level as nat,
                    ..all[v]
                }) && (!queue@.contains(v as usize) ==> blocks@[v].level == all[v].level),
            queue@.no_duplicates(),
            forall|x: int|
                #![trigger queue@[x]]
                0 <= x < queue@.len() ==> queue@[x] < n && blocks@[queue@[x] as int].level <= x
                    && climb(all, queue@[x] as int, blocks@[queue@[x] as int].level as nat) == Some(
                    blocks@[queue@[x] as int].level as nat,
                ) && (all[queue@[x] as int].parent matches Some((p, _)) ==> queue@.take(
                    head as int,
                ).contains(p as usize)),
            forall|x: int, c: usize|
                0 <= x < head && #[trigger] hangs(all, c as int, queue@[x] as int)
                    ==> queue@.contains(c),
            forall|v: usize|
                v < n && all[v as int].parent is None ==> #[trigger] queue@.contains(v),
        decreases n - head,
    {
        proof {
            bounded_unique(queue@, n);
        }
        let at: usize = queue[head];
        let level: usize = blocks[at].level + 1;
        let ghost first = queue@;
        let mut k: usize = 0;
        assert(first.take(head + 1) =~= first.take(head as int).push(at));
        while k < kids[at].len()
            invariant
                k <= kids@[at as int]@.len(),
                head < first.len() <= queue@.len(),
                at < n,
                at == first[head as int],
                first == queue@.take(first.len() as int),
                first.no_duplicates(),
                level <= head + 1,
                n == blocks@.len() == all.len(),
                kids@.len() == n,
                ascending(kids@[at as int]@),
                forall|c: usize|
                    #[trigger] kids@[at as int]@.contains(c) <==> hangs(all, c as int, at as int),
                forall|v: int|
                    #![trigger blocks@[v]]
                    0 <= v < n ==> blocks@[v]@ == (BlockView {
                        level: blocks@[v].level as nat,
                        ..all[v]
                    }) && (!queue@.contains(v as usize) ==> blocks@[v].level == all[v].level),
                queue@.no_duplicates(),
                blocks@[at as int].level + 1 == level,
                climb(all, at as int, (level - 1) as nat) == Some((level - 1) as nat),
                forall|x: int|
                    #![trigger queue@[x]]
                    0 <= x < queue@.len() ==> queue@[x] < n && blocks@[queue@[x] as int].level <= x
                        && climb(all, queue@[x] as int, blocks@[queue@[x] as int].level as nat)
                        == Some(blocks@[queue@[x] as int].level as nat) && (
                    all[queue@[x] as int].parent matches Some((p, _)) ==> first.take(
                        head + 1,
                    ).contains(p as usize)),
                forall|x: int|
                    #![trigger queue@[x]]
                    0 <= x < first.len() ==> (all[queue@[x] as int].parent matches Some((p, _))
                        ==> first.take(head as int).contains(p as usize)),
                forall|x: int|
                    #![trigger queue@[x]]
                    first.len() <= x < queue@.len() ==> queue@[x] == kids@[at as int]@[x
                        - first.len()],
                queue@.len() == first.len() + k,
                forall|x: int, c: usize|
                    0 <= x < head && #[trigger] hangs(all, c as int, queue@[x] as int)
                        ==> queue@.contains(c),
                forall|v: usize|
                    v < n && all[v as int].parent is None ==> #[trigger] queue@.contains(v),
            decreases kids@[at as int]@.len() - k,
        {
            let c: usize = kids[at][k];
            let ghost held = queue@;
            let ghost before = blocks@;
            proof {
                assert(kids@[at as int]@.contains(c));
                assert(!held.contains(c)) by {
                    if held.contains(c) {
                        let x = held.index_of(c);
                        assert(held[x] == c);
                        if x < first.len() {
                            let f = first.take(head as int);
                            assert(f.contains(at));
                            let y = f.index_of(at);
                            assert(first[y] == at && first[head as int] == at);
                        } else {
                            assert(kids@[at as int]@[x - first.len()] == c);
                            assert(x - first.len() < k);
                        }
                    }
                }
                assert(c != at) by {
                    assert(held[head as int] == at);
                }
            }
            blocks[c].level = level;
            queue.push(c);
            proof {
                assert forall|v: usize| #[trigger] queue@.contains(v) <==> held.contains(v) || v
                    == c by {
                    if held.contains(v) {
                        let x = held.index_of(v);
                        assert(queue@[x] == v);
                    }
                    if v == c {
                        assert(queue@[held.len() as int] == v);
                    }
                }
                assert(climb(all, c as int, level as nat) == Some(level as nat));
                assert(first.take(head + 1)[head as int] == at);
                assert(first.take(head + 1).contains(at));
                assert forall|x: int| #![trigger queue@[x]] 0 <= x < queue@.len() implies queue@[x]
                    < n && blocks@[queue@[x] as int].level <= x && climb(
                    all,
                    queue@[x] as int,
                    blocks@[queue@[x] as int].level as nat,
                ) == Some(blocks@[queue@[x] as int].level as nat) && (
                all[queue@[x] as int].parent matches Some((p, _)) ==> first.take(
                    head + 1,
                ).contains(p as usize)) by {
                    if x < held.len() {
                        assert(held[x] == queue@[x]);
                        assert(held.contains(held[x]));
                        assert(before[held[x] as int] == blocks@[held[x] as int]);
                    }
                }
            }
            k += 1;
        }
        proof {
            assert(queue@.take(head + 1) =~= first.take(head + 1));
            assert forall|x: int, c: usize|
                0 <= x < head + 1 && #[trigger] hangs(
                    all,
                    c as int,
                    queue@[x] as int,
                ) implies queue@.contains(c) by {
                if x == head {
                    assert(queue@[x] == first[x]);
                    assert(kids@[at as int]@.contains(c));
                    let i = kids@[at as int]@.index_of(c);
                    assert(queue@[first.len() + i] == c);
                }
            }
        }
        head += 1;
    }
    proof {
        let target = releveled(all);
        assert forall|v: int| 0 <= v < n implies views(blocks@)[v] == target[v] by {
            if queue@.contains(v as usize) {
                let x = queue@.index_of(v as usize);
                assert(queue@[x] == v);
                let l = blocks@[v].level as nat;
                assert(climb(all, v, l) is Some);
                climb_agrees(all, v, l, choose|fuel: nat| climb(all, v, fuel) is Some);
            } else {
                if rooted(all, v) {
                    let f = choose|fuel: nat| climb(all, v, fuel) is Some;
                    reached(all, queue@, v, f);
                }
            }
        }
        assert(views(blocks@) =~= target);
    }
}

proof fn reached(all: Seq<BlockView>, queue: Seq<usize>, v: int, fuel: nat)
    requires
        0 <= v < all.len() <= usize::MAX,
        parents_within(all),
        climb(all, v, fuel) is Some,
        forall|x: int, c: usize|
            0 <= x < queue.len() && #[trigger] hangs(all, c as int, queue[x] as int)
                ==> queue.contains(c),
        forall|u: usize|
            u < all.len() && all[u as int].parent is None ==> #[trigger] queue.contains(u),
    ensures
        queue.contains(v as usize),
    decreases fuel,
{
    match all[v].parent {
        None => {
            let u = v as usize;
            assert(queue.contains(u));
        },
        Some((p, _)) => {
            reached(all, queue, p as int, (fuel - 1) as nat);
            let x = queue.index_of(p as usize);
            let c = v as usize;
            assert(hangs(all, c as int, queue[x] as int));
        },
    }
}

/// Different numbers below `n` are at most `n`.
pub(crate) proof fn bounded_unique(s: Seq<usize>, n: usize)
    requires
        s.no_duplicates(),
        forall|x: int| #![trigger s[x]] 0 <= x < s.len() ==> s[x] < n,
    ensures
        s.len() <= n,
{
    vstd::set_lib::lemma_int_range(0, n as int);
    let ints = s.map_values(|v: usize| v as int);
    ints.unique_seq_to_set();
    assert(ints.to_set().subset_of(vstd::set_lib::set_int_range(0, n as int))) by {
        assert forall|v: int| ints.to_set().contains(v) implies vstd::set_lib::set_int_range(
            0,
            n as int,
        ).contains(v) by {
            let k = ints.index_of(v);
            assert(ints[k] == s[k]);
        }
    }
    vstd::set_lib::lemma_len_subset(
        ints.to_set(),
        vstd::set_lib::set_int_range(0, n as int),
    );
}

} // verus!
