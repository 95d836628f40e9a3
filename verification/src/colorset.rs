//! Colours as sorted sets of block ids.
//!
//! A colour is the set of blocks a transaction's coins descend from: block ids,
//! ascending, no duplicates, behind a shared handle. Before two colours are
//! merged at all, [`SetStore::combine`] tries to avoid it: two handles on one
//! allocation, an empty side, or two ranges that do not overlap are each
//! answered without comparing a single pair of elements.

use std::rc::Rc;

use vstd::prelude::*;
use vstd::string::*;

use crate::handles::{
    are_firsts, count_handles, first_handles, is_answer, is_second, is_told, second_handle, tell,
};
use crate::text::{dec, push_dec, push_signed, signed};
use crate::walk::{word, word_adds};

verus! {

/// One colour: block ids ascending, no duplicates.
pub type BlockSet = Rc<Vec<u32>>;

/// Ascending, without duplicates.
pub open spec fn sorted(s: Seq<u32>) -> bool {
    forall|i: int, j: int| 0 <= i < j < s.len() ==> s[i] < s[j]
}

/// The union of two ascending sequences, ascending.
pub open spec fn merged(a: Seq<u32>, b: Seq<u32>) -> Seq<u32>
    decreases a.len() + b.len(),
{
    if a.len() == 0 {
        b
    } else if b.len() == 0 {
        a
    } else if a.last() > b.last() {
        merged(a.drop_last(), b).push(a.last())
    } else if a.last() < b.last() {
        merged(a, b.drop_last()).push(b.last())
    } else {
        merged(a.drop_last(), b.drop_last()).push(a.last())
    }
}

proof fn contains_by_last(s: Seq<u32>)
    requires
        s.len() > 0,
    ensures
        forall|x: u32| #[trigger] s.contains(x) <==> s.drop_last().contains(x) || x == s.last(),
{
    assert forall|x: u32| #[trigger] s.contains(x) <==> s.drop_last().contains(x) || x
        == s.last() by {
        if s.contains(x) {
            let i = s.index_of(x);
            if i < s.len() - 1 {
                assert(s.drop_last()[i] == x);
            }
        }
        if s.drop_last().contains(x) {
            let i = s.drop_last().index_of(x);
            assert(s[i] == x);
        }
        if x == s.last() {
            assert(s[s.len() - 1] == x);
        }
    }
}

/// The union of two colours is a colour, and names exactly the blocks that
/// either of them names.
pub proof fn a_union_names_what_either_names(a: Seq<u32>, b: Seq<u32>)
    requires
        sorted(a),
        sorted(b),
    ensures
        sorted(merged(a, b)),
        forall|x: u32| #[trigger] merged(a, b).contains(x) <==> a.contains(x) || b.contains(x),
    decreases a.len() + b.len(),
{
    if a.len() > 0 && b.len() > 0 {
        contains_by_last(a);
        contains_by_last(b);
        let (c, d, m) = if a.last() > b.last() {
            (a.drop_last(), b, a.last())
        } else if a.last() < b.last() {
            (a, b.drop_last(), b.last())
        } else {
            (a.drop_last(), b.drop_last(), a.last())
        };
        a_union_names_what_either_names(c, d);
        let front = merged(c, d);
        let r = front.push(m);
        assert(merged(a, b) == r);
        assert(r.drop_last() =~= front);
        contains_by_last(r);
        assert forall|i: int, j: int| 0 <= i < j < r.len() implies r[i] < r[j] by {
            if j == front.len() {
                assert(front.contains(front[i]));
                if c.contains(front[i]) {
                    let k = c.index_of(front[i]);
                    assert(a[k] == front[i]);
                } else {
                    let k = d.index_of(front[i]);
                    assert(b[k] == front[i]);
                }
            }
        }
        assert forall|x: u32| #[trigger] merged(a, b).contains(x) <==> a.contains(x)
            || b.contains(x) by {
            assert(r.contains(x) <==> front.contains(x) || x == m);
            assert(front.contains(x) <==> c.contains(x) || d.contains(x));
            assert(a.contains(x) <==> a.drop_last().contains(x) || x == a.last());
            assert(b.contains(x) <==> b.drop_last().contains(x) || x == b.last());
        }
    }
}

/// Two colours that name the same blocks are the same.
pub proof fn a_colour_is_what_it_names(a: Seq<u32>, b: Seq<u32>)
    requires
        sorted(a),
        sorted(b),
        forall|x: u32|
            #![trigger a.contains(x)]
            #![trigger b.contains(x)]
            a.contains(x) <==> b.contains(x),
    ensures
        a == b,
    decreases a.len(),
{
    if a.len() == 0 {
        if b.len() > 0 {
            assert(b.contains(b[0]));
        }
        assert(a =~= b);
    } else {
        contains_by_last(a);
        assert(a.contains(a.last()));
        assert(b.contains(a.last()));
        contains_by_last(b);
        assert(b.contains(b.last()));
        let i = b.index_of(a.last());
        let j = a.index_of(b.last());
        assert(b[i] == a.last() && a[j] == b.last());
        assert(a.last() == b.last());
        let c = a.drop_last();
        let d = b.drop_last();
        assert forall|x: u32|
            #![trigger c.contains(x)]
            #![trigger d.contains(x)]
            c.contains(x) <==> d.contains(x) by {
            if c.contains(x) {
                let k = c.index_of(x);
                assert(a[k] == x && x < a.last());
                assert(a.contains(x));
            }
            if d.contains(x) {
                let k = d.index_of(x);
                assert(b[k] == x && x < b.last());
                assert(b.contains(x));
            }
        }
        a_colour_is_what_it_names(c, d);
        assert(a =~= c.push(a.last()));
        assert(b =~= d.push(b.last()));
    }
}

/// Union is commutative.
pub proof fn a_union_is_commutative(a: Seq<u32>, b: Seq<u32>)
    requires
        sorted(a),
        sorted(b),
    ensures
        merged(a, b) == merged(b, a),
{
    a_union_names_what_either_names(a, b);
    a_union_names_what_either_names(b, a);
    a_colour_is_what_it_names(merged(a, b), merged(b, a));
}

/// Union is associative.
pub proof fn a_union_is_associative(a: Seq<u32>, b: Seq<u32>, c: Seq<u32>)
    requires
        sorted(a),
        sorted(b),
        sorted(c),
    ensures
        merged(merged(a, b), c) == merged(a, merged(b, c)),
{
    a_union_names_what_either_names(a, b);
    a_union_names_what_either_names(b, c);
    a_union_names_what_either_names(merged(a, b), c);
    a_union_names_what_either_names(a, merged(b, c));
    a_colour_is_what_it_names(merged(merged(a, b), c), merged(a, merged(b, c)));
}

/// A colour united with itself is itself.
pub proof fn a_union_with_itself_changes_nothing(a: Seq<u32>)
    requires
        sorted(a),
    ensures
        merged(a, a) == a,
{
    a_union_names_what_either_names(a, a);
    a_colour_is_what_it_names(merged(a, a), a);
}

/// The union of two ranges that do not overlap is one after the other.
pub proof fn a_union_of_disjoint_ranges_is_a_concatenation(a: Seq<u32>, b: Seq<u32>)
    requires
        sorted(a),
        sorted(b),
        a.len() > 0,
        b.len() > 0,
        a.last() < b[0],
    ensures
        merged(a, b) == a + b,
        merged(b, a) == a + b,
{
    a_union_names_what_either_names(a, b);
    a_union_is_commutative(a, b);
    let r = a + b;
    assert forall|i: int, j: int| 0 <= i < j < r.len() implies r[i] < r[j] by {
        if i < a.len() && j >= a.len() {
            assert(a[i] <= a[a.len() - 1]);
            assert(b[0] <= b[j - a.len()]);
        }
    }
    assert forall|x: u32|
        #![trigger r.contains(x)]
        #![trigger merged(a, b).contains(x)]
        r.contains(x) <==> merged(a, b).contains(x) by {
        if a.contains(x) {
            let i = a.index_of(x);
            assert(r[i] == x);
        }
        if b.contains(x) {
            let i = b.index_of(x);
            assert(r[a.len() + i] == x);
        }
        if r.contains(x) {
            let i = r.index_of(x);
            if i < a.len() {
                assert(a[i] == x);
            } else {
                assert(b[i - a.len()] == x);
            }
        }
    }
    a_colour_is_what_it_names(r, merged(a, b));
}

/// What is merged so far with what is left gives the whole union.
proof fn merge_goes_on(out: Seq<u32>, a: Seq<u32>, b: Seq<u32>, i: int, j: int)
    requires
        sorted(a),
        sorted(b),
        0 <= i <= a.len(),
        0 <= j <= b.len(),
        i == a.len() || j == b.len(),
        out == merged(a.take(i), b.take(j)),
        i < a.len() ==> (forall|k: int| 0 <= k < j ==> b[k] < a[i]),
        j < b.len() ==> (forall|k: int| 0 <= k < i ==> a[k] < b[j]),
    ensures
        merged(a, b) == out + a.skip(i) + b.skip(j),
{
    let f = a.take(i);
    let g = b.take(j);
    let r = out + a.skip(i) + b.skip(j);
    a_union_names_what_either_names(f, g);
    a_union_names_what_either_names(a, b);
    assert forall|x: int, y: int| 0 <= x < y < r.len() implies r[x] < r[y] by {
        if x < out.len() && y >= out.len() {
            assert(out.contains(out[x]));
            if f.contains(out[x]) {
                let k = f.index_of(out[x]);
                assert(a[k] == out[x]);
                if i < a.len() {
                    assert(a[k] < a[i + (y - out.len())]);
                } else {
                    assert(a[k] < b[j]);
                    assert(b[j] <= b[j + (y - out.len())]);
                }
            } else {
                let k = g.index_of(out[x]);
                assert(b[k] == out[x]);
                if i < a.len() {
                    assert(b[k] < a[i]);
                    assert(a[i] <= a[i + (y - out.len())]);
                } else {
                    assert(b[k] < b[j + (y - out.len())]);
                }
            }
        }
    }
    assert forall|x: u32|
        #![trigger r.contains(x)]
        #![trigger merged(a, b).contains(x)]
        r.contains(x) <==> merged(a, b).contains(x) by {
        if a.contains(x) {
            let k = a.index_of(x);
            if k < i {
                assert(f[k] == x);
                assert(out.contains(x));
                let l = out.index_of(x);
                assert(r[l] == x);
            } else {
                assert(r[out.len() + (k - i)] == x);
            }
        }
        if b.contains(x) {
            let k = b.index_of(x);
            if k < j {
                assert(g[k] == x);
                assert(out.contains(x));
                let l = out.index_of(x);
                assert(r[l] == x);
            } else {
                assert(r[out.len() + (a.len() - i) + (k - j)] == x);
            }
        }
        if r.contains(x) {
            let l = r.index_of(x);
            if l < out.len() {
                assert(out[l] == x);
                assert(out.contains(x));
                if f.contains(x) {
                    let k = f.index_of(x);
                    assert(a[k] == x);
                } else {
                    let k = g.index_of(x);
                    assert(b[k] == x);
                }
            } else if l < out.len() + (a.len() - i) {
                assert(a[i + (l - out.len())] == x);
            } else {
                assert(b[j + (l - out.len() - (a.len() - i))] == x);
            }
        }
    }
    a_colour_is_what_it_names(merged(a, b), r);
}

/// Merges two ascending duplicate-free slices into `out`, which is cleared
/// first.
///
/// The comparison decides how far each cursor moves, so equal elements collapse
/// to one output without a separate pass. Since neither input repeats, the
/// output cannot either.
pub fn merge_into(out: &mut Vec<u32>, a: &[u32], b: &[u32])
    requires
        sorted(a@),
        sorted(b@),
    ensures
        final(out)@ == merged(a@, b@),
        sorted(final(out)@),
{
    out.clear();
    let mut i: usize = 0;
    let mut j: usize = 0;
    assert(out@ =~= merged(a@.take(0), b@.take(0)));
    while i < a.len() && j < b.len()
        invariant
            i <= a@.len(),
            j <= b@.len(),
            sorted(a@),
            sorted(b@),
            out@ == merged(a@.take(i as int), b@.take(j as int)),
            i < a@.len() ==> (forall|k: int| 0 <= k < j ==> b@[k] < a@[i as int]),
            j < b@.len() ==> (forall|k: int| 0 <= k < i ==> a@[k] < b@[j as int]),
        decreases a@.len() - i + b@.len() - j,
    {
        let x: u32 = a[i];
        let y: u32 = b[j];
        proof {
            let f = a@.take(i as int);
            let g = b@.take(j as int);
            let f1 = a@.take(i + 1);
            let g1 = b@.take(j + 1);
            assert(f1.drop_last() =~= f && f1.last() == x);
            assert(g1.drop_last() =~= g && g1.last() == y);
            if i > 0 {
                assert(f.last() == a@[i - 1]);
            }
            if j > 0 {
                assert(g.last() == b@[j - 1]);
            }
            if x < y {
                // Everything merged so far is below `x`.
                assert(merged(f1, g) == merged(f, g).push(x)) by {
                    if j == 0 {
                        only_one_side(f);
                        only_one_side(f1);
                        assert(g =~= Seq::empty());
                        assert(f1 =~= f.push(x));
                    }
                }
            } else if y < x {
                assert(merged(f, g1) == merged(f, g).push(y)) by {
                    if i == 0 {
                        assert(f =~= Seq::empty());
                        assert(g1 =~= g.push(y));
                    }
                }
            } else {
                assert(merged(f1, g1) == merged(f, g).push(x));
            }
        }
        if x <= y {
            out.push(x);
        } else {
            out.push(y);
        }
        if x <= y {
            i += 1;
        }
        if y <= x {
            j += 1;
        }
    }
    proof {
        merge_goes_on(out@, a@, b@, i as int, j as int);
        a_union_names_what_either_names(a@, b@);
    }
    let ghost both = out@;
    let mut k: usize = i;
    assert(out@ =~= both + a@.subrange(i as int, i as int));
    while k < a.len()
        invariant
            i <= k <= a@.len(),
            out@ == both + a@.subrange(i as int, k as int),
        decreases a@.len() - k,
    {
        out.push(a[k]);
        assert(out@ =~= both + a@.subrange(i as int, k + 1));
        k += 1;
    }
    assert(out@ =~= both + a@.skip(i as int));
    let ghost more = out@;
    let mut l: usize = j;
    assert(out@ =~= more + b@.subrange(j as int, j as int));
    while l < b.len()
        invariant
            j <= l <= b@.len(),
            out@ == more + b@.subrange(j as int, l as int),
        decreases b@.len() - l,
    {
        out.push(b[l]);
        assert(out@ =~= more + b@.subrange(j as int, l + 1));
        l += 1;
    }
    assert(out@ =~= more + b@.skip(j as int));
}

proof fn only_one_side(a: Seq<u32>)
    ensures
        merged(a, Seq::empty()) == a,
{
    if a.len() == 0 {
        assert(a =~= Seq::empty());
    }
}

/// A store of colours: how many elements the allocations that are still
/// referenced hold, and the high-water mark of that.
pub struct SetStore {
    live: usize,
    peak: usize,
}

/// The larger of two counts.
pub open spec fn larger(a: usize, b: usize) -> usize {
    if a < b {
        b
    } else {
        a
    }
}

/// What an audit says of so many live elements, so many of them reachable.
pub open spec fn audit_text(live: usize, reachable: nat) -> Seq<char> {
    if reachable == live {
        "audit: "@ + dec(live as nat) + " live set elems, all reachable"@
    } else {
        "audit: LEAK -- "@ + dec(live as nat) + " live set elems but only "@ + dec(reachable)
            + " reachable ("@ + signed(live - reachable) + " lost)"@
    }
}

/// How many elements the colours hold together, those that are not the first
/// handle on their allocation left out.
pub open spec fn reached(sets: Seq<BlockSet>, first: Seq<bool>) -> nat
    decreases sets.len(),
{
    if sets.len() == 0 {
        0
    } else {
        reached(sets.drop_last(), first) + if first[sets.len() - 1] {
            sets.last()@.len()
        } else {
            0
        }
    }
}

impl SetStore {
    /// Elements in allocations that are still referenced, modulo the word.
    pub closed spec fn live(&self) -> usize {
        self.live
    }

    /// The high-water mark of [`SetStore::live`].
    pub closed spec fn peak(&self) -> usize {
        self.peak
    }

    /// The store with a new allocation of so many elements.
    pub open spec fn counted(before: &SetStore, after: &SetStore, len: nat) -> bool {
        &&& after.live() == word(before.live() as nat + len)
        &&& after.peak() == larger(before.peak(), after.live())
    }

    /// A union of two colours handed out, told whether they are two handles on one
    /// allocation: a second handle on one of them where it is no more than that, and
    /// a new allocation where it is neither of the two.
    pub open spec fn united(
        before: &SetStore,
        after: &SetStore,
        a: BlockSet,
        b: BlockSet,
        same: bool,
        set: BlockSet,
    ) -> bool {
        if same {
            is_second(a, set) && *after == *before
        } else if a@.len() == 0 {
            is_second(b, set) && *after == *before
        } else if b@.len() == 0 {
            is_second(a, set) && *after == *before
        } else {
            SetStore::counted(before, after, merged(a@, b@).len())
        }
    }

    /// An empty store.
    pub fn new() -> (store: SetStore)
        ensures
            store.live() == 0,
            store.peak() == 0,
    {
        SetStore { live: 0, peak: 0 }
    }

    /// Counts a new colour and hands it out.
    fn track(&mut self, set: Vec<u32>) -> (handle: BlockSet)
        ensures
            handle@ == set@,
            SetStore::counted(old(self), final(self), set@.len()),
    {
        proof {
            small_word(self.live);
            word_adds(self.live as nat, set.len());
        }
        self.live = self.live.wrapping_add(set.len());
        if self.peak < self.live {
            self.peak = self.live;
        }
        Rc::new(set)
    }

    /// The colour of a coinbase: the block that minted it.
    pub fn singleton(&mut self, block: usize) -> (set: BlockSet)
        requires
            block <= u32::MAX,
        ensures
            set@ == seq![block as u32],
            SetStore::counted(old(self), final(self), 1),
    {
        let mut one: Vec<u32> = Vec::new();
        one.push(block as u32);
        assert(one@ =~= seq![block as u32]);
        self.track(one)
    }

    /// The union of two colours, told whether they are two handles on one
    /// allocation. Only a union that is neither of the two is a new allocation.
    pub fn combine_told(&mut self, a: &BlockSet, b: &BlockSet, same: bool) -> (set: BlockSet)
        requires
            sorted(a@),
            sorted(b@),
            same ==> a@ == b@,
        ensures
            set@ == merged(a@, b@),
            sorted(set@),
            SetStore::united(old(self), final(self), *a, *b, same, set),
    {
        proof {
            a_union_names_what_either_names(a@, b@);
        }
        if same {
            proof {
                a_union_with_itself_changes_nothing(a@);
            }
            return self.share(a);
        }
        if a.len() == 0 {
            return self.share(b);
        }
        if b.len() == 0 {
            return self.share(a);
        }
        let mut union: Vec<u32> = Vec::new();
        if a[a.len() - 1] < b[0] {
            proof {
                a_union_of_disjoint_ranges_is_a_concatenation(a@, b@);
            }
            union.extend_from_slice(a.as_slice());
            union.extend_from_slice(b.as_slice());
            assert(union@ =~= a@ + b@);
        } else if b[b.len() - 1] < a[0] {
            proof {
                a_union_of_disjoint_ranges_is_a_concatenation(b@, a@);
            }
            union.extend_from_slice(b.as_slice());
            union.extend_from_slice(a.as_slice());
            assert(union@ =~= b@ + a@);
        } else {
            merge_into(&mut union, a.as_slice(), b.as_slice());
        }
        self.track(union)
    }

    /// The union of two colours: [`SetStore::combine_told`], told what is said of the
    /// two handles.
    pub fn combine(&mut self, a: &BlockSet, b: &BlockSet) -> (set: BlockSet)
        requires
            sorted(a@),
            sorted(b@),
        ensures
            set@ == merged(a@, b@),
            sorted(set@),
            exists|same: bool| #[trigger]
                is_told(*a, *b, same) && (same ==> a@ == b@) && SetStore::united(
                    old(self),
                    final(self),
                    *a,
                    *b,
                    same,
                    set,
                ),
    {
        let same = tell(a, b);
        self.combine_told(a, b, same)
    }

    /// A colour scaled by a weight: a set has no coefficients for a weight to
    /// multiply, so it is the same colour, by a second handle on it.
    pub fn scale(&mut self, colour: &BlockSet) -> (set: BlockSet)
        ensures
            is_second(*colour, set),
            set@ == colour@,
            *final(self) == *old(self),
    {
        self.share(colour)
    }

    /// A second handle on a colour, which owns no new storage.
    pub fn share(&mut self, colour: &BlockSet) -> (set: BlockSet)
        ensures
            is_second(*colour, set),
            set@ == colour@,
            *final(self) == *old(self),
    {
        second_handle(colour)
    }

    /// Takes a colour of so many elements off the count, told whether its last
    /// handle is going.
    pub fn release_told(&mut self, len: usize, last: bool)
        ensures
            final(self).live() == if last {
                old(self).live().wrapping_sub(len)
            } else {
                old(self).live()
            },
            final(self).peak() == old(self).peak(),
    {
        if last {
            self.live = self.live.wrapping_sub(len);
        }
    }

    /// Lets go of a handle on a colour. The allocation only goes away when the
    /// last handle does, and then its elements come off the count: where the answer
    /// to how many handles there are is one.
    pub fn release(&mut self, colour: BlockSet)
        ensures
            exists|n: usize| #[trigger]
                is_answer(colour, n) && n >= 1 && final(self).live() == if n == 1 {
                    old(self).live().wrapping_sub(colour@.len() as usize)
                } else {
                    old(self).live()
                },
            final(self).peak() == old(self).peak(),
    {
        let last = count_handles(&colour) == 1;
        self.release_told(colour.len(), last);
    }

    /// The blocks of a colour with their coefficients, in decreasing order:
    /// every coefficient is 1.
    pub fn terms(&self, colour: &BlockSet) -> (terms: Vec<(usize, u32)>)
        ensures
            terms@ == Seq::new(
                colour@.len(),
                |k: int| (colour@[colour@.len() - 1 - k] as usize, 1u32),
            ),
    {
        let ghost all = Seq::new(
            colour@.len(),
            |k: int| (colour@[colour@.len() - 1 - k] as usize, 1u32),
        );
        let mut terms: Vec<(usize, u32)> = Vec::new();
        let mut i: usize = colour.len();
        while i > 0
            invariant
                i <= colour@.len(),
                all == Seq::new(
                    colour@.len(),
                    |k: int| (colour@[colour@.len() - 1 - k] as usize, 1u32),
                ),
                terms@ == all.take(colour@.len() - i),
            decreases i,
        {
            i -= 1;
            terms.push((colour[i] as usize, 1));
            assert(terms@ =~= all.take(colour@.len() - i));
        }
        assert(terms@ =~= all);
        terms
    }

    /// How many elements are live, and how many were at most.
    pub fn usage(&self) -> (usage: (usize, usize))
        ensures
            usage == (self.live(), self.peak()),
    {
        (self.live, self.peak)
    }

    /// What the two counts of [`SetStore::usage`] are of.
    pub fn usage_labels(&self) -> (labels: (&'static str, &'static str))
        ensures
            labels.0@ == "live set elems"@,
            labels.1@ == "peak set elems"@,
    {
        ("live set elems", "peak set elems")
    }

    /// What an audit that reached so many elements says.
    pub fn audit_told(&self, reachable: usize) -> (s: String)
        ensures
            s@ == audit_text(self.live(), reachable as nat),
    {
        if reachable == self.live {
            let mut s = "audit: ".to_owned();
            push_dec(&mut s, self.live as u64);
            s.append(" live set elems, all reachable");
            return s;
        }
        let mut s = "audit: LEAK -- ".to_owned();
        push_dec(&mut s, self.live as u64);
        s.append(" live set elems but only ");
        push_dec(&mut s, reachable as u64);
        s.append(" reachable (");
        push_signed(&mut s, self.live as i128 - reachable as i128);
        s.append(" lost)");
        s
    }

    /// Whether every live element is reachable from the colours in hand, told
    /// which of them are the first handle on their allocation.
    pub fn audit_counted(&self, sets: &Vec<BlockSet>, first: &Vec<bool>) -> (s: String)
        requires
            first@.len() == sets@.len(),
        ensures
            s@ == audit_text(self.live(), word(reached(sets@, first@)) as nat),
    {
        let mut reachable: usize = 0;
        let mut i: usize = 0;
        proof {
            small_word(0);
        }
        while i < sets.len()
            invariant
                i <= sets@.len() == first@.len(),
                reachable == word(reached(sets@.take(i as int), first@)),
            decreases sets@.len() - i,
        {
            proof {
                assert(sets@.take(i + 1).drop_last() =~= sets@.take(i as int));
                word_adds(reached(sets@.take(i as int), first@), sets@[i as int].len());
            }
            if first[i] {
                reachable = reachable.wrapping_add(sets[i].len());
            }
            i += 1;
        }
        assert(sets@.take(i as int) =~= sets@);
        self.audit_told(reachable)
    }

    /// Whether every live element is reachable from the colours in hand, each
    /// allocation counted once however many handles are on it: only the first
    /// handle on each counts.
    pub fn audit(&self, sets: &Vec<BlockSet>) -> (s: String)
        ensures
            exists|first: Seq<bool>|
                #![trigger reached(sets@, first)]
                {
                    &&& are_firsts(sets@, first)
                    &&& s@ == audit_text(self.live(), word(reached(sets@, first)) as nat)
                },
    {
        let first = first_handles(sets);
        self.audit_counted(sets, &first)
    }
}

proof fn small_word(n: usize)
    ensures
        word(n as nat) == n,
{
    vstd::arithmetic::div_mod::lemma_small_mod(n as nat, usize::MAX as nat + 1);
}

} // verus!
