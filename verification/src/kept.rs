//! What of one side of a block is shown, and what stands behind an ellipsis.

use vstd::prelude::*;

verus! {

/// What a fanout kept of one side of a block: everything, or the first `head`
/// and the last `tail` entries plus any the page needed un-hidden, with the
/// rest standing behind an ellipsis.
#[derive(Clone, Debug, PartialEq)]
pub enum Kept {
    All,
    Ends {
        head: usize,
        tail: usize,
        /// Indices strictly between the head and the tail that are kept all
        /// the same, in increasing order.
        extra: Vec<usize>,
    },
}

/// One place on a row: a kept entry of the side, or the run of hidden ones
/// between two kept entries.
#[derive(Clone, Copy, Debug, PartialEq, Eq, Structural)]
pub enum Slot {
    Node(usize),
    Gap(usize),
}

/// The numbers from `lo` up to but not including `hi`.
pub open spec fn span(lo: int, hi: int) -> Seq<usize> {
    Seq::new((if lo < hi { hi - lo } else { 0 }) as nat, |i: int| (lo + i) as usize)
}

/// Strictly increasing.
pub open spec fn ascending(s: Seq<usize>) -> bool {
    forall|i: int, j: int| 0 <= i < j < s.len() ==> s[i] < s[j]
}

/// The row of a side of `n` entries of which those in `shown` are kept, from
/// the entry after `last` on: a gap for every run of hidden entries, saying
/// how many, and every kept entry at its place.
pub open spec fn row_after(shown: Seq<usize>, last: int, n: int) -> Seq<Slot>
    decreases shown.len(),
{
    if shown.len() == 0 {
        gap(n - 1 - last)
    } else {
        gap(shown[0] - last - 1) + seq![Slot::Node(shown[0])] + row_after(
            shown.drop_first(),
            shown[0] as int,
            n,
        )
    }
}

/// The slot of a hidden run: none for a run of no entries.
pub open spec fn gap(hidden: int) -> Seq<Slot> {
    if hidden > 0 {
        seq![Slot::Gap(hidden as usize)]
    } else {
        Seq::empty()
    }
}

/// How many entries of the side a slot stands for.
pub open spec fn slot_width(s: Slot) -> nat {
    match s {
        Slot::Node(_) => 1,
        Slot::Gap(h) => h as nat,
    }
}

/// How many entries of the side a row stands for.
pub open spec fn row_width(row: Seq<Slot>) -> nat
    decreases row.len(),
{
    if row.len() == 0 {
        0
    } else {
        row_width(row.drop_last()) + slot_width(row.last())
    }
}

/// What of one side of a block is kept, as a mathematical value.
pub enum Cut {
    All,
    Ends { head: nat, tail: nat, extra: Seq<usize> },
}

/// How many entries at the front of `s` are below `i`.
pub open spec fn rank(s: Seq<usize>, i: usize) -> nat
    decreases s.len(),
{
    if s.len() == 0 || s[0] >= i {
        0
    } else {
        1 + rank(s.drop_first(), i)
    }
}

impl View for Kept {
    type V = Cut;

    open spec fn view(&self) -> Cut {
        match *self {
            Kept::All => Cut::All,
            Kept::Ends { head, tail, extra } => Cut::Ends {
                head: head as nat,
                tail: tail as nat,
                extra: extra@,
            },
        }
    }
}

impl Cut {
    /// What a cap of `fanout` keeps of `n` entries: both ends, half the
    /// allowance each and the odd one to the head.
    pub open spec fn of(n: nat, fanout: Option<usize>) -> Cut {
        match fanout {
            Some(k) if n > k => Cut::Ends {
                head: (k as nat + 1) / 2,
                tail: (k as nat) / 2,
                extra: Seq::empty(),
            },
            _ => Cut::All,
        }
    }

    /// What holds of the cut of a side of `n` entries: the head and the tail
    /// do not meet, and the extra entries lie between them in order.
    pub open spec fn fits(self, n: nat) -> bool {
        match self {
            Cut::All => true,
            Cut::Ends { head, tail, extra } => {
                &&& head + tail <= n
                &&& ascending(extra)
                &&& forall|j: int|
                    0 <= j < extra.len() ==> head <= #[trigger] extra[j] < n - tail
            },
        }
    }

    /// Whether entry `i` of `n` is kept.
    pub open spec fn keeps(self, n: nat, i: int) -> bool {
        match self {
            Cut::All => i < n,
            Cut::Ends { head, tail, extra } => i < head || i >= n - tail || extra.contains(
                i as usize,
            ),
        }
    }

    /// The kept entries of a side of `n`, in order.
    pub open spec fn shown(self, n: nat) -> Seq<usize> {
        match self {
            Cut::All => span(0, n as int),
            Cut::Ends { head, tail, extra } => span(0, head as int) + extra + span(
                n - tail,
                n as int,
            ),
        }
    }

    /// How many entries of a side of `n` are kept.
    pub open spec fn count(self, n: nat) -> nat {
        match self {
            Cut::All => n,
            Cut::Ends { head, tail, extra } => head + tail + extra.len(),
        }
    }

    /// The row of a side of `n` entries, as it is drawn.
    pub open spec fn row(self, n: nat) -> Seq<Slot> {
        row_after(self.shown(n), -1, n as int)
    }

    /// The same cut with entry `i` kept as well.
    pub open spec fn keeping(self, n: nat, i: usize) -> Cut {
        match self {
            Cut::Ends { head, tail, extra } if !self.keeps(n, i as int) => Cut::Ends {
                head,
                tail,
                extra: extra.insert(rank(extra, i) as int, i),
            },
            _ => self,
        }
    }
}

/// The front of an ascending sequence holds its entries below `i`.
pub(crate) proof fn rank_splits(s: Seq<usize>, i: usize)
    requires
        ascending(s),
    ensures
        rank(s, i) <= s.len(),
        forall|l: int| 0 <= l < rank(s, i) ==> s[l] < i,
        forall|l: int| rank(s, i) <= l < s.len() ==> s[l] >= i,
    decreases s.len(),
{
    if s.len() > 0 && s[0] < i {
        let t = s.drop_first();
        rank_splits(t, i);
        assert forall|l: int| 0 <= l < rank(s, i) implies s[l] < i by {
            if l > 0 {
                assert(s[l] == t[l - 1]);
            }
        }
        assert forall|l: int| rank(s, i) <= l < s.len() implies s[l] >= i by {
            assert(s[l] == t[l - 1]);
        }
    }
}

/// The kept entries are in order, are entries of the side, and are exactly
/// those that are kept; there are `count` of them.
pub proof fn shown_is_exact(cut: Cut, n: usize)
    requires
        cut.fits(n as nat),
    ensures
        ascending(cut.shown(n as nat)),
        cut.shown(n as nat).len() == cut.count(n as nat) <= n,
        forall|j: int| 0 <= j < cut.shown(n as nat).len() ==> #[trigger] cut.shown(n as nat)[j] < n,
        forall|i: usize|
            i < n ==> (#[trigger] cut.shown(n as nat).contains(i) <==> cut.keeps(
                n as nat,
                i as int,
            )),
{
    let s = cut.shown(n as nat);
    match cut {
        Cut::All => {
            assert forall|i: usize| i < n implies #[trigger] s.contains(i) by {
                assert(s[i as int] == i);
            }
        },
        Cut::Ends { head, tail, extra } => {
            let h = head as int;
            let e = extra.len() as int;
            ascending_fits(extra, h, n - tail);
            assert forall|i: usize| i < n && cut.keeps(
                n as nat,
                i as int,
            ) implies #[trigger] s.contains(i) by {
                if i < head {
                    assert(s[i as int] == i);
                } else if i >= n - tail {
                    assert(s[h + e + (i - (n - tail))] == i);
                } else {
                    let j = extra.index_of(i);
                    assert(s[h + j] == i);
                }
            }
            assert forall|i: usize| i < n && #[trigger] s.contains(i) implies cut.keeps(
                n as nat,
                i as int,
            ) by {
                let j = s.index_of(i);
                if h <= j < h + e {
                    assert(extra[j - h] == i);
                }
            }
        },
    }
}

/// Strictly increasing numbers from a range are no more than the range holds.
pub(crate) proof fn ascending_fits(s: Seq<usize>, lo: int, hi: int)
    requires
        ascending(s),
        lo <= hi,
        forall|j: int| 0 <= j < s.len() ==> lo <= #[trigger] s[j] < hi,
    ensures
        s.len() <= hi - lo,
    decreases s.len(),
{
    if s.len() > 0 {
        let t = s.drop_last();
        assert forall|j: int| 0 <= j < t.len() implies lo <= #[trigger] t[j] < s.last() by {
            assert(s[j] < s[s.len() - 1]);
        }
        assert(lo <= s[s.len() - 1] < hi);
        ascending_fits(t, lo, s.last() as int);
    }
}

/// Keeping an entry keeps the cut well formed, keeps what was kept and that
/// entry, and nothing else.
pub proof fn keeping_is_exact(cut: Cut, n: usize, i: usize)
    requires
        cut.fits(n as nat),
        i < n,
    ensures
        cut.keeping(n as nat, i).fits(n as nat),
        forall|j: int|
            0 <= j < n ==> (#[trigger] cut.keeping(n as nat, i).keeps(n as nat, j) <==> cut.keeps(
                n as nat,
                j,
            ) || j == i),
{
    if let Cut::Ends { head, tail, extra } = cut {
        if !cut.keeps(n as nat, i as int) {
            let at = rank(extra, i) as int;
            rank_splits(extra, i);
            assert forall|l: int| at <= l < extra.len() implies extra[l] > i by {
                assert(extra.contains(extra[l]));
            }
            let after = extra.insert(at, i);
            assert forall|j: usize| #[trigger] after.contains(j) <==> extra.contains(j) || j
                == i by {
                if extra.contains(j) {
                    let l = extra.index_of(j);
                    assert(after[if l < at { l } else { l + 1 }] == j);
                }
                if j == i {
                    assert(after[at] == j);
                }
                if after.contains(j) && j != i {
                    let l = after.index_of(j);
                    assert(extra[if l < at { l } else { l - 1 }] == j);
                }
            }
        }
    }
}

/// The slots of a row stand for every entry of the side, once each: one for a
/// node, as many as it says for a gap.
pub proof fn a_row_stands_for_the_side(cut: Cut, n: usize)
    requires
        cut.fits(n as nat),
    ensures
        row_width(cut.row(n as nat)) == n,
{
    shown_is_exact(cut, n);
    row_after_width(cut.shown(n as nat), -1, n);
}

proof fn row_after_width(shown: Seq<usize>, last: int, n: usize)
    requires
        -1 <= last < n || n == 0 && last == -1,
        ascending(shown),
        forall|j: int| 0 <= j < shown.len() ==> last < #[trigger] shown[j] < n,
    ensures
        row_width(row_after(shown, last, n as int)) == n - 1 - last,
    decreases shown.len(),
{
    reveal_with_fuel(row_width, 2);
    if shown.len() == 0 {
        assert(gap(n - 1 - last).len() <= 1);
    } else {
        let rest = shown.drop_first();
        assert forall|j: int| 0 <= j < rest.len() implies shown[0] < #[trigger] rest[j] < n by {
            assert(shown[0] < shown[j + 1]);
        }
        row_after_width(rest, shown[0] as int, n);
        let g = gap(shown[0] - last - 1);
        let m = seq![Slot::Node(shown[0])];
        row_width_concat(g, m);
        row_width_concat(g + m, row_after(rest, shown[0] as int, n as int));
    }
}

pub(crate) proof fn row_width_concat(a: Seq<Slot>, b: Seq<Slot>)
    ensures
        row_width(a + b) == row_width(a) + row_width(b),
    decreases b.len(),
{
    if b.len() == 0 {
        assert(a + b =~= a);
    } else {
        assert((a + b).drop_last() =~= a + b.drop_last());
        row_width_concat(a, b.drop_last());
    }
}

/// Whether `list` holds `i`.
pub fn listed(list: &Vec<usize>, i: usize) -> (held: bool)
    ensures
        held == list@.contains(i),
{
    for j in 0..list.len()
        invariant
            forall|l: int| 0 <= l < j ==> list@[l] != i,
    {
        if list[j] == i {
            assert(list@[j as int] == i);
            return true;
        }
    }
    false
}

impl Kept {
    /// What a cap of `fanout` keeps of `n` entries: both ends, half the
    /// allowance each, because a block's outputs are a contiguous range and
    /// what hangs off the last is not what hangs off the first.
    pub fn of(n: usize, fanout: Option<usize>) -> (kept: Kept)
        ensures
            kept@ == Cut::of(n as nat, fanout),
            kept@.fits(n as nat),
    {
        match fanout {
            Some(k) if n > k => {
                let head: usize = k / 2 + k % 2;
                Kept::Ends { head, tail: k - head, extra: Vec::new() }
            },
            _ => Kept::All,
        }
    }

    /// The indices actually drawn, in order.
    pub fn indices(&self, n: usize) -> (drawn: Vec<usize>)
        requires
            self@.fits(n as nat),
        ensures
            drawn@ == self@.shown(n as nat),
    {
        let mut drawn: Vec<usize> = Vec::new();
        match self {
            Kept::All => {
                for i in 0..n
                    invariant
                        drawn@ == span(0, i as int),
                {
                    drawn.push(i);
                    assert(drawn@ =~= span(0, i + 1));
                }
            },
            Kept::Ends { head, tail, extra } => {
                for i in 0..*head
                    invariant
                        drawn@ == span(0, i as int),
                {
                    drawn.push(i);
                    assert(drawn@ =~= span(0, i + 1));
                }
                let ghost front = drawn@;
                for j in 0..extra.len()
                    invariant
                        drawn@ == front + extra@.take(j as int),
                {
                    drawn.push(extra[j]);
                    assert(drawn@ =~= front + extra@.take(j + 1));
                }
                let ghost middle = drawn@;
                assert(middle =~= front + extra@);
                let from: usize = n - *tail;
                for i in from..n
                    invariant
                        from <= i,
                        drawn@ == middle + span(from as int, i as int),
                {
                    drawn.push(i);
                    assert(drawn@ =~= middle + span(from as int, i + 1));
                }
            },
        }
        assert(drawn@ =~= self@.shown(n as nat));
        drawn
    }

    /// Whether entry `i` of a side of `n` is kept.
    pub fn contains(&self, n: usize, i: usize) -> (kept: bool)
        requires
            self@.fits(n as nat),
        ensures
            kept == self@.keeps(n as nat, i as int),
    {
        match self {
            Kept::All => i < n,
            Kept::Ends { head, tail, extra } => {
                i < *head || i >= n - *tail || listed(extra, i)
            },
        }
    }

    /// Un-hides entry `i`: kept from now on, at its own place.
    pub fn keep(&mut self, n: usize, i: usize)
        requires
            old(self)@.fits(n as nat),
            i < n,
        ensures
            final(self)@ == old(self)@.keeping(n as nat, i),
            final(self)@.fits(n as nat),
    {
        proof {
            keeping_is_exact(self@, n, i);
        }
        if self.contains(n, i) {
            return;
        }
        match self {
            Kept::All => {},
            Kept::Ends { head, tail, extra } => {
                let ghost before = extra@;
                proof {
                    rank_splits(before, i);
                }
                let mut at: usize = 0;
                while at < extra.len() && extra[at] < i
                    invariant
                        extra@ == before,
                        at <= rank(before, i) <= before.len(),
                        forall|l: int| rank(before, i) <= l < before.len() ==> before[l] >= i,
                    decreases extra@.len() - at,
                {
                    at += 1;
                }
                assert(at == rank(before, i)) by {
                    if at < rank(before, i) {
                        assert(before[at as int] < i);
                    }
                }
                extra.insert(at, i);
            },
        }
    }

    /// The row as it is drawn: every kept entry at its place and one gap,
    /// saying how many, for every run of hidden entries between two kept ones
    /// or at either end.
    pub fn slots(&self, n: usize) -> (out: Vec<Slot>)
        requires
            self@.fits(n as nat),
        ensures
            out@ == self@.row(n as nat),
    {
        let drawn = self.indices(n);
        proof {
            shown_is_exact(self@, n);
        }
        let mut out: Vec<Slot> = Vec::new();
        // One past the last entry that has a slot.
        let mut next: usize = 0;
        let mut k: usize = 0;
        assert(drawn@.skip(0) =~= drawn@);
        assert(out@ + self@.row(n as nat) =~= self@.row(n as nat));
        while k < drawn.len()
            invariant
                k <= drawn@.len(),
                next <= n,
                ascending(drawn@),
                forall|j: int| 0 <= j < drawn@.len() ==> #[trigger] drawn@[j] < n,
                forall|j: int| k <= j < drawn@.len() ==> next <= #[trigger] drawn@[j],
                out@ + row_after(drawn@.skip(k as int), next - 1, n as int) == self@.row(n as nat),
            decreases drawn@.len() - k,
        {
            let i: usize = drawn[k];
            let ghost rest = drawn@.skip(k as int);
            let ghost held = out@;
            if i > next {
                out.push(Slot::Gap(i - next));
            }
            out.push(Slot::Node(i));
            assert(out@ =~= held + gap(i - next) + seq![Slot::Node(i)]);
            assert(rest.drop_first() =~= drawn@.skip(k + 1));
            assert(out@ + row_after(drawn@.skip(k + 1), i as int, n as int) =~= held + row_after(
                rest,
                next - 1,
                n as int,
            ));
            next = i + 1;
            k += 1;
        }
        let ghost held = out@;
        if n > next {
            out.push(Slot::Gap(n - next));
        }
        assert(out@ =~= held + gap(n - next));
        out
    }

    /// How many entries of a side of `n` are kept.
    pub fn count(&self, n: usize) -> (kept: usize)
        requires
            self@.fits(n as nat),
        ensures
            kept == self@.count(n as nat),
            kept <= n,
    {
        proof {
            shown_is_exact(self@, n);
        }
        match self {
            Kept::All => n,
            Kept::Ends { head, tail, extra } => *head + *tail + extra.len(),
        }
    }

    /// How many entries of a side of `n` are hidden.
    pub fn hidden(&self, n: usize) -> (hidden: usize)
        requires
            self@.fits(n as nat),
        ensures
            hidden == n - self@.count(n as nat),
    {
        n - self.count(n)
    }

    /// Whether anything is hidden: a side whose every hidden entry was
    /// un-hidden is whole again.
    pub fn is_cut(&self, n: usize) -> (cut: bool)
        requires
            self@.fits(n as nat),
        ensures
            cut == (self@.count(n as nat) < n),
    {
        self.hidden(n) > 0
    }
}

} // verus!
