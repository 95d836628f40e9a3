//! Which transaction each record is, kept as the first id and the few places where
//! the ids do not go up by one.
//!
//! The id of a record is that of the last break at or before it, plus the distance
//! to it.

use vstd::prelude::*;
use vstd::string::*;

use crate::bytes::{little, little_len, push_little};

verus! {

/// How many breaks are kept: a run of more is no run.
pub const BREAKS_MAX: usize = 65_536;

/// A run of ids as a mathematical value.
pub struct Run {
    pub first: u32,
    /// The id the next record has if the run goes on.
    pub expected: u32,
    pub records: nat,
    /// Where the run breaks, and the id there.
    pub breaks: Seq<(u32, u32)>,
}

/// `n` as a number of 32 bits holds it.
pub open spec fn wrapped(n: int) -> u32 {
    (n % 0x1_0000_0000) as u32
}

/// A run of nothing.
pub open spec fn no_run() -> Run {
    Run { first: 0, expected: 0, records: 0, breaks: Seq::empty() }
}

/// What is said of a break past what the table can name.
pub open spec fn too_far() -> Seq<char> {
    "the transaction-id run breaks past record 4,294,967,295, which the break table cannot name; drop --index and keep the moments file"@
}

/// What is said of too many breaks.
pub open spec fn too_broken() -> Seq<char> {
    "--index names a record by counting from the first transaction id and listing where the count breaks; the 2022 chain breaks 4 times and this input has broken 65536, so it is not a run of transactions in file order; drop --index and keep the moments file"@
}

/// The run after one id more.
pub open spec fn run_on(run: Run, tx: u32) -> Result<Run, Seq<char>> {
    let next = Run { expected: wrapped(tx + 1), records: run.records + 1, ..run };
    if run.records == 0 {
        Ok(Run { first: tx, ..next })
    } else if tx == run.expected {
        Ok(next)
    } else if run.records > u32::MAX {
        Err(too_far())
    } else if run.breaks.len() == BREAKS_MAX {
        Err(too_broken())
    } else {
        Ok(Run { breaks: run.breaks.push((run.records as u32, tx)), ..next })
    }
}

/// The run of these ids.
pub open spec fn run_of(ids: Seq<u32>) -> Result<Run, Seq<char>>
    decreases ids.len(),
{
    if ids.len() == 0 {
        Ok(no_run())
    } else {
        match run_of(ids.drop_last()) {
            Ok(run) => run_on(run, ids.last()),
            Err(e) => Err(e),
        }
    }
}

/// The id of record `k`: that of the last break at or before it, or the first id,
/// plus the distance to it.
pub open spec fn id_at(first: u32, breaks: Seq<(u32, u32)>, k: int) -> u32
    decreases breaks.len(),
{
    if breaks.len() == 0 {
        wrapped(first + k)
    } else if breaks.last().0 <= k {
        wrapped(breaks.last().1 + k - breaks.last().0)
    } else {
        id_at(first, breaks.drop_last(), k)
    }
}

/// A run of ids being read.
pub struct IdRuns {
    first: u32,
    expected: u32,
    records: u64,
    breaks: Vec<(u32, u32)>,
}

/// The breaks from the `k`th on, eight bytes each.
pub open spec fn breaks_from(breaks: Seq<(u32, u32)>, k: int) -> Seq<u8>
    decreases breaks.len() - k,
{
    if k >= breaks.len() {
        Seq::empty()
    } else {
        little(breaks[k].0 as nat, 4) + little(breaks[k].1 as nat, 4) + breaks_from(breaks, k + 1)
    }
}

/// What a file of indices begins with: the size of its palette along both axes,
/// the six numbers that its axes are cut by, sixteen bytes for what is known only
/// at its end, and how long the palette is. The six are the bits of
/// floating-point numbers.
pub open spec fn index_head(hues: u16, mixes: u16, axes: Seq<u64>, palette: u32) -> Seq<u8> {
    seq![0x54u8, 0x49, 0x4e, 0x54, 0x49, 0x44, 0x58, 0x31] + little(hues as nat, 2) + little(
        mixes as nat,
        2,
    ) + axes_from(axes, 0) + little(0, 16) + little(palette as nat, 4)
}

/// The axes from the `k`th on, eight bytes each.
pub open spec fn axes_from(axes: Seq<u64>, k: int) -> Seq<u8>
    decreases axes.len() - k,
{
    if k >= axes.len() {
        Seq::empty()
    } else {
        little(axes[k] as nat, 8) + axes_from(axes, k + 1)
    }
}

/// What a file of indices begins with.
pub fn write_head(hues: u16, mixes: u16, axes: &[u64; 6], palette: u32) -> (out: Vec<u8>)
    ensures
        out@ == index_head(hues, mixes, axes@, palette),
        out@.len() == 80,
{
    let magic: [u8; 8] = [0x54, 0x49, 0x4e, 0x54, 0x49, 0x44, 0x58, 0x31];
    let mut out: Vec<u8> = Vec::new();
    out.extend_from_slice(magic.as_slice());
    push_little(&mut out, hues as u64, 2);
    push_little(&mut out, mixes as u64, 2);
    let ghost front = out@;
    let mut k: usize = 0;
    while k < 6
        invariant
            k <= 6,
            out@ + axes_from(axes@, k as int) == front + axes_from(axes@, 0),
            out@.len() == front.len() + 8 * k,
        decreases 6 - k,
    {
        let ghost before = out@;
        push_little(&mut out, axes[k], 8);
        proof {
            little_len(axes@[k as int] as nat, 8);
            assert(out@ + axes_from(axes@, k + 1) =~= before + axes_from(axes@, k as int));
        }
        k += 1;
    }
    push_little(&mut out, 0, 16);
    push_little(&mut out, palette as u64, 4);
    proof {
        little_len(hues as nat, 2);
        little_len(mixes as nat, 2);
        little_len(0, 16);
        little_len(palette as nat, 4);
        assert(out@ =~= index_head(hues, mixes, axes@, palette));
    }
    out
}

impl IdRuns {
    /// The run so far.
    pub closed spec fn run(&self) -> Run {
        Run {
            first: self.first,
            expected: self.expected,
            records: self.records as nat,
            breaks: self.breaks@,
        }
    }

    /// A run of nothing.
    pub fn new() -> (r: IdRuns)
        ensures
            r.run() == no_run(),
    {
        let r = IdRuns { first: 0, expected: 0, records: 0, breaks: Vec::new() };
        assert(r.breaks@ =~= Seq::<(u32, u32)>::empty());
        r
    }

    /// Reads one id more.
    pub fn take(&mut self, tx: u32) -> (r: Result<(), String>)
        requires
            old(self).run().records < u64::MAX,
        ensures
            match r {
                Ok(()) => run_on(old(self).run(), tx) == Ok::<Run, Seq<char>>(final(self).run()),
                Err(e) => run_on(old(self).run(), tx) == Err::<Run, Seq<char>>(e@)
                    && *final(self) == *old(self),
            },
    {
        let next: u32 = if tx == u32::MAX {
            0
        } else {
            tx + 1
        };
        assert(next == wrapped(tx + 1));
        if self.records == 0 {
            self.first = tx;
        } else if tx != self.expected {
            if self.records > u32::MAX as u64 {
                return Err(
                    "the transaction-id run breaks past record 4,294,967,295, which the break table cannot name; drop --index and keep the moments file".to_owned(),
                );
            }
            if self.breaks.len() == BREAKS_MAX {
                return Err(
                    "--index names a record by counting from the first transaction id and listing where the count breaks; the 2022 chain breaks 4 times and this input has broken 65536, so it is not a run of transactions in file order; drop --index and keep the moments file".to_owned(),
                );
            }
            self.breaks.push((self.records as u32, tx));
        }
        self.expected = next;
        self.records = self.records + 1;
        Ok(())
    }

    /// How many breaks there are.
    pub fn breaks(&self) -> (n: usize)
        ensures
            n == self.run().breaks.len(),
    {
        self.breaks.len()
    }

    /// The counts that are known once the ids are: how many records, the first id,
    /// and how many breaks.
    pub fn counts(&self) -> (out: Vec<u8>)
        ensures
            out@ == little(self.run().records, 8) + little(self.run().first as nat, 4) + little(
                self.run().breaks.len() % 0x1_0000_0000,
                4,
            ),
    {
        let mut out: Vec<u8> = Vec::new();
        push_little(&mut out, self.records, 8);
        push_little(&mut out, self.first as u64, 4);
        push_little(&mut out, (self.breaks.len() as u64) % 0x1_0000_0000, 4);
        assert(out@ =~= little(self.run().records, 8) + little(self.run().first as nat, 4)
            + little(self.run().breaks.len() % 0x1_0000_0000, 4));
        out
    }

    /// The table of breaks.
    pub fn table(&self) -> (out: Vec<u8>)
        ensures
            out@ == breaks_from(self.run().breaks, 0),
    {
        let mut out: Vec<u8> = Vec::new();
        let ghost all = breaks_from(self.breaks@, 0);
        let mut k: usize = 0;
        assert(out@ + breaks_from(self.breaks@, 0) =~= all);
        while k < self.breaks.len()
            invariant
                k <= self.breaks@.len(),
                all == breaks_from(self.breaks@, 0),
                out@ + breaks_from(self.breaks@, k as int) == all,
            decreases self.breaks@.len() - k,
        {
            let ghost before = out@;
            let b = self.breaks[k];
            push_little(&mut out, b.0 as u64, 4);
            push_little(&mut out, b.1 as u64, 4);
            assert(out@ + breaks_from(self.breaks@, k + 1) =~= before + breaks_from(
                self.breaks@,
                k as int,
            ));
            k += 1;
        }
        assert(out@ =~= all);
        out
    }
}

/// What holds of every run of ids.
spec fn holds(run: Run, ids: Seq<u32>) -> bool {
    &&& run.records == ids.len()
    &&& forall|k: int| 0 <= k < ids.len() ==> id_at(run.first, run.breaks, k) == #[trigger] ids[k]
    &&& ids.len() > 0 ==> run.expected == wrapped(ids.last() + 1)
    &&& run.breaks.len() > 0 ==> run.breaks.last().0 < ids.len()
    &&& ids.len() == 0 ==> run.breaks.len() == 0
}

proof fn the_next_id(first: u32, breaks: Seq<(u32, u32)>, k: int)
    requires
        0 <= k,
        breaks.len() > 0 ==> breaks.last().0 <= k,
    ensures
        id_at(first, breaks, k + 1) == wrapped(id_at(first, breaks, k) + 1),
{
    let (from, at) = if breaks.len() == 0 {
        (first as int, 0)
    } else {
        (breaks.last().1 as int, breaks.last().0 as int)
    };
    let n = from + k - at;
    assert((n + 1) % 0x1_0000_0000 == (n % 0x1_0000_0000 + 1) % 0x1_0000_0000);
}

proof fn running_on(run: Run, ids: Seq<u32>, tx: u32)
    requires
        holds(run, ids),
        run_on(run, tx) is Ok,
    ensures
        holds(run_on(run, tx)->Ok_0, ids.push(tx)),
{
    let next = run_on(run, tx)->Ok_0;
    let all = ids.push(tx);
    let n = ids.len() as int;
    assert forall|k: int| 0 <= k < all.len() implies id_at(next.first, next.breaks, k)
        == #[trigger] all[k] by {
        if n == 0 {
        } else if next.breaks.len() > run.breaks.len() {
            assert(next.breaks.drop_last() =~= run.breaks);
            if k < n {
                assert(id_at(run.first, run.breaks, k) == ids[k]);
            }
        } else if k < n {
            assert(id_at(run.first, run.breaks, k) == ids[k]);
        } else {
            assert(id_at(run.first, run.breaks, n - 1) == ids[n - 1]);
            the_next_id(run.first, run.breaks, n - 1);
        }
    }
}

proof fn a_run_holds(ids: Seq<u32>)
    requires
        run_of(ids) is Ok,
    ensures
        holds(run_of(ids)->Ok_0, ids),
    decreases ids.len(),
{
    if ids.len() > 0 {
        let front = ids.drop_last();
        a_run_holds(front);
        running_on(run_of(front)->Ok_0, front, ids.last());
        assert(front.push(ids.last()) =~= ids);
    }
}

/// Every id is rebuilt exactly from the first one and the breaks.
pub proof fn ids_are_rebuilt(ids: Seq<u32>, k: int)
    requires
        run_of(ids) is Ok,
        0 <= k < ids.len(),
    ensures
        ({
            let run = run_of(ids)->Ok_0;
            id_at(run.first, run.breaks, k) == ids[k]
        }),
{
    a_run_holds(ids);
}

} // verus!
