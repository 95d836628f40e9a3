//! When each transaction is spent for the last time.
//!
//! A colour is wanted no longer than until the last record that spends it; with
//! the whole file in hand that is known. Records come in order, so noting every
//! spend leaves the last one.

use vstd::prelude::*;
use vstd::string::*;

use crate::bytes::{little, push_little};
use crate::records::{Input, Record, RecordView};
use crate::text::{dec, push_dec, push_wide};

verus! {

/// A transaction that nothing spends.
pub const NEVER: u32 = u32::MAX;

/// Whether one of the inputs spends transaction `t`.
pub open spec fn spends(inputs: Seq<Input>, t: int) -> bool {
    exists|j: int| 0 <= j < inputs.len() && (#[trigger] inputs[j]).prev_tx_id == t
}

/// The table with room for transaction `t`.
pub open spec fn widened(table: Seq<u32>, t: usize) -> Seq<u32> {
    if t < table.len() {
        table
    } else {
        table + Seq::new((t + 1 - table.len()) as nat, |i: int| NEVER)
    }
}

/// The table after the inputs from the `j`th on were noted as those of record
/// `index`.
pub open spec fn noted(table: Seq<u32>, inputs: Seq<Input>, index: u32, j: int) -> Seq<u32>
    decreases inputs.len() - j,
{
    if j >= inputs.len() {
        table
    } else {
        let t = inputs[j].prev_tx_id;
        noted(widened(table, t).update(t as int, index), inputs, index, j + 1)
    }
}

/// The table after a record more.
pub open spec fn after_record(table: Seq<u32>, r: RecordView, index: u32) -> Seq<u32> {
    widened(noted(table, r.inputs, index, 0), r.tx_id)
}

/// The table of these records.
pub open spec fn table_of(records: Seq<RecordView>) -> Seq<u32>
    decreases records.len(),
{
    if records.len() == 0 {
        Seq::empty()
    } else {
        after_record(
            table_of(records.drop_last()),
            records.last(),
            (records.len() - 1) as u32,
        )
    }
}

/// What is said of more records than a number of the table can name.
pub open spec fn too_many_records() -> Seq<char> {
    "more than 4 billion records; the oracle would need a u64"@
}

/// Whether every transaction a record names can be given a place.
pub open spec fn placeable(r: RecordView) -> bool {
    &&& r.tx_id < usize::MAX
    &&& forall|j: int| 0 <= j < r.inputs.len() ==> (#[trigger] r.inputs[j]).prev_tx_id < usize::MAX
}

fn widen(table: &mut Vec<u32>, t: usize)
    requires
        t < usize::MAX,
    ensures
        final(table)@ == widened(old(table)@, t),
{
    while table.len() <= t
        invariant
            t < usize::MAX,
            old(table)@.len() <= table@.len(),
            table@.len() <= t + 1 || table@ == old(table)@,
            table@ == old(table)@ + Seq::new(
                (table@.len() - old(table)@.len()) as nat,
                |i: int| NEVER,
            ),
        decreases t + 1 - table@.len(),
    {
        let ghost before = table@;
        table.push(NEVER);
        assert(table@ =~= old(table)@ + Seq::new(
            (table@.len() - old(table)@.len()) as nat,
            |i: int| NEVER,
        ));
    }
    assert(table@ =~= widened(old(table)@, t));
}

/// What an oracle's file begins with.
pub open spec fn magic() -> Seq<u8> {
    seq![0x4c, 0x41, 0x53, 0x54, 0x53, 0x50, 0x4e, 0x31]
}

/// The numbers of a table from the `k`th on, four bytes each.
pub open spec fn numbers_from(table: Seq<u32>, k: int) -> Seq<u8>
    decreases table.len() - k,
{
    if k >= table.len() {
        Seq::empty()
    } else {
        little(table[k] as nat, 4) + numbers_from(table, k + 1)
    }
}

/// An oracle as a file: how many records it is of, how many transactions there
/// are, and the last spend of each.
pub open spec fn oracle_file(table: Seq<u32>, records: nat) -> Seq<u8> {
    magic() + little(records, 8) + little(table.len(), 8) + numbers_from(table, 0)
}

/// How many transactions nothing spends.
pub open spec fn never_spent(table: Seq<u32>) -> nat
    decreases table.len(),
{
    if table.len() == 0 {
        0
    } else {
        never_spent(table.drop_last()) + if table.last() == NEVER {
            1nat
        } else {
            0
        }
    }
}

/// The last spend of every transaction, so far.
pub struct Oracle {
    last: Vec<u32>,
    records: u64,
}

impl Oracle {
    /// The last spend of every transaction, by its id.
    pub closed spec fn table(&self) -> Seq<u32> {
        self.last@
    }

    /// How many records were noted.
    pub closed spec fn count(&self) -> nat {
        self.records as nat
    }

    /// An oracle of nothing.
    pub fn new() -> (o: Oracle)
        ensures
            o.table() == Seq::<u32>::empty(),
            o.count() == 0,
    {
        let o = Oracle { last: Vec::new(), records: 0 };
        assert(o.last@ =~= Seq::<u32>::empty());
        o
    }

    /// Notes a record, unless there are more of them than a number of the table
    /// can name.
    pub fn take(&mut self, record: &Record) -> (r: Result<(), String>)
        requires
            placeable(record@),
        ensures
            match r {
                Ok(()) => {
                    &&& old(self).count() <= u32::MAX
                    &&& final(self).table() == after_record(
                        old(self).table(),
                        record@,
                        old(self).count() as u32,
                    )
                    &&& final(self).count() == old(self).count() + 1
                },
                Err(e) => old(self).count() > u32::MAX && e@ == too_many_records()
                    && *final(self) == *old(self),
            },
    {
        if self.records > u32::MAX as u64 {
            return Err("more than 4 billion records; the oracle would need a u64".to_owned());
        }
        let index: u32 = self.records as u32;
        let ghost r = record@;
        let ghost start = self.last@;
        let mut j: usize = 0;
        while j < record.inputs.len()
            invariant
                j <= record.inputs@.len(),
                r == record@,
                placeable(r),
                self.records == old(self).records,
                noted(start, r.inputs, index, 0) == noted(self.last@, r.inputs, index, j as int),
            decreases record.inputs@.len() - j,
        {
            let t: usize = record.inputs[j].prev_tx_id;
            assert(r.inputs[j as int].prev_tx_id < usize::MAX);
            widen(&mut self.last, t);
            self.last.set(t, index);
            j += 1;
        }
        widen(&mut self.last, record.tx_id);
        self.records = self.records + 1;
        Ok(())
    }

    /// How many transactions there are.
    pub fn len(&self) -> (n: usize)
        ensures
            n == self.table().len(),
    {
        self.last.len()
    }

    /// How many of them nothing spends.
    pub fn never(&self) -> (n: usize)
        ensures
            n == never_spent(self.table()),
            n <= self.table().len(),
    {
        let mut n: usize = 0;
        let mut i: usize = 0;
        while i < self.last.len()
            invariant
                n <= i <= self.last@.len(),
                n == never_spent(self.last@.take(i as int)),
            decreases self.last@.len() - i,
        {
            assert(self.last@.take(i + 1).drop_last() =~= self.last@.take(i as int));
            if self.last[i] == NEVER {
                n += 1;
            }
            i += 1;
        }
        assert(self.last@.take(i as int) =~= self.last@);
        n
    }

    /// The oracle as a file.
    pub fn file(&self) -> (out: Vec<u8>)
        ensures
            out@ == oracle_file(self.table(), self.count()),
    {
        let start: [u8; 8] = [0x4c, 0x41, 0x53, 0x54, 0x53, 0x50, 0x4e, 0x31];
        let mut out: Vec<u8> = Vec::new();
        out.extend_from_slice(start.as_slice());
        assert(out@ =~= magic());
        push_little(&mut out, self.records, 8);
        push_little(&mut out, self.last.len() as u64, 8);
        let ghost front = out@;
        let mut k: usize = 0;
        assert(out@ + numbers_from(self.last@, 0) =~= front + numbers_from(self.last@, 0));
        while k < self.last.len()
            invariant
                k <= self.last@.len(),
                out@ + numbers_from(self.last@, k as int) == front + numbers_from(self.last@, 0),
            decreases self.last@.len() - k,
        {
            let ghost before = out@;
            push_little(&mut out, self.last[k] as u64, 4);
            assert(out@ + numbers_from(self.last@, k + 1) =~= before + numbers_from(
                self.last@,
                k as int,
            ));
            k += 1;
        }
        assert(out@ =~= oracle_file(self.table(), self.count()));
        out
    }

    /// What a run says: `share` is how many of a hundred nothing spends, as text.
    pub fn summary(&self, share: &str) -> (s: String)
        ensures
            s@ == "lastspend: "@ + dec(self.count()) + " records, "@ + dec(self.table().len())
                + " transactions, "@ + dec(never_spent(self.table())) + " never spent ("@ + share@
                + "%), "@ + dec(24 + 4 * self.table().len()) + " bytes"@,
    {
        let mut s = "lastspend: ".to_owned();
        push_dec(&mut s, self.records);
        s.append(" records, ");
        push_dec(&mut s, self.last.len() as u64);
        s.append(" transactions, ");
        push_dec(&mut s, self.never() as u64);
        s.append(" never spent (");
        s.append(share);
        s.append("%), ");
        push_wide(&mut s, 24 + 4 * (self.last.len() as u128));
        s.append(" bytes");
        s
    }
}

/// The record that spends transaction `t` last, of those before the `k`th.
pub open spec fn last_spender(records: Seq<RecordView>, t: int, k: int) -> Option<int>
    decreases k,
{
    if k <= 0 {
        None
    } else if spends(records[k - 1].inputs, t) {
        Some(k - 1)
    } else {
        last_spender(records, t, k - 1)
    }
}

/// What the table says of transaction `t`.
pub open spec fn said(table: Seq<u32>, t: int) -> u32 {
    if 0 <= t < table.len() {
        table[t]
    } else {
        NEVER
    }
}

proof fn noting(table: Seq<u32>, inputs: Seq<Input>, index: u32, j: int, t: int)
    requires
        0 <= j <= inputs.len(),
        0 <= t,
    ensures
        said(noted(table, inputs, index, j), t) == if spends(inputs.skip(j), t) {
            index
        } else {
            said(table, t)
        },
    decreases inputs.len() - j,
{
    let rest = inputs.skip(j);
    if j < inputs.len() {
        let u = inputs[j].prev_tx_id;
        let next = widened(table, u).update(u as int, index);
        noting(next, inputs, index, j + 1, t);
        let after = inputs.skip(j + 1);
        assert(rest[0] == inputs[j]);
        if spends(after, t) {
            let i = choose|i: int| 0 <= i < after.len() && (#[trigger] after[i]).prev_tx_id == t;
            assert(rest[i + 1] == after[i]);
        }
        if spends(rest, t) && t != u {
            let i = choose|i: int| 0 <= i < rest.len() && (#[trigger] rest[i]).prev_tx_id == t;
            assert(after[i - 1] == rest[i]);
        }
    }
}

/// The table has the last record that spends each transaction, and says of the
/// others that nothing does.
pub proof fn the_table_has_the_last_spends(records: Seq<RecordView>, t: int)
    requires
        0 <= t,
        records.len() <= u32::MAX,
    ensures
        said(table_of(records), t) == match last_spender(records, t, records.len() as int) {
            Some(i) => i as u32,
            None => NEVER,
        },
    decreases records.len(),
{
    if records.len() > 0 {
        let front = records.drop_last();
        let n = front.len() as int;
        the_table_has_the_last_spends(front, t);
        same_spenders(records, front, t, n);
        let r = records.last();
        noting(table_of(front), r.inputs, n as u32, 0, t);
        assert(r.inputs.skip(0) =~= r.inputs);
    }
}

proof fn same_spenders(a: Seq<RecordView>, b: Seq<RecordView>, t: int, k: int)
    requires
        k <= a.len(),
        k <= b.len(),
        forall|i: int| 0 <= i < k ==> a[i] == #[trigger] b[i],
    ensures
        last_spender(a, t, k) == last_spender(b, t, k),
    decreases k,
{
    if k > 0 {
        assert(a[k - 1] == b[k - 1]);
        same_spenders(a, b, t, k - 1);
    }
}

/// A colour may be let go after its last spend: no record after it spends the
/// transaction, and none does at all where the table says so.
pub proof fn nothing_is_wanted_after_its_last_spend(records: Seq<RecordView>, t: int, i: int)
    requires
        0 <= t,
        records.len() <= u32::MAX,
        0 <= i < records.len(),
        said(table_of(records), t) == NEVER || said(table_of(records), t) < i,
    ensures
        !spends(records[i].inputs, t),
{
    the_table_has_the_last_spends(records, t);
    spender_within(records, t, records.len() as int);
    none_after(records, t, records.len() as int, i);
}

proof fn spender_within(records: Seq<RecordView>, t: int, k: int)
    ensures
        last_spender(records, t, k) matches Some(i) ==> 0 <= i < k,
    decreases k,
{
    if k > 0 {
        spender_within(records, t, k - 1);
    }
}

proof fn none_after(records: Seq<RecordView>, t: int, k: int, i: int)
    requires
        0 <= i < k <= records.len() <= u32::MAX,
        match last_spender(records, t, k) {
            Some(l) => l < i,
            None => true,
        },
    ensures
        !spends(records[i].inputs, t),
    decreases k,
{
    if i < k - 1 {
        none_after(records, t, k - 1, i);
    }
}

} // verus!
