//! The records as a sparse matrix: a row to a transaction, and in it the
//! transactions it spends.
//!
//! The rows lie end to end; a row is the columns from its pointer to the next. A
//! transaction that no record defines has an empty row, and so has one whose
//! record spends nothing, however often it is defined.

use vstd::prelude::*;
use vstd::string::*;

use crate::records::{Input, Record, RecordView};
use crate::text::{dec, push_dec};

verus! {

/// A matrix as a mathematical value.
pub struct Matrix {
    pub pointers: Seq<u32>,
    pub columns: Seq<u32>,
    pub records: nat,
    pub duplicates: nat,
}

/// A matrix without rows.
pub open spec fn no_rows() -> Matrix {
    Matrix { pointers: seq![0u32], columns: Seq::empty(), records: 0, duplicates: 0 }
}

/// How many rows there are.
pub open spec fn rows(m: Matrix) -> int {
    m.pointers.len() - 1
}

/// The transactions the inputs spend, as columns.
pub open spec fn columns_of(inputs: Seq<Input>) -> Seq<u32> {
    Seq::new(inputs.len(), |j: int| inputs[j].prev_tx_id as u32)
}

/// Whether every column can be named.
pub open spec fn nameable(inputs: Seq<Input>) -> bool {
    forall|j: int| 0 <= j < inputs.len() ==> (#[trigger] inputs[j]).prev_tx_id <= u32::MAX
}

/// What is said of a record whose row is closed and that spends something.
pub open spec fn redefined(record: nat, tx: usize, inputs: nat) -> Seq<char> {
    "record "@ + dec(record) + " redefines transaction "@ + dec(tx as nat) + " with "@ + dec(inputs)
        + " inputs, and its CSR row is already closed"@
}

/// What is said of a column or a pointer that does not fit.
pub open spec fn too_wide() -> Seq<char> {
    "a column or a row pointer is past 2^32, which the article's CSR stores as a u32"@
}

/// The same pointer so many times.
pub open spec fn repeated(pointer: u32, n: nat) -> Seq<u32> {
    Seq::new(n, |i: int| pointer)
}

/// The matrix after one record more.
pub open spec fn with_record(m: Matrix, r: RecordView) -> Result<Matrix, Seq<char>> {
    if r.tx_id < rows(m) {
        if r.inputs.len() > 0 {
            Err(redefined(m.records, r.tx_id, r.inputs.len()))
        } else {
            Ok(Matrix { records: m.records + 1, duplicates: m.duplicates + 1, ..m })
        }
    } else if !nameable(r.inputs) || m.columns.len() + r.inputs.len() > u32::MAX {
        Err(too_wide())
    } else {
        Ok(
            Matrix {
                pointers: m.pointers + repeated(
                    m.columns.len() as u32,
                    (r.tx_id - rows(m)) as nat,
                ) + seq![(m.columns.len() + r.inputs.len()) as u32],
                columns: m.columns + columns_of(r.inputs),
                records: m.records + 1,
                duplicates: m.duplicates,
            },
        )
    }
}

/// The matrix of these records.
pub open spec fn matrix_of(records: Seq<RecordView>) -> Result<Matrix, Seq<char>>
    decreases records.len(),
{
    if records.len() == 0 {
        Ok(no_rows())
    } else {
        match matrix_of(records.drop_last()) {
            Ok(m) => with_record(m, records.last()),
            Err(e) => Err(e),
        }
    }
}

/// What a record adds to a matrix: pointers and columns, each after those that are
/// there.
pub struct Piece {
    pub pointers: Vec<u32>,
    pub columns: Vec<u32>,
}

/// The matrix with a piece more.
pub open spec fn joined(m: Matrix, pointers: Seq<u32>, columns: Seq<u32>, duplicate: bool) -> Matrix {
    Matrix {
        pointers: m.pointers + pointers,
        columns: m.columns + columns,
        records: m.records + 1,
        duplicates: m.duplicates + if duplicate {
            1nat
        } else {
            0
        },
    }
}

/// Where the writing of a matrix is: only how much was written, not what.
pub struct Csr {
    next_row: u64,
    nonzeros: u64,
    records: u64,
    duplicates: u64,
    written: Ghost<Matrix>,
}

impl Csr {
    /// What was written.
    pub closed spec fn matrix(&self) -> Matrix {
        self.written@
    }

    /// The counts are those of what was written.
    #[verifier::type_invariant]
    closed spec fn counted(self) -> bool {
        &&& self.next_row == rows(self.written@)
        &&& self.nonzeros == self.written@.columns.len() <= u32::MAX
        &&& self.records == self.written@.records
        &&& self.duplicates == self.written@.duplicates
        &&& self.duplicates <= self.records
    }

    /// A matrix without rows: its pointers begin with a zero.
    pub fn new() -> (r: (Csr, Piece))
        ensures
            r.0.matrix() == no_rows(),
            r.1.pointers@ == no_rows().pointers,
            r.1.columns@ == no_rows().columns,
    {
        let mut pointers: Vec<u32> = Vec::new();
        pointers.push(0);
        let piece = Piece { pointers, columns: Vec::new() };
        assert(piece.pointers@ =~= seq![0u32]);
        assert(piece.columns@ =~= Seq::<u32>::empty());
        (
            Csr {
                next_row: 0,
                nonzeros: 0,
                records: 0,
                duplicates: 0,
                written: Ghost(no_rows()),
            },
            piece,
        )
    }

    /// What a record adds, or why it cannot be added.
    pub fn take(&mut self, record: &Record) -> (r: Result<Piece, String>)
        requires
            old(self).matrix().records < u64::MAX,
            record.tx_id < u64::MAX,
        ensures
            match r {
                Ok(piece) => {
                    &&& with_record(old(self).matrix(), record@) == Ok::<Matrix, Seq<char>>(
                        final(self).matrix(),
                    )
                    &&& final(self).matrix() == joined(
                        old(self).matrix(),
                        piece.pointers@,
                        piece.columns@,
                        record.tx_id < rows(old(self).matrix()),
                    )
                },
                Err(e) => with_record(old(self).matrix(), record@) == Err::<Matrix, Seq<char>>(e@)
                    && *final(self) == *old(self),
            },
    {
        proof {
            use_type_invariant(&*self);
        }
        let ghost m = self.written@;
        let ghost r = record@;
        let tx: u64 = record.tx_id as u64;
        let count: usize = record.inputs.len();
        if tx < self.next_row {
            if count > 0 {
                let mut s = "record ".to_owned();
                push_dec(&mut s, self.records);
                s.append(" redefines transaction ");
                push_dec(&mut s, tx);
                s.append(" with ");
                push_dec(&mut s, count as u64);
                s.append(" inputs, and its CSR row is already closed");
                return Err(s);
            }
            let ghost next = Matrix { records: m.records + 1, duplicates: m.duplicates + 1, ..m };
            *self = Csr {
                next_row: self.next_row,
                nonzeros: self.nonzeros,
                records: self.records + 1,
                duplicates: self.duplicates + 1,
                written: Ghost(next),
            };
            let piece = Piece { pointers: Vec::new(), columns: Vec::new() };
            proof {
                assert(m.pointers + piece.pointers@ =~= m.pointers);
                assert(m.columns + piece.columns@ =~= m.columns);
            }
            return Ok(piece);
        }
        let mut columns: Vec<u32> = Vec::new();
        let mut j: usize = 0;
        assert(columns@ =~= columns_of(r.inputs).take(0));
        while j < count
            invariant
                j <= count == r.inputs.len(),
                r == record@,
                columns@ == columns_of(r.inputs).take(j as int),
                forall|i: int| 0 <= i < j ==> (#[trigger] r.inputs[i]).prev_tx_id <= u32::MAX,
                *self == *old(self),
                r.tx_id >= rows(self.matrix()),
            decreases count - j,
        {
            let prev: usize = record.inputs[j].prev_tx_id;
            if prev > u32::MAX as usize {
                assert(r.inputs[j as int].prev_tx_id > u32::MAX);
                assert(!nameable(r.inputs));
                return Err(
                    "a column or a row pointer is past 2^32, which the article's CSR stores as a u32".to_owned(),
                );
            }
            columns.push(prev as u32);
            assert(columns@ =~= columns_of(r.inputs).take(j + 1));
            j += 1;
        }
        assert(columns@ =~= columns_of(r.inputs));
        if count as u64 > u32::MAX as u64 - self.nonzeros {
            return Err(
                "a column or a row pointer is past 2^32, which the article's CSR stores as a u32".to_owned(),
            );
        }
        let mut pointers: Vec<u32> = Vec::new();
        let before: u32 = self.nonzeros as u32;
        let mut row: u64 = self.next_row;
        assert(pointers@ =~= repeated(before, 0));
        while row < tx
            invariant
                self.next_row <= row <= tx,
                pointers@ == repeated(before, (row - self.next_row) as nat),
            decreases tx - row,
        {
            pointers.push(before);
            row += 1;
            assert(pointers@ =~= repeated(before, (row - self.next_row) as nat));
        }
        let after: u32 = before + count as u32;
        pointers.push(after);
        let ghost next = Matrix {
            pointers: m.pointers + pointers@,
            columns: m.columns + columns@,
            records: m.records + 1,
            duplicates: m.duplicates,
        };
        proof {
            assert(m.pointers + pointers@ =~= m.pointers + repeated(
                before,
                (r.tx_id - rows(m)) as nat,
            ) + seq![after]);
        }
        *self = Csr {
            next_row: tx + 1,
            nonzeros: after as u64,
            records: self.records + 1,
            duplicates: self.duplicates,
            written: Ghost(next),
        };
        Ok(Piece { pointers, columns })
    }

    /// What a run says, `took` being how many seconds it took, as text.
    pub fn summary(&self, took: &str) -> (s: String)
        ensures
            s@ == "matrix --csr: "@ + dec(self.matrix().records) + " records, "@ + dec(
                rows(self.matrix()) as nat,
            ) + " transactions, "@ + dec(self.matrix().columns.len()) + " nonzeros ("@ + dec(
                self.matrix().duplicates,
            ) + " duplicate rows) in "@ + took@ + "s"@,
    {
        proof {
            use_type_invariant(self);
        }
        let mut s = "matrix --csr: ".to_owned();
        push_dec(&mut s, self.records);
        s.append(" records, ");
        push_dec(&mut s, self.next_row);
        s.append(" transactions, ");
        push_dec(&mut s, self.nonzeros);
        s.append(" nonzeros (");
        push_dec(&mut s, self.duplicates);
        s.append(" duplicate rows) in ");
        s.append(took);
        s.append("s");
        s
    }

    /// How many bytes there are of pointers, of columns, and of weights.
    pub fn sizes(&self) -> (bytes: (u128, u128, u128))
        ensures
            bytes.0 == 4 * (rows(self.matrix()) + 1),
            bytes.1 == 4 * self.matrix().columns.len(),
            bytes.2 == 4 * self.matrix().columns.len(),
    {
        proof {
            use_type_invariant(self);
        }
        let columns: u128 = 4 * (self.nonzeros as u128);
        (4 * (self.next_row as u128 + 1), columns, columns)
    }
}

/// Row `t` of a matrix.
pub open spec fn row(m: Matrix, t: int) -> Seq<u32> {
    m.columns.subrange(m.pointers[t] as int, m.pointers[t + 1] as int)
}

/// What transaction `t` spends: what the record does that defines it and spends
/// anything.
pub open spec fn spent_by(records: Seq<RecordView>, t: int) -> Seq<u32>
    decreases records.len(),
{
    if records.len() == 0 {
        Seq::empty()
    } else if records.last().tx_id == t && records.last().inputs.len() > 0 {
        columns_of(records.last().inputs)
    } else {
        spent_by(records.drop_last(), t)
    }
}

/// The pointers go up from nothing to all of the columns.
pub open spec fn well_pointed(m: Matrix) -> bool {
    &&& m.pointers.len() >= 1
    &&& m.pointers[0] == 0
    &&& m.pointers.last() == m.columns.len()
    &&& forall|i: int, j: int|
        0 <= i <= j < m.pointers.len() ==> (#[trigger] m.pointers[i]) <= (#[trigger] m.pointers[j])
}

/// The rows of a matrix are what the transactions spend: nothing is lost to a
/// record that defines a transaction again, nor to the transactions that no record
/// defines.
pub proof fn a_row_is_what_is_spent(records: Seq<RecordView>)
    requires
        matrix_of(records) is Ok,
    ensures
        ({
            let m = matrix_of(records)->Ok_0;
            &&& well_pointed(m)
            &&& m.records == records.len()
            &&& forall|t: int| 0 <= t < rows(m) ==> #[trigger] row(m, t) == spent_by(records, t)
            &&& forall|t: int| t >= rows(m) ==> (#[trigger] spent_by(records, t)).len() == 0
        }),
    decreases records.len(),
{
    let m = matrix_of(records)->Ok_0;
    if records.len() > 0 {
        let front = records.drop_last();
        let r = records.last();
        a_row_is_what_is_spent(front);
        let before = matrix_of(front)->Ok_0;
        let n = rows(before);
        if r.tx_id < n {
            assert forall|t: int| 0 <= t < rows(m) implies #[trigger] row(m, t) == spent_by(
                records,
                t,
            ) by {
                assert(row(m, t) == row(before, t));
            }
            assert forall|t: int| t >= rows(m) implies (#[trigger] spent_by(records, t)).len()
                == 0 by {
                assert(spent_by(front, t).len() == 0);
            }
        } else {
            let all = before.columns.len() as u32;
            assert forall|i: int| 0 <= i < m.pointers.len() implies #[trigger] m.pointers[i] == (
            if i <= n {
                before.pointers[i]
            } else if i <= r.tx_id {
                all
            } else {
                (all + r.inputs.len()) as u32
            }) by {}
            assert(before.pointers[n] == all);
            assert forall|i: int, j: int| 0 <= i <= j < m.pointers.len() implies (
            #[trigger] m.pointers[i]) <= (#[trigger] m.pointers[j]) by {
                if i <= n {
                    assert(before.pointers[i] <= before.pointers[n]);
                    if j <= n {
                        assert(before.pointers[i] <= before.pointers[j]);
                    }
                }
            }
            assert forall|t: int| 0 <= t < rows(m) implies #[trigger] row(m, t) == spent_by(
                records,
                t,
            ) by {
                if t < n {
                    assert(before.pointers[t] <= before.pointers[t + 1] <= before.pointers[n]);
                    assert(row(m, t) =~= row(before, t));
                } else if t < r.tx_id {
                    assert(row(m, t) =~= Seq::<u32>::empty());
                    assert(spent_by(front, t) =~= Seq::<u32>::empty());
                } else {
                    assert(row(m, t) =~= columns_of(r.inputs));
                    assert(spent_by(front, t) =~= Seq::<u32>::empty());
                    assert(r.inputs.len() == 0 ==> columns_of(r.inputs) =~= Seq::<u32>::empty());
                }
            }
            assert forall|t: int| t >= rows(m) implies (#[trigger] spent_by(records, t)).len()
                == 0 by {
                assert(spent_by(front, t).len() == 0);
            }
        }
    }
}

} // verus!
