//! One number per transaction: where its coins came from, on average.
//!
//! A transaction's colour is the fold of its inputs' colours, each with the share
//! of the value that it carries, and an entry is dropped when its last unspent
//! output is spent. What a colour is, and what a share of one comes to, is the
//! caller's: this follows which earlier record each input takes its colour from,
//! with which share, and which colours nobody can reach any more.

use std::collections::HashMap;

use vstd::prelude::*;
use vstd::string::*;

use crate::records::{unknown, unknown_text, Input, Record, RecordView};
use crate::text::{ascii, dec, padded, push_int, push_long, push_padded};

verus! {

broadcast use vstd::std_specs::hash::group_hash_axioms;

/// How many decimal places a mean is printed to.
pub const PLACES: usize = 6;

/// Ten to the number of places.
pub const UNITS: u64 = 1_000_000;

/// A number of millionths as it is printed: the fraction padded, the integer part
/// not.
pub open spec fn fixed(units: nat) -> Seq<u8> {
    ascii(dec(units / 1_000_000)) + seq![0x2eu8] + ascii(padded(units % 1_000_000, 6))
}

/// Appends a number of millionths.
pub fn push_fixed(out: &mut Vec<u8>, units: u64)
    ensures
        final(out)@ == old(out)@ + fixed(units as nat),
{
    push_long(out, units / UNITS);
    out.push(0x2e);
    push_padded(out, units % UNITS, PLACES);
    assert(out@ =~= old(out)@ + fixed(units as nat));
}

/// The line of a transaction with this mean.
pub open spec fn mean_text(tx: usize, units: nat) -> Seq<u8> {
    ascii(dec(tx as nat)) + seq![0x2cu8] + fixed(units) + seq![0x0au8]
}

/// The line of a transaction with this mean, in millionths.
pub fn mean_line(tx: usize, units: u64) -> (line: Vec<u8>)
    ensures
        line@ == mean_text(tx, units as nat),
{
    let mut line: Vec<u8> = Vec::new();
    push_int(&mut line, tx);
    line.push(0x2c);
    push_fixed(&mut line, units);
    line.push(0x0a);
    assert(line@ =~= mean_text(tx, units as nat));
    line
}

/// The part of a colour that an input brings: its amount out of the amounts of
/// all of them, or, where none of them is worth anything, as much as any other of
/// so many.
#[derive(Clone, Copy, Debug, PartialEq, Eq, Structural)]
pub enum Share {
    Value(u64),
    Equal(usize),
}

/// An input taken: the record whose colour it has, the part of it, and whether
/// that was the record's last unspent output, so that nobody can reach its colour
/// again.
#[derive(Clone, Copy, Debug, PartialEq, Eq, Structural)]
pub struct Spend {
    pub record: usize,
    pub share: Share,
    pub last: bool,
}

/// What a record's colour is made of.
pub enum Source {
    /// The block that minted it.
    Minted(usize),
    /// The colours of earlier records, in the order they are folded in: the last
    /// input first.
    Spent(Vec<Spend>),
}

/// What a record's colour is made of, as a mathematical value.
pub enum SourceView {
    Minted(usize),
    Spent(Seq<Spend>),
}

impl View for Source {
    type V = SourceView;

    open spec fn view(&self) -> SourceView {
        match self {
            Source::Minted(block) => SourceView::Minted(*block),
            Source::Spent(list) => SourceView::Spent(list@),
        }
    }
}

/// A record taken in: what its colour is made of, whether anybody can spend it
/// later, and the record whose unspent outputs it replaced, if there was one.
pub struct Step {
    pub source: Source,
    pub kept: bool,
    pub displaced: Option<usize>,
}

/// A transaction with unspent outputs: the record it was, and how many.
#[derive(Clone, Copy, Debug, PartialEq, Eq, Structural)]
pub struct Unspent {
    pub record: usize,
    pub outputs: usize,
}

/// Whether any input is worth anything.
pub open spec fn worth_something(inputs: Seq<Input>) -> bool {
    exists|i: int| 0 <= i < inputs.len() && (#[trigger] inputs[i]).amount > 0
}

/// The part of a colour that input `i` brings.
pub open spec fn share_of(inputs: Seq<Input>, i: int) -> Share {
    if worth_something(inputs) {
        Share::Value(inputs[i].amount)
    } else {
        Share::Equal(inputs.len() as usize)
    }
}

/// The transactions with unspent outputs after one output of `tx` was spent.
pub open spec fn spent(live: Map<usize, Unspent>, tx: usize) -> Map<usize, Unspent> {
    let entry = live[tx];
    if entry.outputs > 1 {
        live.insert(tx, Unspent { outputs: (entry.outputs - 1) as usize, ..entry })
    } else {
        live.remove(tx)
    }
}

/// The first `i` inputs of a record taken, last to first, after `taken`.
pub open spec fn spending(
    tx: usize,
    live: Map<usize, Unspent>,
    inputs: Seq<Input>,
    taken: Seq<Spend>,
    i: int,
) -> Result<(Map<usize, Unspent>, Seq<Spend>), Seq<char>>
    decreases i,
{
    if i <= 0 {
        Ok((live, taken))
    } else {
        let previous = inputs[i - 1].prev_tx_id;
        if !live.contains_key(previous) {
            Err(unknown_text(tx, previous))
        } else {
            let spend = Spend {
                record: live[previous].record,
                share: share_of(inputs, i - 1),
                last: live[previous].outputs <= 1,
            };
            spending(tx, spent(live, previous), inputs, taken.push(spend), i - 1)
        }
    }
}

/// What a record's colour is made of, and the transactions with unspent outputs
/// before its own are added.
pub open spec fn sources(live: Map<usize, Unspent>, record: RecordView) -> Result<
    (Map<usize, Unspent>, SourceView),
    Seq<char>,
> {
    if record.inputs.len() == 0 {
        Ok((live, SourceView::Minted(record.block_id)))
    } else {
        match spending(
            record.tx_id,
            live,
            record.inputs,
            Seq::empty(),
            record.inputs.len() as int,
        ) {
            Err(e) => Err(e),
            Ok((left, taken)) => Ok((left, SourceView::Spent(taken))),
        }
    }
}

/// The transactions with unspent outputs once a record's own are added.
pub open spec fn added(live: Map<usize, Unspent>, record: RecordView, at: nat) -> Map<
    usize,
    Unspent,
> {
    if record.outputs > 0 {
        live.insert(record.tx_id, Unspent { record: at as usize, outputs: record.outputs })
    } else {
        live
    }
}

fn any_worth(inputs: &Vec<Input>) -> (any: bool)
    ensures
        any == worth_something(inputs@),
{
    let mut i: usize = 0;
    while i < inputs.len()
        invariant
            i <= inputs@.len(),
            forall|j: int| 0 <= j < i ==> (#[trigger] inputs@[j]).amount == 0,
        decreases inputs@.len() - i,
    {
        if inputs[i].amount > 0 {
            assert(inputs@[i as int].amount > 0);
            return true;
        }
        i += 1;
    }
    false
}

/// The records followed so far.
pub struct Tracer {
    live: HashMap<usize, Unspent>,
    read: usize,
}

impl Tracer {
    /// The transactions with unspent outputs.
    pub closed spec fn unspent(&self) -> Map<usize, Unspent> {
        self.live@
    }

    /// How many records were read.
    pub closed spec fn count(&self) -> nat {
        self.read as nat
    }

    /// Every colour that can be reached is that of a record read before.
    pub open spec fn sound(&self) -> bool {
        forall|tx: usize| #[trigger]
            self.unspent().contains_key(tx) ==> self.unspent()[tx].record < self.count()
    }

    /// Nothing was read.
    pub fn new() -> (t: Tracer)
        ensures
            t.unspent() == Map::<usize, Unspent>::empty(),
            t.count() == 0,
            t.sound(),
    {
        Tracer { live: HashMap::new(), read: 0 }
    }

    fn spend(&mut self, tx: usize, inputs: &Vec<Input>) -> (r: Result<Vec<Spend>, String>)
        requires
            old(self).sound(),
        ensures
            final(self).count() == old(self).count(),
            match r {
                Ok(taken) => {
                    &&& spending(
                        tx,
                        old(self).unspent(),
                        inputs@,
                        Seq::empty(),
                        inputs@.len() as int,
                    ) == Ok::<(Map<usize, Unspent>, Seq<Spend>), Seq<char>>(
                        (final(self).unspent(), taken@),
                    )
                    &&& final(self).sound()
                    &&& taken@.len() == inputs@.len()
                    &&& forall|k: int|
                        0 <= k < taken@.len() ==> (#[trigger] taken@[k]).record < old(self).count()
                },
                Err(e) => spending(
                    tx,
                    old(self).unspent(),
                    inputs@,
                    Seq::empty(),
                    inputs@.len() as int,
                ) == Err::<(Map<usize, Unspent>, Seq<Spend>), Seq<char>>(e@),
            },
    {
        let ghost whole = spending(
            tx,
            self.live@,
            inputs@,
            Seq::empty(),
            inputs@.len() as int,
        );
        let worth = any_worth(inputs);
        let n: usize = inputs.len();
        let mut taken: Vec<Spend> = Vec::new();
        let mut i: usize = n;
        assert(taken@ =~= Seq::<Spend>::empty());
        while i > 0
            invariant
                i <= n == inputs@.len(),
                worth == worth_something(inputs@),
                self.sound(),
                self.count() == old(self).count(),
                taken@.len() == n - i,
                whole == spending(tx, self.live@, inputs@, taken@, i as int),
                whole == spending(
                    tx,
                    old(self).unspent(),
                    inputs@,
                    Seq::empty(),
                    inputs@.len() as int,
                ),
                forall|k: int|
                    0 <= k < taken@.len() ==> (#[trigger] taken@[k]).record < old(self).count(),
            decreases i,
        {
            i -= 1;
            let previous: usize = inputs[i].prev_tx_id;
            let ghost held = self.live@;
            assert(held == self.unspent());
            assert(forall|tx: usize| #[trigger]
                held.contains_key(tx) ==> held[tx].record < self.count());
            match self.live.remove(&previous) {
                None => {
                    return Err(unknown(tx, previous));
                },
                Some(entry) => {
                    assert(self.unspent() == held.remove(previous));
                    assert(held.contains_key(previous));
                    taken.push(
                        Spend {
                            record: entry.record,
                            share: if worth {
                                Share::Value(inputs[i].amount)
                            } else {
                                Share::Equal(n)
                            },
                            last: entry.outputs <= 1,
                        },
                    );
                    if entry.outputs > 1 {
                        self.live.insert(
                            previous,
                            Unspent { record: entry.record, outputs: entry.outputs - 1 },
                        );
                    }
                    assert(self.live@ =~= spent(held, previous));
                    assert forall|tx: usize| #[trigger]
                        self.unspent().contains_key(tx) implies self.unspent()[tx].record
                        < self.count() by {
                        assert(held.contains_key(tx));
                    }
                },
            }
        }
        Ok(taken)
    }

    /// Takes one record more: what its colour is made of, or what it spends that
    /// is not there to spend.
    pub fn take(&mut self, record: &Record) -> (r: Result<Step, String>)
        requires
            old(self).sound(),
            old(self).count() < usize::MAX,
        ensures
            match r {
                Ok(step) => match sources(old(self).unspent(), record@) {
                    Err(_) => false,
                    Ok((left, source)) => {
                        &&& step.source@ == source
                        &&& step.kept == (record.outputs > 0)
                        &&& step.displaced == if record.outputs > 0 && left.contains_key(
                            record.tx_id,
                        ) {
                            Some(left[record.tx_id].record)
                        } else {
                            None
                        }
                        &&& final(self).unspent() == added(left, record@, old(self).count())
                        &&& final(self).count() == old(self).count() + 1
                        &&& final(self).sound()
                        &&& source matches SourceView::Spent(taken) ==> forall|k: int|
                            0 <= k < taken.len() ==> (#[trigger] taken[k]).record < old(
                                self,
                            ).count()
                    },
                },
                Err(e) => match sources(old(self).unspent(), record@) {
                    Err(said) => e@ == said,
                    Ok(_) => false,
                },
            },
    {
        let source = if record.inputs.len() == 0 {
            Source::Minted(record.block_id)
        } else {
            match self.spend(record.tx_id, &record.inputs) {
                Ok(taken) => Source::Spent(taken),
                Err(e) => {
                    return Err(e);
                },
            }
        };
        let ghost left = self.live@;
        assert(left == self.unspent());
        let kept = record.outputs > 0;
        let mut displaced: Option<usize> = None;
        if kept {
            let was = self.live.insert(
                record.tx_id,
                Unspent { record: self.read, outputs: record.outputs },
            );
            if let Some(entry) = was {
                displaced = Some(entry.record);
            }
        }
        self.read += 1;
        proof {
            assert(self.live@ =~= added(left, record@, old(self).count()));
            assert forall|tx: usize| #[trigger]
                self.unspent().contains_key(tx) implies self.unspent()[tx].record < self.count() by {
                if !(kept && tx == record.tx_id) {
                    assert(left.contains_key(tx));
                }
            }
        }
        Ok(Step { source, kept, displaced })
    }
}

/// A transaction with one input has all of its colour from that one: the record
/// whose output it spends, and no other.
pub proof fn a_single_input_inherits(live: Map<usize, Unspent>, record: RecordView)
    requires
        record.inputs.len() == 1,
        live.contains_key(record.inputs[0].prev_tx_id),
    ensures
        sources(live, record) matches Ok((_, SourceView::Spent(taken))) && taken.len() == 1
            && taken[0].record == live[record.inputs[0].prev_tx_id].record,
{
    reveal_with_fuel(spending, 2);
}

/// A transaction is refused exactly if it spends an output that is not there to
/// spend: of a transaction never seen, or of one whose outputs were all spent, by
/// an earlier record or by its own later inputs.
pub proof fn what_is_there_can_be_spent(
    tx: usize,
    live: Map<usize, Unspent>,
    inputs: Seq<Input>,
    taken: Seq<Spend>,
    i: int,
)
    requires
        0 <= i <= inputs.len(),
        forall|t: usize| #[trigger] live.contains_key(t) ==> live[t].outputs > 0,
    ensures
        spending(tx, live, inputs, taken, i) is Ok <==> forall|t: usize|
            spends_of(inputs, i, t) > 0 ==> live.contains_key(t) && #[trigger] spends_of(
                inputs,
                i,
                t,
            ) <= live[t].outputs,
    decreases i,
{
    if i > 0 {
        let previous = inputs[i - 1].prev_tx_id;
        if live.contains_key(previous) {
            let next = spent(live, previous);
            let spend = Spend {
                record: live[previous].record,
                share: share_of(inputs, i - 1),
                last: live[previous].outputs <= 1,
            };
            what_is_there_can_be_spent(tx, next, inputs, taken.push(spend), i - 1);
            assert forall|t: usize| t != previous implies #[trigger] spends_of(inputs, i, t)
                == spends_of(inputs, i - 1, t) by {}
            assert(spends_of(inputs, i, previous) == spends_of(inputs, i - 1, previous) + 1);
            if spending(tx, live, inputs, taken, i) is Ok {
                assert forall|t: usize| spends_of(inputs, i, t) > 0 implies live.contains_key(t)
                    && #[trigger] spends_of(inputs, i, t) <= live[t].outputs by {
                    assert(spends_of(inputs, i - 1, t) >= 0);
                    if t == previous {
                        if spends_of(inputs, i - 1, t) > 0 {
                            assert(next.contains_key(t));
                        }
                    } else {
                        assert(spends_of(inputs, i - 1, t) > 0);
                        assert(next.contains_key(t) && next[t] == live[t]);
                    }
                }
            }
            if forall|t: usize|
                spends_of(inputs, i, t) > 0 ==> live.contains_key(t) && #[trigger] spends_of(
                    inputs,
                    i,
                    t,
                ) <= live[t].outputs {
                assert forall|t: usize| spends_of(inputs, i - 1, t) > 0 implies next.contains_key(t)
                    && #[trigger] spends_of(inputs, i - 1, t) <= next[t].outputs by {
                    assert(spends_of(inputs, i, t) > 0);
                }
            }
        } else {
            assert(spends_of(inputs, i, previous) > 0);
        }
    } else {
        assert forall|t: usize| spends_of(inputs, i, t) > 0 implies live.contains_key(t)
            && #[trigger] spends_of(inputs, i, t) <= live[t].outputs by {}
    }
}

/// How many of the first `i` inputs spend an output of `tx`.
pub open spec fn spends_of(inputs: Seq<Input>, i: int, tx: usize) -> nat
    decreases i,
{
    if i <= 0 {
        0
    } else {
        spends_of(inputs, i - 1, tx) + if inputs[i - 1].prev_tx_id == tx {
            1nat
        } else {
            0
        }
    }
}

} // verus!
