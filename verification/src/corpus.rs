//! A corpus of records: one exact sequence for every choice of its numbers.
//!
//! Not a chain, but with the one property that measurements turn on: how far back
//! a transaction reaches when it spends, which is its window. A window of none is
//! a transaction's own block, and every colour stays that block.

use vstd::prelude::*;
use vstd::string::*;

use crate::records::{Input, Record, RecordView};

verus! {

/// Transactions to a block, with its coinbase, unless told otherwise.
pub const PER_BLOCK: usize = 7;

/// Records to make unless told otherwise.
pub const RECORDS: usize = 1_000_001;

/// How far back to reach unless told otherwise.
pub const WINDOW: usize = 4_000;

/// The seed unless told otherwise.
pub const SEED: u64 = 0x9E37_79B9_7F4A_7C15;

/// One more than the largest amount spent by an input.
pub const AMOUNTS: usize = 100_000_000;

/// A transaction with outputs nobody has spent yet, and how many are left.
#[derive(Clone, Copy, Debug, PartialEq, Eq, Structural)]
pub struct Unspent {
    pub tx: usize,
    pub left: usize,
}

/// What spending draws on: the generator, the transactions with outputs left, and
/// where those of the block in hand start.
pub struct Stock {
    pub rng: u64,
    pub unspent: Seq<Unspent>,
    pub starts_at: nat,
}

/// The next state of the generator, which is its next number.
pub open spec fn shifted(x: u64) -> u64 {
    let a = x ^ (x << 13u64);
    let b = a ^ (a >> 7u64);
    b ^ (b << 17u64)
}

/// The generator once a number below `n` was drawn of it, and that number.
pub open spec fn drawn(rng: u64, n: nat) -> (u64, nat) {
    if n == 0 {
        (rng, 0)
    } else {
        (shifted(rng), shifted(rng) as nat % n)
    }
}

/// The list once entry `at` gave one of its outputs: spent out, the last entry
/// takes its place.
pub open spec fn taken_from(unspent: Seq<Unspent>, at: int) -> Seq<Unspent> {
    let e = unspent[at];
    if e.left == 1 {
        unspent.update(at, unspent.last()).drop_last()
    } else {
        unspent.update(at, Unspent { left: (e.left - 1) as usize, ..e })
    }
}

/// One output spent, of the entries from `floor` on.
pub open spec fn spend_one(c: Stock, floor: nat) -> (Stock, Input) {
    let (r, k) = drawn(c.rng, (c.unspent.len() - floor) as nat);
    let at = floor + k;
    let left = taken_from(c.unspent, at as int);
    let (next, amount) = drawn(r, AMOUNTS as nat);
    (
        Stock {
            rng: next,
            unspent: left,
            starts_at: if c.starts_at > left.len() {
                left.len()
            } else {
                c.starts_at
            },
        },
        Input { prev_tx_id: c.unspent[at as int].tx, amount: (1 + amount) as u64 },
    )
}

/// At most `n` outputs more spent, after `got`.
pub open spec fn spend(c: Stock, floor: nat, n: nat, got: Seq<Input>) -> (Stock, Seq<Input>)
    decreases n,
{
    if n == 0 || floor >= c.unspent.len() {
        (c, got)
    } else {
        let (next, input) = spend_one(c, floor);
        spend(next, floor, (n - 1) as nat, got.push(input))
    }
}

/// The first entry a spend may reach back to.
pub open spec fn floor_of(c: Stock, window: usize) -> nat {
    if window == 0 {
        c.starts_at
    } else if c.unspent.len() > window {
        (c.unspent.len() - window) as nat
    } else {
        0
    }
}

/// How many inputs a transaction asks for: one mostly, two or three often enough.
pub open spec fn inputs_wanted(rng: u64) -> (u64, nat) {
    let (one, a) = drawn(rng, 4);
    let (two, b) = drawn(one, 3);
    (two, 1 + if a < b { a } else { b })
}

/// A transaction that spends, if there is anything to spend.
pub open spec fn spending(c: Stock, window: usize, block: usize, tx: usize) -> Option<
    (Stock, RecordView),
> {
    let floor = floor_of(c, window);
    if floor >= c.unspent.len() {
        None
    } else {
        let (r, n) = inputs_wanted(c.rng);
        let (d, inputs) = spend(Stock { rng: r, ..c }, floor, n, Seq::empty());
        let (next, more) = drawn(d.rng, 3);
        let outputs = (2 + more) as usize;
        Some(
            (
                Stock {
                    rng: next,
                    unspent: d.unspent.push(Unspent { tx, left: outputs }),
                    ..d
                },
                RecordView { block_id: block, tx_id: tx, outputs, inputs },
            ),
        )
    }
}

/// The coinbase of a block, with enough outputs that the rest of the block has
/// something to spend even where the window is closed to everything else.
pub open spec fn minting(
    c: Stock,
    window: usize,
    per_block: usize,
    block: usize,
    tx: usize,
) -> (Stock, RecordView) {
    let outputs = if window == 0 {
        (per_block * 2) as usize
    } else {
        2
    };
    (
        Stock {
            rng: c.rng,
            unspent: c.unspent.push(Unspent { tx, left: outputs }),
            starts_at: c.unspent.len(),
        },
        RecordView { block_id: block, tx_id: tx, outputs, inputs: Seq::empty() },
    )
}

/// The rest of a block, at most `todo` transactions after those `made`, as far as
/// the limit goes and there is anything to spend.
pub open spec fn rest_of_block(
    c: Stock,
    window: usize,
    block: usize,
    tx: usize,
    limit: usize,
    todo: nat,
    made: Seq<RecordView>,
) -> (Stock, Seq<RecordView>)
    decreases todo,
{
    if todo == 0 || tx >= limit {
        (c, made)
    } else {
        match spending(c, window, block, tx) {
            None => (c, made),
            Some((d, r)) => rest_of_block(
                d,
                window,
                block,
                (tx + 1) as usize,
                limit,
                (todo - 1) as nat,
                made.push(r),
            ),
        }
    }
}

/// A block: its coinbase, and what it spends.
pub open spec fn block_of(
    c: Stock,
    window: usize,
    per_block: usize,
    block: usize,
    tx: usize,
    limit: usize,
) -> (Stock, Seq<RecordView>) {
    let (d, coinbase) = minting(c, window, per_block, block, tx);
    rest_of_block(
        d,
        window,
        block,
        (tx + 1) as usize,
        limit,
        (per_block - 1) as nat,
        seq![coinbase],
    )
}

/// The stock once a block is over: the next one has nothing yet.
pub open spec fn between_blocks(c: Stock) -> Stock {
    Stock { starts_at: c.unspent.len(), ..c }
}

/// Every transaction on the list has outputs left.
pub open spec fn all_left(unspent: Seq<Unspent>) -> bool {
    forall|i: int| 0 <= i < unspent.len() ==> (#[trigger] unspent[i]).left >= 1
}

/// A number below `n` drawn of the generator.
fn below(rng: &mut u64, n: usize) -> (k: usize)
    ensures
        drawn(*old(rng), n as nat) == (*final(rng), k as nat),
        n > 0 ==> k < n,
        n == 0 ==> k == 0,
{
    if n == 0 {
        0
    } else {
        let x: u64 = *rng;
        let a: u64 = x ^ (x << 13u64);
        let b: u64 = a ^ (a >> 7u64);
        let c: u64 = b ^ (b << 17u64);
        *rng = c;
        (c % (n as u64)) as usize
    }
}

/// Takes one output of an entry.
fn take_one(unspent: &mut Vec<Unspent>, at: usize)
    requires
        at < old(unspent)@.len(),
        all_left(old(unspent)@),
    ensures
        final(unspent)@ == taken_from(old(unspent)@, at as int),
        all_left(final(unspent)@),
{
    let e = unspent[at];
    assert(unspent@[at as int].left >= 1);
    if e.left == 1 {
        unspent.swap_remove(at);
    } else {
        unspent.set(at, Unspent { left: e.left - 1, ..e });
    }
    assert(unspent@ =~= taken_from(old(unspent)@, at as int));
    assert forall|i: int| 0 <= i < unspent@.len() implies (#[trigger] unspent@[i]).left >= 1 by {
        let last = old(unspent)@.len() - 1;
        assert(old(unspent)@[last].left >= 1);
        if i < last {
            assert(old(unspent)@[i].left >= 1);
        }
    }
}

/// A corpus being made, block by block.
pub struct Corpus {
    rng: u64,
    unspent: Vec<Unspent>,
    window: usize,
    per_block: usize,
    limit: usize,
    tx: usize,
    block: usize,
}

/// Views of records.
pub open spec fn views(records: Seq<Record>) -> Seq<RecordView> {
    Seq::new(records.len(), |i: int| records[i]@)
}

impl Corpus {
    /// What the next block draws on.
    pub closed spec fn stock(&self) -> Stock {
        Stock { rng: self.rng, unspent: self.unspent@, starts_at: self.unspent@.len() }
    }

    /// How many records were made, and in how many blocks.
    pub closed spec fn made(&self) -> (usize, usize) {
        (self.tx, self.block)
    }

    /// The window, the transactions to a block, and the records to make.
    pub closed spec fn asked(&self) -> (usize, usize, usize) {
        (self.window, self.per_block, self.limit)
    }

    /// What holds of every corpus.
    pub closed spec fn sound(&self) -> bool {
        &&& 1 <= self.per_block
        &&& self.window == 0 ==> self.per_block * 2 <= usize::MAX
        &&& self.block <= self.tx
        &&& all_left(self.unspent@)
    }

    /// A corpus of at most `limit` records, or why there is none.
    pub fn new(limit: usize, window: usize, per_block: usize, seed: u64) -> (r: Result<
        Corpus,
        String,
    >)
        requires
            window == 0 ==> per_block * 2 <= usize::MAX,
        ensures
            match r {
                Ok(c) => {
                    &&& per_block > 0
                    &&& c.sound()
                    &&& c.stock() == (Stock { rng: seed, unspent: Seq::empty(), starts_at: 0 })
                    &&& c.made() == (0usize, 0usize)
                    &&& c.asked() == (window, per_block, limit)
                },
                Err(e) => per_block == 0 && e@
                    == "records: --per-block has to be at least 1, for the coinbase"@,
            },
    {
        if per_block == 0 {
            return Err("records: --per-block has to be at least 1, for the coinbase".to_owned());
        }
        let c = Corpus {
            rng: seed,
            unspent: Vec::new(),
            window,
            per_block,
            limit,
            tx: 0,
            block: 0,
        };
        assert(c.unspent@ =~= Seq::<Unspent>::empty());
        Ok(c)
    }

    /// The next block, or nothing once enough records were made.
    pub fn next_block(&mut self) -> (r: Option<Vec<Record>>)
        requires
            old(self).sound(),
        ensures
            final(self).sound(),
            final(self).asked() == old(self).asked(),
            ({
                let (window, per_block, limit) = old(self).asked();
                let (tx, block) = old(self).made();
                match r {
                    None => tx >= limit && *final(self) == *old(self),
                    Some(records) => {
                        let (next, made) = block_of(
                            old(self).stock(),
                            window,
                            per_block,
                            block,
                            tx,
                            limit,
                        );
                        &&& tx < limit
                        &&& views(records@) == made
                        &&& final(self).stock() == between_blocks(next)
                        &&& final(self).made() == ((tx + made.len()) as usize, (block + 1) as usize)
                        &&& tx + made.len() <= limit
                    },
                }
            }),
    {
        if self.tx >= self.limit {
            return None;
        }
        let ghost start = self.stock();
        let block: usize = self.block;
        let tx: usize = self.tx;
        let window: usize = self.window;
        let limit: usize = self.limit;
        let outputs: usize = if window == 0 {
            self.per_block * 2
        } else {
            2
        };
        let mut starts_at: usize = self.unspent.len();
        self.unspent.push(Unspent { tx, left: outputs });
        let mut records: Vec<Record> = Vec::new();
        records.push(Record { block_id: block, tx_id: tx, outputs, inputs: Vec::new() });
        let mut made: usize = 1;
        let mut more = true;
        let ghost whole = block_of(start, window, self.per_block, block, tx, limit);
        proof {
            let c = minting(start, window, self.per_block, block, tx);
            assert(records@[0]@ == c.1) by {
                assert(records@[0]@.inputs =~= Seq::<Input>::empty());
            }
            assert(views(records@) =~= seq![c.1]);
            assert(self.unspent@ =~= c.0.unspent);
            assert forall|i: int| 0 <= i < self.unspent@.len() implies (
            #[trigger] self.unspent@[i]).left >= 1 by {
                if i < start.unspent.len() {
                    assert(start.unspent[i].left >= 1);
                }
            }
        }
        while more && made < self.per_block && tx + made < limit
            invariant
                1 <= made <= self.per_block,
                tx + made <= limit,
                self.asked() == old(self).asked(),
                self.made() == old(self).made(),
                self.tx == tx,
                self.window == window,
                all_left(self.unspent@),
                starts_at <= self.unspent@.len(),
                records@.len() == made,
                more ==> whole == rest_of_block(
                    Stock {
                        rng: self.rng,
                        unspent: self.unspent@,
                        starts_at: starts_at as nat,
                    },
                    window,
                    block,
                    (tx + made) as usize,
                    limit,
                    (self.per_block - made) as nat,
                    views(records@),
                ),
                !more ==> whole == (
                    Stock {
                        rng: self.rng,
                        unspent: self.unspent@,
                        starts_at: starts_at as nat,
                    },
                    views(records@),
                ),
            decreases self.per_block - made + if more { 1int } else { 0 },
        {
            let floor: usize = if window == 0 {
                starts_at
            } else if self.unspent.len() > window {
                self.unspent.len() - window
            } else {
                0
            };
            if floor >= self.unspent.len() {
                more = false;
            } else {
                let ghost had = views(records@);
                let record = self.spending_record(floor, &mut starts_at, block, tx + made);
                let ghost r = record@;
                records.push(record);
                assert(views(records@) =~= had.push(r));
                made += 1;
            }
        }
        self.tx = tx + made;
        self.block = block + 1;
        Some(records)
    }

    /// A transaction that spends outputs of the entries from `floor` on.
    fn spending_record(&mut self, floor: usize, starts_at: &mut usize, block: usize, tx: usize) -> (r:
        Record)
        requires
            floor < old(self).unspent@.len(),
            all_left(old(self).unspent@),
            *old(starts_at) <= old(self).unspent@.len(),
            floor == floor_of(
                Stock {
                    rng: old(self).rng,
                    unspent: old(self).unspent@,
                    starts_at: *old(starts_at) as nat,
                },
                old(self).window,
            ),
        ensures
            spending(
                Stock {
                    rng: old(self).rng,
                    unspent: old(self).unspent@,
                    starts_at: *old(starts_at) as nat,
                },
                old(self).window,
                block,
                tx,
            ) == Some(
                (
                    Stock {
                        rng: final(self).rng,
                        unspent: final(self).unspent@,
                        starts_at: *final(starts_at) as nat,
                    },
                    r@,
                ),
            ),
            all_left(final(self).unspent@),
            *final(starts_at) <= final(self).unspent@.len(),
            final(self).asked() == old(self).asked(),
            final(self).made() == old(self).made(),
    {
        let mut rng: u64 = self.rng;
        let a: usize = below(&mut rng, 4);
        let b: usize = below(&mut rng, 3);
        let wanted: usize = 1 + if a < b {
            a
        } else {
            b
        };
        let mut unspent: Vec<Unspent> = Vec::new();
        std::mem::swap(&mut self.unspent, &mut unspent);
        let mut from: usize = *starts_at;
        let ghost start = Stock { rng, unspent: unspent@, starts_at: from as nat };
        let ghost whole = spend(start, floor as nat, wanted as nat, Seq::empty());
        let mut inputs: Vec<Input> = Vec::new();
        let mut k: usize = 0;
        assert(inputs@ =~= Seq::<Input>::empty());
        while k < wanted && floor < unspent.len()
            invariant
                k <= wanted,
                all_left(unspent@),
                from <= unspent@.len(),
                whole == spend(
                    Stock { rng, unspent: unspent@, starts_at: from as nat },
                    floor as nat,
                    (wanted - k) as nat,
                    inputs@,
                ),
            decreases wanted - k,
        {
            let at: usize = floor + below(&mut rng, unspent.len() - floor);
            let prev: usize = unspent[at].tx;
            take_one(&mut unspent, at);
            if from > unspent.len() {
                from = unspent.len();
            }
            let amount: usize = 1 + below(&mut rng, AMOUNTS);
            inputs.push(Input { prev_tx_id: prev, amount: amount as u64 });
            k += 1;
        }
        let outputs: usize = 2 + below(&mut rng, 3);
        let ghost before = unspent@;
        unspent.push(Unspent { tx, left: outputs });
        assert forall|i: int| 0 <= i < unspent@.len() implies (#[trigger] unspent@[i]).left >= 1 by {
            if i < before.len() {
                assert(before[i].left >= 1);
            }
        }
        self.rng = rng;
        self.unspent = unspent;
        *starts_at = from;
        Record { block_id: block, tx_id: tx, outputs, inputs }
    }
}

} // verus!
