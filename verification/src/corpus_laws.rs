//! What holds of every corpus.

use vstd::prelude::*;

use crate::corpus::{
    between_blocks, block_of, drawn, floor_of, inputs_wanted, minting, rest_of_block, spend, spend_one, spending,
    taken_from, Stock, Unspent,
};
use crate::records::{Input, RecordView};

verus! {

/// The records of a corpus, after those `made`: block after block, until there
/// are enough.
pub open spec fn corpus_from(
    c: Stock,
    window: usize,
    per_block: usize,
    block: usize,
    made: Seq<RecordView>,
    limit: usize,
) -> Seq<RecordView>
    decreases (if made.len() >= limit { 0 } else { limit - made.len() }),
    via corpus_grows
{
    if made.len() >= limit {
        made
    } else {
        let (next, more) = block_of(c, window, per_block, block, made.len() as usize, limit);
        corpus_from(
            between_blocks(next),
            window,
            per_block,
            (block + 1) as usize,
            made + more,
            limit,
        )
    }
}

/// A corpus from its first block on.
pub open spec fn whole_corpus(limit: usize, window: usize, per_block: usize, seed: u64) -> Seq<
    RecordView,
> {
    corpus_from(
        Stock { rng: seed, unspent: Seq::empty(), starts_at: 0 },
        window,
        per_block,
        0,
        Seq::empty(),
        limit,
    )
}

proof fn rest_is_more(
    c: Stock,
    window: usize,
    block: usize,
    tx: usize,
    limit: usize,
    todo: nat,
    made: Seq<RecordView>,
)
    ensures
        made.len() <= rest_of_block(c, window, block, tx, limit, todo, made).1.len(),
    decreases todo,
{
    if todo > 0 && tx < limit {
        if let Some((d, r)) = spending(c, window, block, tx) {
            rest_is_more(
                d,
                window,
                block,
                (tx + 1) as usize,
                limit,
                (todo - 1) as nat,
                made.push(r),
            );
        }
    }
}

proof fn a_block_has_its_coinbase(
    c: Stock,
    window: usize,
    per_block: usize,
    block: usize,
    tx: usize,
    limit: usize,
)
    ensures
        block_of(c, window, per_block, block, tx, limit).1.len() >= 1,
{
    let (d, coinbase) = minting(c, window, per_block, block, tx);
    rest_is_more(
        d,
        window,
        block,
        (tx + 1) as usize,
        limit,
        (per_block - 1) as nat,
        seq![coinbase],
    );
}

#[via_fn]
proof fn corpus_grows(
    c: Stock,
    window: usize,
    per_block: usize,
    block: usize,
    made: Seq<RecordView>,
    limit: usize,
) {
    a_block_has_its_coinbase(c, window, per_block, block, made.len() as usize, limit);
    let more = block_of(c, window, per_block, block, made.len() as usize, limit).1;
    assert((made + more).len() > made.len());
}

/// How many of the inputs spend transaction `t`.
pub open spec fn spends_of(inputs: Seq<Input>, t: int) -> nat
    decreases inputs.len(),
{
    if inputs.len() == 0 {
        0
    } else {
        spends_of(inputs.drop_last(), t) + if inputs.last().prev_tx_id == t {
            1nat
        } else {
            0
        }
    }
}

/// How often the records spend transaction `t`.
pub open spec fn spent(records: Seq<RecordView>, t: int) -> nat
    decreases records.len(),
{
    if records.len() == 0 {
        0
    } else {
        spent(records.drop_last(), t) + spends_of(records.last().inputs, t)
    }
}

/// How many outputs of transaction `t` the list has left.
pub open spec fn left_of(unspent: Seq<Unspent>, t: int) -> nat
    decreases unspent.len(),
{
    if unspent.len() == 0 {
        0
    } else {
        left_of(unspent.drop_last(), t) + share(unspent.last(), t)
    }
}

/// What an entry has left of transaction `t`.
pub open spec fn share(e: Unspent, t: int) -> nat {
    if e.tx == t {
        e.left as nat
    } else {
        0
    }
}

/// Every record is where its number says, and spends only records before it.
pub open spec fn spends_the_past(records: Seq<RecordView>) -> bool {
    &&& forall|i: int| 0 <= i < records.len() ==> (#[trigger] records[i]).tx_id == i
    &&& forall|i: int, j: int|
        0 <= i < records.len() && 0 <= j < records[i].inputs.len() ==> (
        #[trigger] records[i].inputs[j]).prev_tx_id < i
}

/// The list accounts for what the records have left, `got` being spent besides.
spec fn accounts(records: Seq<RecordView>, unspent: Seq<Unspent>, got: Seq<Input>) -> bool {
    &&& spends_the_past(records)
    &&& forall|i: int|
        0 <= i < unspent.len() ==> (#[trigger] unspent[i]).left >= 1 && unspent[i].tx
            < records.len()
    &&& forall|j: int| 0 <= j < got.len() ==> (#[trigger] got[j]).prev_tx_id < records.len()
    &&& forall|t: int|
        #![trigger left_of(unspent, t)]
        0 <= t < records.len() ==> left_of(unspent, t) + spent(records, t) + spends_of(got, t)
            == records[t].outputs
    &&& records.len() <= usize::MAX
}

proof fn left_of_updated(unspent: Seq<Unspent>, i: int, e: Unspent, t: int)
    requires
        0 <= i < unspent.len(),
    ensures
        left_of(unspent.update(i, e), t) + share(unspent[i], t) == left_of(unspent, t) + share(e, t),
    decreases unspent.len(),
{
    let after = unspent.update(i, e);
    if i == unspent.len() - 1 {
        assert(after.drop_last() =~= unspent.drop_last());
    } else {
        assert(after.drop_last() =~= unspent.drop_last().update(i, e));
        left_of_updated(unspent.drop_last(), i, e, t);
    }
}

proof fn taking_one(unspent: Seq<Unspent>, at: int, t: int)
    requires
        0 <= at < unspent.len(),
        unspent[at].left >= 1,
    ensures
        left_of(unspent, t) == left_of(taken_from(unspent, at), t) + if unspent[at].tx == t {
            1nat
        } else {
            0
        },
{
    let e = unspent[at];
    if e.left == 1 {
        left_of_updated(unspent, at, unspent.last(), t);
        let after = unspent.update(at, unspent.last());
        assert(after.last() == unspent.last());
    } else {
        left_of_updated(unspent, at, Unspent { left: (e.left - 1) as usize, ..e }, t);
    }
}

proof fn spending_one_accounts(records: Seq<RecordView>, c: Stock, floor: nat, got: Seq<Input>)
    requires
        accounts(records, c.unspent, got),
        floor < c.unspent.len(),
    ensures
        ({
            let (next, input) = spend_one(c, floor);
            accounts(records, next.unspent, got.push(input))
        }),
{
    let (next, input) = spend_one(c, floor);
    let at = (floor + drawn(c.rng, (c.unspent.len() - floor) as nat).1) as int;
    let n = (c.unspent.len() - floor) as nat;
    assert(crate::corpus::shifted(c.rng) as nat % n < n) by (nonlinear_arith)
        requires
            n > 0,
    ;
    assert(floor <= at < c.unspent.len());
    let more = got.push(input);
    let last = c.unspent.len() - 1;
    assert(c.unspent[at].left >= 1 && c.unspent[last].left >= 1);
    assert forall|i: int| 0 <= i < next.unspent.len() implies (#[trigger] next.unspent[i]).left >= 1
        && next.unspent[i].tx < records.len() by {
        assert(c.unspent[i].left >= 1);
    }
    assert forall|t: int|
        #![trigger left_of(next.unspent, t)]
        0 <= t < records.len() implies left_of(next.unspent, t) + spent(records, t) + spends_of(
        more,
        t,
    ) == records[t].outputs by {
        taking_one(c.unspent, at, t);
        assert(more.drop_last() =~= got);
        assert(left_of(c.unspent, t) + spent(records, t) + spends_of(got, t) == records[t].outputs);
    }
}

proof fn spending_accounts(
    records: Seq<RecordView>,
    c: Stock,
    floor: nat,
    n: nat,
    got: Seq<Input>,
)
    requires
        accounts(records, c.unspent, got),
    ensures
        ({
            let (next, all) = spend(c, floor, n, got);
            accounts(records, next.unspent, all)
        }),
    decreases n,
{
    if n > 0 && floor < c.unspent.len() {
        spending_one_accounts(records, c, floor, got);
        let (next, input) = spend_one(c, floor);
        spending_accounts(records, next, floor, (n - 1) as nat, got.push(input));
    }
}

/// A record more on the list, with all of its outputs left.
proof fn one_more_accounts(
    records: Seq<RecordView>,
    unspent: Seq<Unspent>,
    got: Seq<Input>,
    r: RecordView,
)
    requires
        accounts(records, unspent, got),
        r.tx_id == records.len() < usize::MAX,
        r.inputs == got,
        r.outputs >= 1,
    ensures
        accounts(
            records.push(r),
            unspent.push(Unspent { tx: r.tx_id, left: r.outputs }),
            Seq::empty(),
        ),
{
    let all = records.push(r);
    let e = Unspent { tx: r.tx_id, left: r.outputs };
    let list = unspent.push(e);
    assert(all.drop_last() =~= records);
    assert(list.drop_last() =~= unspent);
    assert forall|i: int, j: int|
        0 <= i < all.len() && 0 <= j < all[i].inputs.len() implies (
    #[trigger] all[i].inputs[j]).prev_tx_id < i by {
        if i < records.len() {
            assert(records[i].inputs[j].prev_tx_id < i);
        } else {
            assert(got[j].prev_tx_id < records.len());
        }
    }
    assert forall|i: int| 0 <= i < list.len() implies (#[trigger] list[i]).left >= 1 && list[i].tx
        < all.len() by {
        if i < unspent.len() {
            assert(unspent[i].tx < records.len());
        }
    }
    assert forall|t: int|
        #![trigger left_of(list, t)]
        0 <= t < all.len() implies left_of(list, t) + spent(all, t) + spends_of(
        Seq::<Input>::empty(),
        t,
    ) == all[t].outputs by {
        if t < records.len() {
            assert(left_of(unspent, t) + spent(records, t) + spends_of(got, t)
                == records[t].outputs);
        } else {
            nothing_left(unspent, t);
            nothing_spent(records, t);
            nothing_spends(got, t);
        }
    }
}

proof fn nothing_left(unspent: Seq<Unspent>, t: int)
    requires
        forall|i: int| 0 <= i < unspent.len() ==> (#[trigger] unspent[i]).tx != t,
    ensures
        left_of(unspent, t) == 0,
    decreases unspent.len(),
{
    if unspent.len() > 0 {
        let front = unspent.drop_last();
        assert forall|i: int| 0 <= i < front.len() implies (#[trigger] front[i]).tx != t by {
            assert(unspent[i].tx != t);
        }
        nothing_left(front, t);
        assert(unspent[unspent.len() - 1].tx != t);
    }
}

proof fn nothing_spends(inputs: Seq<Input>, t: int)
    requires
        forall|j: int| 0 <= j < inputs.len() ==> (#[trigger] inputs[j]).prev_tx_id != t,
    ensures
        spends_of(inputs, t) == 0,
    decreases inputs.len(),
{
    if inputs.len() > 0 {
        let front = inputs.drop_last();
        assert forall|j: int| 0 <= j < front.len() implies (#[trigger] front[j]).prev_tx_id != t by {
            assert(inputs[j].prev_tx_id != t);
        }
        nothing_spends(front, t);
        assert(inputs[inputs.len() - 1].prev_tx_id != t);
    }
}

proof fn nothing_spent(records: Seq<RecordView>, t: int)
    requires
        spends_the_past(records),
        t >= records.len(),
    ensures
        spent(records, t) == 0,
    decreases records.len(),
{
    if records.len() > 0 {
        let front = records.drop_last();
        assert(spends_the_past(front)) by {
            assert forall|i: int| 0 <= i < front.len() implies (#[trigger] front[i]).tx_id == i by {
                assert(records[i].tx_id == i);
            }
            assert forall|i: int, j: int|
                0 <= i < front.len() && 0 <= j < front[i].inputs.len() implies (
            #[trigger] front[i].inputs[j]).prev_tx_id < i by {
                assert(records[i].inputs[j].prev_tx_id < i);
            }
        }
        nothing_spent(front, t);
        let last = records.len() - 1;
        let inputs = records[last].inputs;
        assert forall|j: int| 0 <= j < inputs.len() implies (#[trigger] inputs[j]).prev_tx_id
            != t by {
            assert(records[last].inputs[j].prev_tx_id < last);
        }
        nothing_spends(inputs, t);
    }
}

proof fn rest_accounts(
    before: Seq<RecordView>,
    c: Stock,
    window: usize,
    block: usize,
    tx: usize,
    limit: usize,
    todo: nat,
    made: Seq<RecordView>,
)
    requires
        accounts(before + made, c.unspent, Seq::empty()),
        tx == before.len() + made.len() <= limit,
    ensures
        ({
            let (next, all) = rest_of_block(c, window, block, tx, limit, todo, made);
            &&& accounts(before + all, next.unspent, Seq::empty())
            &&& before.len() + all.len() <= limit
        }),
    decreases todo,
{
    if todo > 0 && tx < limit {
        if let Some((d, r)) = spending(c, window, block, tx) {
            let records = before + made;
            let floor = floor_of(c, window);
            let (rng, n) = inputs_wanted(c.rng);
            let start = Stock { rng, ..c };
            spending_accounts(records, start, floor, n, Seq::empty());
            let (e, inputs) = spend(start, floor, n, Seq::empty());
            one_more_accounts(records, e.unspent, inputs, r);
            assert(before + made.push(r) =~= records.push(r));
            rest_accounts(
                before,
                d,
                window,
                block,
                (tx + 1) as usize,
                limit,
                (todo - 1) as nat,
                made.push(r),
            );
        }
    }
}

proof fn corpus_accounts(
    c: Stock,
    window: usize,
    per_block: usize,
    block: usize,
    made: Seq<RecordView>,
    limit: usize,
)
    requires
        accounts(made, c.unspent, Seq::empty()),
        made.len() <= limit,
        per_block >= 1,
        window == 0 ==> per_block * 2 <= usize::MAX,
    ensures
        ({
            let all = corpus_from(c, window, per_block, block, made, limit);
            &&& spends_the_past(all)
            &&& all.len() == limit
            &&& forall|t: int| 0 <= t < all.len() ==> spent(all, t) <= (#[trigger] all[t]).outputs
        }),
    decreases limit - made.len(),
{
    let tx = made.len() as usize;
    if made.len() >= limit {
        assert forall|t: int| 0 <= t < made.len() implies spent(made, t) <= (
        #[trigger] made[t]).outputs by {
            assert(left_of(c.unspent, t) + spent(made, t) + spends_of(Seq::<Input>::empty(), t)
                == made[t].outputs);
        }
    } else {
        let (d, coinbase) = minting(c, window, per_block, block, tx);
        one_more_accounts(made, c.unspent, Seq::empty(), coinbase);
        let first = seq![coinbase];
        assert(made + first =~= made.push(coinbase));
        rest_accounts(
            made,
            d,
            window,
            block,
            (tx + 1) as usize,
            limit,
            (per_block - 1) as nat,
            first,
        );
        a_block_has_its_coinbase(c, window, per_block, block, tx, limit);
        let (next, more) = block_of(c, window, per_block, block, tx, limit);
        corpus_accounts(
            between_blocks(next),
            window,
            per_block,
            (block + 1) as usize,
            made + more,
            limit,
        );
    }
}

/// Every transaction of a corpus spends only transactions before it, and none is
/// spent more often than it has outputs: there was one left at every spend. And
/// there are as many as were asked for.
pub proof fn a_corpus_spends_what_is_there(
    limit: usize,
    window: usize,
    per_block: usize,
    seed: u64,
)
    requires
        per_block >= 1,
        window == 0 ==> per_block * 2 <= usize::MAX,
    ensures
        ({
            let all = whole_corpus(limit, window, per_block, seed);
            &&& all.len() == limit
            &&& spends_the_past(all)
            &&& forall|t: int| 0 <= t < all.len() ==> spent(all, t) <= (#[trigger] all[t]).outputs
        }),
{
    let start = Stock { rng: seed, unspent: Seq::empty(), starts_at: 0 };
    assert(accounts(Seq::empty(), start.unspent, Seq::empty()));
    corpus_accounts(start, window, per_block, 0, Seq::empty(), limit);
}

} // verus!
