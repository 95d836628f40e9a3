//! How a corpus is made up of blocks, and how far back its transactions reach.

use vstd::prelude::*;

use crate::corpus::{
    between_blocks, block_of, drawn, floor_of, inputs_wanted, minting, rest_of_block, spend,
    spend_one, spending, taken_from, Stock, Unspent, AMOUNTS,
};
use crate::corpus_laws::{corpus_from, whole_corpus};
use crate::records::{Input, RecordView};

verus! {

/// Record `j` of a block, of which the first transaction is `base`.
spec fn is_made(
    r: RecordView,
    window: usize,
    per_block: usize,
    block: int,
    base: int,
    j: int,
) -> bool {
    &&& r.block_id == block
    &&& r.tx_id == base + j
    &&& j == 0 ==> r.inputs.len() == 0 && r.outputs == if window == 0 {
        2 * per_block
    } else {
        2
    }
    &&& j > 0 ==> 1 <= r.inputs.len() <= 3 && 2 <= r.outputs <= 4
    &&& forall|i: int|
        0 <= i < r.inputs.len() ==> 1 <= (#[trigger] r.inputs[i]).amount <= AMOUNTS && (window == 0
            ==> r.inputs[i].prev_tx_id >= base)
}

/// What is left of the block in hand is of transactions from `base` on.
spec fn is_fresh(c: Stock, base: int) -> bool {
    forall|i: int|
        c.starts_at <= i < c.unspent.len() ==> (#[trigger] c.unspent[i]).tx >= base
}

spec fn are_inputs(inputs: Seq<Input>, window: usize, base: int) -> bool {
    forall|i: int|
        0 <= i < inputs.len() ==> 1 <= (#[trigger] inputs[i]).amount <= AMOUNTS && (window == 0
            ==> inputs[i].prev_tx_id >= base)
}

proof fn a_number_is_below(rng: u64, n: nat)
    ensures
        n > 0 ==> drawn(rng, n).1 < n,
{
    if n > 0 {
        let x = crate::corpus::shifted(rng) as nat;
        assert(x % n < n) by (nonlinear_arith)
            requires
                n > 0,
        ;
    }
}

proof fn one_spent(c: Stock, floor: nat, window: usize, base: int)
    requires
        is_fresh(c, base),
        c.starts_at <= c.unspent.len(),
        floor < c.unspent.len(),
        window == 0 ==> floor == c.starts_at,
    ensures
        ({
            let (d, input) = spend_one(c, floor);
            &&& is_fresh(d, base)
            &&& d.starts_at <= d.unspent.len()
            &&& window == 0 ==> d.starts_at == floor
            &&& 1 <= input.amount <= AMOUNTS
            &&& window == 0 ==> input.prev_tx_id >= base
        }),
{
    let n = (c.unspent.len() - floor) as nat;
    a_number_is_below(c.rng, n);
    let (r, k) = drawn(c.rng, n);
    a_number_is_below(r, AMOUNTS as nat);
    let at = (floor + k) as int;
    let left = taken_from(c.unspent, at);
    let (d, input) = spend_one(c, floor);
    assert forall|i: int| d.starts_at <= i < d.unspent.len() implies (
    #[trigger] d.unspent[i]).tx >= base by {
        assert(c.unspent[i].tx >= base);
        if i == at {
            assert(c.unspent[c.unspent.len() - 1].tx >= base);
        }
    }
    assert(c.unspent[at].tx >= base || window != 0);
}

proof fn some_spent(
    c: Stock,
    floor: nat,
    n: nat,
    got: Seq<Input>,
    window: usize,
    base: int,
)
    requires
        is_fresh(c, base),
        c.starts_at <= c.unspent.len(),
        window == 0 ==> floor == c.starts_at,
        are_inputs(got, window, base),
    ensures
        ({
            let (d, inputs) = spend(c, floor, n, got);
            &&& is_fresh(d, base)
            &&& d.starts_at <= d.unspent.len()
            &&& are_inputs(inputs, window, base)
            &&& got.len() <= inputs.len() <= got.len() + n
            &&& n > 0 && floor < c.unspent.len() ==> got.len() < inputs.len()
        }),
    decreases n,
{
    if n > 0 && floor < c.unspent.len() {
        one_spent(c, floor, window, base);
        let (next, input) = spend_one(c, floor);
        some_spent(next, floor, (n - 1) as nat, got.push(input), window, base);
    }
}

proof fn one_more_made(
    c: Stock,
    window: usize,
    per_block: usize,
    block: usize,
    tx: usize,
    base: int,
    j: int,
)
    requires
        is_fresh(c, base),
        c.starts_at < c.unspent.len(),
        tx == base + j,
        0 <= base,
        j > 0,
    ensures
        ({
            let made = spending(c, window, block, tx);
            &&& made is Some
            &&& is_fresh((made->0).0, base)
            &&& (made->0).0.starts_at < (made->0).0.unspent.len()
            &&& is_made((made->0).1, window, per_block, block as int, base, j)
        }),
{
    let floor = floor_of(c, window);
    let (rng, n) = inputs_wanted(c.rng);
    a_number_is_below(c.rng, 4);
    a_number_is_below(drawn(c.rng, 4).0, 3);
    let start = Stock { rng, ..c };
    some_spent(start, floor, n, Seq::empty(), window, base);
    let (d, inputs) = spend(start, floor, n, Seq::empty());
    a_number_is_below(d.rng, 3);
    let (e, r) = spending(c, window, block, tx)->0;
    assert forall|i: int| e.starts_at <= i < e.unspent.len() implies (
    #[trigger] e.unspent[i]).tx >= base by {
        if i < d.unspent.len() {
            assert(d.unspent[i].tx >= base);
        }
    }
    assert(r.inputs == inputs);
}

spec fn are_made(
    made: Seq<RecordView>,
    window: usize,
    per_block: usize,
    block: int,
    base: int,
) -> bool {
    forall|j: int|
        0 <= j < made.len() ==> is_made(
            #[trigger] made[j],
            window,
            per_block,
            block,
            base,
            j,
        )
}

proof fn rest_made(
    c: Stock,
    window: usize,
    per_block: usize,
    block: usize,
    tx: usize,
    limit: usize,
    todo: nat,
    made: Seq<RecordView>,
    base: int,
)
    requires
        is_fresh(c, base),
        c.starts_at < c.unspent.len(),
        0 <= base,
        0 < made.len(),
        tx == base + made.len() <= limit,
        are_made(made, window, per_block, block as int, base),
    ensures
        ({
            let all = rest_of_block(c, window, block, tx, limit, todo, made).1;
            &&& are_made(all, window, per_block, block as int, base)
            &&& all.len() == if made.len() + todo < limit - base {
                (made.len() + todo) as int
            } else {
                limit - base
            }
        }),
    decreases todo,
{
    if todo > 0 && tx < limit {
        one_more_made(c, window, per_block, block, tx, base, made.len() as int);
        let (d, r) = spending(c, window, block, tx)->0;
        let next = made.push(r);
        assert forall|j: int| 0 <= j < next.len() implies is_made(
            #[trigger] next[j],
            window,
            per_block,
            block as int,
            base,
            j,
        ) by {
            if j < made.len() {
                assert(next[j] == made[j]);
            }
        }
        rest_made(
            d,
            window,
            per_block,
            block,
            (tx + 1) as usize,
            limit,
            (todo - 1) as nat,
            next,
            base,
        );
    }
}

/// Record `k` of a corpus.
pub open spec fn is_record_of(r: RecordView, window: usize, per_block: usize, k: int) -> bool {
    let first = (k / per_block as int) * per_block;
    &&& r.tx_id == k
    &&& r.block_id == k / per_block as int
    &&& k == first ==> r.inputs.len() == 0 && r.outputs == if window == 0 {
        2 * per_block
    } else {
        2
    }
    &&& k != first ==> 1 <= r.inputs.len() <= 3 && 2 <= r.outputs <= 4
    &&& forall|i: int|
        0 <= i < r.inputs.len() ==> 1 <= (#[trigger] r.inputs[i]).amount <= AMOUNTS && (window == 0
            ==> r.inputs[i].prev_tx_id >= first)
}

proof fn made_is_of(
    r: RecordView,
    window: usize,
    per_block: usize,
    block: int,
    j: int,
)
    requires
        is_made(r, window, per_block, block, block * per_block, j),
        0 <= block,
        0 <= j < per_block,
    ensures
        is_record_of(r, window, per_block, block * per_block + j),
{
    let d = per_block as int;
    vstd::arithmetic::div_mod::lemma_fundamental_div_mod_converse(block * d + j, d, block, j);
}

proof fn corpus_is_made(
    c: Stock,
    window: usize,
    per_block: usize,
    block: usize,
    made: Seq<RecordView>,
    limit: usize,
)
    requires
        per_block >= 1,
        window == 0 ==> per_block * 2 <= usize::MAX,
        made.len() >= limit || made.len() == block * per_block,
        made.len() <= limit,
        forall|k: int|
            0 <= k < made.len() ==> is_record_of(#[trigger] made[k], window, per_block, k),
    ensures
        ({
            let all = corpus_from(c, window, per_block, block, made, limit);
            forall|k: int|
                0 <= k < all.len() ==> is_record_of(#[trigger] all[k], window, per_block, k)
        }),
    decreases limit - made.len(),
{
    if made.len() < limit {
        let tx = made.len() as usize;
        let base = made.len() as int;
        let (d, coinbase) = minting(c, window, per_block, block, tx);
        let first = seq![coinbase];
        assert(is_fresh(d, base));
        assert(first[0] == coinbase);
        assert(are_made(first, window, per_block, block as int, base));
        rest_made(
            d,
            window,
            per_block,
            block,
            (tx + 1) as usize,
            limit,
            (per_block - 1) as nat,
            first,
            base,
        );
        let (next, more) = block_of(c, window, per_block, block, tx, limit);
        let all = made + more;
        assert forall|k: int| 0 <= k < all.len() implies is_record_of(
            #[trigger] all[k],
            window,
            per_block,
            k,
        ) by {
            if k < made.len() {
                assert(all[k] == made[k]);
            } else {
                let j = k - made.len();
                assert(all[k] == more[j]);
                made_is_of(more[j], window, per_block, block as int, j);
            }
        }
        let n = block + 1;
        assert(n * per_block == block * per_block + per_block) by (nonlinear_arith)
            requires
                n == block + 1,
        ;
        assert(block <= block * per_block) by (nonlinear_arith)
            requires
                per_block >= 1,
                block >= 0,
        ;
        corpus_is_made(
            between_blocks(next),
            window,
            per_block,
            (block + 1) as usize,
            all,
            limit,
        );
        assert(corpus_from(c, window, per_block, block, made, limit) == corpus_from(
            between_blocks(next),
            window,
            per_block,
            (block + 1) as usize,
            all,
            limit,
        ));
    }
}

/// A corpus is made up of blocks of the size asked for, one after another: the first
/// transaction of a block spends nothing, the others one to three outputs and no more
/// than they may, and transactions are numbered from the first. With no window no
/// transaction reaches back beyond its own block.
pub proof fn a_corpus_is_made_up_of_blocks(
    limit: usize,
    window: usize,
    per_block: usize,
    seed: u64,
    k: int,
)
    requires
        per_block >= 1,
        window == 0 ==> per_block * 2 <= usize::MAX,
        0 <= k < whole_corpus(limit, window, per_block, seed).len(),
    ensures
        is_record_of(
            whole_corpus(limit, window, per_block, seed)[k],
            window,
            per_block,
            k,
        ),
{
    let start = Stock { rng: seed, unspent: Seq::<Unspent>::empty(), starts_at: 0 };
    corpus_is_made(start, window, per_block, 0, Seq::empty(), limit);
}

} // verus!
