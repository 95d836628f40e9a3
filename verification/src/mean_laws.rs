//! What a run over records comes to, in terms of the records alone.

use vstd::prelude::*;

use crate::mean_run::{
    all_follow, follows, lines_of, mixes, parts_of, trace_from, trace_of, Traced,
};
use crate::means::{
    added, mean_text, share_of, sources, spending, spent, worth_something, Share, SourceView, Spend,
    Unspent,
};
use crate::record_laws::{all_there, is_latest, is_left, spends_between, spends_in};
use crate::records::{Input, RecordView};
use crate::sexp::{past_blanks, record_at, record_within, records_at};
use crate::text::{ascii, dec, padded};

verus! {

/// Some input is worth something.
pub open spec fn any_amount(inputs: Seq<Input>) -> bool {
    exists|i: int| 0 <= i < inputs.len() && (#[trigger] inputs[i]).amount > 0
}

proof fn worth_is_amount(inputs: Seq<Input>)
    ensures
        any_amount(inputs) == worth_something(inputs),
{
    if any_amount(inputs) {
        let i = choose|i: int| 0 <= i < inputs.len() && (#[trigger] inputs[i]).amount > 0;
        assert(inputs[i].amount > 0);
    }
    if worth_something(inputs) {
        let i = choose|i: int| 0 <= i < inputs.len() && (#[trigger] inputs[i]).amount > 0;
        assert(inputs[i].amount > 0);
    }
}

proof fn spending_in_turn(
    tx: usize,
    live: Map<usize, Unspent>,
    inputs: Seq<Input>,
    taken: Seq<Spend>,
    i: int,
)
    requires
        0 <= i <= inputs.len() <= usize::MAX,
    ensures
        spending(tx, live, inputs, taken, i) matches Ok((_, all)) ==> {
            &&& all.len() == taken.len() + i
            &&& forall|k: int| 0 <= k < taken.len() ==> #[trigger] all[k] == taken[k]
            &&& any_amount(inputs) ==> forall|x: int|
                #![trigger inputs[x]]
                0 <= x < i ==> all[taken.len() + i - 1 - x].share == Share::Value(inputs[x].amount)
            &&& !any_amount(inputs) ==> forall|k: int|
                taken.len() <= k < all.len() ==> (#[trigger] all[k]).share == Share::Equal(
                    inputs.len() as usize,
                )
        },
    decreases i,
{
    worth_is_amount(inputs);
    if i > 0 {
        let previous = inputs[i - 1].prev_tx_id;
        if live.contains_key(previous) {
            let spend = Spend {
                record: live[previous].record,
                share: share_of(inputs, i - 1),
                last: live[previous].outputs <= 1,
            };
            let more = taken.push(spend);
            spending_in_turn(tx, spent(live, previous), inputs, more, i - 1);
            if let Ok((_, all)) = spending(tx, live, inputs, taken, i) {
                assert(all[taken.len() as int] == more[taken.len() as int]);
                assert forall|k: int| 0 <= k < taken.len() implies #[trigger] all[k] == taken[k] by {
                    assert(all[k] == more[k]);
                }
                if any_amount(inputs) {
                    assert forall|x: int|
                        #![trigger inputs[x]]
                        0 <= x < i implies all[taken.len() + i - 1 - x].share == Share::Value(
                        inputs[x].amount,
                    ) by {
                        if x < i - 1 {
                            assert(taken.len() + i - 1 - x == more.len() + (i - 1) - 1 - x);
                        } else {
                            assert(taken.len() + i - 1 - x == taken.len());
                        }
                    }
                } else {
                    assert forall|k: int| taken.len() <= k < all.len() implies (
                    #[trigger] all[k]).share == Share::Equal(inputs.len() as usize) by {}
                }
            }
        }
    }
}

/// The shares are the amounts. A record that spends takes its inputs from the last to
/// the first, all of them, and each brings its own amount, whatever that is, out of
/// all of them; or, where none is worth anything, as much as any other.
pub proof fn the_shares_are_the_amounts(live: Map<usize, Unspent>, record: RecordView)
    requires
        record.inputs.len() <= usize::MAX,
    ensures
        sources(live, record) matches Ok((_, SourceView::Minted(block))) ==> record.inputs.len()
            == 0 && block == record.block_id,
        sources(live, record) matches Ok((_, SourceView::Spent(taken))) ==> {
            let n = record.inputs.len() as int;
            &&& n > 0
            &&& taken.len() == n
            &&& any_amount(record.inputs) ==> forall|i: int|
                #![trigger record.inputs[i]]
                0 <= i < n ==> taken[n - 1 - i].share == Share::Value(record.inputs[i].amount)
            &&& !any_amount(record.inputs) ==> forall|k: int|
                0 <= k < n ==> (#[trigger] taken[k]).share == Share::Equal(n as usize)
        },
{
    if record.inputs.len() > 0 {
        spending_in_turn(
            record.tx_id,
            live,
            record.inputs,
            Seq::empty(),
            record.inputs.len() as int,
        );
    }
}

/// The records of a run.
pub open spec fn records_of(steps: Seq<Traced>) -> Seq<RecordView> {
    Seq::new(steps.len(), |i: int| steps[i].record)
}

/// Record `k` of a run is made of what it should be: its own block if it spends
/// nothing; else, input by input from the last, the latest record of the transaction
/// that the input spends, with the input's amount as its share.
pub open spec fn is_made_right(steps: Seq<Traced>, k: int) -> bool {
    let r = steps[k].record;
    let n = r.inputs.len() as int;
    match steps[k].source {
        SourceView::Minted(block) => n == 0 && block == r.block_id,
        SourceView::Spent(list) => {
            &&& n > 0
            &&& list.len() == n
            &&& forall|i: int|
                #![trigger r.inputs[i]]
                0 <= i < n ==> {
                    &&& is_latest(
                        records_of(steps),
                        k,
                        r.inputs[i].prev_tx_id,
                        list[n - 1 - i].record as int,
                    )
                    &&& any_amount(r.inputs) ==> list[n - 1 - i].share == Share::Value(
                        r.inputs[i].amount,
                    )
                    &&& !any_amount(r.inputs) ==> list[n - 1 - i].share == Share::Equal(n as usize)
                }
        },
    }
}

/// What can be spent after the first records is what the records say.
spec fn tells(live: Map<usize, Unspent>, records: Seq<RecordView>, k: int) -> bool {
    &&& forall|t: usize| #[trigger]
        live.contains_key(t) ==> {
            &&& is_latest(records, k, t, live[t].record as int)
            &&& live[t].outputs > 0
            &&& live[t].outputs == records[live[t].record as int].outputs - spends_between(
                records,
                live[t].record as int,
                k,
                t,
            )
        }
    &&& forall|t: usize, j: int| #[trigger]
        is_latest(records, k, t, j) && !live.contains_key(t) ==> records[j].outputs
            <= spends_between(records, j, k, t)
}

proof fn the_latest_is_one(records: Seq<RecordView>, k: int, tx: usize, i: int, j: int)
    requires
        is_latest(records, k, tx, i),
        is_latest(records, k, tx, j),
    ensures
        i == j,
{
    if i < j {
        assert(records[j].tx_id != tx);
    } else if j < i {
        assert(records[i].tx_id != tx);
    }
}

/// The inputs before the `i`th can be spent.
spec fn enough(live: Map<usize, Unspent>, inputs: Seq<Input>, i: int) -> bool {
    forall|t: usize|
        (#[trigger] spends_in(inputs.take(i), t)) > 0 ==> live.contains_key(t) && spends_in(
            inputs.take(i),
            t,
        ) <= live[t].outputs
}

proof fn spends_take(inputs: Seq<Input>, i: int, t: usize)
    requires
        0 < i <= inputs.len(),
    ensures
        spends_in(inputs.take(i), t) == spends_in(inputs.take(i - 1), t) + if inputs[i
            - 1].prev_tx_id == t {
            1nat
        } else {
            0
        },
{
    assert(inputs.take(i).drop_last() =~= inputs.take(i - 1));
}

proof fn some_spend(inputs: Seq<Input>, x: int)
    requires
        0 <= x < inputs.len(),
    ensures
        spends_in(inputs, inputs[x].prev_tx_id) > 0,
    decreases inputs.len(),
{
    if x < inputs.len() - 1 {
        some_spend(inputs.drop_last(), x);
    }
}

proof fn spending_what_is_there(
    tx: usize,
    live: Map<usize, Unspent>,
    inputs: Seq<Input>,
    taken: Seq<Spend>,
    i: int,
)
    requires
        0 <= i <= inputs.len() <= usize::MAX,
        forall|t: usize| #[trigger] live.contains_key(t) ==> live[t].outputs > 0,
    ensures
        spending(tx, live, inputs, taken, i) is Ok <==> enough(live, inputs, i),
        spending(tx, live, inputs, taken, i) matches Ok((left, all)) ==> {
            &&& all.len() == taken.len() + i
            &&& forall|k: int| 0 <= k < taken.len() ==> #[trigger] all[k] == taken[k]
            &&& forall|x: int|
                #![trigger inputs[x]]
                0 <= x < i ==> live.contains_key(inputs[x].prev_tx_id) && all[taken.len() + i - 1
                    - x].record == live[inputs[x].prev_tx_id].record
            &&& forall|t: usize| #[trigger]
                left.contains_key(t) ==> live.contains_key(t) && left[t].record == live[t].record
                    && left[t].outputs > 0 && left[t].outputs == live[t].outputs - spends_in(
                    inputs.take(i),
                    t,
                )
            &&& forall|t: usize| #[trigger]
                live.contains_key(t) && !left.contains_key(t) ==> spends_in(inputs.take(i), t)
                    == live[t].outputs
        },
    decreases i,
{
    assert(inputs.take(0) =~= Seq::<Input>::empty());
    if i > 0 {
        let previous = inputs[i - 1].prev_tx_id;
        spends_take(inputs, i, previous);
        if live.contains_key(previous) {
            let next = spent(live, previous);
            let spend = Spend {
                record: live[previous].record,
                share: share_of(inputs, i - 1),
                last: live[previous].outputs <= 1,
            };
            let more = taken.push(spend);
            assert forall|t: usize| #[trigger] next.contains_key(t) implies next[t].outputs > 0 by {
                assert(live.contains_key(t));
            }
            spending_what_is_there(tx, next, inputs, more, i - 1);
            if enough(live, inputs, i) {
                assert forall|t: usize|
                    (#[trigger] spends_in(inputs.take(i - 1), t)) > 0 implies next.contains_key(t)
                    && spends_in(inputs.take(i - 1), t) <= next[t].outputs by {
                    spends_take(inputs, i, t);
                    assert(spends_in(inputs.take(i), t) > 0);
                }
                assert(enough(next, inputs, i - 1));
            }
            if enough(next, inputs, i - 1) {
                assert forall|t: usize|
                    (#[trigger] spends_in(inputs.take(i), t)) > 0 implies live.contains_key(t)
                    && spends_in(inputs.take(i), t) <= live[t].outputs by {
                    spends_take(inputs, i, t);
                    if spends_in(inputs.take(i - 1), t) > 0 {
                        assert(next.contains_key(t));
                    }
                }
                assert(enough(live, inputs, i));
            }
            if let Ok((left, all)) = spending(tx, live, inputs, taken, i) {
                assert(all[taken.len() as int] == more[taken.len() as int]);
                assert forall|k: int| 0 <= k < taken.len() implies #[trigger] all[k] == taken[k] by {
                    assert(all[k] == more[k]);
                }
                assert forall|x: int|
                    #![trigger inputs[x]]
                    0 <= x < i implies live.contains_key(inputs[x].prev_tx_id) && all[taken.len() + i
                    - 1 - x].record == live[inputs[x].prev_tx_id].record by {
                    if x < i - 1 {
                        assert(taken.len() + i - 1 - x == more.len() + (i - 1) - 1 - x);
                        assert(next.contains_key(inputs[x].prev_tx_id));
                    } else {
                        assert(taken.len() + i - 1 - x == taken.len());
                    }
                }
                assert forall|t: usize| #[trigger] left.contains_key(t) implies live.contains_key(t)
                    && left[t].record == live[t].record && left[t].outputs > 0 && left[t].outputs
                    == live[t].outputs - spends_in(inputs.take(i), t) by {
                    assert(next.contains_key(t));
                    spends_take(inputs, i, t);
                }
                assert forall|t: usize| #[trigger]
                    live.contains_key(t) && !left.contains_key(t) implies spends_in(
                    inputs.take(i),
                    t,
                ) == live[t].outputs by {
                    spends_take(inputs, i, t);
                    if !next.contains_key(t) {
                        assert(t == previous);
                        if spends_in(inputs.take(i - 1), t) > 0 {
                            assert(next.contains_key(t));
                        }
                    }
                }
            }
        } else {
            assert(spends_in(inputs.take(i), previous) > 0);
        }
    } else {
        assert forall|t: usize| (#[trigger] spends_in(inputs.take(0), t)) > 0 implies false by {}
    }
}

/// What one record more comes to.
proof fn one_more(live: Map<usize, Unspent>, records: Seq<RecordView>, k: int)
    requires
        0 <= k < records.len() <= usize::MAX,
        records[k].inputs.len() <= usize::MAX,
        tells(live, records, k),
    ensures
        sources(live, records[k]) is Ok <==> all_there(records, k),
        sources(live, records[k]) matches Ok((left, source)) ==> {
            let n = records[k].inputs.len() as int;
            &&& tells(added(left, records[k], k as nat), records, k + 1)
            &&& source matches SourceView::Spent(list) ==> list.len() == n && forall|i: int|
                #![trigger records[k].inputs[i]]
                0 <= i < n ==> is_latest(
                    records,
                    k,
                    records[k].inputs[i].prev_tx_id,
                    list[n - 1 - i].record as int,
                )
        },
{
    let r = records[k];
    let n = r.inputs.len() as int;
    assert(r.inputs.take(n) =~= r.inputs);
    spending_what_is_there(r.tx_id, live, r.inputs, Seq::empty(), n);
    assert(enough(live, r.inputs, n) <==> all_there(records, k)) by {
        if enough(live, r.inputs, n) {
            assert forall|t: usize| (#[trigger] spends_in(r.inputs, t)) > 0 implies exists|
                left: int,
            | #[trigger] is_left(records, k, t, left) && spends_in(r.inputs, t) <= left by {
                assert(spends_in(r.inputs.take(n), t) > 0);
                assert(is_latest(records, k, t, live[t].record as int));
                assert(is_left(records, k, t, live[t].outputs as int));
            }
        }
        if all_there(records, k) {
            assert forall|t: usize|
                (#[trigger] spends_in(r.inputs.take(n), t)) > 0 implies live.contains_key(t)
                && spends_in(r.inputs.take(n), t) <= live[t].outputs by {
                assert(spends_in(r.inputs, t) > 0);
                let left = choose|left: int| #[trigger]
                    is_left(records, k, t, left) && spends_in(r.inputs, t) <= left;
                let j = choose|j: int| #[trigger]
                    is_latest(records, k, t, j) && left == records[j].outputs - spends_between(
                        records,
                        j,
                        k,
                        t,
                    );
                assert(is_latest(records, k, t, j));
                if live.contains_key(t) {
                    the_latest_is_one(records, k, t, j, live[t].record as int);
                }
            }
        }
    }
    if n == 0 {
        assert forall|t: usize| (#[trigger] spends_in(r.inputs.take(n), t)) > 0 implies false by {}
    }
    if let Ok((left, source)) = sources(live, r) {
        if let SourceView::Spent(list) = source {
            assert forall|i: int|
                #![trigger records[k].inputs[i]]
                0 <= i < n implies is_latest(
                records,
                k,
                records[k].inputs[i].prev_tx_id,
                list[n - 1 - i].record as int,
            ) by {
                assert(live.contains_key(r.inputs[i].prev_tx_id));
            }
        }
        let next = added(left, r, k as nat);
        let next_k = k + 1;
        assert forall|t: usize| #[trigger] left.contains_key(t) implies live.contains_key(t)
            && left[t].record == live[t].record && left[t].outputs > 0 && left[t].outputs
            == live[t].outputs - spends_in(r.inputs, t) by {
            if n == 0 {
                assert(spends_in(r.inputs, t) == 0);
            }
        }
        assert forall|t: usize| #[trigger] next.contains_key(t) implies {
            &&& is_latest(records, next_k, t, next[t].record as int)
            &&& next[t].outputs > 0
            &&& next[t].outputs == records[next[t].record as int].outputs - spends_between(
                records,
                next[t].record as int,
                next_k,
                t,
            )
        } by {
            if !(r.outputs > 0 && t == r.tx_id) {
                assert(left.contains_key(t));
                assert(is_latest(records, k, t, live[t].record as int));
                assert forall|m: int|
                    live[t].record < m < next_k && (#[trigger] records[m]).outputs
                        > 0 implies records[m].tx_id != t by {}
            }
        }
        assert forall|t: usize, j: int| #[trigger]
            is_latest(records, next_k, t, j) && !next.contains_key(t) implies records[j].outputs
            <= spends_between(records, j, next_k, t) by {
            if j < k {
                if r.outputs > 0 {
                    assert(records[k].tx_id != t);
                }
                assert(is_latest(records, k, t, j));
                if live.contains_key(t) {
                    the_latest_is_one(records, k, t, j, live[t].record as int);
                    assert(!left.contains_key(t));
                    if n > 0 {
                        assert(spends_in(r.inputs.take(n), t) == live[t].outputs);
                    }
                }
            }
        }
    }
}

proof fn latest_in_prefix(a: Seq<RecordView>, b: Seq<RecordView>, k: int)
    requires
        0 <= k <= a.len(),
        k <= b.len(),
        forall|i: int| 0 <= i < k ==> #[trigger] a[i] == b[i],
    ensures
        forall|t: usize, j: int| #[trigger] is_latest(a, k, t, j) <==> is_latest(b, k, t, j),
{
    assert forall|t: usize, j: int| #[trigger] is_latest(a, k, t, j) <==> is_latest(b, k, t, j) by {
        if is_latest(a, k, t, j) {
            assert(a[j] == b[j]);
            assert forall|m: int| j < m < k && (#[trigger] b[m]).outputs > 0 implies b[m].tx_id
                != t by {
                assert(a[m] == b[m]);
            }
        }
        if is_latest(b, k, t, j) {
            assert(a[j] == b[j]);
            assert forall|m: int| j < m < k && (#[trigger] a[m]).outputs > 0 implies a[m].tx_id
                != t by {
                assert(a[m] == b[m]);
            }
        }
    }
}

/// The text's records, as far as they go: a run and a reading of the same text.
proof fn tracing(
    s: Seq<u8>,
    at: int,
    live: Map<usize, Unspent>,
    limit: nat,
    got: Seq<Traced>,
    all: Seq<RecordView>,
)
    requires
        0 <= at <= s.len(),
        limit <= usize::MAX,
        got.len() <= limit,
        records_at(s, at, limit, records_of(got)) == Ok::<Seq<RecordView>, Seq<char>>(all),
        forall|i: int| 0 <= i < all.len() ==> (#[trigger] all[i]).inputs.len() <= usize::MAX,
        all.len() <= limit,
        got.len() <= all.len(),
        forall|i: int| 0 <= i < got.len() ==> (#[trigger] got[i]).record == all[i],
        tells(live, all, got.len() as int),
        forall|i: int| 0 <= i < got.len() ==> #[trigger] is_made_right(got, i),
        forall|i: int| 0 <= i < got.len() ==> #[trigger] all_there(all, i),
    ensures
        ({
            let t = trace_from(s, at, live, limit, got);
            let n = t.steps.len() as int;
            &&& n <= all.len()
            &&& records_of(t.steps) == all.take(n)
            &&& t.why is None <==> n == all.len()
            &&& t.why is Some ==> !all_there(all, n)
            &&& forall|i: int| 0 <= i < n ==> #[trigger] all_there(all, i)
            &&& forall|i: int| 0 <= i < n ==> #[trigger] is_made_right(t.steps, i)
        }),
    decreases s.len() - at,
{
    let t = trace_from(s, at, live, limit, got);
    let k = got.len() as int;
    assert(records_of(got) =~= all.take(k));
    if got.len() >= limit || past_blanks(s, at) >= s.len() {
        assert(all == records_of(got));
    } else {
        record_within(s, at);
        let (record, e) = record_at(s, at)->0;
        let longer = records_of(got).push(record);
        records_grow(s, e, limit, longer);
        assert(all[k] == longer[k]);
        assert(all[k] == record);
        one_more(live, all, k);
        the_shares_are_the_amounts(live, record);
        if let Ok((left, source)) = sources(live, record) {
            let step = Traced { record, source };
            let more = got.push(step);
            assert(records_of(more) =~= longer);
            assert forall|i: int| 0 <= i < more.len() implies (#[trigger] more[i]).record
                == all[i] by {
                if i < k {
                    assert(more[i] == got[i]);
                }
            }
            assert forall|i: int| 0 <= i < more.len() implies #[trigger] is_made_right(
                more,
                i,
            ) by {
                if i < k {
                    assert(is_made_right(got, i));
                    assert(more[i] == got[i]);
                    latest_in_prefix(records_of(got), records_of(more), i);
                } else {
                    latest_in_prefix(all, records_of(more), k);
                }
            }
            assert forall|i: int| 0 <= i < more.len() implies #[trigger] all_there(all, i) by {
                if i < k {
                    assert(all_there(all, i));
                }
            }
            tracing(s, e, added(left, record, got.len()), limit, more, all);
        }
    }
}

proof fn records_grow(s: Seq<u8>, at: int, limit: nat, got: Seq<RecordView>)
    requires
        0 <= at <= s.len(),
    ensures
        records_at(s, at, limit, got) matches Ok(all) ==> got.len() <= all.len() && got
            == all.take(got.len() as int) && (got.len() <= limit ==> all.len() <= limit),
    decreases s.len() - at,
{
    assert(got.take(got.len() as int) =~= got);
    if got.len() < limit && past_blanks(s, at) < s.len() {
        record_within(s, at);
        if let Some((record, e)) = record_at(s, at) {
            let more = got.push(record);
            records_grow(s, e, limit, more);
            if let Ok(all) = records_at(s, at, limit, got) {
                assert(got =~= all.take(more.len() as int).take(got.len() as int));
                assert(all.take(more.len() as int).take(got.len() as int) =~= all.take(
                    got.len() as int,
                ));
            }
        }
    }
}

/// A run over a text that reads as these records comes through all of them exactly if
/// each spends only what is there, and otherwise through those before the first that
/// does not. Each is made of its own block, or of the latest records of the
/// transactions that its inputs spend, with the amounts as shares.
pub proof fn a_run_goes_as_far_as_its_records_spend_what_is_there(
    s: Seq<u8>,
    limit: nat,
    all: Seq<RecordView>,
)
    requires
        limit <= usize::MAX,
        records_at(s, 0, limit, Seq::empty()) == Ok::<Seq<RecordView>, Seq<char>>(all),
        forall|i: int| 0 <= i < all.len() ==> (#[trigger] all[i]).inputs.len() <= usize::MAX,
    ensures
        ({
            let t = trace_of(s, limit);
            let n = t.steps.len() as int;
            &&& n <= all.len()
            &&& records_of(t.steps) == all.take(n)
            &&& t.why is None <==> n == all.len()
            &&& t.why is Some ==> !all_there(all, n)
            &&& forall|i: int| 0 <= i < n ==> #[trigger] all_there(all, i)
            &&& forall|i: int| 0 <= i < n ==> #[trigger] is_made_right(t.steps, i)
        }),
{
    let none = Seq::<Traced>::empty();
    assert(records_of(none) =~= Seq::<RecordView>::empty());
    records_grow(s, 0, limit, Seq::empty());
    tracing(s, 0, Map::empty(), limit, none, all);
}

/// Means `m` and its share are what input `i` of record `k` brings: the mean of the
/// latest record of the transaction that it spends, and its amount.
pub open spec fn is_brought<M>(
    steps: Seq<Traced>,
    means: Seq<(M, u64)>,
    k: int,
    i: int,
    part: (M, Share),
    j: int,
) -> bool {
    let inputs = steps[k].record.inputs;
    &&& is_latest(records_of(steps), k, inputs[i].prev_tx_id, j)
    &&& part.0 == means[j].0
    &&& part.1 == if any_amount(inputs) {
        Share::Value(inputs[i].amount)
    } else {
        Share::Equal(inputs.len() as usize)
    }
}

/// The part that input `i` of record `k` brings is among these, in its place.
pub open spec fn is_part_of<M>(
    steps: Seq<Traced>,
    means: Seq<(M, u64)>,
    k: int,
    parts: Seq<(M, Share)>,
    i: int,
) -> bool {
    exists|j: int| #[trigger]
        is_brought(steps, means, k, i, parts[steps[k].record.inputs.len() - 1 - i], j)
}

/// These are the parts of record `k`: one to an input, from the last to the first.
pub open spec fn are_parts_of<M>(
    steps: Seq<Traced>,
    means: Seq<(M, u64)>,
    k: int,
    parts: Seq<(M, Share)>,
) -> bool {
    let n = steps[k].record.inputs.len() as int;
    &&& parts.len() == n
    &&& forall|i: int| 0 <= i < n ==> #[trigger] is_part_of(steps, means, k, parts, i)
}

/// The mean of a transaction is that of its block if it spends nothing, that of the
/// record it spends if it has one input, and otherwise mixed of the means of the
/// records that its inputs spend, each with the amount that the input is of.
pub proof fn a_mean_is_mixed_of_what_is_spent<
    M,
    A: Fn(usize) -> M,
    B: Fn(&Vec<(M, Share)>) -> M,
    C: Fn(M) -> u64,
>(
    s: Seq<u8>,
    limit: nat,
    all: Seq<RecordView>,
    means: Seq<(M, u64)>,
    minted: A,
    mixed: B,
    units: C,
    k: int,
)
    requires
        limit <= usize::MAX,
        records_at(s, 0, limit, Seq::empty()) == Ok::<Seq<RecordView>, Seq<char>>(all),
        forall|i: int| 0 <= i < all.len() ==> (#[trigger] all[i]).inputs.len() <= usize::MAX,
        all_follow(trace_of(s, limit).steps, means, minted, mixed, units),
        0 <= k < trace_of(s, limit).steps.len(),
    ensures
        ({
            let steps = trace_of(s, limit).steps;
            let r = all[k];
            &&& steps[k].record == r
            &&& r.inputs.len() == 0 ==> minted.ensures((r.block_id,), means[k].0)
            &&& r.inputs.len() == 1 ==> exists|j: int| #[trigger]
                is_latest(all, k, r.inputs[0].prev_tx_id, j) && means[k] == means[j]
            &&& r.inputs.len() > 1 ==> exists|parts: Vec<(M, Share)>| #[trigger]
                mixed.ensures((&parts,), means[k].0) && are_parts_of(steps, means, k, parts@)
            &&& r.inputs.len() != 1 ==> units.ensures((means[k].0,), means[k].1)
        }),
{
    let steps = trace_of(s, limit).steps;
    a_run_goes_as_far_as_its_records_spend_what_is_there(s, limit, all);
    assert(records_of(steps)[k] == all.take(steps.len() as int)[k]);
    let r = all[k];
    assert(steps[k].record == r);
    assert(is_made_right(steps, k));
    assert(follows(steps, means, k, minted, mixed, units));
    if let SourceView::Spent(list) = steps[k].source {
        let n = r.inputs.len() as int;
        if n == 1 {
            assert(r.inputs[0] == steps[k].record.inputs[0]);
            let j = list[0].record as int;
            assert(is_latest(records_of(steps), k, r.inputs[0].prev_tx_id, j));
            assert forall|i: int| 0 <= i < k implies #[trigger] records_of(steps)[i] == all[i] by {
                assert(all.take(steps.len() as int)[i] == all[i]);
            }
            latest_in_prefix(records_of(steps), all, k);
            assert(is_latest(all, k, r.inputs[0].prev_tx_id, j));
        } else {
            let parts = parts_of(list, means.take(k));
            assert(mixes(mixed, parts, means[k].0));
            let v = choose|v: Vec<(M, Share)>| v@ == parts && #[trigger]
                mixed.ensures((&v,), means[k].0);
            assert forall|i: int| 0 <= i < n implies #[trigger] is_part_of(
                steps,
                means,
                k,
                v@,
                i,
            ) by {
                let input = steps[k].record.inputs[i];
                let j = list[n - 1 - i].record as int;
                assert(is_latest(records_of(steps), k, input.prev_tx_id, j));
                assert(parts[n - 1 - i] == (means.take(k)[j].0, list[n - 1 - i].share));
                assert(means.take(k)[j] == means[j]);
                assert(is_brought(steps, means, k, i, v@[n - 1 - i], j));
            }
            assert(are_parts_of(steps, means, k, v@));
        }
    }
}

/// Line `k` of what a run writes: the id of record `k`, and its mean.
pub open spec fn line_at(steps: Seq<Traced>, units: Seq<u64>, k: int) -> Seq<u8> {
    ascii(dec(steps[k].record.tx_id as nat)) + seq![0x2cu8] + ascii(dec((units[k] / 1_000_000) as nat))
        + seq![0x2eu8] + ascii(padded((units[k] % 1_000_000) as nat, 6)) + seq![0x0au8]
}

/// A line to a record, in order: its transaction, a comma, the mean to six places,
/// and the end of the line.
pub proof fn a_line_is_an_id_and_a_mean(steps: Seq<Traced>, units: Seq<u64>)
    requires
        0 < steps.len() <= units.len(),
    ensures
        lines_of(steps, units) == lines_of(steps.drop_last(), units) + line_at(
            steps,
            units,
            steps.len() - 1,
        ),
        lines_of(Seq::<Traced>::empty(), units) == Seq::<u8>::empty(),
{
    let k = steps.len() - 1;
    assert(mean_text(steps[k].record.tx_id, units[k] as nat) =~= line_at(steps, units, k));
}

/// What is left of transaction `t` once `n` of its outputs more are spent: so many
/// fewer, and nothing once there are none.
pub open spec fn is_left_of(
    live: Map<usize, Unspent>,
    left: Map<usize, Unspent>,
    t: usize,
    n: nat,
) -> bool {
    &&& n == 0 ==> (left.contains_key(t) <==> live.contains_key(t))
    &&& n > 0 ==> live.contains_key(t) && n <= live[t].outputs && (left.contains_key(t) <==> n
        < live[t].outputs)
    &&& left.contains_key(t) ==> left[t].record == live[t].record && left[t].outputs
        == live[t].outputs - n
}

/// Input `x`, of the first `i`, spends its transaction's latest record, and is the last
/// to do so if the inputs after it leave it no more than one output.
pub open spec fn is_spend_of(
    live: Map<usize, Unspent>,
    inputs: Seq<Input>,
    i: int,
    x: int,
    spend: Spend,
) -> bool {
    let p = inputs[x].prev_tx_id;
    &&& live.contains_key(p)
    &&& spend.record == live[p].record
    &&& spend.last <==> live[p].outputs == spends_in(inputs.subrange(x + 1, i), p) + 1
}

proof fn spending_leaves(
    tx: usize,
    live: Map<usize, Unspent>,
    inputs: Seq<Input>,
    taken: Seq<Spend>,
    i: int,
)
    requires
        0 <= i <= inputs.len(),
        forall|t: usize| #[trigger] live.contains_key(t) ==> live[t].outputs > 0,
    ensures
        spending(tx, live, inputs, taken, i) matches Ok((left, all)) ==> {
            &&& all.len() == taken.len() + i
            &&& forall|k: int| 0 <= k < taken.len() ==> #[trigger] all[k] == taken[k]
            &&& forall|t: usize| #[trigger]
                is_left_of(live, left, t, spends_in(inputs.take(i), t))
            &&& forall|k: int|
                taken.len() <= k < all.len() ==> is_spend_of(
                    live,
                    inputs,
                    i,
                    taken.len() + i - 1 - k,
                    #[trigger] all[k],
                )
        },
    decreases i,
{
    if i == 0 {
        assert(inputs.take(0) =~= Seq::empty());
    } else {
        let p = inputs[i - 1].prev_tx_id;
        if live.contains_key(p) {
            let spend = Spend {
                record: live[p].record,
                share: share_of(inputs, i - 1),
                last: live[p].outputs <= 1,
            };
            let more = taken.push(spend);
            let fewer = spent(live, p);
            spending_leaves(tx, fewer, inputs, more, i - 1);
            if let Ok((left, all)) = spending(tx, live, inputs, taken, i) {
                assert(inputs.take(i).drop_last() =~= inputs.take(i - 1));
                assert forall|t: usize| #[trigger]
                    is_left_of(live, left, t, spends_in(inputs.take(i), t)) by {
                    assert(is_left_of(fewer, left, t, spends_in(inputs.take(i - 1), t)));
                }
                assert forall|k: int| 0 <= k < taken.len() implies #[trigger] all[k] == taken[k] by {
                    assert(all[k] == more[k]);
                }
                assert forall|k: int| taken.len() <= k < all.len() implies is_spend_of(
                    live,
                    inputs,
                    i,
                    taken.len() + i - 1 - k,
                    #[trigger] all[k],
                ) by {
                    let x = taken.len() + i - 1 - k;
                    if k == taken.len() {
                        assert(all[k] == more[k]);
                        assert(inputs.subrange(i, i) =~= Seq::empty());
                    } else {
                        assert(is_spend_of(fewer, inputs, i - 1, x, all[k]));
                        let after = inputs.subrange(x + 1, i);
                        assert(after.drop_last() =~= inputs.subrange(x + 1, i - 1));
                        assert(after.last() == inputs[i - 1]);
                    }
                }
            }
        }
    }
}

/// Spending leaves of every transaction as many outputs fewer as the record has inputs
/// that spend it, and nothing of one whose outputs are all spent; and an input is the
/// last to spend a transaction exactly if it takes the output that no other input of
/// the record after it has taken.
pub proof fn spending_leaves_what_is_not_spent(
    live: Map<usize, Unspent>,
    record: RecordView,
    t: usize,
)
    requires
        record.inputs.len() <= usize::MAX,
        forall|t: usize| #[trigger] live.contains_key(t) ==> live[t].outputs > 0,
    ensures
        sources(live, record) matches Ok((left, _)) ==> is_left_of(
            live,
            left,
            t,
            spends_in(record.inputs, t),
        ),
        sources(live, record) matches Ok((_, SourceView::Spent(taken))) ==> {
            let n = record.inputs.len() as int;
            forall|k: int|
                0 <= k < n ==> is_spend_of(
                    live,
                    record.inputs,
                    n,
                    n - 1 - k,
                    #[trigger] taken[k],
                )
        },
{
    let n = record.inputs.len() as int;
    assert(record.inputs.take(n) =~= record.inputs);
    if n > 0 {
        spending_leaves(record.tx_id, live, record.inputs, Seq::empty(), n);
        if let Ok((left, all)) = spending(record.tx_id, live, record.inputs, Seq::empty(), n) {
            assert(is_left_of(live, left, t, spends_in(record.inputs.take(n), t)));
        }
    }
}

} // verus!
