//! A run over records as text: one line for each, with the mean of its colour.
//!
//! The mean itself is a number of the caller's: of a block that mints, of means
//! mixed by their shares, and in millionths. What is mixed of what, what inherits
//! its mean whole, and where the run ends is settled here.

use vstd::prelude::*;

use crate::means::{
    added, mean_line, mean_text, share_of, sources, spending, spent, Share, Source, SourceView, Spend,
    Tracer, Unspent,
};
use crate::records::{Input, RecordView};
use crate::sexp::{malformed, past_blanks, record_at, record_within, Reader};

verus! {

/// A record and what its colour is made of.
pub struct Traced {
    pub record: RecordView,
    pub source: SourceView,
}

/// The records a run came through, and why it ended before the limit or the text
/// did, if it was refused.
pub struct Trace {
    pub steps: Seq<Traced>,
    pub why: Option<Seq<char>>,
}

/// What a run over the text from `at` on comes to, after `got`: at most `limit`
/// records in all.
pub open spec fn trace_from(
    s: Seq<u8>,
    at: int,
    live: Map<usize, Unspent>,
    limit: nat,
    got: Seq<Traced>,
) -> Trace
    decreases s.len() - at,
    when 0 <= at <= s.len()
    via trace_shrinks
{
    if got.len() >= limit || past_blanks(s, at) >= s.len() {
        Trace { steps: got, why: None }
    } else {
        match record_at(s, at) {
            None => Trace { steps: got, why: Some(malformed(past_blanks(s, at) as nat)) },
            Some((record, e)) => match sources(live, record) {
                Err(why) => Trace { steps: got, why: Some(why) },
                Ok((left, source)) => trace_from(
                    s,
                    e,
                    added(left, record, got.len()),
                    limit,
                    got.push(Traced { record, source }),
                ),
            },
        }
    }
}

#[via_fn]
proof fn trace_shrinks(
    s: Seq<u8>,
    at: int,
    live: Map<usize, Unspent>,
    limit: nat,
    got: Seq<Traced>,
) {
    record_within(s, at);
}

/// What a run over a text comes to.
pub open spec fn trace_of(s: Seq<u8>, limit: nat) -> Trace {
    trace_from(s, 0, Map::empty(), limit, Seq::empty())
}

/// The lines of records with these means, in millionths.
pub open spec fn lines_of(steps: Seq<Traced>, units: Seq<u64>) -> Seq<u8>
    decreases steps.len(),
{
    if steps.len() == 0 {
        Seq::empty()
    } else {
        lines_of(steps.drop_last(), units) + mean_text(
            steps.last().record.tx_id,
            units[steps.len() - 1] as nat,
        )
    }
}

/// The means a colour is mixed of, each with its share.
pub open spec fn parts_of<M>(list: Seq<Spend>, means: Seq<(M, u64)>) -> Seq<(M, Share)> {
    Seq::new(list.len(), |k: int| (means[list[k].record as int].0, list[k].share))
}

/// The mixing gives this mean of these parts.
pub open spec fn mixes<M, B: Fn(&Vec<(M, Share)>) -> M>(
    mixed: B,
    parts: Seq<(M, Share)>,
    mean: M,
) -> bool {
    exists|v: Vec<(M, Share)>| v@ == parts && #[trigger] mixed.ensures((&v,), mean)
}

/// Mean `i` is that of what the record's colour is made of: of the block that
/// mints it; that of the one record it spends, if it spends one; or mixed.
pub open spec fn follows<
    M,
    A: Fn(usize) -> M,
    B: Fn(&Vec<(M, Share)>) -> M,
    C: Fn(M) -> u64,
>(steps: Seq<Traced>, means: Seq<(M, u64)>, i: int, minted: A, mixed: B, units: C) -> bool {
    match steps[i].source {
        SourceView::Minted(block) => minted.ensures((block,), means[i].0) && units.ensures(
            (means[i].0,),
            means[i].1,
        ),
        SourceView::Spent(list) => if list.len() == 1 {
            means[i] == means[list[0].record as int]
        } else {
            mixes(mixed, parts_of(list, means.take(i)), means[i].0) && units.ensures(
                (means[i].0,),
                means[i].1,
            )
        },
    }
}

/// The means of all the records, one after another.
pub open spec fn all_follow<
    M,
    A: Fn(usize) -> M,
    B: Fn(&Vec<(M, Share)>) -> M,
    C: Fn(M) -> u64,
>(steps: Seq<Traced>, means: Seq<(M, u64)>, minted: A, mixed: B, units: C) -> bool {
    &&& means.len() == steps.len()
    &&& forall|i: int|
        0 <= i < steps.len() ==> #[trigger] follows(steps, means, i, minted, mixed, units)
}

/// The lines are those of the records, each with its mean.
pub open spec fn is_output<
    M,
    A: Fn(usize) -> M,
    B: Fn(&Vec<(M, Share)>) -> M,
    C: Fn(M) -> u64,
>(steps: Seq<Traced>, lines: Seq<u8>, minted: A, mixed: B, units: C) -> bool {
    exists|means: Seq<(M, u64)>| #[trigger]
        all_follow(steps, means, minted, mixed, units) && lines == lines_of(steps, in_units(means))
}

/// The caller's numbers are functions of what they are made of: equal blocks, equal
/// parts and equal means come to equal results.
pub open spec fn are_functions<
    M,
    A: Fn(usize) -> M,
    B: Fn(&Vec<(M, Share)>) -> M,
    C: Fn(M) -> u64,
>(minted: A, mixed: B, units: C) -> bool {
    &&& forall|block: usize, a: M, b: M| #[trigger]
        minted.ensures((block,), a) && #[trigger] minted.ensures((block,), b) ==> a == b
    &&& forall|v: &Vec<(M, Share)>, w: &Vec<(M, Share)>, a: M, b: M| #[trigger]
        mixed.ensures((v,), a) && #[trigger] mixed.ensures((w,), b) && v@ == w@ ==> a == b
    &&& forall|mean: M, a: u64, b: u64| #[trigger]
        units.ensures((mean,), a) && #[trigger] units.ensures((mean,), b) ==> a == b
}

/// Means in millionths.
pub open spec fn in_units<M>(means: Seq<(M, u64)>) -> Seq<u64> {
    Seq::new(means.len(), |i: int| means[i].1)
}

proof fn lines_keep(steps: Seq<Traced>, a: Seq<u64>, b: Seq<u64>)
    requires
        steps.len() <= a.len(),
        steps.len() <= b.len(),
        forall|i: int| 0 <= i < steps.len() ==> a[i] == #[trigger] b[i],
    ensures
        lines_of(steps, a) == lines_of(steps, b),
    decreases steps.len(),
{
    if steps.len() > 0 {
        lines_keep(steps.drop_last(), a, b);
        assert(a[steps.len() - 1] == b[steps.len() - 1]);
    }
}

proof fn one_more_follows<
    M,
    A: Fn(usize) -> M,
    B: Fn(&Vec<(M, Share)>) -> M,
    C: Fn(M) -> u64,
>(
    steps: Seq<Traced>,
    means: Seq<(M, u64)>,
    step: Traced,
    mean: (M, u64),
    minted: A,
    mixed: B,
    units: C,
)
    requires
        all_follow(steps, means, minted, mixed, units),
        forall|i: int, k: int|
            0 <= i < steps.len() && steps[i].source is Spent && 0 <= k
                < steps[i].source->Spent_0.len() ==> (#[trigger] steps[i].source->Spent_0[k]).record
                < i,
        follows(steps.push(step), means.push(mean), steps.len() as int, minted, mixed, units),
    ensures
        all_follow(steps.push(step), means.push(mean), minted, mixed, units),
{
    let more = steps.push(step);
    let all = means.push(mean);
    assert forall|i: int| 0 <= i < more.len() implies #[trigger] follows(
        more,
        all,
        i,
        minted,
        mixed,
        units,
    ) by {
        if i < steps.len() {
            assert(follows(steps, means, i, minted, mixed, units));
            assert(more[i] == steps[i]);
            assert(all.take(i) =~= means.take(i));
            if let SourceView::Spent(list) = steps[i].source {
                if list.len() == 1 {
                    assert(steps[i].source->Spent_0[0].record < i);
                }
            }
        }
    }
}

/// Runs over at most `limit` records: the lines of those it came through, and why
/// it was refused to go on, if it was.
pub fn run<M: Copy, A: Fn(usize) -> M, B: Fn(&Vec<(M, Share)>) -> M, C: Fn(M) -> u64>(
    text: Vec<u8>,
    limit: usize,
    minted: A,
    mixed: B,
    units: C,
) -> (r: (Vec<u8>, Option<String>))
    requires
        forall|block: usize| #[trigger] minted.requires((block,)),
        forall|parts: &Vec<(M, Share)>| #[trigger] mixed.requires((parts,)),
        forall|mean: M| #[trigger] units.requires((mean,)),
    ensures
        ({
            let t = trace_of(text@, limit as nat);
            &&& is_output(t.steps, r.0@, minted, mixed, units)
            &&& r.1 is Some <==> t.why is Some
            &&& r.1 matches Some(why) ==> t.why == Some(why@)
        }),
{
    let ghost s = text@;
    let mut reader = Reader::new(text);
    let mut tracer = Tracer::new();
    let mut means: Vec<(M, u64)> = Vec::new();
    let mut lines: Vec<u8> = Vec::new();
    let ghost mut got: Seq<Traced> = Seq::empty();
    let ghost whole = trace_of(s, limit as nat);
    assert(lines@ =~= lines_of(got, in_units(means@)));
    while means.len() < limit
        invariant
            s == text@,
            reader.whole() == s,
            reader.done() <= s.len(),
            tracer.sound(),
            tracer.count() == means@.len() == got.len(),
            got.len() <= limit,
            whole == trace_of(s, limit as nat),
            whole == trace_from(s, reader.done() as int, tracer.unspent(), limit as nat, got),
            all_follow(got, means@, minted, mixed, units),
            forall|i: int, k: int|
                0 <= i < got.len() && got[i].source is Spent && 0 <= k
                    < got[i].source->Spent_0.len() ==> (#[trigger] got[i].source->Spent_0[k]).record
                    < i,
            lines@ == lines_of(got, in_units(means@)),
            forall|block: usize| #[trigger] minted.requires((block,)),
            forall|parts: &Vec<(M, Share)>| #[trigger] mixed.requires((parts,)),
            forall|mean: M| #[trigger] units.requires((mean,)),
        decreases s.len() - reader.done(),
    {
        proof {
            record_within(s, reader.done() as int);
        }
        let record = match reader.next_record() {
            Err(why) => {
                assert(whole.steps == got);
                return (lines, Some(why));
            },
            Ok(None) => {
                assert(whole.steps == got);
                return (lines, None);
            },
            Ok(Some(record)) => record,
        };
        let ghost live = tracer.unspent();
        let step = match tracer.take(&record) {
            Err(why) => {
                assert(whole.steps == got);
                return (lines, Some(why));
            },
            Ok(step) => step,
        };
        let ghost traced = Traced { record: record@, source: step.source@ };
        let ghost before = means@;
        let ghost more = got.push(traced);
        let mean: (M, u64) = match &step.source {
            Source::Minted(block) => {
                let m: M = minted(*block);
                (m, units(m))
            },
            Source::Spent(list) => {
                if list.len() == 1 {
                    assert(list@[0].record < before.len());
                    means[list[0].record]
                } else {
                    let mut parts: Vec<(M, Share)> = Vec::new();
                    let mut k: usize = 0;
                    assert(parts@ =~= parts_of(list@, before).take(0));
                    while k < list.len()
                        invariant
                            k <= list@.len(),
                            means@ == before,
                            parts@ == parts_of(list@, before).take(k as int),
                            forall|j: int|
                                0 <= j < list@.len() ==> (#[trigger] list@[j]).record
                                    < before.len(),
                        decreases list@.len() - k,
                    {
                        assert(list@[k as int].record < before.len());
                        parts.push((means[list[k].record].0, list[k].share));
                        assert(parts@ =~= parts_of(list@, before).take(k + 1));
                        k += 1;
                    }
                    assert(parts@ =~= parts_of(list@, before));
                    let m: M = mixed(&parts);
                    assert(mixes(mixed, parts_of(list@, before), m));
                    (m, units(m))
                }
            },
        };
        let mut line = mean_line(record.tx_id, mean.1);
        lines.append(&mut line);
        means.push(mean);
        proof {
            let n = got.len() as int;
            assert(means@.take(n) =~= before);
            assert(more[n] == traced);
            assert(follows(more, means@, n, minted, mixed, units));
            one_more_follows(got, before, traced, mean, minted, mixed, units);
            assert(more.drop_last() =~= got);
            lines_keep(got, in_units(before), in_units(means@));
            assert(lines@ =~= lines_of(more, in_units(means@)));
            assert forall|i: int, k: int|
                0 <= i < more.len() && more[i].source is Spent && 0 <= k
                    < more[i].source->Spent_0.len() implies (
            #[trigger] more[i].source->Spent_0[k]).record < i by {
                if i < got.len() {
                    assert(got[i].source->Spent_0[k].record < i);
                }
            }
            got = more;
        }
    }
    assert(whole.steps == got);
    (lines, None)
}

/// The steps of a run with a smaller limit are the first of those with a larger
/// one, and where they do not come to the smaller limit both runs are the same.
proof fn a_shorter_trace(
    s: Seq<u8>,
    at: int,
    live: Map<usize, Unspent>,
    small: nat,
    large: nat,
    got: Seq<Traced>,
)
    requires
        0 <= at <= s.len(),
        got.len() <= small <= large,
    ensures
        ({
            let a = trace_from(s, at, live, small, got);
            let b = trace_from(s, at, live, large, got);
            &&& a.steps.len() <= b.steps.len()
            &&& a.steps == b.steps.take(a.steps.len() as int)
            &&& a.steps.len() <= small
            &&& got.len() <= a.steps.len()
            &&& a.steps.len() < small ==> a == b
            &&& a.steps.len() == small ==> a.why is None
            &&& got == a.steps.take(got.len() as int)
        }),
    decreases s.len() - at,
{
    let a = trace_from(s, at, live, small, got);
    let b = trace_from(s, at, live, large, got);
    if past_blanks(s, at) >= s.len() {
        assert(got.take(got.len() as int) =~= got);
    } else if got.len() >= small {
        a_longer_trace(s, at, live, large, got);
        assert(got.take(got.len() as int) =~= got);
    } else {
        record_within(s, at);
        assert(got.take(got.len() as int) =~= got);
        if let Some((record, e)) = record_at(s, at) {
            if let Ok((left, source)) = sources(live, record) {
                let more = got.push(Traced { record, source });
                a_shorter_trace(s, e, added(left, record, got.len()), small, large, more);
                assert(got =~= a.steps.take(more.len() as int).take(got.len() as int));
                assert(a.steps.take(more.len() as int).take(got.len() as int) =~= a.steps.take(
                    got.len() as int,
                ));
            }
        }
    }
}

proof fn a_longer_trace(
    s: Seq<u8>,
    at: int,
    live: Map<usize, Unspent>,
    limit: nat,
    got: Seq<Traced>,
)
    requires
        0 <= at <= s.len(),
    ensures
        got.len() <= trace_from(s, at, live, limit, got).steps.len(),
        got == trace_from(s, at, live, limit, got).steps.take(got.len() as int),
    decreases s.len() - at,
{
    let t = trace_from(s, at, live, limit, got);
    assert(got.take(got.len() as int) =~= got);
    if got.len() < limit && past_blanks(s, at) < s.len() {
        record_within(s, at);
        if let Some((record, e)) = record_at(s, at) {
            if let Ok((left, source)) = sources(live, record) {
                let more = got.push(Traced { record, source });
                a_longer_trace(s, e, added(left, record, got.len()), limit, more);
                assert(got =~= t.steps.take(more.len() as int).take(got.len() as int));
                assert(t.steps.take(more.len() as int).take(got.len() as int) =~= t.steps.take(
                    got.len() as int,
                ));
            }
        }
    }
}

/// The lines of the steps from the `n`th on.
pub open spec fn lines_after(steps: Seq<Traced>, units: Seq<u64>, n: int) -> Seq<u8> {
    lines_of(steps.skip(n), units.skip(n))
}

proof fn lines_split(steps: Seq<Traced>, units: Seq<u64>, n: int)
    requires
        0 <= n <= steps.len() == units.len(),
    ensures
        lines_of(steps, units) == lines_of(steps.take(n), units.take(n)) + lines_after(
            steps,
            units,
            n,
        ),
    decreases steps.len(),
{
    if n == steps.len() {
        assert(steps.take(n) =~= steps);
        assert(units.take(n) =~= units);
        assert(lines_of(steps, units) + lines_after(steps, units, n) =~= lines_of(steps, units));
    } else {
        let fewer = steps.drop_last();
        let short = units.drop_last();
        lines_split(fewer, short, n);
        assert(fewer.take(n) =~= steps.take(n));
        assert(short.take(n) =~= units.take(n));
        assert(fewer.skip(n) =~= steps.skip(n).drop_last());
        lines_keep(fewer, short, units);
        lines_keep(fewer.skip(n), short.skip(n), units.skip(n));
        assert(steps.skip(n).last() == steps.last());
        assert(units.skip(n)[steps.len() - n - 1] == units[steps.len() - 1]);
        assert(lines_of(steps, units) =~= lines_of(steps.take(n), units.take(n)) + lines_after(
            steps,
            units,
            n,
        ));
    }
}

/// A limit takes a prefix, line for line: a run with a smaller limit has the first
/// records of one with a larger limit, as many as the limit says or as there are,
/// and their lines are what the others follow. A limit of none leaves nothing.
pub proof fn a_limit_takes_a_prefix(s: Seq<u8>, small: nat, large: nat, units: Seq<u64>)
    requires
        small <= large,
        units.len() == trace_of(s, large).steps.len(),
        trace_of(s, large).why is None,
    ensures
        ({
            let a = trace_of(s, small).steps;
            let b = trace_of(s, large).steps;
            &&& trace_of(s, small).why is None
            &&& a.len() == if small < b.len() {
                small
            } else {
                b.len()
            }
            &&& a == b.take(a.len() as int)
            &&& lines_of(b, units) == lines_of(a, units.take(a.len() as int)) + lines_after(
                b,
                units,
                a.len() as int,
            )
            &&& small == 0 ==> lines_of(a, units.take(a.len() as int)) == Seq::<u8>::empty()
        }),
{
    a_shorter_trace(s, 0, Map::empty(), small, large, Seq::empty());
    let a = trace_of(s, small).steps;
    lines_split(trace_of(s, large).steps, units, a.len() as int);
}

/// Every transaction that can be spent is that of the record it names.
spec fn named(live: Map<usize, Unspent>, got: Seq<Traced>) -> bool {
    forall|t: usize| #[trigger]
        live.contains_key(t) ==> live[t].record < got.len() && got[live[t].record as int].record.tx_id
            == t
}

/// Every record with one input has its colour from an earlier record, of the
/// transaction that it spends.
pub open spec fn singles_inherit(steps: Seq<Traced>) -> bool {
    forall|i: int|
        0 <= i < steps.len() && (#[trigger] steps[i]).record.inputs.len() == 1 ==> inherits(steps, i)
}

/// Record `i` has its colour from an earlier record, of the transaction it spends.
pub open spec fn inherits(steps: Seq<Traced>, i: int) -> bool {
    steps[i].source matches SourceView::Spent(list) && list.len() == 1 && list[0].record < i
        && steps[list[0].record as int].record.tx_id == steps[i].record.inputs[0].prev_tx_id
}

proof fn spending_keeps_names(
    tx: usize,
    live: Map<usize, Unspent>,
    inputs: Seq<Input>,
    taken: Seq<Spend>,
    i: int,
    got: Seq<Traced>,
)
    requires
        named(live, got),
        0 <= i <= inputs.len(),
    ensures
        spending(tx, live, inputs, taken, i) matches Ok((left, _)) ==> named(left, got),
    decreases i,
{
    if i > 0 {
        let previous = inputs[i - 1].prev_tx_id;
        if live.contains_key(previous) {
            let spend = Spend {
                record: live[previous].record,
                share: share_of(inputs, i - 1),
                last: live[previous].outputs <= 1,
            };
            let next = spent(live, previous);
            assert forall|t: usize| #[trigger] next.contains_key(t) implies next[t].record
                < got.len() && got[next[t].record as int].record.tx_id == t by {
                assert(live.contains_key(t));
            }
            spending_keeps_names(tx, next, inputs, taken.push(spend), i - 1, got);
        }
    }
}

proof fn tracing_inherits(
    s: Seq<u8>,
    at: int,
    live: Map<usize, Unspent>,
    limit: nat,
    got: Seq<Traced>,
)
    requires
        0 <= at <= s.len(),
        limit <= usize::MAX,
        named(live, got),
        singles_inherit(got),
    ensures
        singles_inherit(trace_from(s, at, live, limit, got).steps),
    decreases s.len() - at,
{
    if got.len() < limit && past_blanks(s, at) < s.len() {
        record_within(s, at);
        if let Some((record, e)) = record_at(s, at) {
            if let Ok((left, source)) = sources(live, record) {
                let step = Traced { record, source };
                let more = got.push(step);
                let n = got.len() as int;
                if record.inputs.len() > 0 {
                    spending_keeps_names(
                        record.tx_id,
                        live,
                        record.inputs,
                        Seq::empty(),
                        record.inputs.len() as int,
                        got,
                    );
                }
                assert(named(left, got));
                if record.inputs.len() == 1 {
                    reveal_with_fuel(spending, 2);
                    let p = record.inputs[0].prev_tx_id;
                    assert(live.contains_key(p));
                    assert(more[n] == step);
                    assert(inherits(more, n));
                }
                assert forall|i: int|
                    0 <= i < more.len() && (#[trigger] more[i]).record.inputs.len()
                        == 1 implies inherits(more, i) by {
                    if i < n {
                        assert(more[i] == got[i]);
                        assert(inherits(got, i));
                    }
                }
                let next = added(left, record, got.len());
                assert forall|t: usize| #[trigger] next.contains_key(t) implies next[t].record
                    < more.len() && more[next[t].record as int].record.tx_id == t by {
                    if !(record.outputs > 0 && t == record.tx_id) {
                        assert(left.contains_key(t));
                    }
                }
                tracing_inherits(s, e, next, limit, more);
            }
        }
    }
}

/// A record with one input has the mean of the transaction that it spends, whatever
/// its amount: the same number, and so the same text.
pub proof fn a_single_input_has_the_same_mean<
    M,
    A: Fn(usize) -> M,
    B: Fn(&Vec<(M, Share)>) -> M,
    C: Fn(M) -> u64,
>(s: Seq<u8>, limit: nat, means: Seq<(M, u64)>, minted: A, mixed: B, units: C, i: int)
    requires
        limit <= usize::MAX,
        all_follow(trace_of(s, limit).steps, means, minted, mixed, units),
        0 <= i < means.len(),
        trace_of(s, limit).steps[i].record.inputs.len() == 1,
    ensures
        ({
            let steps = trace_of(s, limit).steps;
            exists|p: int|
                0 <= p < i && (#[trigger] steps[p]).record.tx_id
                    == steps[i].record.inputs[0].prev_tx_id && in_units(means)[p] == in_units(
                    means,
                )[i]
        }),
{
    let steps = trace_of(s, limit).steps;
    tracing_inherits(s, 0, Map::empty(), limit, Seq::empty());
    assert(inherits(steps, i));
    assert(follows(steps, means, i, minted, mixed, units));
    let p = steps[i].source->Spent_0[0].record as int;
    assert(steps[p].record.tx_id == steps[i].record.inputs[0].prev_tx_id);
}

/// Every record spends only records before it.
pub open spec fn spends_are_earlier(steps: Seq<Traced>) -> bool {
    forall|i: int, k: int|
        0 <= i < steps.len() && steps[i].source is Spent && 0 <= k
            < steps[i].source->Spent_0.len() ==> (#[trigger] steps[i].source->Spent_0[k]).record < i
}

proof fn spending_takes_earlier(
    tx: usize,
    live: Map<usize, Unspent>,
    inputs: Seq<Input>,
    taken: Seq<Spend>,
    i: int,
    got: Seq<Traced>,
)
    requires
        named(live, got),
        0 <= i <= inputs.len(),
        forall|k: int| 0 <= k < taken.len() ==> (#[trigger] taken[k]).record < got.len(),
    ensures
        spending(tx, live, inputs, taken, i) matches Ok((_, all)) ==> forall|k: int|
            0 <= k < all.len() ==> (#[trigger] all[k]).record < got.len(),
    decreases i,
{
    if i > 0 {
        let previous = inputs[i - 1].prev_tx_id;
        if live.contains_key(previous) {
            let spend = Spend {
                record: live[previous].record,
                share: share_of(inputs, i - 1),
                last: live[previous].outputs <= 1,
            };
            let next = spent(live, previous);
            assert forall|t: usize| #[trigger] next.contains_key(t) implies next[t].record
                < got.len() && got[next[t].record as int].record.tx_id == t by {
                assert(live.contains_key(t));
            }
            let more = taken.push(spend);
            assert forall|k: int| 0 <= k < more.len() implies (#[trigger] more[k]).record
                < got.len() by {
                if k < taken.len() {
                    assert(more[k] == taken[k]);
                }
            }
            spending_takes_earlier(tx, next, inputs, more, i - 1, got);
        }
    }
}

proof fn tracing_spends_earlier(
    s: Seq<u8>,
    at: int,
    live: Map<usize, Unspent>,
    limit: nat,
    got: Seq<Traced>,
)
    requires
        0 <= at <= s.len(),
        limit <= usize::MAX,
        named(live, got),
        spends_are_earlier(got),
    ensures
        spends_are_earlier(trace_from(s, at, live, limit, got).steps),
    decreases s.len() - at,
{
    if got.len() < limit && past_blanks(s, at) < s.len() {
        record_within(s, at);
        if let Some((record, e)) = record_at(s, at) {
            if let Ok((left, source)) = sources(live, record) {
                let more = got.push(Traced { record, source });
                let n = got.len() as int;
                if record.inputs.len() > 0 {
                    let len = record.inputs.len() as int;
                    spending_keeps_names(record.tx_id, live, record.inputs, Seq::empty(), len, got);
                    spending_takes_earlier(
                        record.tx_id,
                        live,
                        record.inputs,
                        Seq::empty(),
                        len,
                        got,
                    );
                }
                assert forall|i: int, k: int|
                    0 <= i < more.len() && more[i].source is Spent && 0 <= k
                        < more[i].source->Spent_0.len() implies (
                #[trigger] more[i].source->Spent_0[k]).record < i by {
                    if i < n {
                        assert(got[i].source->Spent_0[k].record < i);
                    }
                }
                let next = added(left, record, got.len());
                assert forall|t: usize| #[trigger] next.contains_key(t) implies next[t].record
                    < more.len() && more[next[t].record as int].record.tx_id == t by {
                    if !(record.outputs > 0 && t == record.tx_id) {
                        assert(left.contains_key(t));
                    }
                }
                tracing_spends_earlier(s, e, next, limit, more);
            }
        }
    }
}

proof fn means_agree<
    M,
    A: Fn(usize) -> M,
    B: Fn(&Vec<(M, Share)>) -> M,
    C: Fn(M) -> u64,
>(
    few: Seq<Traced>,
    many: Seq<Traced>,
    a: Seq<(M, u64)>,
    b: Seq<(M, u64)>,
    minted: A,
    mixed: B,
    units: C,
    n: int,
)
    requires
        few == many.take(few.len() as int),
        few.len() <= many.len(),
        spends_are_earlier(many),
        all_follow(few, a, minted, mixed, units),
        all_follow(many, b, minted, mixed, units),
        are_functions(minted, mixed, units),
        0 <= n <= few.len(),
    ensures
        a.take(n) == b.take(n),
    decreases n,
{
    if n > 0 {
        let i = n - 1;
        means_agree(few, many, a, b, minted, mixed, units, i);
        assert(few[i] == many[i]);
        assert(follows(few, a, i, minted, mixed, units));
        assert(follows(many, b, i, minted, mixed, units));
        if let SourceView::Spent(list) = many[i].source {
            if list.len() == 1 {
                let r = list[0].record as int;
                assert(many[i].source->Spent_0[0].record < i);
                assert(a.take(i)[r] == a[r]);
                assert(b.take(i)[r] == b[r]);
            } else {
                let parts = parts_of(list, a.take(i));
                assert(parts == parts_of(list, b.take(i)));
                assert(mixes(mixed, parts, a[i].0));
                assert(mixes(mixed, parts, b[i].0));
                let v = choose|v: Vec<(M, Share)>| v@ == parts && #[trigger]
                    mixed.ensures((&v,), a[i].0);
                let w = choose|w: Vec<(M, Share)>| w@ == parts && #[trigger]
                    mixed.ensures((&w,), b[i].0);
                assert(mixed.ensures((&v,), a[i].0) && mixed.ensures((&w,), b[i].0));
                assert(a[i].0 == b[i].0);
            }
        }
        assert(a[i] == b[i]);
        assert(a.take(n) =~= a.take(i).push(a[i]));
        assert(b.take(n) =~= b.take(i).push(b[i]));
    }
}

/// Two runs over one text, the caller's numbers being functions: what the one with
/// the smaller limit writes is a prefix of what the other does, as many whole lines as
/// its limit says or as there are, and nothing for a limit of none. It is refused
/// only where the other is, and for the same reason.
pub proof fn a_smaller_limit_writes_a_prefix<
    M,
    A: Fn(usize) -> M,
    B: Fn(&Vec<(M, Share)>) -> M,
    C: Fn(M) -> u64,
>(
    s: Seq<u8>,
    small: nat,
    large: nat,
    one: Seq<u8>,
    other: Seq<u8>,
    minted: A,
    mixed: B,
    units: C,
)
    requires
        small <= large <= usize::MAX,
        are_functions(minted, mixed, units),
        is_output(trace_of(s, small).steps, one, minted, mixed, units),
        is_output(trace_of(s, large).steps, other, minted, mixed, units),
    ensures
        one.is_prefix_of(other),
        ({
            let a = trace_of(s, small);
            let b = trace_of(s, large);
            &&& a.steps.len() == if small < b.steps.len() {
                small
            } else {
                b.steps.len()
            }
            &&& a.steps == b.steps.take(a.steps.len() as int)
            &&& a.why is Some ==> a.why == b.why
            &&& exists|means: Seq<u64>|
                #![trigger lines_of(a.steps, means)]
                one == lines_of(a.steps, means) && means.len() == a.steps.len()
        }),
        small == 0 ==> one.len() == 0,
{
    let a = trace_of(s, small);
    let b = trace_of(s, large);
    a_shorter_trace(s, 0, Map::empty(), small, large, Seq::empty());
    tracing_spends_earlier(s, 0, Map::empty(), large, Seq::empty());
    let few = choose|means: Seq<(M, u64)>| #[trigger]
        all_follow(a.steps, means, minted, mixed, units) && one == lines_of(
            a.steps,
            in_units(means),
        );
    let many = choose|means: Seq<(M, u64)>| #[trigger]
        all_follow(b.steps, means, minted, mixed, units) && other == lines_of(
            b.steps,
            in_units(means),
        );
    let n = a.steps.len() as int;
    means_agree(a.steps, b.steps, few, many, minted, mixed, units, n);
    assert(few.take(n) =~= few);
    assert(in_units(many).take(n) =~= in_units(few)) by {
        assert forall|i: int| 0 <= i < n implies in_units(many)[i] == #[trigger] in_units(
            few,
        )[i] by {
            assert(few.take(n)[i] == many.take(n)[i]);
        }
    }
    lines_split(b.steps, in_units(many), n);
    assert(other =~= one + lines_after(b.steps, in_units(many), n));
}

} // verus!
