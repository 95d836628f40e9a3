//! What reading records comes to, in terms of the records alone.

use vstd::prelude::*;

use crate::colorset::{a_union_names_what_either_names, sorted};
use crate::forest::NodeView;
use crate::records::{
    all_read, gathered, highest, lowest, mixed, mixing, nothing_read, read_from, read_one,
    span_of, spent, Account, Input, LiveView, MIXES, RecordView, Tx,
};

verus! {

/// Record `j` is the latest before the `k`th that has this id and outputs to spend.
pub open spec fn is_latest(records: Seq<RecordView>, k: int, tx: usize, j: int) -> bool {
    &&& 0 <= j < k
    &&& records[j].tx_id == tx
    &&& records[j].outputs > 0
    &&& forall|m: int|
        j < m < k && (#[trigger] records[m]).outputs > 0 ==> records[m].tx_id != tx
}

proof fn one_is_latest(records: Seq<RecordView>, k: int, tx: usize, i: int, j: int)
    requires
        is_latest(records, k, tx, i),
        is_latest(records, k, tx, j),
    ensures
        i == j,
{
    if i < j {
        assert(records[j].tx_id != tx);
    } else if j < i {
        assert(records[i].tx_id != tx);
    }
}

/// How many of the inputs spend an output of transaction `t`.
pub open spec fn spends_in(inputs: Seq<Input>, t: usize) -> nat
    decreases inputs.len(),
{
    if inputs.len() == 0 {
        0
    } else {
        spends_in(inputs.drop_last(), t) + if inputs.last().prev_tx_id == t {
            1nat
        } else {
            0
        }
    }
}

/// How many inputs of the records after the `j`th and before the `k`th spend an
/// output of transaction `t`.
pub open spec fn spends_between(records: Seq<RecordView>, j: int, k: int, t: usize) -> nat
    decreases k,
{
    if k <= j + 1 || k <= 0 {
        0
    } else {
        spends_between(records, j, k - 1, t) + spends_in(records[k - 1].inputs, t)
    }
}

/// The inputs past the first of the first `k` records.
pub open spec fn past_the_first(records: Seq<RecordView>, k: nat) -> nat
    decreases k,
{
    if k == 0 {
        0
    } else {
        past_the_first(records, (k - 1) as nat) + if records[k - 1].inputs.len() > 1 {
            (records[k - 1].inputs.len() - 1) as nat
        } else {
            0
        }
    }
}

/// Record `c` hangs under record `j`: it spends, and its first input spends the
/// latest record of that id.
pub open spec fn hangs_by_first_input(records: Seq<RecordView>, j: int, c: int) -> bool {
    &&& records[c].inputs.len() > 0
    &&& is_latest(records, c, records[c].inputs[0].prev_tx_id, j)
}

/// Ascending numbers.
pub open spec fn rising(s: Seq<usize>) -> bool {
    forall|a: int, b: int| 0 <= a < b < s.len() ==> s[a] < s[b]
}

/// The first `k` records as a forest of first inputs: a node to a record, under each
/// node exactly those that hang there, in order, and no others.
pub open spec fn is_forest_of(
    records: Seq<RecordView>,
    k: nat,
    nodes: Seq<NodeView>,
    roots: Seq<usize>,
) -> bool {
    &&& nodes.len() == k
    &&& forall|j: int| 0 <= j < k ==> (#[trigger] nodes[j]).graph == Some(j as usize)
    &&& forall|j: int| 0 <= j < k ==> rising((#[trigger] nodes[j]).children)
    &&& forall|j: int, c: usize|
        0 <= j < k ==> (#[trigger] nodes[j].children.contains(c) <==> c < k
            && hangs_by_first_input(records, j, c as int))
    &&& rising(roots)
    &&& forall|c: usize| #[trigger]
        roots.contains(c) <==> c < k && records[c as int].inputs.len() == 0
}

/// Input `i` of record `k` spends record `j`, of whose colour `b` is.
pub open spec fn brings(
    records: Seq<RecordView>,
    colours: Seq<Seq<u32>>,
    k: int,
    b: u32,
    i: int,
    j: int,
) -> bool {
    &&& 0 <= i < records[k].inputs.len()
    &&& is_latest(records, k, records[k].inputs[i].prev_tx_id, j)
    &&& colours[j].contains(b)
}

/// The colour of record `k`: its own block if it spends nothing, else every block in
/// the colour of a record it spends, and no other; ascending.
pub open spec fn is_colour_of(records: Seq<RecordView>, colours: Seq<Seq<u32>>, k: int) -> bool {
    &&& sorted(colours[k])
    &&& colours[k].len() > 0
    &&& records[k].inputs.len() == 0 ==> forall|b: u32| #[trigger]
        colours[k].contains(b) <==> b == records[k].block_id
    &&& records[k].inputs.len() > 0 ==> forall|b: u32| #[trigger]
        colours[k].contains(b) <==> exists|i: int, j: int| #[trigger]
            brings(records, colours, k, b, i, j)
}

/// What is kept of record `k`: its id and block, the least and the greatest block of
/// its colour, and how many there are.
pub open spec fn is_kept_of(r: RecordView, colour: Seq<u32>, tx: Tx) -> bool {
    &&& tx.id == r.tx_id
    &&& tx.block == r.block_id
    &&& colour.contains(tx.oldest)
    &&& colour.contains(tx.newest)
    &&& forall|b: u32| #[trigger] colour.contains(b) ==> tx.oldest <= b <= tx.newest
    &&& tx.blocks == colour.len() % 0x1_0000_0000
}

/// What is left of transaction `t` before the `k`th record: of its latest record's
/// outputs, those that no input spent since.
pub open spec fn is_left(records: Seq<RecordView>, k: int, t: usize, left: int) -> bool {
    exists|j: int| #[trigger]
        is_latest(records, k, t, j) && left == records[j].outputs - spends_between(records, j, k, t)
}

/// The account is that of the first `k` records.
spec fn accounts_for(
    st: Account,
    records: Seq<RecordView>,
    colours: Seq<Seq<u32>>,
    k: nat,
) -> bool {
    &&& st.txs.len() == k
    &&& colours.len() == k
    &&& is_forest_of(records, k, st.nodes, st.roots)
    &&& st.dropped == past_the_first(records, k)
    &&& forall|j: int| 0 <= j < k ==> #[trigger] is_colour_of(records, colours, j)
    &&& forall|j: int| 0 <= j < k ==> is_kept_of(records[j], colours[j], #[trigger] st.txs[j])
    &&& forall|t: usize| #[trigger]
        st.live.contains_key(t) ==> {
            let e = st.live[t];
            &&& is_latest(records, k as int, t, e.node as int)
            &&& e.colour == colours[e.node as int]
            &&& e.unspent > 0
            &&& e.unspent == records[e.node as int].outputs - spends_between(
                records,
                e.node as int,
                k as int,
                t,
            )
        }
    &&& forall|t: usize, j: int| #[trigger]
        is_latest(records, k as int, t, j) && !st.live.contains_key(t) ==> records[j].outputs
            <= spends_between(records, j, k as int, t)
}

/// Some input before the `i`th spends a transaction whose colour has `b`.
spec fn named_before(
    live: Map<usize, LiveView>,
    inputs: Seq<Input>,
    i: int,
    b: u32,
) -> bool {
    exists|x: int|
        0 <= x < i && live[(#[trigger] inputs[x]).prev_tx_id].colour.contains(b)
}

/// The inputs before the `i`th can be spent.
spec fn enough(live: Map<usize, LiveView>, inputs: Seq<Input>, i: int) -> bool {
    forall|t: usize|
        (#[trigger] spends_in(inputs.take(i), t)) > 0 ==> live.contains_key(t) && spends_in(
            inputs.take(i),
            t,
        ) <= live[t].unspent
}

proof fn spends_take(inputs: Seq<Input>, i: int, t: usize)
    requires
        0 < i <= inputs.len(),
    ensures
        spends_in(inputs.take(i), t) == spends_in(inputs.take(i - 1), t) + if inputs[i
            - 1].prev_tx_id == t {
            1nat
        } else {
            0
        },
{
    assert(inputs.take(i).drop_last() =~= inputs.take(i - 1));
}

proof fn gathering(
    tx: usize,
    live: Map<usize, LiveView>,
    acc: Option<Seq<u32>>,
    inputs: Seq<Input>,
    i: int,
)
    requires
        0 <= i <= inputs.len(),
        forall|t: usize| #[trigger]
            live.contains_key(t) ==> sorted(live[t].colour) && live[t].colour.len() > 0
                && live[t].unspent > 0,
        acc matches Some(c) ==> sorted(c) && c.len() > 0,
    ensures
        gathered(tx, live, acc, inputs, i) is Ok <==> enough(live, inputs, i),
        gathered(tx, live, acc, inputs, i) matches Ok((left, mix)) ==> {
            &&& forall|t: usize| #[trigger]
                left.contains_key(t) ==> live.contains_key(t) && left[t].node == live[t].node
                    && left[t].colour == live[t].colour && left[t].unspent > 0 && left[t].unspent
                    == live[t].unspent - spends_in(inputs.take(i), t)
            &&& forall|t: usize| #[trigger]
                live.contains_key(t) && !left.contains_key(t) ==> spends_in(inputs.take(i), t)
                    == live[t].unspent
            &&& i > 0 || acc is Some ==> mix is Some
            &&& mix matches Some(c) ==> {
                &&& sorted(c)
                &&& c.len() > 0
                &&& forall|b: u32| #[trigger]
                    c.contains(b) <==> (acc is Some && acc->0.contains(b)) || named_before(
                        live,
                        inputs,
                        i,
                        b,
                    )
            }
        },
    decreases i,
{
    assert(inputs.take(0) =~= Seq::<Input>::empty());
    if i > 0 {
        let previous = inputs[i - 1].prev_tx_id;
        spends_take(inputs, i, previous);
        if live.contains_key(previous) {
            let next = spent(live, previous);
            let colour = live[previous].colour;
            let more = mixed(colour, acc);
            if let Some(a) = acc {
                a_union_names_what_either_names(colour, a);
                assert(colour.contains(colour[0]));
                assert(more.contains(colour[0]));
            }
            assert forall|t: usize| #[trigger] next.contains_key(t) implies sorted(next[t].colour)
                && next[t].colour.len() > 0 && next[t].unspent > 0 by {
                assert(live.contains_key(t));
            }
            gathering(tx, next, Some(more), inputs, i - 1);
            assert(enough(live, inputs, i) <==> enough(next, inputs, i - 1)) by {
                if enough(live, inputs, i) {
                    assert forall|t: usize|
                        (#[trigger] spends_in(inputs.take(i - 1), t)) > 0 implies next.contains_key(
                        t,
                    ) && spends_in(inputs.take(i - 1), t) <= next[t].unspent by {
                        spends_take(inputs, i, t);
                        assert(spends_in(inputs.take(i), t) > 0);
                    }
                }
                if enough(next, inputs, i - 1) {
                    assert forall|t: usize|
                        (#[trigger] spends_in(inputs.take(i), t)) > 0 implies live.contains_key(t)
                        && spends_in(inputs.take(i), t) <= live[t].unspent by {
                        spends_take(inputs, i, t);
                        if spends_in(inputs.take(i - 1), t) > 0 {
                            assert(next.contains_key(t));
                        }
                    }
                }
            }
            if let Ok((left, mix)) = gathered(tx, live, acc, inputs, i) {
                assert forall|t: usize| #[trigger] left.contains_key(t) implies live.contains_key(t)
                    && left[t].node == live[t].node && left[t].colour == live[t].colour
                    && left[t].unspent > 0 && left[t].unspent == live[t].unspent - spends_in(
                    inputs.take(i),
                    t,
                ) by {
                    assert(next.contains_key(t));
                    spends_take(inputs, i, t);
                }
                assert forall|t: usize| #[trigger]
                    live.contains_key(t) && !left.contains_key(t) implies spends_in(
                    inputs.take(i),
                    t,
                ) == live[t].unspent by {
                    spends_take(inputs, i, t);
                    if next.contains_key(t) {
                    } else {
                        assert(t == previous);
                        assert(enough(next, inputs, i - 1));
                        if spends_in(inputs.take(i - 1), t) > 0 {
                            assert(next.contains_key(t));
                        }
                    }
                }
                let c = mix->0;
                assert forall|b: u32| #[trigger] c.contains(b) <==> (acc is Some
                    && acc->0.contains(b)) || named_before(live, inputs, i, b) by {
                    if named_before(next, inputs, i - 1, b) {
                        let x = choose|x: int|
                            0 <= x < i - 1 && next[(
                            #[trigger] inputs[x]).prev_tx_id].colour.contains(b);
                        colours_stay(live, next, inputs, i, x, previous);
                        assert(live[inputs[x].prev_tx_id].colour.contains(b));
                    }
                    if named_before(live, inputs, i, b) {
                        let x = choose|x: int|
                            0 <= x < i && live[(
                            #[trigger] inputs[x]).prev_tx_id].colour.contains(b);
                        if x < i - 1 {
                            colours_stay(live, next, inputs, i, x, previous);
                            assert(next[inputs[x].prev_tx_id].colour.contains(b));
                        }
                    }
                    if colour.contains(b) {
                        assert(live[inputs[i - 1].prev_tx_id].colour.contains(b));
                    }
                }
            }
        } else {
            assert(spends_in(inputs.take(i), previous) > 0);
        }
    } else {
        assert forall|t: usize| (#[trigger] spends_in(inputs.take(0), t)) > 0 implies false by {}
    }
}

/// A transaction that is named again was not spent out.
proof fn colours_stay(
    live: Map<usize, LiveView>,
    next: Map<usize, LiveView>,
    inputs: Seq<Input>,
    i: int,
    x: int,
    previous: usize,
)
    requires
        0 <= x < i - 1 < inputs.len(),
        next == spent(live, previous),
        live.contains_key(previous),
        enough(next, inputs, i - 1),
    ensures
        next[inputs[x].prev_tx_id].colour == live[inputs[x].prev_tx_id].colour,
{
    let t = inputs[x].prev_tx_id;
    some_spend(inputs.take(i - 1), x);
    assert(inputs.take(i - 1)[x] == inputs[x]);
    assert(next.contains_key(t));
}

proof fn some_spend(inputs: Seq<Input>, x: int)
    requires
        0 <= x < inputs.len(),
    ensures
        spends_in(inputs, inputs[x].prev_tx_id) > 0,
    decreases inputs.len(),
{
    if x < inputs.len() - 1 {
        some_spend(inputs.drop_last(), x);
    }
}

proof fn rising_push(s: Seq<usize>, c: usize)
    requires
        rising(s),
        forall|x: usize| s.contains(x) ==> x < c,
    ensures
        rising(s.push(c)),
        forall|x: usize| #[trigger] s.push(c).contains(x) <==> s.contains(x) || x == c,
{
    let after = s.push(c);
    assert forall|a: int, b: int| 0 <= a < b < after.len() implies after[a] < after[b] by {
        if b == s.len() {
            assert(s.contains(s[a]));
        }
    }
    assert forall|x: usize| #[trigger] after.contains(x) <==> s.contains(x) || x == c by {
        if s.contains(x) {
            assert(after[s.index_of(x)] == x);
        }
        assert(after[s.len() as int] == c);
        if after.contains(x) {
            let i = after.index_of(x);
            if i < s.len() {
                assert(s[i] == x);
            }
        }
    }
}

/// Reading one record more.
proof fn one_more(
    st: Account,
    records: Seq<RecordView>,
    colours: Seq<Seq<u32>>,
    k: nat,
) -> (more: Seq<Seq<u32>>)
    requires
        accounts_for(st, records, colours, k),
        k < records.len(),
        k < usize::MAX,
    ensures
        read_one(st, records[k as int]) is Ok <==> can_be_read(records, k as int),
        read_one(st, records[k as int]) matches Ok(next) ==> accounts_for(
            next,
            records,
            more,
            k + 1,
        ),
{
    let r = records[k as int];
    let n = r.inputs.len() as int;
    let all = r.inputs.take(n);
    assert(all =~= r.inputs);
    assert forall|t: usize| #[trigger] st.live.contains_key(t) implies sorted(st.live[t].colour)
        && st.live[t].colour.len() > 0 && st.live[t].unspent > 0 by {
        assert(is_colour_of(records, colours, st.live[t].node as int));
    }
    gathering(r.tx_id, st.live, None, r.inputs, n);
    assert(enough(st.live, r.inputs, n) <==> all_there(records, k as int)) by {
        if enough(st.live, r.inputs, n) {
            assert forall|t: usize| (#[trigger] spends_in(r.inputs, t)) > 0 implies exists|
                left: int,
            | #[trigger]
                is_left(records, k as int, t, left) && spends_in(r.inputs, t) <= left by {
                assert(spends_in(all, t) > 0);
                let e = st.live[t];
                assert(is_latest(records, k as int, t, e.node as int));
                assert(is_left(records, k as int, t, e.unspent as int));
            }
        }
        if all_there(records, k as int) {
            assert forall|t: usize| (#[trigger] spends_in(all, t)) > 0 implies st.live.contains_key(
                t,
            ) && spends_in(all, t) <= st.live[t].unspent by {
                assert(spends_in(r.inputs, t) > 0);
                let left = choose|left: int| #[trigger]
                    is_left(records, k as int, t, left) && spends_in(r.inputs, t) <= left;
                let j = choose|j: int| #[trigger]
                    is_latest(records, k as int, t, j) && left == records[j].outputs
                        - spends_between(records, j, k as int, t);
                assert(is_latest(records, k as int, t, j));
                if st.live.contains_key(t) {
                    one_is_latest(records, k as int, t, j, st.live[t].node as int);
                }
            }
        }
    }
    if n > 0 {
        let first = r.inputs[0].prev_tx_id;
        some_spend(r.inputs, 0);
        assert(spends_in(all, first) > 0);
        if enough(st.live, r.inputs, n) {
            assert(st.live.contains_key(first));
        }
    } else {
        assert(enough(st.live, r.inputs, n)) by {
            assert forall|t: usize| (#[trigger] spends_in(all, t)) > 0 implies false by {}
        }
    }
    let grown = read_one(st, r);
    if grown is Ok {
        let next = grown->Ok_0;
        let id = k as usize;
        let (left, colour) = if n == 0 {
            (st.live, seq![r.block_id as u32])
        } else {
            let (l, m) = gathered(r.tx_id, st.live, None, r.inputs, n)->Ok_0;
            (l, m->0)
        };
        let more = colours.push(colour);
        // What is left of what could be spent before.
        assert forall|t: usize| #[trigger] left.contains_key(t) implies st.live.contains_key(t)
            && left[t].node == st.live[t].node && left[t].colour == st.live[t].colour
            && left[t].unspent > 0 && left[t].unspent == st.live[t].unspent - spends_in(
            r.inputs,
            t,
        ) by {
            if n == 0 {
                assert(spends_in(r.inputs, t) == 0);
            }
        }
        // The colours.
        if n == 0 {
            assert(colour[0] == r.block_id as u32);
            assert forall|b: u32| #[trigger] colour.contains(b) <==> b == r.block_id by {}
        } else {
            assert forall|b: u32| #[trigger] colour.contains(b) <==> exists|i: int, j: int|
                #[trigger]
                brings(records, more, k as int, b, i, j) by {
                if colour.contains(b) {
                    assert(named_before(st.live, r.inputs, n, b));
                    let x = choose|x: int|
                        0 <= x < n && st.live[(
                        #[trigger] r.inputs[x]).prev_tx_id].colour.contains(b);
                    let t = r.inputs[x].prev_tx_id;
                    some_spend(r.inputs, x);
                    assert(spends_in(all, t) > 0);
                    let j = st.live[t].node as int;
                    assert(more[j] == colours[j]);
                    assert(brings(records, more, k as int, b, x, j));
                }
                if exists|i: int, j: int| #[trigger] brings(records, more, k as int, b, i, j) {
                    let (i, j) = choose|i: int, j: int| #[trigger]
                        brings(records, more, k as int, b, i, j);
                    let t = r.inputs[i].prev_tx_id;
                    some_spend(r.inputs, i);
                    assert(spends_in(all, t) > 0);
                    one_is_latest(records, k as int, t, j, st.live[t].node as int);
                    assert(more[j] == colours[j]);
                    assert(st.live[r.inputs[i].prev_tx_id].colour.contains(b));
                    assert(named_before(st.live, r.inputs, n, b));
                }
            }
        }
        assert forall|j: int| 0 <= j < k + 1 implies #[trigger] is_colour_of(records, more, j) by {
            if j < k {
                assert(is_colour_of(records, colours, j));
                assert(more[j] == colours[j]);
                assert forall|b: u32, i: int, x: int| #[trigger]
                    brings(records, more, j, b, i, x) <==> brings(records, colours, j, b, i, x) by {
                    if 0 <= x < j {
                        assert(more[x] == colours[x]);
                    }
                }
                if records[j].inputs.len() > 0 {
                    assert forall|b: u32| #[trigger] more[j].contains(b) <==> exists|i: int, x: int|
                        #[trigger]
                        brings(records, more, j, b, i, x) by {
                        assert(colours[j].contains(b) <==> exists|i: int, x: int| #[trigger]
                            brings(records, colours, j, b, i, x));
                        if colours[j].contains(b) {
                            let (i, x) = choose|i: int, x: int| #[trigger]
                                brings(records, colours, j, b, i, x);
                            assert(brings(records, more, j, b, i, x));
                        }
                        if exists|i: int, x: int| #[trigger] brings(records, more, j, b, i, x) {
                            let (i, x) = choose|i: int, x: int| #[trigger]
                                brings(records, more, j, b, i, x);
                            assert(brings(records, colours, j, b, i, x));
                        }
                    }
                }
            }
        }
        assert(is_kept_of(r, colour, next.txs[k as int])) by {
            let tx = next.txs[k as int];
            assert(colour.contains(colour[0]));
            assert(colour.contains(colour.last()));
            assert forall|b: u32| #[trigger] colour.contains(b) implies tx.oldest <= b
                <= tx.newest by {
                let i = colour.index_of(b);
                assert(colour[i] == b);
                assert(i > 0 ==> colour[0] < colour[i]);
                assert(i < colour.len() - 1 ==> colour[i] < colour[colour.len() - 1]);
            }
        }
        assert forall|j: int| 0 <= j < k + 1 implies is_kept_of(
            records[j],
            more[j],
            #[trigger] next.txs[j],
        ) by {
            if j < k {
                assert(next.txs[j] == st.txs[j]);
                assert(more[j] == colours[j]);
            }
        }
        // The tree.
        let at = if n > 0 {
            st.live[r.inputs[0].prev_tx_id].node as int
        } else {
            -1
        };
        if n > 0 {
            assert(is_latest(records, k as int, r.inputs[0].prev_tx_id, at));
            assert forall|x: usize| st.nodes[at].children.contains(x) implies x < id by {}
            rising_push(st.nodes[at].children, id);
        } else {
            assert forall|x: usize| st.roots.contains(x) implies x < id by {}
            rising_push(st.roots, id);
        }
        assert(next.nodes[k as int].children.len() == 0);
        assert forall|j: int, c: usize| 0 <= j < k + 1 implies (
        #[trigger] next.nodes[j].children.contains(c) <==> c < k + 1 && hangs_by_first_input(
            records,
            j,
            c as int,
        )) by {
            if j < k {
                assert(st.nodes[j].children.contains(c) <==> c < k && hangs_by_first_input(
                    records,
                    j,
                    c as int,
                ));
                if c == k && hangs_by_first_input(records, j, c as int) {
                    one_is_latest(records, k as int, r.inputs[0].prev_tx_id, j, at);
                }
            }
        }
        assert forall|j: int| 0 <= j < k + 1 implies rising(
            (#[trigger] next.nodes[j]).children,
        ) by {
            if j < k {
                assert(rising(st.nodes[j].children));
            }
        }
        // What can be spent next.
        let next_k = k as int + 1;
        assert forall|t: usize, j: int| #[trigger]
            is_latest(records, next_k, t, j) && j < k implies is_latest(records, k as int, t, j)
            && !(r.outputs > 0 && r.tx_id == t) by {
            if r.outputs > 0 {
                assert(records[k as int].tx_id != t);
            }
        }
        assert forall|t: usize| #[trigger] next.live.contains_key(t) implies {
            let e = next.live[t];
            &&& is_latest(records, next_k, t, e.node as int)
            &&& e.colour == more[e.node as int]
            &&& e.unspent > 0
            &&& e.unspent == records[e.node as int].outputs - spends_between(
                records,
                e.node as int,
                next_k,
                t,
            )
        } by {
            if r.outputs > 0 && t == r.tx_id {
            } else {
                assert(left.contains_key(t));
                let e = st.live[t];
                assert(is_latest(records, k as int, t, e.node as int));
                assert(more[e.node as int] == colours[e.node as int]);
                assert forall|m: int|
                    e.node < m < k + 1 && (#[trigger] records[m]).outputs
                        > 0 implies records[m].tx_id != t by {}
            }
        }
        assert forall|t: usize, j: int| #[trigger]
            is_latest(records, next_k, t, j) && !next.live.contains_key(t) implies records[j].outputs
            <= spends_between(records, j, next_k, t) by {
            if j < k {
                if st.live.contains_key(t) {
                    one_is_latest(records, k as int, t, j, st.live[t].node as int);
                    assert(!left.contains_key(t));
                    if n > 0 {
                        assert(spends_in(all, t) == st.live[t].unspent);
                    }
                } else {
                    assert(is_latest(records, k as int, t, j));
                }
            }
        }
        more
    } else {
        colours
    }
}

/// Whether everything record `k` spends is there: of every transaction that it
/// spends, no more outputs than are left.
pub open spec fn all_there(records: Seq<RecordView>, k: int) -> bool {
    forall|t: usize|
        (#[trigger] spends_in(records[k].inputs, t)) > 0 ==> exists|left: int| #[trigger]
            is_left(records, k, t, left) && spends_in(records[k].inputs, t) <= left
}

/// Whether record `k` can be read after those before it: everything it spends is
/// there, and its block can be named.
pub open spec fn can_be_read(records: Seq<RecordView>, k: int) -> bool {
    all_there(records, k) && records[k].block_id <= u32::MAX
}

proof fn reading(
    st: Account,
    records: Seq<RecordView>,
    colours: Seq<Seq<u32>>,
    limit: nat,
    k: nat,
) -> (all: Seq<Seq<u32>>)
    requires
        accounts_for(st, records, colours, k),
        k <= records.len() < usize::MAX,
        forall|j: int| 0 <= j < k ==> #[trigger] can_be_read(records, j),
        k <= limit,
    ensures
        ({
            let n = if limit < records.len() {
                limit
            } else {
                records.len()
            };
            &&& read_from(st, records, limit, k as int) is Ok <==> forall|j: int|
                0 <= j < n ==> #[trigger] can_be_read(records, j)
            &&& read_from(st, records, limit, k as int) matches Ok(end) ==> accounts_for(
                end,
                records,
                all,
                n,
            )
        }),
    decreases records.len() - k,
{
    if k < records.len() && k < limit {
        let more = one_more(st, records, colours, k);
        match read_one(st, records[k as int]) {
            Ok(next) => {
                assert(can_be_read(records, k as int));
                reading(next, records, more, limit, k + 1)
            },
            Err(_) => {
                assert(!can_be_read(records, k as int));
                colours
            },
        }
    } else {
        colours
    }
}

/// How many records are read of so many, at most `limit`.
pub open spec fn read_of(n: nat, limit: nat) -> nat {
    if limit < n {
        limit
    } else {
        n
    }
}

proof fn nothing_accounts(records: Seq<RecordView>)
    ensures
        accounts_for(nothing_read(), records, Seq::empty(), 0),
{
    let st = nothing_read();
    assert(st.live =~= Map::<usize, LiveView>::empty());
    assert forall|c: usize| #[trigger] st.roots.contains(c) <==> c < 0
        && records[c as int].inputs.len() == 0 by {}
}

/// Records can be read exactly if there is one to read, the block of every one can be
/// named, and each of them spends only what is there: outputs of a transaction before
/// it that no input has spent since.
pub proof fn records_are_read_if_all_they_spend_is_there(records: Seq<RecordView>, limit: nat)
    requires
        records.len() < usize::MAX,
    ensures
        all_read(records, limit) is Ok <==> {
            &&& read_of(records.len(), limit) > 0
            &&& forall|k: int|
                0 <= k < read_of(records.len(), limit) ==> #[trigger] can_be_read(records, k)
        },
{
    nothing_accounts(records);
    let all = reading(nothing_read(), records, Seq::empty(), limit, 0);
}

/// The tree is that of first inputs: a node to a record, and record `c` hangs under
/// record `j` exactly if it spends and its first input spends `j`, the latest record
/// before it of that id that has outputs. The records that spend nothing are the
/// roots, under one node that stands for none where there are several; and every
/// input past a first is counted as not drawn.
pub proof fn the_tree_is_of_first_inputs(records: Seq<RecordView>, limit: nat)
    requires
        records.len() < usize::MAX,
    ensures
        all_read(records, limit) matches Ok(r) ==> {
            let n = read_of(records.len(), limit);
            exists|roots: Seq<usize>|
                {
                    &&& #[trigger] is_forest_of(records, n, r.tree.take(n as int), roots)
                    &&& r.roots == roots.len()
                    &&& r.synthetic_root == (roots.len() > 1)
                    &&& r.tree.len() == n + if roots.len() > 1 {
                        1nat
                    } else {
                        0
                    }
                    &&& roots.len() > 1 ==> r.root == n && r.tree[n as int] == (NodeView {
                        graph: None,
                        children: roots,
                    })
                    &&& roots.len() == 1 ==> r.root == roots[0]
                    &&& past_the_first(records, n) <= u64::MAX ==> r.dropped == past_the_first(
                        records,
                        n,
                    )
                }
        },
{
    nothing_accounts(records);
    let all = reading(nothing_read(), records, Seq::empty(), limit, 0);
    if let Ok(r) = all_read(records, limit) {
        let n = read_of(records.len(), limit);
        let st = read_from(nothing_read(), records, limit, 0)->Ok_0;
        assert(r.tree.take(n as int) =~= st.nodes);
        assert(is_forest_of(records, n, r.tree.take(n as int), st.roots));
        if past_the_first(records, n) <= u64::MAX {
            vstd::arithmetic::div_mod::lemma_small_mod(
                past_the_first(records, n),
                0x1_0000_0000_0000_0000,
            );
        }
    }
}

/// The colour of a transaction is where its coins come from: its own block if it
/// spends nothing, else every block in the colour of a transaction that it spends,
/// and no other. What is kept of it is the least and the greatest of them and how
/// many there are, and its own id and block.
pub proof fn a_colour_is_where_the_coins_come_from(records: Seq<RecordView>, limit: nat)
    requires
        records.len() < usize::MAX,
    ensures
        all_read(records, limit) matches Ok(r) ==> exists|colours: Seq<Seq<u32>>|
            {
                &&& #[trigger] colours.len() == read_of(records.len(), limit)
                &&& r.txs.len() == colours.len()
                &&& forall|k: int|
                    0 <= k < colours.len() ==> #[trigger] is_colour_of(records, colours, k)
                        && is_kept_of(records[k], colours[k], r.txs[k])
            },
{
    nothing_accounts(records);
    let all = reading(nothing_read(), records, Seq::empty(), limit, 0);
    if let Ok(r) = all_read(records, limit) {
        assert(all.len() == read_of(records.len(), limit));
        assert forall|k: int| 0 <= k < all.len() implies #[trigger] is_colour_of(records, all, k)
            && is_kept_of(records[k], all[k], r.txs[k]) by {}
    }
}

proof fn extremes(txs: Seq<Tx>)
    ensures
        forall|i: int|
            0 <= i < txs.len() ==> lowest(txs) <= (#[trigger] txs[i]).oldest <= highest(txs),
        txs.len() > 0 ==> (exists|i: int|
            0 <= i < txs.len() && (#[trigger] txs[i]).oldest == lowest(txs)) || lowest(txs)
            == u32::MAX,
        txs.len() > 0 ==> (exists|i: int|
            0 <= i < txs.len() && (#[trigger] txs[i]).oldest == highest(txs)) || highest(txs) == 0,
    decreases txs.len(),
{
    if txs.len() > 0 {
        let front = txs.drop_last();
        let n = front.len() as int;
        extremes(front);
        assert forall|i: int| 0 <= i < txs.len() implies lowest(txs) <= (#[trigger] txs[i]).oldest
            <= highest(txs) by {
            if i < n {
                assert(front[i] == txs[i]);
            }
        }
        if lowest(txs) == txs[n].oldest {
        } else if front.len() > 0 && lowest(front) != u32::MAX {
            let i = choose|i: int|
                0 <= i < front.len() && (#[trigger] front[i]).oldest == lowest(front);
            assert(txs[i].oldest == lowest(txs));
        }
        if highest(txs) == txs[n].oldest {
        } else if front.len() > 0 && highest(front) != 0 {
            let i = choose|i: int|
                0 <= i < front.len() && (#[trigger] front[i]).oldest == highest(front);
            assert(txs[i].oldest == highest(txs));
        }
    }
}

/// The ramp runs from the oldest block of any transaction to the newest of the
/// oldest: everything is on it, and both of its ends are taken.
pub proof fn the_ramp_is_no_wider_than_it_must_be(txs: Seq<Tx>)
    requires
        txs.len() > 0,
    ensures
        forall|i: int|
            0 <= i < txs.len() ==> span_of(txs).0 <= (#[trigger] txs[i]).oldest <= span_of(txs).1,
        exists|i: int| 0 <= i < txs.len() && (#[trigger] txs[i]).oldest == span_of(txs).0,
        exists|i: int| 0 <= i < txs.len() && (#[trigger] txs[i]).oldest == span_of(txs).1,
{
    extremes(txs);
    assert(lowest(txs) <= txs[0].oldest <= highest(txs));
    if lowest(txs) == u32::MAX {
        assert(txs[0].oldest == span_of(txs).0);
    }
    if highest(txs) == 0 {
        assert(txs[0].oldest == span_of(txs).1);
    }
}

/// One, doubled so often.
pub open spec fn doubled(n: nat) -> nat
    decreases n,
{
    if n == 0 {
        1
    } else {
        2 * doubled((n - 1) as nat)
    }
}

/// The degree of mixing of a colour is how often one is doubled before it is more than
/// the blocks of the colour, but no more than there are degrees for.
pub proof fn a_degree_of_mixing_is_a_doubling(blocks: u32)
    ensures
        mixing(blocks) < MIXES,
        blocks > 0 ==> doubled(mixing(blocks)) <= blocks,
        mixing(blocks) + 1 < MIXES ==> blocks < doubled(mixing(blocks) + 1),
{
    reveal_with_fuel(doubled, 6);
}

} // verus!
