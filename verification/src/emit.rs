//! Lines, and the batches they are formatted in.
//!
//! A line is a pure function of a transaction and its colour, so lines are
//! formatted on several threads: a colour is copied out of its store, copies are
//! gathered into batches, the batches go to the workers in turn, and the writer
//! collects from the workers in the same turn, which is what puts the lines back
//! in the order they were staged.

use vstd::prelude::*;

use crate::text::{ascii, dec, push_int};

verus! {

/// How many batches may be in flight per worker.
pub const DEPTH: usize = 4;

/// Records a batch carries, and terms it carries, whichever it reaches first.
pub const LINES: usize = 256;
pub const TERMS: usize = 8192;

/// One term: the coefficient, a colon, the block.
pub open spec fn term(coefficient: Seq<u8>, block: usize) -> Seq<u8> {
    coefficient + seq![0x3au8] + ascii(dec(block as nat))
}

/// The terms, a comma between each two.
pub open spec fn terms(coefficients: Seq<Seq<u8>>, blocks: Seq<usize>) -> Seq<u8>
    decreases blocks.len(),
{
    if blocks.len() == 0 {
        Seq::empty()
    } else if blocks.len() == 1 {
        term(coefficients[0], blocks[0])
    } else {
        terms(coefficients.drop_last(), blocks.drop_last()) + seq![0x2cu8] + term(
            coefficients.last(),
            blocks.last(),
        )
    }
}

/// A line of terms: the transaction, a tab, the terms.
pub open spec fn term_line(tx: usize, coefficients: Seq<Seq<u8>>, blocks: Seq<usize>) -> Seq<u8> {
    ascii(dec(tx as nat)) + seq![0x09u8] + terms(coefficients, blocks) + seq![0x0au8]
}

/// Texts as mathematical values.
pub open spec fn byte_views(texts: Seq<Vec<u8>>) -> Seq<Seq<u8>> {
    Seq::new(texts.len(), |i: int| texts[i]@)
}

/// The coefficients of a colour that has none to speak of: every one is 1.
pub open spec fn ones(n: nat) -> Seq<Seq<u8>> {
    Seq::new(n, |i: int| seq![0x31u8])
}

/// The coefficients a line is written with: those that are given, or, where there
/// are none, ones.
pub open spec fn coefficients(texts: Seq<Seq<u8>>, n: nat) -> Seq<Seq<u8>> {
    if texts.len() == 0 {
        ones(n)
    } else {
        texts
    }
}

fn append_bytes(line: &mut Vec<u8>, more: &Vec<u8>)
    ensures
        final(line)@ == old(line)@ + more@,
{
    let mut i: usize = 0;
    assert(line@ =~= line@ + more@.take(0));
    while i < more.len()
        invariant
            i <= more@.len(),
            line@ == old(line)@ + more@.take(i as int),
        decreases more@.len() - i,
    {
        line.push(more[i]);
        i += 1;
        assert(line@ =~= old(line)@ + more@.take(i as int));
    }
    assert(more@.take(more@.len() as int) =~= more@);
}

/// Appends a line of terms to the lines of a batch. A colour that carries no
/// coefficients has none in `texts`.
pub fn append_terms(line: &mut Vec<u8>, tx: usize, blocks: &Vec<usize>, texts: &Vec<Vec<u8>>)
    requires
        texts@.len() == 0 || texts@.len() == blocks@.len(),
    ensures
        final(line)@ == old(line)@ + term_line(
            tx,
            coefficients(byte_views(texts@), blocks@.len()),
            blocks@,
        ),
{
    let ghost whole = coefficients(byte_views(texts@), blocks@.len());
    assert(byte_views(texts@).len() == texts@.len());
    push_int(line, tx);
    line.push(0x09);
    let ghost head = line@;
    let n: usize = blocks.len();
    let weighted = texts.len() > 0;
    let mut k: usize = 0;
    assert(line@ =~= head + terms(whole.take(0), blocks@.take(0)));
    while k < n
        invariant
            k <= n == blocks@.len(),
            weighted == (texts@.len() > 0),
            texts@.len() == 0 || texts@.len() == n,
            whole == coefficients(byte_views(texts@), n as nat),
            byte_views(texts@).len() == texts@.len(),
            line@ == head + terms(whole.take(k as int), blocks@.take(k as int)),
        decreases n - k,
    {
        let ghost before = line@;
        if k > 0 {
            line.push(0x2c);
        }
        if weighted {
            assert(whole[k as int] == texts@[k as int]@);
            append_bytes(line, &texts[k]);
        } else {
            line.push(0x31);
        }
        line.push(0x3a);
        push_int(line, blocks[k]);
        proof {
            let (c, b) = (whole.take(k + 1), blocks@.take(k + 1));
            assert(c.drop_last() =~= whole.take(k as int));
            assert(b.drop_last() =~= blocks@.take(k as int));
            assert(c.last() == whole[k as int] && b.last() == blocks@[k as int]);
            let last = term(whole[k as int], blocks@[k as int]);
            if k == 0 {
                assert(before =~= head);
                assert(line@ =~= head + last);
            } else {
                assert(line@ =~= before + (seq![0x2cu8] + last));
                assert(terms(c, b) =~= terms(c.drop_last(), b.drop_last()) + (seq![0x2cu8] + last));
                assert(line@ =~= head + terms(c, b));
            }
        }
        k += 1;
    }
    line.push(0x0a);
    proof {
        assert(whole.take(n as int) =~= whole);
        assert(blocks@.take(n as int) =~= blocks@);
        assert(line@ =~= old(line)@ + term_line(tx, whole, blocks@));
    }
}

/// The figures, a tab between each two.
pub open spec fn tabbed(figures: Seq<Seq<u8>>) -> Seq<u8>
    decreases figures.len(),
{
    if figures.len() == 0 {
        Seq::empty()
    } else if figures.len() == 1 {
        figures[0]
    } else {
        tabbed(figures.drop_last()) + seq![0x09u8] + figures.last()
    }
}

/// A line of figures: the transaction, and each figure behind a tab. One figure
/// is a sum; three are a mean, a spread and an effective count.
pub open spec fn figure_line(tx: usize, figures: Seq<Seq<u8>>) -> Seq<u8> {
    ascii(dec(tx as nat)) + seq![0x09u8] + tabbed(figures) + seq![0x0au8]
}

/// Appends a line of figures to the lines of a batch.
pub fn append_figures(line: &mut Vec<u8>, tx: usize, figures: &Vec<Vec<u8>>)
    ensures
        final(line)@ == old(line)@ + figure_line(tx, byte_views(figures@)),
{
    let ghost all = byte_views(figures@);
    push_int(line, tx);
    line.push(0x09);
    let ghost head = line@;
    let n: usize = figures.len();
    let mut k: usize = 0;
    assert(line@ =~= head + tabbed(all.take(0)));
    while k < n
        invariant
            k <= n == figures@.len(),
            all == byte_views(figures@),
            line@ == head + tabbed(all.take(k as int)),
        decreases n - k,
    {
        let ghost before = line@;
        if k > 0 {
            line.push(0x09);
        }
        append_bytes(line, &figures[k]);
        proof {
            let f = all.take(k + 1);
            assert(f.drop_last() =~= all.take(k as int));
            assert(f.last() == figures@[k as int]@);
            if k == 0 {
                assert(before =~= head);
            } else {
                assert(line@ =~= before + (seq![0x09u8] + f.last()));
                assert(tabbed(f) =~= tabbed(f.drop_last()) + (seq![0x09u8] + f.last()));
            }
            assert(line@ =~= head + tabbed(f));
        }
        k += 1;
    }
    line.push(0x0a);
    proof {
        assert(all.take(n as int) =~= all);
        assert(line@ =~= old(line)@ + figure_line(tx, all));
    }
}

/// A colour copied out of its store: everything a line needs, and nothing the
/// store owns. A colour whose coefficients are all 1 carries none of them.
pub struct Snapshot<W> {
    tx_id: usize,
    blocks: Vec<usize>,
    weights: Vec<W>,
}

impl<W> Snapshot<W> {
    /// The transaction.
    pub closed spec fn tx(&self) -> usize {
        self.tx_id
    }

    /// The blocks, in the order they print in.
    pub closed spec fn named(&self) -> Seq<usize> {
        self.blocks@
    }

    /// The coefficients, in the same order, or none.
    pub closed spec fn carried(&self) -> Seq<W> {
        self.weights@
    }

    #[verifier::type_invariant]
    spec fn matched(self) -> bool {
        self.weights@.len() == 0 || self.weights@.len() == self.blocks@.len()
    }

    /// An empty copy.
    pub fn new(tx_id: usize) -> (s: Snapshot<W>)
        ensures
            s.tx() == tx_id,
            s.named() == Seq::<usize>::empty(),
            s.carried() == Seq::<W>::empty(),
    {
        let s = Snapshot { tx_id, blocks: Vec::new(), weights: Vec::new() };
        assert(s.named() =~= Seq::empty());
        assert(s.carried() =~= Seq::empty());
        s
    }

    /// One more term of a colour without coefficients.
    pub fn push_flat(&mut self, block: usize)
        requires
            old(self).carried().len() == 0,
        ensures
            final(self).tx() == old(self).tx(),
            final(self).named() == old(self).named().push(block),
            final(self).carried() == old(self).carried(),
    {
        proof {
            use_type_invariant(&*self);
        }
        let mut next: Snapshot<W> = Snapshot::new(self.tx_id);
        std::mem::swap(&mut next, self);
        let Snapshot { tx_id, blocks, weights } = next;
        let mut blocks = blocks;
        blocks.push(block);
        *self = Snapshot { tx_id, blocks, weights };
    }

    /// One more term of a colour with coefficients.
    pub fn push_weighted(&mut self, block: usize, weight: W)
        requires
            old(self).carried().len() == old(self).named().len(),
        ensures
            final(self).tx() == old(self).tx(),
            final(self).named() == old(self).named().push(block),
            final(self).carried() == old(self).carried().push(weight),
    {
        proof {
            use_type_invariant(&*self);
        }
        let mut next: Snapshot<W> = Snapshot::new(self.tx_id);
        std::mem::swap(&mut next, self);
        let Snapshot { tx_id, blocks, weights } = next;
        let mut blocks = blocks;
        let mut weights = weights;
        blocks.push(block);
        weights.push(weight);
        *self = Snapshot { tx_id, blocks, weights };
    }

    /// Whether the copy carries coefficients.
    pub fn weighted(&self) -> (b: bool)
        ensures
            b == (self.carried().len() > 0),
    {
        self.weights.len() > 0
    }

    /// How many terms the colour has.
    pub fn len(&self) -> (n: usize)
        ensures
            n == self.named().len(),
    {
        self.blocks.len()
    }

    /// The transaction.
    pub fn tx_id(&self) -> (tx: usize)
        ensures
            tx == self.tx(),
    {
        self.tx_id
    }

    /// The block of one term.
    pub fn block(&self, k: usize) -> (b: usize)
        requires
            k < self.named().len(),
        ensures
            b == self.named()[k as int],
    {
        self.blocks[k]
    }

    /// Appends the line of the colour to the lines of a batch, told how each of
    /// its coefficients is written.
    pub fn append(&self, line: &mut Vec<u8>, texts: &Vec<Vec<u8>>)
        requires
            texts@.len() == self.carried().len(),
        ensures
            final(line)@ == old(line)@ + term_line(
                self.tx(),
                coefficients(byte_views(texts@), self.named().len()),
                self.named(),
            ),
    {
        proof {
            use_type_invariant(&*self);
        }
        append_terms(line, self.tx_id, &self.blocks, texts);
    }
}

impl<W: Copy> Snapshot<W> {
    /// The coefficient of one term, if the copy carries any.
    pub fn weight(&self, k: usize) -> (w: Option<W>)
        requires
            k < self.named().len(),
        ensures
            w is Some <==> self.carried().len() > 0,
            w matches Some(v) ==> v == self.carried()[k as int],
    {
        proof {
            use_type_invariant(&*self);
        }
        if self.weights.len() > 0 {
            Some(self.weights[k])
        } else {
            None
        }
    }
}

/// How many terms a batch has.
pub open spec fn term_count<W>(batch: Seq<Snapshot<W>>) -> nat
    decreases batch.len(),
{
    if batch.len() == 0 {
        0
    } else {
        term_count(batch.drop_last()) + batch.last().named().len()
    }
}

/// Whether a batch is to be sent.
pub open spec fn full<W>(batch: Seq<Snapshot<W>>) -> bool {
    batch.len() >= LINES || term_count(batch) >= TERMS
}

/// A batch on its way to a worker.
pub struct Sending<W> {
    pub worker: usize,
    pub batch: Vec<Snapshot<W>>,
}

/// The batch being filled, and whose turn it is.
pub struct Batcher<W> {
    batch: Vec<Snapshot<W>>,
    terms: usize,
    next: usize,
    workers: usize,
}

impl<W> Batcher<W> {
    /// The batch being filled.
    pub closed spec fn filling(&self) -> Seq<Snapshot<W>> {
        self.batch@
    }

    /// Whose turn it is.
    pub closed spec fn turn(&self) -> nat {
        self.next as nat
    }

    /// How many workers there are.
    pub closed spec fn width(&self) -> nat {
        self.workers as nat
    }

    #[verifier::type_invariant]
    spec fn sound(self) -> bool {
        &&& self.next < self.workers
        &&& self.terms == term_count(self.batch@)
        &&& !full(self.batch@)
    }

    /// An empty batch, for at least one worker.
    pub fn new(workers: usize) -> (b: Batcher<W>)
        ensures
            b.filling() == Seq::<Snapshot<W>>::empty(),
            b.turn() == 0,
            b.width() == if workers == 0 {
                1
            } else {
                workers as nat
            },
    {
        let b: Batcher<W> = Batcher {
            batch: Vec::new(),
            terms: 0,
            next: 0,
            workers: if workers == 0 {
                1
            } else {
                workers
            },
        };
        assert(b.filling() =~= Seq::empty());
        b
    }

    /// Adds a copy to the batch, and sends the batch once it is full.
    pub fn dispatch(&mut self, snapshot: Snapshot<W>) -> (sent: Option<Sending<W>>)
        ensures
            final(self).width() == old(self).width(),
            sent is Some <==> full(old(self).filling().push(snapshot)),
            match sent {
                None => {
                    &&& final(self).filling() == old(self).filling().push(snapshot)
                    &&& final(self).turn() == old(self).turn()
                },
                Some(sending) => {
                    &&& sending.batch@ == old(self).filling().push(snapshot)
                    &&& sending.worker == old(self).turn()
                    &&& final(self).filling() == Seq::<Snapshot<W>>::empty()
                    &&& final(self).turn() == (old(self).turn() + 1) as nat % old(self).width()
                },
            },
    {
        proof {
            use_type_invariant(&*self);
        }
        let len: usize = snapshot.len();
        let mut held: Batcher<W> = Batcher::new(1);
        std::mem::swap(&mut held, self);
        let Batcher { batch, terms, next, workers } = held;
        let mut batch = batch;
        let ghost before = batch@;
        batch.push(snapshot);
        proof {
            assert(batch@.drop_last() =~= before);
        }
        if batch.len() >= LINES || len >= TERMS - terms {
            let after: usize = if next + 1 == workers {
                0
            } else {
                next + 1
            };
            proof {
                turn_goes_round(next as int, workers as int);
            }
            *self = Batcher { batch: Vec::new(), terms: 0, next: after, workers };
            assert(self.filling() =~= Seq::<Snapshot<W>>::empty());
            Some(Sending { worker: next, batch })
        } else {
            *self = Batcher { batch, terms: terms + len, next, workers };
            None
        }
    }

    /// Sends what is left of a batch, if anything is.
    pub fn flush(&mut self) -> (sent: Option<Sending<W>>)
        ensures
            final(self).width() == old(self).width(),
            sent is Some <==> old(self).filling().len() > 0,
            final(self).filling() == Seq::<Snapshot<W>>::empty(),
            match sent {
                None => final(self).turn() == old(self).turn(),
                Some(sending) => {
                    &&& sending.batch@ == old(self).filling()
                    &&& sending.worker == old(self).turn()
                    &&& final(self).turn() == (old(self).turn() + 1) as nat % old(self).width()
                },
            },
    {
        proof {
            use_type_invariant(&*self);
        }
        let mut held: Batcher<W> = Batcher::new(1);
        std::mem::swap(&mut held, self);
        let Batcher { batch, terms, next, workers } = held;
        if batch.len() == 0 {
            *self = Batcher { batch, terms, next, workers };
            assert(self.filling() =~= Seq::<Snapshot<W>>::empty());
            return None;
        }
        let after: usize = if next + 1 == workers {
            0
        } else {
            next + 1
        };
        proof {
            turn_goes_round(next as int, workers as int);
        }
        *self = Batcher { batch: Vec::new(), terms: 0, next: after, workers };
        assert(self.filling() =~= Seq::<Snapshot<W>>::empty());
        Some(Sending { worker: next, batch })
    }
}

proof fn turn_goes_round(next: int, workers: int)
    requires
        0 <= next < workers,
    ensures
        (next + 1) % workers == if next + 1 == workers {
            0
        } else {
            next + 1
        },
{
    if next + 1 == workers {
        vstd::arithmetic::div_mod::lemma_mod_self_0(workers);
    } else {
        vstd::arithmetic::div_mod::lemma_small_mod((next + 1) as nat, workers as nat);
    }
}

/// What the batches of the first `k` colours come to: the batches sent, and the
/// batch being filled.
pub open spec fn batched<W>(all: Seq<Snapshot<W>>, k: nat) -> (
    Seq<Seq<Snapshot<W>>>,
    Seq<Snapshot<W>>,
)
    decreases k,
{
    if k == 0 {
        (Seq::empty(), Seq::empty())
    } else {
        let (sent, filling) = batched(all, (k - 1) as nat);
        let next = filling.push(all[k - 1]);
        if full(next) {
            (sent.push(next), Seq::empty())
        } else {
            (sent, next)
        }
    }
}

/// The colours of the batches, one batch after another.
pub open spec fn unbatched<W>(batches: Seq<Seq<Snapshot<W>>>) -> Seq<Snapshot<W>>
    decreases batches.len(),
{
    if batches.len() == 0 {
        Seq::empty()
    } else {
        unbatched(batches.drop_last()) + batches.last()
    }
}

/// Batching loses no colour, adds none and moves none: what was sent and what is
/// being filled is what was staged, in order.
pub proof fn batching_keeps_the_order<W>(all: Seq<Snapshot<W>>, k: nat)
    requires
        k <= all.len(),
    ensures
        unbatched(batched(all, k).0) + batched(all, k).1 == all.take(k as int),
    decreases k,
{
    if k > 0 {
        batching_keeps_the_order(all, (k - 1) as nat);
        let (sent, filling) = batched(all, (k - 1) as nat);
        let next = filling.push(all[k - 1]);
        assert(all.take(k as int) =~= all.take(k - 1).push(all[k - 1]));
        assert(unbatched(sent) + next =~= (unbatched(sent) + filling).push(all[k - 1]));
        if full(next) {
            assert(sent.push(next).drop_last() =~= sent);
            assert(unbatched(sent.push(next)) + Seq::<Snapshot<W>>::empty() =~= unbatched(sent)
                + next);
        }
    } else {
        assert(all.take(0) =~= Seq::<Snapshot<W>>::empty());
        assert(unbatched(batched(all, k).0) + batched(all, k).1 =~= Seq::<Snapshot<W>>::empty());
    }
}

/// What worker `w` of `n` was sent, when what is sent goes to the workers in
/// turn.
pub open spec fn queue<B>(sent: Seq<B>, n: nat, w: nat) -> Seq<B>
    decreases sent.len(),
{
    if sent.len() == 0 {
        Seq::empty()
    } else {
        let front = queue(sent.drop_last(), n, w);
        if (sent.len() - 1) % n as int == w {
            front.push(sent.last())
        } else {
            front
        }
    }
}

/// How many of the first `m` turns are those of worker `w`.
pub open spec fn turns(m: nat, n: nat, w: nat) -> int
    recommends
        w < n,
{
    if m > w {
        (m - w - 1) / n as int + 1
    } else {
        0
    }
}

/// The last turn of a round, and the first of the next.
proof fn rounds(k: int, q: int)
    requires
        k > 0,
    ensures
        (k * q) / k == q,
        (k * q - 1) / k == q - 1,
        q == 0 ==> k * q == 0,
        q > 0 ==> k * q > 0,
{
    assert(k * q == k * q + 0);
    vstd::arithmetic::div_mod::lemma_fundamental_div_mod_converse(k * q, k, q, 0);
    assert(k * q - 1 == (q - 1) * k + (k - 1)) by (nonlinear_arith);
    vstd::arithmetic::div_mod::lemma_fundamental_div_mod_converse(k * q - 1, k, q - 1, k - 1);
    assert(q > 0 ==> k * q > 0) by (nonlinear_arith)
        requires
            k > 0,
    ;
}

proof fn queue_len<B>(sent: Seq<B>, n: nat, w: nat)
    requires
        w < n,
    ensures
        queue(sent, n, w).len() == turns(sent.len(), n, w),
    decreases sent.len(),
{
    if sent.len() > 0 {
        queue_len(sent.drop_last(), n, w);
        let m = sent.len() as int;
        let k = n as int;
        let d = m - 1 - w;
        vstd::arithmetic::div_mod::lemma_fundamental_div_mod(m - 1, k);
        vstd::arithmetic::div_mod::lemma_mod_bound(m - 1, k);
        let q = (m - 1) / k;
        let r = (m - 1) % k;
        if m - 1 <= w {
            vstd::arithmetic::div_mod::lemma_small_mod((m - 1) as nat, n);
        }
        if r == w {
            assert(d == k * q);
            vstd::arithmetic::div_mod::lemma_div_pos_is_pos(m - 1, k);
            rounds(k, q);
        } else if m - 1 > w {
            // No turn of `w` was added: the quotient does not change.
            vstd::arithmetic::div_mod::lemma_fundamental_div_mod(d, k);
            vstd::arithmetic::div_mod::lemma_mod_bound(d, k);
            let (p, s) = (d / k, d % k);
            if s == 0 {
                assert(m - 1 == k * p + w);
                vstd::arithmetic::div_mod::lemma_fundamental_div_mod_converse(
                    m - 1,
                    k,
                    p,
                    w as int,
                );
                assert(false);
            }
            vstd::arithmetic::div_mod::lemma_fundamental_div_mod_converse(d - 1, k, p, s - 1);
        }
    }
}

/// Collecting in turn gives back what was sent, in the order it was sent: the
/// `i`th to be collected, from the worker whose turn it is, is the `i`th that was
/// sent, and stands in that worker's queue behind as many as there were rounds.
pub proof fn collecting_in_turn_keeps_the_order<B>(sent: Seq<B>, n: nat, i: int)
    requires
        n > 0,
        0 <= i < sent.len(),
    ensures
        i / (n as int) < queue(sent, n, (i % n as int) as nat).len(),
        queue(sent, n, (i % n as int) as nat)[i / n as int] == sent[i],
    decreases sent.len(),
{
    let w = (i % n as int) as nat;
    vstd::arithmetic::div_mod::lemma_mod_bound(i, n as int);
    let f = sent.drop_last();
    if i < sent.len() - 1 {
        collecting_in_turn_keeps_the_order(f, n, i);
    } else {
        queue_len(f, n, w);
        vstd::arithmetic::div_mod::lemma_fundamental_div_mod(i, n as int);
        let q = i / n as int;
        let k = n as int;
        assert(i == k * q + w);
        assert(f.len() == i);
        vstd::arithmetic::div_mod::lemma_div_pos_is_pos(i, k);
        rounds(k, q);
        assert(queue(f, n, w).len() == q);
    }
}

/// The lines of the colours, one after another, where `line` is what the line of
/// a colour is.
pub open spec fn lines<W>(all: Seq<Snapshot<W>>, line: spec_fn(Snapshot<W>) -> Seq<u8>) -> Seq<u8>
    decreases all.len(),
{
    if all.len() == 0 {
        Seq::empty()
    } else {
        lines(all.drop_last(), line) + line(all.last())
    }
}

/// What a writer that collects from `n` workers in turn has written after `m`
/// batches, each worker formatting what it was sent in the order it was sent.
pub open spec fn collected<W>(
    sent: Seq<Seq<Snapshot<W>>>,
    n: nat,
    line: spec_fn(Snapshot<W>) -> Seq<u8>,
    m: nat,
) -> Seq<u8>
    decreases m,
{
    if m == 0 {
        Seq::empty()
    } else {
        let i = m - 1;
        collected(sent, n, line, i as nat) + lines(
            queue(sent, n, (i % n as int) as nat)[i / n as int],
            line,
        )
    }
}

proof fn lines_join<W>(
    a: Seq<Snapshot<W>>,
    b: Seq<Snapshot<W>>,
    line: spec_fn(Snapshot<W>) -> Seq<u8>,
)
    ensures
        lines(a + b, line) == lines(a, line) + lines(b, line),
    decreases b.len(),
{
    if b.len() == 0 {
        assert(a + b =~= a);
        assert(lines(a, line) + lines(b, line) =~= lines(a, line));
    } else {
        lines_join(a, b.drop_last(), line);
        assert((a + b).drop_last() =~= a + b.drop_last());
        assert(lines(a + b, line) =~= lines(a, line) + lines(b, line));
    }
}

proof fn collected_is_sent<W>(
    sent: Seq<Seq<Snapshot<W>>>,
    n: nat,
    line: spec_fn(Snapshot<W>) -> Seq<u8>,
    m: nat,
)
    requires
        n > 0,
        m <= sent.len(),
    ensures
        collected(sent, n, line, m) == lines(unbatched(sent.take(m as int)), line),
    decreases m,
{
    if m > 0 {
        collected_is_sent(sent, n, line, (m - 1) as nat);
        collecting_in_turn_keeps_the_order(sent, n, m - 1);
        assert(sent.take(m as int).drop_last() =~= sent.take(m - 1));
        lines_join(unbatched(sent.take(m - 1)), sent[m - 1], line);
    }
}

/// Threading changes nothing of what is written: whatever the number of workers,
/// the lines collected from them, once the last batch is sent too, are the lines
/// of the colours in the order they were staged.
pub proof fn threading_changes_nothing<W>(
    all: Seq<Snapshot<W>>,
    n: nat,
    line: spec_fn(Snapshot<W>) -> Seq<u8>,
)
    requires
        n > 0,
    ensures
        ({
            let (sent, filling) = batched(all, all.len());
            let every = if filling.len() > 0 {
                sent.push(filling)
            } else {
                sent
            };
            collected(every, n, line, every.len()) == lines(all, line)
        }),
{
    batching_keeps_the_order(all, all.len());
    assert(all.take(all.len() as int) =~= all);
    let (sent, filling) = batched(all, all.len());
    let every = if filling.len() > 0 {
        sent.push(filling)
    } else {
        sent
    };
    collected_is_sent(every, n, line, every.len());
    assert(every.take(every.len() as int) =~= every);
    if filling.len() > 0 {
        assert(every.drop_last() =~= sent);
    } else {
        assert(unbatched(sent) + filling =~= unbatched(sent));
    }
}

} // verus!
