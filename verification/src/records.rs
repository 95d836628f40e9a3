//! Transactions, read one after another: the tree their first inputs make, and
//! the colours their coins have.
//!
//! A coinbase is coloured by the block that minted it; any other transaction by
//! every block that any of its inputs is coloured by. A transaction's colour is
//! dropped as soon as its last unspent output is spent, so the colours in flight
//! track the unspent outputs rather than the chain.

use std::collections::HashMap;

use vstd::prelude::*;
use vstd::string::*;

use crate::blocks::wrapped;
use crate::colorset::{merged, sorted, BlockSet, SetStore};
use crate::forest::{
    are_tops, forest_with_hung_leaf, forest_with_leaf, hung, joined, joined_is_a_tree, leaf,
    NodeView, Tree,
};
use crate::scene::{is_forest, is_tree};
use crate::text::{dec, push_dec};
use crate::walk::wrapped_adds;

verus! {

broadcast use vstd::std_specs::hash::group_hash_axioms;

/// An input: the transaction whose output it spends, and the amount.
#[derive(Clone, Copy, Debug, PartialEq, Eq, Structural)]
pub struct Input {
    pub prev_tx_id: usize,
    pub amount: u64,
}

/// One transaction as the records have it.
pub struct Record {
    pub block_id: usize,
    pub tx_id: usize,
    pub outputs: usize,
    pub inputs: Vec<Input>,
}

/// A record as a mathematical value.
pub struct RecordView {
    pub block_id: usize,
    pub tx_id: usize,
    pub outputs: usize,
    pub inputs: Seq<Input>,
}

impl View for Record {
    type V = RecordView;

    open spec fn view(&self) -> RecordView {
        RecordView {
            block_id: self.block_id,
            tx_id: self.tx_id,
            outputs: self.outputs,
            inputs: self.inputs@,
        }
    }
}

/// What is kept of one transaction: enough to draw it, and enough to say what
/// it was.
#[derive(Clone, Copy, Debug, PartialEq, Eq, Structural)]
pub struct Tx {
    /// The transaction's own id, as the record gives it.
    pub id: u64,
    /// The block it was mined in.
    pub block: u32,
    /// The smallest block id in its colour: where its oldest coin came from.
    pub oldest: u32,
    /// The largest, which for a coinbase is the same block.
    pub newest: u32,
    /// How many blocks the colour names.
    pub blocks: u32,
}

/// A transaction that still has outputs nobody has spent: its colour, how many
/// outputs, and its node in the tree.
struct Live {
    colour: BlockSet,
    unspent: usize,
    node: usize,
}

/// A transaction with unspent outputs, as a mathematical value.
pub struct LiveView {
    pub colour: Seq<u32>,
    pub unspent: usize,
    pub node: usize,
}

impl View for Live {
    type V = LiveView;

    closed spec fn view(&self) -> LiveView {
        LiveView { colour: self.colour@, unspent: self.unspent, node: self.node }
    }
}

/// What has been read: the tree and its roots, the transactions, the inputs the
/// tree cannot show, and the transactions with unspent outputs.
pub struct Account {
    pub nodes: Seq<NodeView>,
    pub roots: Seq<usize>,
    pub txs: Seq<Tx>,
    pub dropped: nat,
    pub live: Map<usize, LiveView>,
}

/// Nothing has been read.
pub open spec fn nothing_read() -> Account {
    Account {
        nodes: Seq::empty(),
        roots: Seq::empty(),
        txs: Seq::empty(),
        dropped: 0,
        live: Map::empty(),
    }
}

pub open spec fn unknown_text(tx: usize, previous: usize) -> Seq<char> {
    "transaction "@ + dec(tx as nat) + " spends unknown transaction "@ + dec(previous as nat)
}

/// The complaint about a transaction that spends what is not there to spend.
pub fn unknown(tx: usize, previous: usize) -> (s: String)
    ensures
        s@ == unknown_text(tx, previous),
{
    let mut s = "transaction ".to_owned();
    push_dec(&mut s, tx as u64);
    s.append(" spends unknown transaction ");
    push_dec(&mut s, previous as u64);
    s
}

pub open spec fn too_wide(block: usize) -> Seq<char> {
    "block id "@ + dec(block as nat) + " does not fit in a u32"@
}

/// The transactions with unspent outputs after one output of `previous` was
/// spent: one fewer, and with the last of them the transaction is gone.
pub open spec fn spent(live: Map<usize, LiveView>, previous: usize) -> Map<usize, LiveView> {
    let entry = live[previous];
    if entry.unspent > 1 {
        live.insert(previous, LiveView { unspent: (entry.unspent - 1) as usize, ..entry })
    } else {
        live.remove(previous)
    }
}

/// A colour with another mixed in.
pub open spec fn mixed(colour: Seq<u32>, acc: Option<Seq<u32>>) -> Seq<u32> {
    match acc {
        None => colour,
        Some(a) => merged(colour, a),
    }
}

/// The transactions with unspent outputs after the first `i` inputs were spent,
/// last to first, and the colour they mix to.
pub open spec fn gathered(
    tx: usize,
    live: Map<usize, LiveView>,
    acc: Option<Seq<u32>>,
    inputs: Seq<Input>,
    i: int,
) -> Result<(Map<usize, LiveView>, Option<Seq<u32>>), Seq<char>>
    decreases i,
{
    if i <= 0 {
        Ok((live, acc))
    } else {
        let previous = inputs[i - 1].prev_tx_id;
        if !live.contains_key(previous) {
            Err(unknown_text(tx, previous))
        } else {
            gathered(
                tx,
                spent(live, previous),
                Some(mixed(live[previous].colour, acc)),
                inputs,
                i - 1,
            )
        }
    }
}

/// What is kept of a transaction with this colour.
pub open spec fn tx_of(record: RecordView, colour: Seq<u32>) -> Tx {
    Tx {
        id: record.tx_id as u64,
        block: record.block_id as u32,
        oldest: if colour.len() == 0 { record.block_id as u32 } else { colour[0] },
        newest: if colour.len() == 0 { record.block_id as u32 } else { colour.last() },
        blocks: (colour.len() % 0x1_0000_0000) as u32,
    }
}

/// The account with a transaction taken in, its place in the tree and its
/// colour settled.
pub open spec fn entered(
    st: Account,
    record: RecordView,
    nodes: Seq<NodeView>,
    roots: Seq<usize>,
    live: Map<usize, LiveView>,
    colour: Seq<u32>,
) -> Result<Account, Seq<char>> {
    if record.block_id > u32::MAX {
        Err(too_wide(record.block_id))
    } else {
        Ok(
            Account {
                nodes,
                roots,
                txs: st.txs.push(tx_of(record, colour)),
                dropped: if record.inputs.len() == 0 {
                    st.dropped
                } else {
                    (st.dropped + record.inputs.len() - 1) as nat
                },
                live: if record.outputs > 0 {
                    live.insert(
                        record.tx_id,
                        LiveView {
                            colour,
                            unspent: record.outputs,
                            node: st.nodes.len() as usize,
                        },
                    )
                } else {
                    live
                },
            },
        )
    }
}

/// The account after one record more. Every record is a node, whose parent is
/// the transaction its first input spends; its colour reads every input.
pub open spec fn read_one(st: Account, record: RecordView) -> Result<Account, Seq<char>> {
    let grown = st.nodes.push(leaf(st.txs.len() as usize));
    let node = st.nodes.len() as usize;
    if record.inputs.len() == 0 {
        entered(
            st,
            record,
            grown,
            st.roots.push(node),
            st.live,
            seq![record.block_id as u32],
        )
    } else {
        let first = record.inputs[0].prev_tx_id;
        if !st.live.contains_key(first) {
            Err(unknown_text(record.tx_id, first))
        } else {
            match gathered(
                record.tx_id,
                st.live,
                None,
                record.inputs,
                record.inputs.len() as int,
            ) {
                Err(e) => Err(e),
                Ok((live, colour)) => entered(
                    st,
                    record,
                    hung(grown, st.live[first].node as int, node),
                    st.roots,
                    live,
                    colour->0,
                ),
            }
        }
    }
}

/// The account after the records from the `k`th on, up to `limit` of them in
/// all.
pub open spec fn read_from(
    st: Account,
    records: Seq<RecordView>,
    limit: nat,
    k: int,
) -> Result<Account, Seq<char>>
    decreases records.len() - k,
{
    if k >= records.len() || st.txs.len() >= limit {
        Ok(st)
    } else {
        match read_one(st, records[k]) {
            Err(e) => Err(e),
            Ok(next) => read_from(next, records, limit, k + 1),
        }
    }
}

/// Records as mathematical values.
pub open spec fn record_views(records: Seq<Record>) -> Seq<RecordView> {
    records.map_values(|r: Record| r@)
}

spec fn so_far(acc: Option<BlockSet>) -> Option<Seq<u32>> {
    match acc {
        Some(c) => Some(c@),
        None => None,
    }
}

spec fn live_views(live: Map<usize, Live>) -> Map<usize, LiveView> {
    Map::new(|k: usize| live.contains_key(k), |k: usize| live[k]@)
}

/// The records read so far.
pub struct Ledger {
    store: SetStore,
    live: HashMap<usize, Live>,
    tree: Tree,
    roots: Vec<usize>,
    txs: Vec<Tx>,
    dropped: u64,
    dropped_count: Ghost<nat>,
}

impl Ledger {
    /// What has been read.
    pub closed spec fn account(&self) -> Account {
        Account {
            nodes: self.tree@,
            roots: self.roots@,
            txs: self.txs@,
            dropped: self.dropped_count@,
            live: live_views(self.live@),
        }
    }

    /// What holds of every ledger: the colours are colours, every node that can
    /// be hung from is in the tree, the tree is a forest with these roots, and
    /// whatever was read started from a root.
    pub closed spec fn sound(&self) -> bool {
        let st = self.account();
        &&& forall|k: usize|
            #[trigger] st.live.contains_key(k) ==> sorted(st.live[k].colour) && st.live[k].node
                < st.nodes.len()
        &&& self.dropped == wrapped(self.dropped_count@)
        &&& is_forest(st.nodes)
        &&& are_tops(st.nodes, st.roots)
        &&& st.nodes.len() == st.txs.len()
        &&& st.txs.len() > 0 ==> st.roots.len() > 0
        &&& st.txs.len() == 0 ==> st.live == Map::<usize, LiveView>::empty()
    }

    /// A ledger that has read nothing.
    pub fn new() -> (ledger: Ledger)
        ensures
            ledger.account() == nothing_read(),
            ledger.sound(),
    {
        let ledger = Ledger {
            store: SetStore::new(),
            live: HashMap::new(),
            tree: Tree::new(),
            roots: Vec::new(),
            txs: Vec::new(),
            dropped: 0,
            dropped_count: Ghost(0),
        };
        assert(live_views(ledger.live@) =~= Map::<usize, LiveView>::empty());
        ledger
    }

    /// How many records were read.
    pub fn len(&self) -> (n: usize)
        ensures
            n == self.account().txs.len(),
    {
        self.txs.len()
    }

    /// Spends the inputs of a record, last to first, and mixes their colours.
    fn gather(&mut self, tx: usize, inputs: &Vec<Input>) -> (r: Result<BlockSet, String>)
        requires
            old(self).sound(),
            inputs@.len() > 0,
        ensures
            match r {
                Ok(colour) => {
                    &&& gathered(
                        tx,
                        old(self).account().live,
                        None,
                        inputs@,
                        inputs@.len() as int,
                    ) == Ok::<(Map<usize, LiveView>, Option<Seq<u32>>), Seq<char>>(
                        (final(self).account().live, Some(colour@)),
                    )
                    &&& sorted(colour@)
                    &&& final(self).account() == (Account {
                        live: final(self).account().live,
                        ..old(self).account()
                    })
                    &&& final(self).dropped == old(self).dropped
                    &&& final(self).dropped_count == old(self).dropped_count
                    &&& forall|k: usize| #[trigger]
                        final(self).account().live.contains_key(k) ==> sorted(
                            final(self).account().live[k].colour,
                        ) && final(self).account().live[k].node < old(self).account().nodes.len()
                },
                Err(e) => gathered(
                    tx,
                    old(self).account().live,
                    None,
                    inputs@,
                    inputs@.len() as int,
                ) == Err::<(Map<usize, LiveView>, Option<Seq<u32>>), Seq<char>>(e@),
            },
    {
        let ghost whole = gathered(tx, self.account().live, None, inputs@, inputs@.len() as int);
        let mut acc: Option<BlockSet> = None;
        let mut i: usize = inputs.len();
        proof {
            assert forall|k: usize| #[trigger] self.live@.contains_key(k) implies sorted(
                self.live@[k]@.colour,
            ) && self.live@[k]@.node < self.account().nodes.len() by {
                assert(self.account().live.contains_key(k));
            }
        }
        while i > 0
            invariant
                i <= inputs@.len(),
                inputs@.len() > 0,
                acc is None ==> i == inputs@.len(),
                acc matches Some(c) ==> sorted(c@),
                whole == gathered(
                    tx,
                    old(self).account().live,
                    None,
                    inputs@,
                    inputs@.len() as int,
                ),
                whole == gathered(
                    tx,
                    live_views(self.live@),
                    so_far(acc),
                    inputs@,
                    i as int,
                ),
                self.tree == old(self).tree,
                self.roots == old(self).roots,
                self.txs == old(self).txs,
                self.dropped == old(self).dropped,
                self.dropped_count == old(self).dropped_count,
                forall|k: usize| #[trigger]
                    self.live@.contains_key(k) ==> sorted(self.live@[k]@.colour)
                        && self.live@[k]@.node < old(self).account().nodes.len(),
            decreases i,
        {
            i -= 1;
            let previous: usize = inputs[i].prev_tx_id;
            let ghost held = self.live@;
            let ghost acc0 = so_far(acc);
            match self.live.remove(&previous) {
                None => {
                    assert(!live_views(held).contains_key(previous));
                    return Err(unknown(tx, previous));
                },
                Some(entry) => {
                    assert(held.contains_key(previous));
                    let ghost e = entry@;
                    assert(live_views(held)[previous] == e);
                    let Live { colour, unspent, node } = entry;
                    let next: BlockSet;
                    if unspent > 1 {
                        // Others can still reach this colour, so it has to
                        // survive the fold.
                        next = match acc {
                            None => self.store.share(&colour),
                            Some(a) => {
                                let combined = self.store.combine(&colour, &a);
                                self.store.release(a);
                                combined
                            },
                        };
                        self.live.insert(previous, Live { colour, unspent: unspent - 1, node });
                    } else {
                        // The last unspent output is being spent right now, so
                        // nobody can reach this colour again.
                        next = match acc {
                            None => colour,
                            Some(a) => {
                                let combined = self.store.combine(&colour, &a);
                                self.store.release(a);
                                self.store.release(colour);
                                combined
                            },
                        };
                    }
                    assert(next@ == mixed(e.colour, acc0));
                    assert(live_views(self.live@) =~= spent(live_views(held), previous));
                    acc = Some(next);
                },
            }
        }
        let colour = acc.unwrap();
        proof {
            assert forall|k: usize| #[trigger]
                self.account().live.contains_key(k) implies sorted(self.account().live[k].colour)
                && self.account().live[k].node < old(self).account().nodes.len() by {
                assert(self.live@.contains_key(k));
            }
        }
        Ok(colour)
    }

    /// Reads one record more.
    pub fn take(&mut self, record: &Record) -> (r: Result<(), String>)
        requires
            old(self).sound(),
            record.inputs@.len() == 0 ==> record.block_id <= u32::MAX,
        ensures
            match r {
                Ok(()) => read_one(old(self).account(), record@) == Ok::<Account, Seq<char>>(
                    final(self).account(),
                ) && final(self).sound(),
                Err(e) => read_one(old(self).account(), record@) == Err::<Account, Seq<char>>(e@),
            },
    {
        let ghost st = self.account();
        let ghost rec = record@;
        let n: usize = record.inputs.len();
        let label: usize = self.txs.len();
        let node: usize;
        let colour: BlockSet;
        let ghost live0 = st.live;
        if n == 0 {
            proof {
                assert(self.tree.nodes.len() == self.tree@.len());
                forest_with_leaf(st.nodes, st.roots, label);
            }
            node = self.tree.add_node(label);
            self.roots.push(node);
            colour = self.store.singleton(record.block_id);
            assert(colour@ == seq![rec.block_id as u32]);
        } else {
            let first: usize = record.inputs[0].prev_tx_id;
            assert(st.live.contains_key(first) == self.live@.contains_key(first));
            let parent: usize = match self.live.get(&first) {
                Some(entry) => entry.node,
                None => {
                    return Err(unknown(record.tx_id, first));
                },
            };
            assert(parent == st.live[first].node);
            colour = match self.gather(record.tx_id, &record.inputs) {
                Ok(mix) => mix,
                Err(e) => {
                    return Err(e);
                },
            };
            proof {
                assert(self.tree.nodes.len() == self.tree@.len());
                forest_with_hung_leaf(st.nodes, st.roots, parent as int, label);
                wrapped_adds(self.dropped_count@, (n - 1) as nat);
                vstd::arithmetic::div_mod::lemma_small_mod(
                    (n - 1) as nat,
                    0x1_0000_0000_0000_0000,
                );
            }
            node = self.tree.add_node(label);
            self.tree.push_child(parent, node);
            self.dropped = self.dropped.wrapping_add((n - 1) as u64);
            self.dropped_count = Ghost((self.dropped_count@ + n - 1) as nat);
        }
        if record.block_id > u32::MAX as usize {
            let mut s = "block id ".to_owned();
            push_dec(&mut s, record.block_id as u64);
            s.append(" does not fit in a u32");
            return Err(s);
        }
        let block: u32 = record.block_id as u32;
        let count: usize = colour.len();
        let tx = Tx {
            id: record.tx_id as u64,
            block,
            oldest: if count == 0 { block } else { colour[0] },
            newest: if count == 0 { block } else { colour[count - 1] },
            blocks: ((count as u64) % 0x1_0000_0000) as u32,
        };
        let ghost shade = colour@;
        assert(tx == tx_of(rec, shade));
        self.txs.push(tx);
        let ghost gone = self.live@;
        if record.outputs > 0 {
            let entry = Live { colour, unspent: record.outputs, node };
            let ghost e = entry@;
            let was = self.live.insert(record.tx_id, entry);
            assert(live_views(self.live@) =~= live_views(gone).insert(rec.tx_id, e));
            if let Some(displaced) = was {
                self.store.release(displaced.colour);
            }
        } else {
            self.store.release(colour);
        }
        proof {
            let end = self.account();
            assert forall|k: usize| #[trigger] end.live.contains_key(k) implies sorted(
                end.live[k].colour,
            ) && end.live[k].node < end.nodes.len() by {
                if !(rec.outputs > 0 && k == rec.tx_id) {
                    assert(live_views(gone).contains_key(k));
                    if n == 0 {
                        assert(st.live.contains_key(k));
                    }
                }
            }
            if st.txs.len() == 0 && n > 0 {
                assert(st.live.contains_key(rec.inputs[0].prev_tx_id));
            }
        }
        Ok(())
    }

    /// What the records come to, once there are no more.
    pub fn finish(self) -> (r: Result<Records, String>)
        requires
            self.sound(),
        ensures
            match r {
                Ok(read) => self.account().txs.len() > 0 && read@ == recorded(self.account())
                    && is_tree(read.tree@, read.root as int),
                Err(e) => self.account().txs.len() == 0 && e@
                    == "the file has no transactions to draw"@,
            },
    {
        if self.txs.len() == 0 {
            return Err("the file has no transactions to draw".to_owned());
        }
        let mut tree = self.tree;
        let count: usize = self.roots.len();
        let synthetic_root = count > 1;
        proof {
            joined_is_a_tree(tree@, self.roots@);
        }
        let root: usize = if synthetic_root {
            tree.add_root(self.roots)
        } else {
            self.roots[0]
        };
        Ok(
            Records {
                tree,
                root,
                roots: count,
                synthetic_root,
                dropped: self.dropped,
                txs: self.txs,
            },
        )
    }
}

/// What one pass over the records leaves behind.
pub struct Records {
    pub tree: Tree,
    pub root: usize,
    /// Coinbases: transactions with nothing to hang from.
    pub roots: usize,
    /// Whether a root standing for no transaction was added.
    pub synthetic_root: bool,
    /// Inputs past the first, whose ancestry the tree cannot show.
    pub dropped: u64,
    /// One per record, in the order they were read.
    pub txs: Vec<Tx>,
}

/// What a pass over the records leaves behind, as a mathematical value.
pub struct RecordsView {
    pub tree: Seq<NodeView>,
    pub root: nat,
    pub roots: nat,
    pub synthetic_root: bool,
    pub dropped: u64,
    pub txs: Seq<Tx>,
}

impl View for Records {
    type V = RecordsView;

    open spec fn view(&self) -> RecordsView {
        RecordsView {
            tree: self.tree@,
            root: self.root as nat,
            roots: self.roots as nat,
            synthetic_root: self.synthetic_root,
            dropped: self.dropped,
            txs: self.txs@,
        }
    }
}

/// What the account leaves behind.
pub open spec fn recorded(st: Account) -> RecordsView {
    RecordsView {
        tree: joined(st.nodes, st.roots),
        root: if st.roots.len() > 1 { st.nodes.len() } else { st.roots[0] as nat },
        roots: st.roots.len(),
        synthetic_root: st.roots.len() > 1,
        dropped: wrapped(st.dropped),
        txs: st.txs,
    }
}

/// What reading the records comes to, or the first complaint.
pub open spec fn all_read(records: Seq<RecordView>, limit: nat) -> Result<RecordsView, Seq<char>> {
    match read_from(nothing_read(), records, limit, 0) {
        Err(e) => Err(e),
        Ok(st) => if st.txs.len() == 0 {
            Err("the file has no transactions to draw"@)
        } else {
            Ok(recorded(st))
        },
    }
}

/// Whether a record's own block can be its colour.
pub open spec fn mintable(record: RecordView) -> bool {
    record.inputs.len() == 0 ==> record.block_id <= u32::MAX
}

/// Whether every record from the `k`th on that is read, up to the first that is
/// refused, has a colour.
pub open spec fn all_mintable(
    st: Account,
    records: Seq<RecordView>,
    limit: nat,
    k: int,
) -> bool
    decreases records.len() - k,
{
    if k >= records.len() || st.txs.len() >= limit {
        true
    } else {
        mintable(records[k]) && match read_one(st, records[k]) {
            Err(_) => true,
            Ok(next) => all_mintable(next, records, limit, k + 1),
        }
    }
}

/// Reads at most `limit` records, colouring them and building the tree.
pub fn read(records: &Vec<Record>, limit: usize) -> (r: Result<Records, String>)
    requires
        all_mintable(nothing_read(), record_views(records@), limit as nat, 0),
    ensures
        match r {
            Ok(read) => all_read(record_views(records@), limit as nat) == Ok::<
                RecordsView,
                Seq<char>,
            >(read@) && is_tree(read.tree@, read.root as int),
            Err(e) => all_read(record_views(records@), limit as nat) == Err::<
                RecordsView,
                Seq<char>,
            >(e@),
        },
{
    let ghost all = record_views(records@);
    let mut ledger = Ledger::new();
    let mut k: usize = 0;
    while k < records.len() && ledger.len() < limit
        invariant
            k <= records@.len(),
            all == record_views(records@),
            ledger.sound(),
            ledger.account().txs.len() == k,
            all_mintable(ledger.account(), all, limit as nat, k as int),
            read_from(nothing_read(), all, limit as nat, 0) == read_from(
                ledger.account(),
                all,
                limit as nat,
                k as int,
            ),
        decreases records@.len() - k,
    {
        assert(all[k as int] == records@[k as int]@);
        match ledger.take(&records[k]) {
            Ok(()) => {},
            Err(e) => {
                return Err(e);
            },
        }
        k += 1;
    }
    ledger.finish()
}

/// The colours of the inputs before the `i`th mixed, last to first, out of a
/// memory of every colour.
pub open spec fn mixed_from_memory(
    memory: Map<usize, Seq<u32>>,
    acc: Option<Seq<u32>>,
    inputs: Seq<Input>,
    i: int,
) -> Option<Seq<u32>>
    decreases i,
{
    if i <= 0 {
        acc
    } else {
        mixed_from_memory(
            memory,
            Some(mixed(memory[inputs[i - 1].prev_tx_id], acc)),
            inputs,
            i - 1,
        )
    }
}

/// The colour of every transaction with outputs among the first `k` records,
/// none ever forgotten.
pub open spec fn memory(records: Seq<RecordView>, k: nat) -> Map<usize, Seq<u32>>
    decreases k,
{
    if k == 0 {
        Map::empty()
    } else {
        let before = memory(records, (k - 1) as nat);
        let r = records[k - 1];
        if r.outputs > 0 {
            before.insert(r.tx_id, coloured(before, r))
        } else {
            before
        }
    }
}

/// The colour of a transaction by a memory of every colour before it: its own
/// block where it spends nothing, else every block its inputs name.
pub open spec fn coloured(memory: Map<usize, Seq<u32>>, r: RecordView) -> Seq<u32> {
    if r.inputs.len() == 0 {
        seq![r.block_id as u32]
    } else {
        mixed_from_memory(memory, None, r.inputs, r.inputs.len() as int)->0
    }
}

spec fn agrees(live: Map<usize, LiveView>, memory: Map<usize, Seq<u32>>) -> bool {
    forall|t: usize| #[trigger]
        live.contains_key(t) ==> memory.contains_key(t) && memory[t] == live[t].colour
}

proof fn gathering_remembers(
    tx: usize,
    live: Map<usize, LiveView>,
    acc: Option<Seq<u32>>,
    inputs: Seq<Input>,
    i: int,
    memory: Map<usize, Seq<u32>>,
)
    requires
        agrees(live, memory),
    ensures
        gathered(tx, live, acc, inputs, i) matches Ok((left, colour)) ==> agrees(left, memory)
            && colour == mixed_from_memory(memory, acc, inputs, i),
    decreases i,
{
    if i > 0 {
        let previous = inputs[i - 1].prev_tx_id;
        if live.contains_key(previous) {
            let next = spent(live, previous);
            assert(agrees(next, memory)) by {
                assert forall|t: usize| #[trigger]
                    next.contains_key(t) implies memory.contains_key(t) && memory[t]
                    == next[t].colour by {
                    assert(live.contains_key(t));
                }
            }
            gathering_remembers(
                tx,
                next,
                Some(mixed(live[previous].colour, acc)),
                inputs,
                i - 1,
                memory,
            );
        }
    }
}

/// What has been read so far agrees with a memory that forgets nothing.
spec fn faithful(st: Account, records: Seq<RecordView>, k: nat) -> bool {
    &&& st.txs.len() == k
    &&& agrees(st.live, memory(records, k))
    &&& forall|j: int|
        0 <= j < k ==> #[trigger] st.txs[j] == tx_of(
            records[j],
            coloured(memory(records, j as nat), records[j]),
        )
}

proof fn reading_stays_faithful(st: Account, records: Seq<RecordView>, limit: nat, k: nat)
    requires
        faithful(st, records, k),
        k <= records.len(),
    ensures
        read_from(st, records, limit, k as int) matches Ok(end) ==> faithful(
            end,
            records,
            end.txs.len(),
        ) && end.txs.len() == (if k > limit {
            k
        } else if limit < records.len() {
            limit
        } else {
            records.len()
        }),
    decreases records.len() - k,
{
    if k < records.len() && st.txs.len() < limit {
        let r = records[k as int];
        if let Ok(next) = read_one(st, r) {
            let mem = memory(records, k);
            if r.inputs.len() > 0 {
                gathering_remembers(
                    r.tx_id,
                    st.live,
                    None,
                    r.inputs,
                    r.inputs.len() as int,
                    mem,
                );
            }
            let colour = coloured(mem, r);
            assert(next.txs == st.txs.push(tx_of(r, colour)));
            assert(memory(records, k + 1) == if r.outputs > 0 {
                mem.insert(r.tx_id, colour)
            } else {
                mem
            });
            assert forall|t: usize| #[trigger] next.live.contains_key(t) implies memory(
                records,
                k + 1,
            ).contains_key(t) && memory(records, k + 1)[t] == next.live[t].colour by {
                if r.outputs > 0 && t == r.tx_id {
                } else if r.inputs.len() == 0 {
                    assert(st.live.contains_key(t));
                }
            }
            assert forall|j: int| 0 <= j < k + 1 implies #[trigger] next.txs[j] == tx_of(
                records[j],
                coloured(memory(records, j as nat), records[j]),
            ) by {
                if j < k {
                    assert(next.txs[j] == st.txs[j]);
                }
            }
            reading_stays_faithful(next, records, limit, k + 1);
        }
    }
}

/// The colours agree with a model that forgets nothing: dropping a colour the
/// moment its last unspent output is spent never changes the colour of any
/// transaction, nor what is kept of it.
pub proof fn forgetting_changes_no_colour(records: Seq<RecordView>, limit: nat)
    requires
        all_read(records, limit) is Ok,
    ensures
        ({
            let txs = all_read(records, limit)->Ok_0.txs;
            &&& txs.len() == if limit < records.len() { limit } else { records.len() }
            &&& forall|j: int|
                0 <= j < txs.len() ==> #[trigger] txs[j] == tx_of(
                    records[j],
                    coloured(memory(records, j as nat), records[j]),
                )
        }),
{
    reading_stays_faithful(nothing_read(), records, limit, 0);
}

/// The smallest of the oldest blocks.
pub open spec fn lowest(txs: Seq<Tx>) -> u32
    decreases txs.len(),
{
    if txs.len() == 0 {
        u32::MAX
    } else {
        let rest = lowest(txs.drop_last());
        if txs.last().oldest < rest {
            txs.last().oldest
        } else {
            rest
        }
    }
}

/// The largest of the oldest blocks.
pub open spec fn highest(txs: Seq<Tx>) -> u32
    decreases txs.len(),
{
    if txs.len() == 0 {
        0
    } else {
        let rest = highest(txs.drop_last());
        if txs.last().oldest > rest {
            txs.last().oldest
        } else {
            rest
        }
    }
}

/// The range of the oldest blocks of the transactions, `(0, 0)` where there are
/// none.
pub open spec fn span_of(txs: Seq<Tx>) -> (u32, u32) {
    if lowest(txs) > highest(txs) {
        (0, 0)
    } else {
        (lowest(txs), highest(txs))
    }
}

impl RecordsView {
    /// What a run has to say about the records.
    pub open spec fn words(self) -> Seq<char> {
        let first = dec(self.txs.len()) + " transactions, "@ + dec(self.roots)
            + " coinbase root(s)"@ + (if self.synthetic_root {
            ", one added root standing for no transaction"@
        } else {
            ""@
        });
        let second = if self.dropped > 0 {
            first + "\n"@ + dec(self.dropped as nat)
                + " input(s) not drawn: a transaction spending several has one parent here"@
        } else {
            first
        };
        let (lo, hi) = span_of(self.txs);
        second + "\noldest block "@ + dec(lo as nat) + " to "@ + dec(hi as nat)
            + ", which is the hue ramp"@
    }
}

impl Records {
    /// The range of block ids the hue ramp runs across: the oldest blocks of
    /// the colours. `(0, 0)` when there are no records.
    pub fn span(&self) -> (span: (u32, u32))
        ensures
            span == span_of(self.txs@),
    {
        let mut lo: u32 = u32::MAX;
        let mut hi: u32 = 0;
        let mut i: usize = 0;
        while i < self.txs.len()
            invariant
                i <= self.txs@.len(),
                lo == lowest(self.txs@.take(i as int)),
                hi == highest(self.txs@.take(i as int)),
            decreases self.txs@.len() - i,
        {
            assert(self.txs@.take(i + 1).drop_last() =~= self.txs@.take(i as int));
            let oldest: u32 = self.txs[i].oldest;
            if oldest < lo {
                lo = oldest;
            }
            if oldest > hi {
                hi = oldest;
            }
            i += 1;
        }
        assert(self.txs@.take(i as int) =~= self.txs@);
        if lo > hi {
            (0, 0)
        } else {
            (lo, hi)
        }
    }

    /// What a run has to say about the file it just read.
    pub fn summary(&self) -> (s: String)
        ensures
            s@ == self@.words(),
    {
        let mut s = String::new();
        push_dec(&mut s, self.txs.len() as u64);
        assert(s@ =~= dec(self.txs@.len()));
        s.append(" transactions, ");
        push_dec(&mut s, self.roots as u64);
        s.append(" coinbase root(s)");
        s.append(
            if self.synthetic_root {
                ", one added root standing for no transaction"
            } else {
                ""
            },
        );
        if self.dropped > 0 {
            s.append("\n");
            push_dec(&mut s, self.dropped);
            s.append(" input(s) not drawn: a transaction spending several has one parent here");
        }
        let (lo, hi) = self.span();
        s.append("\noldest block ");
        push_dec(&mut s, lo as u64);
        s.append(" to ");
        push_dec(&mut s, hi as u64);
        s.append(", which is the hue ramp");
        s
    }
}

/// How many hues the ramp is cut into.
pub const HUES: usize = 96;

/// How many degrees of mixing a colour is sorted into: one per doubling of the
/// number of blocks it names, up to sixteen and over.
pub const MIXES: usize = 5;

/// The degree of mixing of a colour of so many blocks: one level per doubling,
/// and everything from sixteen blocks up in the last.
pub open spec fn mixing(blocks: u32) -> nat {
    if blocks < 2 {
        0
    } else if blocks < 4 {
        1
    } else if blocks < 8 {
        2
    } else if blocks < 16 {
        3
    } else {
        4
    }
}

/// Which bucket of the palette a transaction is drawn in, its place on the hue
/// ramp given: a hue past the end of the ramp is the last one.
pub fn slot(tx: &Tx, hue: usize) -> (bucket: usize)
    ensures
        bucket == (if hue < HUES { hue as int } else { HUES - 1 }) * MIXES + mixing(tx.blocks),
        bucket < HUES * MIXES,
{
    let mix: usize = if tx.blocks < 2 {
        0
    } else if tx.blocks < 4 {
        1
    } else if tx.blocks < 8 {
        2
    } else if tx.blocks < 16 {
        3
    } else {
        4
    };
    let h: usize = if hue < HUES { hue } else { HUES - 1 };
    h * MIXES + mix
}

} // verus!
