//! Transactions, read one after another.

use std::collections::{BTreeSet, HashMap};

use coloring_bt_transactions::record_read::{read_text, Stop};
use coloring_bt_transactions::records::{read, slot, Input, Record, Tx, HUES, MIXES};
use coloring_bt_transactions::scene::{Scene, NO_PARENT};
use coloring_bt_transactions::viewer::describe;

/// One record: the block it is in, its id, what its inputs spend, and how many
/// outputs it has.
fn r(block: usize, tx: usize, spends: &[usize], outputs: usize) -> Record {
    Record {
        block_id: block,
        tx_id: tx,
        outputs,
        inputs: spends.iter().map(|&prev_tx_id| Input { prev_tx_id, amount: 1 }).collect(),
    }
}

fn refused(records: Vec<Record>) -> String {
    match read(&records, usize::MAX) {
        Err(complaint) => complaint,
        Ok(read) => panic!("{} records drawn, and none of them should have been", read.txs.len()),
    }
}

/// Two coinbases, and a chain of spending that gathers both.
///
/// ```text
/// tx 10 (block 0) -- tx 12 -- tx 13
/// tx 11 (block 1) ------+
/// ```
fn mixing() -> Vec<Record> {
    vec![r(0, 10, &[], 1), r(1, 11, &[], 1), r(2, 12, &[10, 11], 1), r(3, 13, &[12], 1)]
}

#[test]
fn the_records_make_the_tree() {
    let read = read(&mixing(), usize::MAX).ok().unwrap();

    assert_eq!(read.roots, 2, "two coinbases");
    assert!(read.synthetic_root, "which need a node to hang from");
    assert_eq!(read.dropped, 1, "tx 12 spends two and is drawn under one");

    let scene = Scene::of(&read.tree, read.root).unwrap();

    assert_eq!(scene.len(), 4, "the added root is not drawn");
    // Pre-order: record 0 and everything under it, then record 1.
    let order: Vec<u32> = (0..4).map(|i| scene.node(i).graph).collect();
    assert_eq!(order, [0, 2, 3, 1]);

    assert_eq!(scene.node(0).parent, NO_PARENT, "a coinbase is a root");
    assert_eq!(scene.node(3).parent, NO_PARENT);
    assert_eq!(scene.node(1).parent, 0, "tx 12 hangs off its first input, tx 10");
    assert_eq!(scene.node(2).parent, 1);
    assert_eq!(scene.subtree(0), 0..3, "tx 10 and the two below it");
}

#[test]
fn the_colours_are_the_ancestry() {
    let read = read(&mixing(), usize::MAX).ok().unwrap();

    let colour = |i: usize| {
        let tx = read.txs[i];
        (tx.oldest, tx.newest, tx.blocks)
    };

    assert_eq!(colour(0), (0, 0, 1), "a coinbase is the block that minted it");
    assert_eq!(colour(1), (1, 1, 1));
    assert_eq!(colour(2), (0, 1, 2), "tx 12 gathers both");
    assert_eq!(colour(3), (0, 1, 2), "and tx 13 inherits the pair");
    assert_eq!(read.span(), (0, 1));
    assert_eq!(
        read.summary(),
        "4 transactions, 2 coinbase root(s), one added root standing for no transaction\n\
         1 input(s) not drawn: a transaction spending several has one parent here\n\
         oldest block 0 to 1, which is the hue ramp"
    );
}

/// Where a transaction is on the hue ramp.
fn hue(tx: &Tx, (lo, hi): (u32, u32)) -> usize {
    let span = (hi - lo).max(1) as f64;
    ((tx.oldest.saturating_sub(lo) as f64 / span) * (HUES - 1) as f64).round() as usize
}

/// A transaction whose coins come from one block is drawn in full colour, and one
/// that has gathered many is drawn pale.
#[test]
fn mixing_takes_the_colour_out() {
    let pure = Tx { id: 0, block: 0, oldest: 0, newest: 0, blocks: 1 };
    let mixed = Tx { id: 1, block: 9, oldest: 0, newest: 9, blocks: 40 };

    let span = (0, 9);
    let (pure, mixed) = (slot(&pure, hue(&pure, span)), slot(&mixed, hue(&mixed, span)));
    assert_eq!(pure % MIXES, 0, "one block is the unmixed end");
    assert_eq!(mixed % MIXES, MIXES - 1, "forty is past the last doubling");
    assert_eq!(pure / MIXES, mixed / MIXES, "and the hue is the same: both start at block 0");
}

#[test]
fn the_ramp_runs_across_the_blocks() {
    let span = (0, 100);
    let old = Tx { id: 0, block: 0, oldest: 0, newest: 0, blocks: 1 };
    let new = Tx { id: 1, block: 100, oldest: 100, newest: 100, blocks: 1 };

    assert_eq!(slot(&old, hue(&old, span)) / MIXES, 0);
    assert_eq!(slot(&new, hue(&new, span)) / MIXES, HUES - 1);

    // A file covering one block has nothing to spread out.
    assert_eq!(slot(&old, hue(&old, (0, 0))) / MIXES, 0);
    // A hue past the end of the ramp is the last one.
    assert_eq!(slot(&old, HUES + 7) / MIXES, HUES - 1);
}

/// One level per doubling.
#[test]
fn mixes_double() {
    let mix = |blocks: u32| slot(&Tx { id: 0, block: 0, oldest: 0, newest: 0, blocks }, 0);
    let levels: Vec<usize> = [0, 1, 2, 3, 4, 7, 8, 15, 16, 1000].iter().map(|&b| mix(b)).collect();
    assert_eq!(levels, [0, 0, 1, 1, 2, 2, 3, 3, 4, 4]);
}

#[test]
fn a_click_says_what_the_colour_is() {
    let read = read(&mixing(), usize::MAX).ok().unwrap();
    let scene = Scene::of(&read.tree, read.root).unwrap();

    // Scene index 1 is tx 12, the one that gathered both coinbases.
    let lines = describe(&scene, &read.txs, Some(1));
    assert!(lines.0.starts_with("tx 12 in block 2 — 1 spending below it"), "{:?}", lines);
    assert!(lines.1.contains("2 block(s), oldest 0, newest 1"), "{:?}", lines);
    let lines = describe(&scene, &read.txs, None);
    assert_eq!(lines, ("nothing selected — click a transaction".to_string(), String::new()));
}

#[test]
fn a_limit_draws_the_first_of_the_file() {
    let read = read(&mixing(), 2).ok().unwrap();
    assert_eq!(read.txs.len(), 2);
    assert_eq!(read.roots, 2, "the two coinbases, and nothing spending them");
    assert_eq!(read.dropped, 0);
}

#[test]
fn spending_the_unknown_is_refused() {
    let complaint = refused(vec![r(0, 1, &[], 1), r(1, 2, &[7], 1)]);
    assert_eq!(complaint, "transaction 2 spends unknown transaction 7");

    // Including when the transaction was known and has been spent out.
    let complaint = refused(vec![r(0, 1, &[], 1), r(1, 2, &[1], 1), r(2, 3, &[1], 1)]);
    assert_eq!(complaint, "transaction 3 spends unknown transaction 1");

    let complaint = refused(vec![r(0, 1, &[], 1), r(1 << 32, 2, &[1], 1)]);
    assert_eq!(complaint, "block id 4294967296 does not fit in a u32");
}

/// The colours, against a model that keeps every colour for good.
#[test]
fn the_colours_agree_with_a_model_that_forgets_nothing() {
    let records = a_chain_of(2_000);

    let mut colours: HashMap<usize, BTreeSet<u32>> = HashMap::new();
    let mut want: Vec<(u32, u32, u32)> = Vec::new();
    for record in &records {
        let colour: BTreeSet<u32> = if record.inputs.is_empty() {
            BTreeSet::from([record.block_id as u32])
        } else {
            record.inputs.iter().flat_map(|i| colours[&i.prev_tx_id].iter().copied()).collect()
        };
        want.push((
            *colour.first().expect("a colour names a block"),
            *colour.last().expect("a colour names a block"),
            colour.len() as u32,
        ));
        colours.insert(record.tx_id, colour);
    }

    let read = read(&records, usize::MAX).ok().unwrap();
    let got: Vec<(u32, u32, u32)> =
        read.txs.iter().map(|t| (t.oldest, t.newest, t.blocks)).collect();

    assert_eq!(got.len(), want.len());
    assert_eq!(got, want);

    let mixed = want.iter().filter(|&&(_, _, blocks)| blocks > 4).count();
    assert!(mixed > records.len() / 10, "{mixed} mixed colours is too few to prove anything");
}

/// `n` records: coinbases in blocks of their own, and transactions spending one,
/// two or three unspent outputs of what came before.
fn a_chain_of(n: usize) -> Vec<Record> {
    let mut seed = 0x2545_F491_4F6C_DD1Du64;
    let mut next = move |bound: usize| {
        seed = seed.wrapping_mul(6364136223846793005).wrapping_add(1442695040888963407);
        (seed >> 33) as usize % bound
    };

    let mut records = Vec::with_capacity(n);
    let mut unspent: Vec<(usize, usize)> = Vec::new();
    let (mut tx, mut block) = (0usize, 0usize);

    while records.len() < n {
        tx += 1;
        let outputs = 1 + next(3);
        records.push(r(block, tx, &[], outputs));
        unspent.push((tx, outputs));
        block += 1;

        for _ in 0..1 + next(8) {
            if records.len() >= n || unspent.is_empty() {
                break;
            }
            let mut spends = Vec::new();
            for _ in 0..1 + next(3) {
                if unspent.is_empty() {
                    break;
                }
                let at = next(unspent.len());
                let (previous, left) = unspent[at];
                if left == 1 {
                    unspent.swap_remove(at);
                } else {
                    unspent[at].1 = left - 1;
                }
                if !spends.contains(&previous) {
                    spends.push(previous);
                }
            }
            tx += 1;
            let outputs = 1 + next(3);
            records.push(r(block - 1, tx, &spends, outputs));
            unspent.push((tx, outputs));
        }
    }
    records
}

#[test]
fn an_empty_file_is_refused() {
    assert_eq!(refused(vec![]), "the file has no transactions to draw");
}

#[test]
fn a_transaction_with_no_outputs_is_a_leaf() {
    let read = read(&vec![r(0, 1, &[], 1), r(1, 2, &[1], 0)], usize::MAX).ok().unwrap();

    assert_eq!(read.roots, 1, "one coinbase, and the spend hangs off it");
    assert!(!read.synthetic_root);

    let scene = Scene::of(&read.tree, read.root).unwrap();
    assert!(scene.is_leaf(1));
    assert_eq!(read.txs[1].blocks, 1, "it still has the colour of what it spent");
}

fn stopped(text: &str, limit: usize) -> Stop {
    match read_text(text.as_bytes().to_vec(), limit) {
        Err(stop) => stop,
        Ok(read) => panic!("{} records drawn, and none of them should have been", read.txs.len()),
    }
}

/// A record is coloured before the next is read: the first thing wrong is what is
/// said, whatever follows it.
#[test]
fn the_first_thing_wrong_is_what_is_said() {
    let good = "((1 0 1 0 0 0 0) () ((7 1 0)))\n";
    let spends = "((1 1 2 0 0 0 0) ((7 1 9 0)) ())\n";
    let wide = "((1 4294967296 3 0 0 0 0) () ())\n";
    let said = |stop: Stop| match stop {
        Stop::Refused(why) => why,
        Stop::TooWide(block) => format!("too wide: {block}"),
    };
    let unknown = "transaction 2 spends unknown transaction 9";
    assert_eq!(said(stopped(&format!("{good}{spends}junk"), usize::MAX)), unknown);
    assert_eq!(said(stopped(&format!("{good}{spends}{wide}"), usize::MAX)), unknown);
    assert_eq!(said(stopped(&format!("{good}{wide}{spends}"), usize::MAX)), "too wide: 4294967296");
    assert_eq!(said(stopped(&format!("{good}junk"), usize::MAX)), "malformed record at byte 31");
    assert_eq!(said(stopped("", usize::MAX)), "the file has no transactions to draw");
    let read = read_text(format!("{good}junk").into_bytes(), 1).ok().unwrap();
    assert_eq!(read.txs.len(), 1, "what follows the limit is not looked at");
    // A spend that is refused comes first, so the block after it does not matter.
    assert_eq!(refused(vec![r(0, 1, &[], 1), r(1, 2, &[9], 1), r(1 << 32, 3, &[], 1)]), unknown);
}
