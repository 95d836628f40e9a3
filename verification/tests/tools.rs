//! A corpus of records, the oracle of last spends, the sparse matrix and the runs
//! of ids.

use std::collections::HashMap;

use coloring_bt_transactions::corpus::{Corpus, AMOUNTS, SEED};
use coloring_bt_transactions::csr::Csr;
use coloring_bt_transactions::id_runs::{write_head, IdRuns, BREAKS_MAX};
use coloring_bt_transactions::means::Tracer;
use coloring_bt_transactions::oracle::{Oracle, NEVER};
use coloring_bt_transactions::record_text::write_record;
use coloring_bt_transactions::records::{read, Input, Record};
use coloring_bt_transactions::sexp::read_records;

fn r(block: usize, tx: usize, spends: &[usize], outputs: usize) -> Record {
    Record {
        block_id: block,
        tx_id: tx,
        outputs,
        inputs: spends.iter().map(|&prev_tx_id| Input { prev_tx_id, amount: 1 }).collect(),
    }
}

fn corpus(records: usize, window: usize, per_block: usize, seed: u64) -> Vec<Record> {
    let mut corpus = Corpus::new(records, window, per_block, seed).unwrap();
    let mut all = Vec::new();
    while let Some(block) = corpus.next_block() {
        assert!(!block.is_empty());
        all.extend(block);
    }
    all
}

/// What the text of a record is, slowly and obviously.
fn line(record: &Record) -> String {
    let ins: String = record
        .inputs
        .iter()
        .map(|i| format!("(7 {} {} 0)", i.amount, i.prev_tx_id))
        .collect();
    format!(
        "((1 {} {} 0 0 0 0) ({}) ({}))\n",
        record.block_id,
        record.tx_id,
        ins,
        "(7 1 0)".repeat(record.outputs)
    )
}

#[test]
fn a_corpus_is_a_function_of_its_numbers() {
    let one = corpus(500, 40, 7, SEED);
    let other = corpus(500, 40, 7, SEED);
    let text = |all: &[Record]| all.iter().map(line).collect::<String>();
    assert_eq!(text(&one), text(&other));
    assert_ne!(text(&one), text(&corpus(500, 40, 7, 1)));
    assert_eq!(one.len(), 500);
    assert!(corpus(0, 40, 7, SEED).is_empty());
}

/// The same generator written out, for the first draws.
#[test]
fn the_generator_is_the_one_it_says() {
    struct Rng(u64);
    impl Rng {
        fn below(&mut self, n: u64) -> u64 {
            self.0 ^= self.0 << 13;
            self.0 ^= self.0 >> 7;
            self.0 ^= self.0 << 17;
            self.0 % n
        }
    }
    // One coinbase of two outputs is all there is to spend.
    let all = corpus(2, 5, 2, SEED);
    let mut rng = Rng(SEED);
    let wanted = 1 + rng.below(4).min(rng.below(3));
    let mut left = 2;
    let mut spends = Vec::new();
    for _ in 0..wanted {
        if left == 0 {
            break;
        }
        let _ = rng.below(1);
        left -= 1;
        spends.push((0, 1 + rng.below(100_000_000)));
    }
    let outputs = 2 + rng.below(3);
    assert_eq!((all[0].outputs, all[0].inputs.len()), (2, 0));
    let got: Vec<(usize, u64)> =
        all[1].inputs.iter().map(|i| (i.prev_tx_id, i.amount)).collect();
    assert_eq!(got, spends);
    assert_eq!(all[1].outputs as u64, outputs);
}

#[test]
fn a_corpus_spends_what_is_left() {
    for window in [0, 1, 40, 4000] {
        let all = corpus(800, window, 7, SEED);
        let mut left: HashMap<usize, usize> = HashMap::new();
        for (i, record) in all.iter().enumerate() {
            assert_eq!(record.tx_id, i);
            for input in &record.inputs {
                let n = left.get_mut(&input.prev_tx_id).expect("spent before it was there");
                assert!(*n > 0, "nothing left of {}", input.prev_tx_id);
                *n -= 1;
                assert!(1 <= input.amount && input.amount <= AMOUNTS as u64);
                if window == 0 {
                    assert_eq!(all[input.prev_tx_id].block_id, record.block_id);
                }
            }
            left.insert(i, record.outputs);
        }
        assert!(read(&all, usize::MAX).is_ok(), "the drawing takes it");
        let mut tracer = Tracer::new();
        assert!(all.iter().all(|r| tracer.take(r).is_ok()), "and so does the fold");
    }
}

#[test]
fn a_block_needs_a_coinbase() {
    let complaint = Corpus::new(10, 4, 0, SEED).err().unwrap();
    assert_eq!(complaint, "records: --per-block has to be at least 1, for the coinbase");
}

#[test]
fn written_records_are_read_back() {
    let all = corpus(300, 40, 7, SEED);
    let mut text = Vec::new();
    for record in &all {
        write_record(&mut text, record);
    }
    let expected: String = all.iter().map(line).collect();
    assert_eq!(text, expected.as_bytes());
    let back = read_records(text, usize::MAX).unwrap();
    assert_eq!(back.len(), all.len());
    for (a, b) in all.iter().zip(&back) {
        assert_eq!(
            (a.block_id, a.tx_id, a.outputs, &a.inputs),
            (b.block_id, b.tx_id, b.outputs, &b.inputs)
        );
    }
}

fn numbers(bytes: &[u8]) -> Vec<u32> {
    bytes.chunks(4).map(|c| u32::from_le_bytes([c[0], c[1], c[2], c[3]])).collect()
}

#[test]
fn the_oracle_has_the_last_spends() {
    let all = [
        r(0, 0, &[], 3),
        r(0, 1, &[0], 1),
        r(1, 2, &[0, 1], 1),
        r(1, 5, &[2, 2], 1),
    ];
    let mut oracle = Oracle::new();
    for record in &all {
        oracle.take(record).unwrap();
    }
    let file = oracle.file();
    assert_eq!(&file[..8], b"LASTSPN1");
    assert_eq!(u64::from_le_bytes(file[8..16].try_into().unwrap()), 4);
    assert_eq!(u64::from_le_bytes(file[16..24].try_into().unwrap()), 6);
    assert_eq!(numbers(&file[24..]), [2, 2, 3, NEVER, NEVER, NEVER]);
    assert_eq!((oracle.len(), oracle.never()), (6, 3));
    assert_eq!(
        oracle.summary("50.0"),
        "lastspend: 4 records, 6 transactions, 3 never spent (50.0%), 48 bytes"
    );
}

#[test]
fn nothing_is_spent_after_its_last_spend() {
    let all = corpus(400, 40, 7, SEED);
    let mut oracle = Oracle::new();
    for record in &all {
        oracle.take(record).unwrap();
    }
    let last = numbers(&oracle.file()[24..]);
    assert_eq!(last.len(), 400);
    for (t, &l) in last.iter().enumerate() {
        let spends: Vec<usize> = (0..400)
            .filter(|&i| all[i].inputs.iter().any(|input| input.prev_tx_id == t))
            .collect();
        assert_eq!(spends.last().copied(), if l == NEVER { None } else { Some(l as usize) });
    }
}

#[test]
fn a_row_is_what_a_transaction_spends() {
    let all = [
        r(0, 0, &[], 2),
        r(0, 1, &[0], 1),
        // 2 is defined by no record.
        r(1, 3, &[0, 1], 1),
        // 0 again, and a coinbase again.
        r(1, 0, &[], 2),
        r(2, 4, &[3], 1),
    ];
    let (mut csr, first) = Csr::new();
    let (mut pointers, mut columns) = (first.pointers, first.columns);
    for record in &all {
        let piece = csr.take(record).unwrap();
        pointers.extend(piece.pointers);
        columns.extend(piece.columns);
    }
    assert_eq!(pointers, [0, 0, 1, 1, 3, 4]);
    assert_eq!(columns, [0, 0, 1, 3]);
    assert_eq!(
        csr.summary("0.1"),
        "matrix --csr: 5 records, 5 transactions, 4 nonzeros (1 duplicate rows) in 0.1s"
    );
    assert_eq!(csr.sizes(), (24, 16, 16));

    let complaint = csr.take(&r(2, 1, &[0], 1)).err().unwrap();
    assert_eq!(
        complaint,
        "record 5 redefines transaction 1 with 1 inputs, and its CSR row is already closed"
    );
    let complaint = csr.take(&r(2, 9, &[1 << 32], 1)).err().unwrap();
    assert!(complaint.contains("past 2^32"), "{complaint}");
    assert!(csr.take(&r(2, 9, &[4], 1)).is_ok(), "a refusal changes nothing");
}

#[test]
fn ids_are_rebuilt_from_the_breaks() {
    let ids: Vec<u32> = vec![7, 8, 9, 4, 5, 10, 11, u32::MAX, 0, 1];
    let mut runs = IdRuns::new();
    for &id in &ids {
        runs.take(id).unwrap();
    }
    assert_eq!(runs.breaks(), 3);
    let counts = runs.counts();
    assert_eq!(u64::from_le_bytes(counts[..8].try_into().unwrap()), 10);
    assert_eq!(numbers(&counts[8..]), [7, 3]);
    let table = numbers(&runs.table());
    assert_eq!(table, [3, 4, 5, 10, 7, u32::MAX]);
    for (k, &id) in ids.iter().enumerate() {
        let (at, from) = table
            .chunks(2)
            .map(|b| (b[0], b[1]))
            .filter(|b| b.0 as usize <= k)
            .last()
            .unwrap_or((0, 7));
        assert_eq!(from.wrapping_add(k as u32 - at), id);
    }
}

#[test]
fn a_run_that_breaks_too_often_is_refused() {
    let mut runs = IdRuns::new();
    runs.take(0).unwrap();
    for _ in 0..BREAKS_MAX {
        runs.take(0).unwrap();
    }
    let complaint = runs.take(0).err().unwrap();
    assert!(complaint.contains("this input has broken 65536"), "{complaint}");
    assert!(runs.take(1).is_ok(), "the run may still go on");
}

#[test]
fn an_index_says_what_its_bytes_are() {
    let axes = [1.5f64.to_bits(), 2, 3, 4, 5, 6];
    let head = write_head(32, 8, &axes, 768);
    assert_eq!(head.len(), 80);
    assert_eq!(&head[..8], b"TINTIDX1");
    assert_eq!(head[8..12], [32, 0, 8, 0]);
    assert_eq!(f64::from_le_bytes(head[12..20].try_into().unwrap()), 1.5);
    assert_eq!(head[52..60], [6, 0, 0, 0, 0, 0, 0, 0]);
    assert_eq!(head[60..76], [0; 16]);
    assert_eq!(numbers(&head[76..]), [768]);
}
