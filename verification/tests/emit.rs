//! Lines, formatted in batches.

use coloring_bt_transactions::emit::{
    append_figures, append_terms, Batcher, Sending, Snapshot, LINES, TERMS,
};

type Colour = (usize, Vec<(usize, f64)>);

/// Colours of varying length, the longest of them under `spread`.
fn colors_upto(n: usize, spread: u64) -> Vec<Colour> {
    let mut state = 0x9E37_79B9_7F4A_7C15u64;
    let mut next = move || {
        state ^= state << 13;
        state ^= state >> 7;
        state ^= state << 17;
        state
    };
    (0..n)
        .map(|tx| {
            let len = (next() % spread) as usize;
            let mut block = 0usize;
            let terms = (0..len)
                .map(|_| {
                    block += 1 + (next() % 30) as usize;
                    (block, (next() >> 11) as f64 / (1u64 << 53) as f64)
                })
                .collect();
            (tx, terms)
        })
        .collect()
}

fn text(weight: f64) -> Vec<u8> {
    format!("{weight}").into_bytes()
}

/// The line of a colour, as a worker writes it.
fn format_one(snapshot: &Snapshot<f64>, line: &mut Vec<u8>) {
    let texts: Vec<Vec<u8>> =
        (0..snapshot.len()).filter_map(|k| snapshot.weight(k)).map(text).collect();
    snapshot.append(line, &texts);
}

fn serially(records: &[Colour], weighted: bool) -> Vec<u8> {
    let mut out = Vec::new();
    for (tx, terms) in records {
        let spelled: Vec<String> = terms
            .iter()
            .map(|(block, weight)| {
                if weighted { format!("{weight}:{block}") } else { format!("1:{block}") }
            })
            .collect();
        out.extend(format!("{tx}\t{}\n", spelled.join(",")).into_bytes());
    }
    out
}

/// The same through `workers` workers, each with a queue of its own, and a writer
/// that collects from them in turn.
fn through(records: &[Colour], weighted: bool, workers: usize) -> Vec<u8> {
    let mut batcher: Batcher<f64> = Batcher::new(workers);
    let mut queues: Vec<Vec<Vec<u8>>> = (0..workers).map(|_| Vec::new()).collect();
    let mut work = |sending: Sending<f64>| {
        let mut lines = Vec::new();
        for snapshot in &sending.batch {
            format_one(snapshot, &mut lines);
        }
        queues[sending.worker].push(lines);
    };
    for (tx, terms) in records {
        let mut snapshot = Snapshot::new(*tx);
        for &(block, weight) in terms {
            if weighted {
                snapshot.push_weighted(block, weight);
            } else {
                snapshot.push_flat(block);
            }
        }
        if let Some(sending) = batcher.dispatch(snapshot) {
            work(sending);
        }
    }
    if let Some(sending) = batcher.flush() {
        work(sending);
    }
    let mut out = Vec::new();
    let mut k = 0;
    while let Some(lines) = queues[k % workers].get(k / workers) {
        out.extend_from_slice(lines);
        k += 1;
    }
    out
}

/// Threading changes nothing whatever about what the lines say.
#[test]
fn parallel_output_is_byte_identical() {
    for &(count, spread) in &[(900usize, 6u64), (300, 400), (500, 40)] {
        let records = colors_upto(count, spread);
        for weighted in [false, true] {
            let want = serially(&records, weighted);
            for workers in [1usize, 2, 3, 5, 8, 16] {
                let got = through(&records, weighted, workers);
                assert!(got == want, "weighted={weighted} workers={workers} count={count}");
            }
        }
    }
}

/// Forty records fit inside one batch that is never full: the last flush has them.
#[test]
fn a_batch_that_was_not_full_is_sent_at_the_end() {
    let records = colors_upto(40, 40);
    let want = serially(&records, true);
    assert!(!want.is_empty());
    for workers in [1usize, 4, 8] {
        assert_eq!(through(&records, true, workers), want);
    }
}

#[test]
fn a_pool_wider_than_the_run_still_ends() {
    let records = colors_upto(3, 40);
    let want = serially(&records, true);
    assert_eq!(through(&records, true, 32), want);
}

#[test]
fn no_records_at_all_writes_nothing() {
    assert!(through(&[], true, 4).is_empty());
}

/// A batch closes at so many lines, or at so many terms.
#[test]
fn a_batch_has_two_bounds() {
    let mut batcher: Batcher<f64> = Batcher::new(0);
    for tx in 0..LINES - 1 {
        assert!(batcher.dispatch(Snapshot::new(tx)).is_none());
    }
    let sent = batcher.dispatch(Snapshot::new(LINES)).unwrap();
    assert_eq!((sent.worker, sent.batch.len()), (0, LINES));

    let mut batcher: Batcher<f64> = Batcher::new(2);
    let mut long = Snapshot::new(7);
    for block in 0..TERMS {
        long.push_flat(block);
    }
    let sent = batcher.dispatch(long).unwrap();
    assert_eq!((sent.worker, sent.batch.len(), sent.batch[0].tx_id()), (0, 1, 7));
    assert!(batcher.flush().is_none());
    assert!(batcher.dispatch(Snapshot::new(8)).is_none());
    assert_eq!(batcher.flush().unwrap().worker, 1, "and the next one's turn");
}

#[test]
fn what_a_line_says() {
    let mut line = Vec::new();
    append_terms(&mut line, 12, &vec![9, 4], &vec![]);
    append_terms(&mut line, 13, &vec![7], &vec![b"0.25".to_vec()]);
    append_terms(&mut line, 14, &vec![], &vec![]);
    append_figures(&mut line, 15, &vec![b"1.5".to_vec()]);
    append_figures(&mut line, 16, &vec![b"2".to_vec(), b"0.5".to_vec(), b"4".to_vec()]);
    assert_eq!(
        String::from_utf8(line).unwrap(),
        "12\t1:9,1:4\n13\t0.25:7\n14\t\n15\t1.5\n16\t2\t0.5\t4\n"
    );

    let mut s: Snapshot<f64> = Snapshot::new(3);
    assert!(!s.weighted());
    s.push_weighted(5, 0.5);
    assert!(s.weighted());
    assert_eq!((s.len(), s.tx_id(), s.block(0), s.weight(0)), (1, 3, 5, Some(0.5)));
}
