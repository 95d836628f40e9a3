//! One number per transaction.

use coloring_bt_transactions::args::record_limit;
use coloring_bt_transactions::mean_run;
use coloring_bt_transactions::means::{mean_line, push_fixed, Share, Source, Spend, Tracer};
use coloring_bt_transactions::record_text::write_record;
use coloring_bt_transactions::records::{Input, Record};

/// A record: the header's block and tx id, `(prev-tx, amount)` an input, and how
/// many outputs.
fn record(block: usize, tx: usize, spends: &[(usize, u64)], outputs: usize) -> Record {
    Record {
        block_id: block,
        tx_id: tx,
        outputs,
        inputs: spends
            .iter()
            .map(|&(prev_tx_id, amount)| Input { prev_tx_id, amount })
            .collect(),
    }
}

fn units(value: f64) -> u64 {
    (value * 1e6).round() as u64
}

/// The lines of the records, written as text and run over: each mean the sum of the
/// means its colour is made of, each with its share.
fn run(records: &[Record], limit: usize) -> Result<Vec<String>, String> {
    let mut text = Vec::new();
    for record in records {
        write_record(&mut text, record);
    }
    let (lines, why) = run_text(text, limit);
    match why {
        Some(why) => Err(why),
        None => Ok(lines),
    }
}

fn run_text(text: Vec<u8>, limit: usize) -> (Vec<String>, Option<String>) {
    let mixed = |parts: &Vec<(f64, Share)>| {
        let total: f64 = parts
            .iter()
            .map(|(_, share)| match share {
                Share::Value(amount) => *amount as f64,
                Share::Equal(_) => 0.0,
            })
            .sum();
        parts
            .iter()
            .map(|(mean, share)| match share {
                Share::Value(amount) => mean * (*amount as f64 / total),
                Share::Equal(n) => mean / *n as f64,
            })
            .sum()
    };
    let (lines, why) = mean_run::run(text, limit, |block| block as f64, mixed, units);
    (String::from_utf8(lines).unwrap().lines().map(str::to_string).collect(), why)
}

fn means(records: &[Record], limit: usize) -> Vec<String> {
    run(records, limit).expect("the records are well formed")
}

#[test]
fn a_coinbase_sits_on_its_own_block() {
    assert_eq!(means(&[record(7, 0, &[], 1)], usize::MAX), ["0,7.000000"]);
}

#[test]
fn two_equal_inputs_land_between_their_blocks() {
    let records = [record(0, 0, &[], 1), record(3, 1, &[], 1), record(5, 2, &[(0, 50), (1, 50)], 1)];
    assert_eq!(means(&records, usize::MAX).last().unwrap(), "2,1.500000");
}

#[test]
fn the_mean_follows_the_value_not_the_inputs() {
    let records =
        [record(0, 0, &[], 1), record(10, 1, &[], 1), record(11, 2, &[(0, 90), (1, 10)], 1)];
    assert_eq!(means(&records, usize::MAX).last().unwrap(), "2,1.000000");
}

#[test]
fn a_single_input_inherits_the_mean() {
    let mut records =
        vec![record(0, 0, &[], 1), record(4, 1, &[], 1), record(5, 2, &[(0, 50), (1, 50)], 1)];
    for tx in 3..8 {
        records.push(record(5 + tx, tx, &[(tx - 1, 100)], 1));
    }
    let lines = means(&records, usize::MAX);
    assert!(lines[3..].iter().all(|l| l.ends_with(",2.000000")), "{:?}", lines);
}

#[test]
fn inputs_worth_nothing_share_equally() {
    let records = [record(0, 0, &[], 1), record(6, 1, &[], 1), record(9, 2, &[(0, 0), (1, 0)], 1)];
    assert_eq!(means(&records, usize::MAX).last().unwrap(), "2,3.000000");
}

#[test]
fn the_limit_takes_a_prefix() {
    let records = [record(0, 0, &[], 1), record(1, 1, &[], 1), record(2, 2, &[], 1)];
    assert_eq!(means(&records, 2), ["0,0.000000", "1,1.000000"]);
    assert!(means(&records, 0).is_empty());
}

#[test]
fn spending_an_unknown_transaction_is_an_error() {
    let error = run(&[record(0, 9, &[(42, 5)], 1)], usize::MAX)
        .expect_err("transaction 42 was never read");
    assert!(error.contains("unknown transaction 42"), "{}", error);
    assert_eq!(error, "transaction 9 spends unknown transaction 42");
}

#[test]
fn the_fixed_format_pads_only_the_fraction() {
    let mut line = Vec::new();
    push_fixed(&mut line, units(0.5));
    push_fixed(&mut line, units(12.0));
    push_fixed(&mut line, units(900_000.000_001_5));
    assert_eq!(
        String::from_utf8(line).unwrap(),
        "0.50000012.000000900000.000002"
    );
}

/// The last input is folded in first, and an output can be spent once.
#[test]
fn outputs_run_out() {
    let mut tracer = Tracer::new();
    tracer.take(&record(0, 0, &[], 2)).unwrap();
    tracer.take(&record(1, 1, &[], 1)).unwrap();
    let step = tracer.take(&record(2, 2, &[(0, 3), (1, 4), (0, 5)], 1)).unwrap();
    match step.source {
        Source::Spent(list) => assert_eq!(
            list,
            [
                Spend { record: 0, share: Share::Value(5), last: false },
                Spend { record: 1, share: Share::Value(4), last: true },
                Spend { record: 0, share: Share::Value(3), last: true },
            ]
        ),
        Source::Minted(_) => panic!("it has inputs"),
    }
    assert!(step.kept && step.displaced.is_none());
    let error = tracer.take(&record(3, 3, &[(0, 1)], 1)).err().unwrap();
    assert_eq!(error, "transaction 3 spends unknown transaction 0");

    // A second transaction of an id takes the place of the first.
    let mut tracer = Tracer::new();
    tracer.take(&record(0, 0, &[], 1)).unwrap();
    let step = tracer.take(&record(1, 0, &[], 1)).unwrap();
    assert_eq!(step.displaced, Some(0));
    let step = tracer.take(&record(2, 5, &[], 0)).unwrap();
    assert!(!step.kept && step.displaced.is_none());
}

#[test]
fn how_many_records_are_read() {
    let told = |args: &[&str]| record_limit(&args.iter().map(|a| a.to_string()).collect());
    assert_eq!(told(&[]), Some(usize::MAX));
    assert_eq!(told(&["12"]), Some(12));
    assert_eq!(told(&["12", "all"]), Some(usize::MAX));
    assert_eq!(told(&["all", "0"]), Some(0));
    assert_eq!(told(&["twelve"]), None);
    assert_eq!(told(&["-1"]), None);
}

/// What is written before a refusal stays, and a limit before it is never refused.
#[test]
fn a_refusal_comes_after_the_lines_before_it() {
    let mut text = Vec::new();
    write_record(&mut text, &record(3, 0, &[], 1));
    write_record(&mut text, &record(4, 1, &[(7, 5)], 1));
    let (lines, why) = run_text(text.clone(), usize::MAX);
    assert_eq!(lines, ["0,3.000000"]);
    assert_eq!(why.unwrap(), "transaction 1 spends unknown transaction 7");
    assert_eq!(run_text(text, 1), (vec!["0,3.000000".to_string()], None));
    let (lines, why) = run_text(b"((1 2".to_vec(), usize::MAX);
    assert!(lines.is_empty());
    assert_eq!(why.unwrap(), "malformed record at byte 0");
}

/// One input, whatever its amount: the same text as the mean it spends.
#[test]
fn a_single_input_has_the_text_of_what_it_spends() {
    let records = [
        record(1, 0, &[], 1),
        record(2, 1, &[], 1),
        record(3, 2, &[(0, 1), (1, 2)], 2),
        record(4, 3, &[(2, 0)], 1),
        record(5, 4, &[(2, 17)], 1),
    ];
    let lines = means(&records, usize::MAX);
    let mean = |i: usize| lines[i].split(',').nth(1).unwrap().to_string();
    assert_eq!(mean(2), "1.666667");
    assert_eq!((mean(3), mean(4)), (mean(2), mean(2)));
}

/// Whatever the two limits, the shorter run writes the first lines of the longer.
#[test]
fn a_smaller_limit_is_a_prefix_of_a_larger_one() {
    let mut text = Vec::new();
    for record in [
        record(1, 0, &[], 2),
        record(2, 1, &[], 1),
        record(3, 2, &[(0, 1), (1, 2)], 2),
        record(4, 3, &[(2, 5)], 1),
        record(5, 4, &[(2, 1), (0, 9), (3, 4)], 1),
    ] {
        write_record(&mut text, &record);
    }
    let whole = run_text(text.clone(), usize::MAX).0;
    assert_eq!(whole.len(), 5);
    for limit in 0..8 {
        let (lines, why) = run_text(text.clone(), limit);
        assert_eq!(why, None);
        assert_eq!(lines, whole[..limit.min(5)]);
    }
}
