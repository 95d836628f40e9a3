//! Records as text, numbers as text, and a page of circles.

use coloring_bt_transactions::means::{Source, Tracer};
use coloring_bt_transactions::numbers::{letters, read_ids, read_number, read_whole};
use coloring_bt_transactions::records::Record;
use coloring_bt_transactions::sexp::{read_records, Reader};
use coloring_bt_transactions::svg::{write_svg, Circle, Extent};
use coloring_bt_transactions::text::{push_dec, push_signed};

/// A record as text: the header's block and tx id, then `(prev-tx, amount)` an
/// input, then how many outputs.
fn record(block: usize, tx: usize, spends: &[(usize, usize)], outputs: usize) -> String {
    let inputs: String =
        spends.iter().map(|(prev, amount)| format!("(7 {} {} 0)", amount, prev)).collect();
    let outs: String = (0..outputs).map(|_| "(7 1 0)".to_string()).collect();
    format!("((1 {} {} 0 0 0 0) ({}) ({}))\n", block, tx, inputs, outs)
}

fn read(text: &str, limit: usize) -> Result<Vec<Record>, String> {
    read_records(text.as_bytes().to_vec(), limit)
}

#[test]
fn records_are_read_from_text() {
    let text = record(5, 10, &[], 2) + &record(9, 11, &[(10, 30), (8, 70)], 1);
    let records = read(&text, usize::MAX).unwrap();
    assert_eq!(records.len(), 2);
    assert_eq!((records[0].block_id, records[0].tx_id, records[0].outputs), (5, 10, 2));
    assert!(records[0].inputs.is_empty());
    assert_eq!((records[1].block_id, records[1].tx_id, records[1].outputs), (9, 11, 1));
    let spends: Vec<(usize, u64)> =
        records[1].inputs.iter().map(|i| (i.prev_tx_id, i.amount)).collect();
    assert_eq!(spends, [(10, 30), (8, 70)]);
}

#[test]
fn reading_stops_at_the_limit() {
    let text = record(0, 1, &[], 1) + &record(1, 2, &[], 1) + "not a record";
    assert_eq!(read(&text, 2).unwrap().len(), 2, "what follows is not looked at");
    assert_eq!(read(&text, 0).unwrap().len(), 0);
    assert!(read(&text, 3).is_err());
    assert_eq!(read("", usize::MAX).unwrap().len(), 0);
    assert_eq!(read(" \n\t ", usize::MAX).unwrap().len(), 0);
}

#[test]
fn a_malformed_record_is_refused_by_its_place() {
    let first = record(0, 1, &[], 1);
    let refused = |text: &str| read(text, usize::MAX).err().unwrap();
    assert_eq!(refused("x"), "malformed record at byte 0");
    let place = first.trim_end().len();
    let complaint = refused(&(first.clone() + "((1 2"));
    assert_eq!(complaint, format!("malformed record at byte {}", place + 1));
}

#[test]
fn a_reader_hands_out_one_record_at_a_time() {
    let text = record(3, 1, &[], 1) + &record(4, 2, &[(1, 5)], 0);
    let mut reader = Reader::new(text.into_bytes());
    let mut tracer = Tracer::new();
    let first = reader.next_record().unwrap().unwrap();
    assert!(matches!(tracer.take(&first).unwrap().source, Source::Minted(3)));
    let second = reader.next_record().unwrap().unwrap();
    match tracer.take(&second).unwrap().source {
        Source::Spent(list) => assert_eq!((list.len(), list[0].record), (1, 0)),
        Source::Minted(_) => panic!("the second record spends the first"),
    }
    assert!(reader.next_record().unwrap().is_none());
    assert!(reader.next_record().unwrap().is_none(), "and stays at the end");
}

#[test]
fn a_written_number_is_read_back() {
    for n in [0u64, 7, 10, 65_535, u64::MAX] {
        let mut s = String::new();
        push_dec(&mut s, n);
        let text = letters(&s);
        assert_eq!(read_number(&text, 0, text.len(), u64::MAX), Some(n));
    }
    let text = letters("18446744073709551616");
    assert_eq!(read_number(&text, 0, text.len(), u64::MAX), None, "one too many");
    for n in [0i64, -1, i64::MIN, i64::MAX] {
        let mut s = String::new();
        push_signed(&mut s, n as i128);
        assert_eq!(s, n.to_string());
        assert_eq!(read_whole(&letters(&s)), Some(n));
    }
    assert_eq!(read_whole(&letters("9223372036854775808")), None);
}

#[test]
fn ids_are_read_from_a_list() {
    assert_eq!(read_ids(&letters("3,1,2")).ok(), Some(vec![3, 1, 2]));
    assert_eq!(read_ids(&letters("3,x,2")).err(), Some(vec!['x']));
}

fn texts(e: [&str; 6]) -> Extent {
    let [min_x, min_y, width, height, page_width, page_height] = e.map(str::to_string);
    Extent { min_x, min_y, width, height, page_width, page_height }
}

/// The drawing is measured over the circles, so two nodes under an added root are
/// two circles and nothing else.
#[test]
fn tree_svg_the_added_root_is_not_in_the_picture() {
    let circle = |cy: &str| Circle { cx: "0.5".to_string(), cy: cy.to_string(), leaf: true };
    let circles = vec![circle("0.5"), circle("2.5")];
    let svg = write_svg(&texts(["0", "0", "1", "3", "10", "30"]), "0.5", &circles).unwrap();
    assert_eq!(svg.matches("<circle").count(), 2);
    assert!(svg.contains("viewBox=\"0 0 1 3\""), "{svg}");
    assert!(svg.contains("width=\"10\" height=\"30\""), "{svg}");
}

#[test]
fn leaves_are_written_after_the_rest() {
    let circle =
        |cx: &str, leaf: bool| Circle { cx: cx.to_string(), cy: "1".to_string(), leaf };
    let circles = vec![circle("1", true), circle("2", false), circle("3", true)];
    let svg = write_svg(&texts(["0", "0", "4", "2", "40", "20"]), "0.5", &circles).unwrap();
    assert_eq!(
        svg,
        "<svg xmlns=\"http://www.w3.org/2000/svg\" viewBox=\"0 0 4 2\" width=\"40\" height=\"20\">\n\
         <rect x=\"0\" y=\"0\" width=\"4\" height=\"2\" fill=\"#ffffff\"/>\n\
         <g fill=\"#000000\">\n<circle cx=\"2\" cy=\"1\" r=\"0.5\"/>\n</g>\n\
         <g fill=\"#808080\">\n<circle cx=\"1\" cy=\"1\" r=\"0.5\"/>\n\
         <circle cx=\"3\" cy=\"1\" r=\"0.5\"/>\n</g>\n</svg>\n"
    );
}

#[test]
fn nothing_to_draw_is_refused() {
    let complaint = write_svg(&texts(["0", "0", "0", "0", "0", "0"]), "0.5", &vec![]).err();
    assert_eq!(complaint.unwrap(), "nothing to draw");
}
