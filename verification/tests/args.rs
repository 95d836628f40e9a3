//! Command lines.

use std::collections::HashSet;

use coloring_bt_transactions::args::{understand, usage, Measure, Program, Settings};
use coloring_bt_transactions::blocks::Seed;
use coloring_bt_transactions::ink::PAGE_NODES;
use coloring_bt_transactions::labels::Labels;
use coloring_bt_transactions::numbers::{letters, read_ids, read_number, read_whole};
use coloring_bt_transactions::raster::Format;
use coloring_bt_transactions::report::DEFAULT_MAX_BLOCKS;

fn told(program: Program, line: &str) -> Result<Settings, String> {
    let argv: Vec<String> = line.split_whitespace().map(str::to_string).collect();
    let least = if program == Program::TreeSvg { 0.0 } else { 8.0 };
    let sizes: Vec<Measure> = argv
        .iter()
        .map(|a| match a.parse::<f64>() {
            Err(_) => Measure::NotANumber,
            Ok(x) if x > least => Measure::Usable,
            Ok(_) => Measure::TooSmall,
        })
        .collect();
    understand(program, &argv, &sizes)
}

fn wrong(program: Program, line: &str) -> String {
    told(program, line).err().unwrap()
}

#[test]
fn a_page_of_blocks_is_told_everything() {
    let s = told(
        Program::BlockPdf,
        "g t --root 5,6 -o out.pdf --depth 0 --max-blocks 7 --max-nodes 8 --fanout-in 3 --fanout 9 \
         --seed consuming --horizontal --fill --width 100 --max-height 50.5 --mark 1,2 --mark 3 \
         --labels compact --label-base -12 --dash-cross --no-check",
    )
    .ok()
    .unwrap();
    assert_eq!(s.names, ["g", "t"]);
    assert_eq!(s.out.as_deref(), Some("out.pdf"));
    assert_eq!(s.roots, [5, 6]);
    let c = s.choices;
    assert_eq!((c.depth, c.fanout_in, c.fanout_out), (Some(0), Some(3), Some(9)));
    assert!(c.seed == Seed::Consuming && !c.vertical && c.fill && c.dash_cross && !c.check);
    assert!(c.labels == Labels::Compact);
    assert_eq!(c.label_base, Some(-12));
    assert_eq!((s.width.as_deref(), s.height.as_deref()), (Some("100"), Some("50.5")));
    assert_eq!(s.marked(), HashSet::from([1, 2, 3]));
    let prune = s.block_prune();
    assert_eq!((prune.max_blocks, prune.max_nodes), (7, 8));

    let s = told(Program::BlockPdf, "g t --root 5 -o x").ok().unwrap();
    let prune = s.block_prune();
    assert_eq!((prune.max_blocks, prune.max_nodes), (DEFAULT_MAX_BLOCKS, PAGE_NODES));
    assert!(s.choices.vertical && s.choices.check && s.choices.labels == Labels::Nothing);
}

/// A side's own fanout overrides the one for both, whichever order they come in.
#[test]
fn a_side_has_its_own_fanout() {
    let sides = |line: &str| {
        let s = told(Program::BlockPdf, &format!("g t --root 5 -o x {line}")).ok().unwrap();
        (s.choices.fanout_in, s.choices.fanout_out)
    };
    assert_eq!(sides("--fanout 4"), (Some(4), Some(4)));
    assert_eq!(sides("--fanout 4 --fanout-in 2"), (Some(2), Some(4)));
    assert_eq!(sides("--fanout-in 2 --fanout 4"), (Some(2), Some(4)));
    assert_eq!(sides("--fanout-out 6"), (None, Some(6)));
}

#[test]
fn what_a_page_of_blocks_refuses() {
    let p = Program::BlockPdf;
    let u = usage(p);
    assert_eq!(wrong(p, "-h"), u);
    assert_eq!(wrong(p, "g t --root"), format!("--root wants a node id\n{u}"));
    assert_eq!(wrong(p, "g t -o"), format!("-o wants a file\n{u}"));
    assert_eq!(wrong(p, "--root 1,x,2"), "--root x: not a node id");
    assert_eq!(wrong(p, "--root 1,"), "--root : not a node id");
    assert_eq!(wrong(p, "--mark q"), "--mark q: not a node id");
    assert_eq!(wrong(p, "--depth many"), "--depth many: not a number");
    assert_eq!(wrong(p, "--max-blocks 0"), "--max-blocks 0: wants a positive number");
    assert_eq!(wrong(p, "--fanout-in -1"), "--fanout-in -1: wants a positive number");
    assert_eq!(wrong(p, "--seed both"), format!("--seed both: producing or consuming\n{u}"));
    assert_eq!(wrong(p, "--seed"), format!("--seed wants producing or consuming\n{u}"));
    assert_eq!(wrong(p, "--width 8"), "--width 8: a page needs a positive size");
    assert_eq!(wrong(p, "--max-height tall"), "--max-height tall: a page needs a positive size");
    assert_eq!(wrong(p, "--label-base 1.5"), "--label-base 1.5: not a node id");
    assert_eq!(wrong(p, "--spine 1"), format!("unknown flag --spine\n{u}"));
    assert_eq!(
        wrong(p, "g"),
        format!("expected a graph basename and its transpose's, got 1\n{u}")
    );
    assert_eq!(wrong(p, "g t"), format!("-o is required\n{u}"));
    assert_eq!(wrong(p, "g t -o x"), format!("--root is required\n{u}"));
    assert!(u.starts_with("usage: block-pdf <graph-basename> <transpose-basename> --root"));
}

#[test]
fn a_page_of_a_subtree() {
    let p = Program::TreePdf;
    let s = told(
        p,
        "g --root 4 -o x --fanout 2 --fanout 3 --spine 7,9 --ancestors t --depth-up 0 \
         --max-nodes-up 5 --labels compact",
    );
    assert_eq!(
        s.err().unwrap(),
        format!("expected one graph basename, got 2\n{}", usage(p)),
        "labels are not compact here, so the word is a name"
    );
    let s = told(
        p,
        "g --root 4 -o x --fanout 2 --fanout 3 --spine 7,9 --ancestors t --depth-up 0 \
         --max-nodes-up 5 --labels --depth 6",
    )
    .ok()
    .unwrap();
    let down = s.prune();
    assert_eq!((down.depth, down.max_nodes, down.fanout), (Some(6), PAGE_NODES, Some(3)));
    assert_eq!(down.expand, Some(HashSet::from([4, 7, 9])), "the roots expand too");
    let up = s.prune_up();
    assert_eq!((up.depth, up.max_nodes, up.fanout, up.expand), (Some(0), 5, Some(3), None));
    assert_eq!(s.waist(), Ok(4));
    assert!(!s.choices.vertical && s.choices.labels == Labels::Each);

    let s = told(p, "g --root 4,5 -o x --ancestors t").ok().unwrap();
    assert_eq!(
        s.waist(),
        Err("--ancestors wants exactly one --root: the hourglass has one waist".to_string())
    );
    let u = usage(p);
    assert_eq!(wrong(p, "--fanout-up 0"), "--fanout-up 0: not a usable number");
    assert_eq!(wrong(p, "--depth-up x"), "--depth-up x: not a usable number");
    assert_eq!(wrong(p, "--spine"), format!("--spine wants node ids\n{u}"));
    assert_eq!(wrong(p, "--ancestors"), format!("--ancestors wants a graph basename\n{u}"));
    assert_eq!(
        wrong(p, "g -o x"),
        format!("--root is required: the whole graph is what tree-jp2 is for\n{u}")
    );
}

#[test]
fn the_other_programs() {
    let s = told(Program::TreeView, "g --width 640 --height +480").ok().unwrap();
    assert_eq!((s.width.as_deref(), s.height.as_deref()), (Some("640"), Some("+480")));
    assert_eq!(
        wrong(Program::TreeView, "g --width 2147483648"),
        "--width 2147483648: a window needs a positive size"
    );
    assert_eq!(wrong(Program::TreeView, "g --width 0"), "--width 0: a window needs a positive size");
    assert!(wrong(Program::TreeView, "g -o x").starts_with("unknown flag -o\n"));

    let s = told(Program::TreeJp2, "g -o x --zoom 3").ok().unwrap();
    assert_eq!(s.choices.zoom, 3);
    assert_eq!(
        wrong(Program::TreeJp2, "g --zoom 00"),
        "--zoom 0: a node is at least one pixel"
    );
    assert!(wrong(Program::TreeJp2, "g").starts_with(
        "-o is required: a JPEG 2000 is written by seeking back over it, which a pipe cannot do\n"
    ));

    let s = told(Program::TreeBitmap, "g t --format pgm").ok().unwrap();
    assert!(s.choices.format == Format::Pgm && s.out.is_none() && s.choices.zoom == 1);
    assert_eq!(wrong(Program::TreeBitmap, "g t --format png"), "--format png: pbm or pgm");
    assert!(wrong(Program::TreeBitmap, "g t --format").starts_with("--format wants pbm or pgm\n"));
    assert!(wrong(Program::TreeBitmap, "g")
        .starts_with("expected a graph and its transpose, got 1 basename(s)\n"));

    let s = told(Program::TreeSvg, "g t --scale 2.5").ok().unwrap();
    assert_eq!(s.scale.as_deref(), Some("2.5"));
    assert_eq!(wrong(Program::TreeSvg, "g t --scale x"), "--scale x: not a number");
    assert_eq!(
        wrong(Program::TreeSvg, "g t --scale -1"),
        "--scale -1: a drawing needs a positive scale"
    );

    let s = told(Program::TxView, "f --limit 12").ok().unwrap();
    assert_eq!(s.choices.limit, 12);
    assert_eq!(told(Program::TxView, "f --limit all").ok().unwrap().choices.limit, usize::MAX);
    assert_eq!(
        wrong(Program::TxView, "f --limit 0"),
        "--limit 0: a drawing needs a record or more"
    );
    assert!(wrong(Program::TxView, "").starts_with("expected one records file, got 0\n"));
}

#[test]
fn numbers_as_they_are_written() {
    let number = |s: &str, max: u64| {
        let text = letters(s);
        read_number(&text, 0, text.len(), max)
    };
    assert_eq!(number("0", 9), Some(0));
    assert_eq!(number("007", 9), Some(7));
    assert_eq!(number("+9", 9), Some(9));
    assert_eq!(number("10", 9), None);
    for s in ["", "+", "-1", "1 ", "1x", "++1", "\u{661}"] {
        assert_eq!(number(s, u64::MAX), None, "{s:?}");
    }
    assert_eq!(number("18446744073709551615", u64::MAX), Some(u64::MAX));
    assert_eq!(number("18446744073709551616", u64::MAX), None);

    let whole = |s: &str| read_whole(&letters(s));
    assert_eq!(whole("-9223372036854775808"), Some(i64::MIN));
    assert_eq!(whole("9223372036854775808"), None);
    assert_eq!(whole("+5"), Some(5));
    assert_eq!(whole("-0"), Some(0));
    assert_eq!(whole("--1"), None);

    assert_eq!(read_ids(&letters("1,2,30")), Ok(vec![1, 2, 30]));
    assert_eq!(read_ids(&letters("1,,3")), Err(vec![]));
    assert_eq!(read_ids(&letters("1,b3,c")), Err(vec!['b', '3']));
}
