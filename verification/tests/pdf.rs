//! Pages as files.

use std::io::Read;

use coloring_bt_transactions::pdf::{num, Page};
use flate2::read::ZlibDecoder;

fn two(x: f64) -> String {
    format!("{x:.2}")
}

fn circle(page: &mut Page, cx: f64, cy: f64, r: f64) {
    let k = 0.5522847498 * r;
    let numbers: Vec<String> = [
        (cx + r, cy),
        (cx + r, cy + k),
        (cx + k, cy + r),
        (cx, cy + r),
        (cx - k, cy + r),
        (cx - r, cy + k),
        (cx - r, cy),
        (cx - r, cy - k),
        (cx - k, cy - r),
        (cx, cy - r),
        (cx + k, cy - r),
        (cx + r, cy - k),
        (cx + r, cy),
    ]
    .iter()
    .flat_map(|&(x, y)| [two(x), two(y)])
    .collect();
    page.circle(&numbers);
}

/// The inflated content stream of a file.
fn content_of(bytes: &[u8]) -> String {
    let start = bytes.windows(7).position(|w| w == b"stream\n").unwrap() + 7;
    let end = bytes.windows(10).position(|w| w == b"\nendstream").unwrap();
    let mut ops = String::new();
    ZlibDecoder::new(&bytes[start..end]).read_to_string(&mut ops).unwrap();
    ops
}

/// What goes in comes back: the operators survive the deflate round trip, and the
/// page's size is on the page.
#[test]
fn the_operators_survive_the_file() {
    let mut page = Page::new(two(300.0), two(200.0));
    page.set_line_width(&two(0.5));
    page.set_stroke("0.78", "0.78", "0.78");
    page.segment(&two(10.0), &two(20.0), &two(30.0), &two(40.0));
    page.stroke();
    page.set_fill("0.00", "0.00", "0.00");
    circle(&mut page, 50.0, 60.0, 2.0);
    page.fill();

    let bytes = page.write().unwrap();
    assert!(bytes.starts_with(b"%PDF-1.4"));
    assert!(bytes.ends_with(b"%%EOF\n"));

    let ops = content_of(&bytes);
    assert!(ops.contains("0.5 w\n"), "{ops}");
    assert!(ops.contains("0.78 0.78 0.78 RG\n"));
    assert!(ops.contains("10 20 m 30 40 l\nS\n"));
    assert!(ops.contains("52 60 m"), "the circle starts at (cx + r, cy)");
    assert!(ops.contains("c h\nf\n"), "four curves, closed and filled");

    let media = String::from_utf8_lossy(&bytes);
    assert!(media.contains("/MediaBox [0 0 300 200]"));
}

/// The cross-reference table points where the objects are: each offset in it
/// lands on the `N 0 obj` it claims to.
#[test]
fn the_xref_points_at_the_objects() {
    let mut page = Page::new(two(100.0), two(100.0));
    circle(&mut page, 50.0, 50.0, 10.0);
    page.fill();

    let bytes = page.write().unwrap();
    let text = String::from_utf8_lossy(&bytes);

    let xref_at: usize = text
        .rsplit_once("startxref\n")
        .and_then(|(_, rest)| rest.split_whitespace().next())
        .and_then(|n| n.parse().ok())
        .expect("a startxref");
    assert!(bytes[xref_at..].starts_with(b"xref"));

    let table = String::from_utf8_lossy(&bytes[xref_at..]).into_owned();
    for (entry, object) in table.lines().skip(3).take(4).zip(1..) {
        let offset: usize = entry[..10].parse().unwrap();
        let expected = format!("{object} 0 obj");
        assert!(
            bytes[offset..].starts_with(expected.as_bytes()),
            "object {object} is not at {offset}"
        );
    }
}

/// A label lands in the stream as a text object in the declared font, and the
/// characters PDF strings quote come out escaped.
#[test]
fn text_is_written_and_escaped() {
    let mut page = Page::new(two(100.0), two(100.0));
    page.set_fill("0.32", "0.32", "0.32");
    page.text(&two(10.0), &two(20.0), &two(5.0), "123456789");
    page.text(&two(10.0), &two(30.0), &two(5.0), r"a(b)c\d");

    let bytes = page.write().unwrap();

    let ops = content_of(&bytes);
    assert!(ops.contains("BT /F1 5 Tf 10 20 Td (123456789) Tj ET"), "{ops}");
    assert!(ops.contains(r"(a\(b\)c\\d) Tj"), "{ops}");
    assert!(
        String::from_utf8_lossy(&bytes).contains("/BaseFont /Helvetica"),
        "the font the text names is declared on the page"
    );
}

/// Numbers are two decimals and no trailing noise.
#[test]
fn numbers_are_short() {
    let num = |x: f64| num(&two(x));
    assert_eq!(num(3.0), "3");
    assert_eq!(num(0.5), "0.5");
    assert_eq!(num(0.503), "0.5");
    assert_eq!(num(1.25), "1.25");
    assert_eq!(num(-2.10), "-2.1");
    assert_eq!(num(0.001), "0");
    assert_eq!(num(-0.001), "0");
}

/// Every operator, spelled out.
#[test]
fn what_a_page_is_made_of() {
    let mut page = Page::new(two(612.0), two(792.5));
    assert_eq!((page.width(), page.height()), ("612.00", "792.50"));
    page.set_dash("2.00", "1.50");
    page.solid();
    page.fill_and_stroke();
    page.stroke();
    let ops = content_of(&page.write().unwrap());
    assert_eq!(ops, "[2 1.5] 0 d\n[] 0 d\nb\nS\n");
}
