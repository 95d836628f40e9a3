//! Colours over bands of blocks.

use std::rc::Rc;

use coloring_bt_transactions::bands::{BandStore, Color, Layout, CHAIN_BLOCKS};

type Moments = [f64; 3];

/// A store whose lanes are `f64`, with the arithmetic a program gives it.
struct Lanes {
    store: BandStore,
}

impl Lanes {
    fn new(bands: usize, blocks: usize) -> Lanes {
        Lanes { store: BandStore::new(Layout::new(bands, blocks)) }
    }

    fn singleton(&mut self, block: usize) -> Color<f64, Moments> {
        let b = block as f64;
        self.store.singleton(block, 0.0, 1.0, [1.0, b, b * b])
    }

    fn combine(
        &mut self,
        a: &Color<f64, Moments>,
        wa: f64,
        b: &Color<f64, Moments>,
        wb: f64,
    ) -> Color<f64, Moments> {
        let sum = wa + wb;
        let (ma, mb) = (a.moments, b.moments);
        self.store.combine(
            a,
            b,
            sum == 1.0,
            |x| x * sum,
            ma.map(|m| m * sum),
            |x, y| x * wa + y * wb,
            [ma[0] * wa + mb[0] * wb, ma[1] * wa + mb[1] * wb, ma[2] * wa + mb[2] * wb],
        )
    }

    fn scale(&mut self, color: &Color<f64, Moments>, w: f64) -> Color<f64, Moments> {
        let m = color.moments;
        self.store.scale(color, w == 1.0, |x| x * w, m.map(|v| v * w))
    }

    fn dump(&self, color: &Color<f64, Moments>) -> Vec<(usize, f64)> {
        self.store.terms(color, |w| w == 0.0)
    }
}

#[test]
fn a_coinbase_is_all_of_its_band() {
    let mut s = Lanes::new(8, 800);
    assert_eq!(s.store.layout().width, 100);
    let c = s.singleton(250);
    assert_eq!(s.dump(&c), vec![(2, 1.0)]);
    let c = s.singleton(799);
    assert_eq!(s.dump(&c), vec![(7, 1.0)]);
    let c = s.singleton(0);
    assert_eq!(s.dump(&c), vec![(0, 1.0)]);
}

#[test]
fn the_last_band_may_be_short() {
    // 10 bands over 95 blocks: width 10, the last band holds 90..94.
    let mut s = Lanes::new(10, 95);
    assert_eq!(s.store.layout().width, 10);
    let c = s.singleton(94);
    assert_eq!(s.dump(&c), vec![(9, 1.0)]);
}

#[test]
#[should_panic(expected = "past the")]
fn a_block_past_the_range_is_refused() {
    let s = Lanes::new(10, 100);
    s.store.layout().place(100).unwrap();
}

#[test]
fn a_block_past_the_range_is_named() {
    let layout = Layout::new(10, 100);
    assert_eq!(layout.place(99), Ok(9));
    assert_eq!(
        layout.place(100),
        Err("block 100 is past the 100 blocks the bands cover; pass --blocks".to_string())
    );
    // The bands of a short last band cover a little more than was asked for.
    let layout = Layout::new(10, 95);
    assert_eq!(layout.place(99), Ok(9));
    assert!(layout.place(100).is_err());
    assert_eq!(Layout::new(1024, CHAIN_BLOCKS).width, 745);
}

/// Binning is linear, so the fold of binned leaves is the binned fold.
#[test]
fn combine_is_a_weighted_vector_add() {
    let mut s = Lanes::new(4, 40);
    let a = s.singleton(5); // band 0
    let b = s.singleton(35); // band 3
    let ab = s.combine(&a, 0.25, &b, 0.75);
    assert_eq!(s.dump(&ab), vec![(3, 0.75), (0, 0.25)]);
    let c = s.singleton(15); // band 1
    let abc = s.combine(&ab, 0.5, &c, 0.5);
    assert_eq!(s.dump(&abc), vec![(3, 0.375), (1, 0.5), (0, 0.125)]);
    let total: f64 = abc.bands.iter().sum();
    assert!((total - 1.0).abs() < 1e-15);
}

#[test]
fn combining_a_colour_with_itself_scales_it() {
    let mut s = Lanes::new(4, 40);
    let a = s.singleton(5);
    let aa = s.combine(&a, 0.4, &a, 0.6);
    assert_eq!(s.dump(&aa), vec![(0, 1.0)]);
    let half = s.combine(&a, 0.25, &a, 0.25);
    assert_eq!(s.dump(&half), vec![(0, 0.5)]);
}

#[test]
fn scaling_by_one_shares() {
    let mut s = Lanes::new(4, 40);
    let a = s.singleton(5);
    let same = s.scale(&a, 1.0);
    assert!(Rc::ptr_eq(&a, &same));
    let (live, _) = s.store.usage();
    assert_eq!(live, 4, "one colour of four lanes");
    let half = s.scale(&a, 0.5);
    assert_eq!(s.dump(&half), vec![(0, 0.5)]);
    assert_eq!(s.store.usage().0, 8);
}

#[test]
fn release_counts_allocations_not_handles() {
    let mut s = Lanes::new(4, 40);
    let a = s.singleton(5);
    let b = s.store.share(&a);
    assert_eq!(s.store.usage().0, 4);
    s.store.release(b);
    assert_eq!(s.store.usage().0, 4);
    s.store.release(a);
    assert_eq!(s.store.usage().0, 0);
    assert_eq!(s.store.usage().1, 4);
    assert_eq!(s.store.usage_labels(), ("live lanes", "peak lanes"));
}

/// The moments are carried, not derived, so they are in blocks and exact where
/// the bands are a summary.
#[test]
fn the_moments_are_exact_in_blocks_not_bands() {
    for bands in [2usize, 4, 8] {
        let mut s = Lanes::new(bands, 40);
        let a = s.singleton(5);
        let b = s.singleton(35);
        let ab = s.combine(&a, 0.5, &b, 0.5);
        let m = ab.moments;
        assert!((m[0] - 1.0).abs() < 1e-15, "mass at {} bands: {}", bands, m[0]);
        let mean = m[1] / m[0];
        let spread = (m[2] / m[0] - mean * mean).max(0.0).sqrt();
        assert!((mean - 20.0).abs() < 1e-12, "mean at {} bands: {}", bands, mean);
        assert!((spread - 15.0).abs() < 1e-12, "spread at {} bands: {}", bands, spread);
    }
}

#[test]
fn a_coinbase_carries_its_own_block() {
    let mut s = Lanes::new(4, 40);
    let c = s.singleton(37);
    assert_eq!(c.moments, [1.0, 37.0, 37.0 * 37.0]);
    assert_eq!(s.dump(&c), vec![(3, 1.0)]);
    let width = s.store.layout().width as f64;
    assert!((3.0 * width + (width - 1.0) / 2.0 - 34.5).abs() < 1e-12);
}

#[test]
fn the_moments_follow_the_same_combination_as_the_lanes() {
    let mut s = Lanes::new(8, 800);
    let a = s.singleton(100);
    let b = s.singleton(500);
    let c = s.singleton(700);
    let ab = s.combine(&a, 0.25, &b, 0.75);
    let abc = s.combine(&ab, 0.5, &c, 0.5);
    let m = abc.moments;
    let want_mass = 1.0;
    let want_first = 0.125 * 100.0 + 0.375 * 500.0 + 0.5 * 700.0;
    let want_second = 0.125 * 10_000.0 + 0.375 * 250_000.0 + 0.5 * 490_000.0;
    assert!((m[0] - want_mass).abs() < 1e-12, "mass {}", m[0]);
    assert!((m[1] - want_first).abs() < 1e-9, "first {} want {}", m[1], want_first);
    assert!((m[2] - want_second).abs() < 1e-6, "second {} want {}", m[2], want_second);
}

#[test]
fn placement_puts_a_band_at_its_centre() {
    let s = Lanes::new(8, 800);
    let width = s.store.layout().width as f64;
    let (scale, offset) = (width, (width - 1.0) / 2.0);
    assert_eq!(scale, 100.0);
    assert_eq!(offset, 49.5);
    // band 2 covers 200..299, centred on 249.5
    assert_eq!(2.0 * scale + offset, 249.5);
    assert_eq!(s.store.layout().place(200), Ok(2));
    assert_eq!(s.store.layout().place(299), Ok(2));
    assert_eq!(s.store.layout().place(300), Ok(3));
}

#[test]
fn audit_sees_every_live_colour_once() {
    let mut s = Lanes::new(4, 40);
    let a = s.singleton(5);
    let b = s.store.share(&a);
    let c = s.singleton(15);
    let held = vec![a, b, c];
    let report = s.store.audit(&held, "f32", "0.000e0");
    assert!(report.contains("2 live colours"), "{}", report);
    assert!(report.contains("all reachable"), "{}", report);
    assert_eq!(
        report,
        "audit: 2 live colours of 4 f32 lanes, all reachable, worst drift from sum 1 was 0.000e0"
    );

    let report = s.store.audit(&held[..1].iter().map(Rc::clone).collect(), "f32", "1.192e-7");
    assert_eq!(
        report,
        "audit: LEAK -- 2 live colours but only 1 reachable, worst drift from sum 1 was 1.192e-7"
    );
}
