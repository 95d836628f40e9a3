//! Unions of sorted block lists, and the store that counts them.

use std::collections::BTreeSet;
use std::rc::Rc;

use coloring_bt_transactions::colorset::{merge_into, SetStore};
use coloring_bt_transactions::handles::first_handles;

/// What a union is, slowly and obviously.
fn oracle(a: &[u32], b: &[u32]) -> Vec<u32> {
    a.iter()
        .chain(b.iter())
        .copied()
        .collect::<BTreeSet<u32>>()
        .into_iter()
        .collect()
}

fn check(a: &[u32], b: &[u32]) {
    let mut got = Vec::new();
    merge_into(&mut got, a, b);
    assert_eq!(got, oracle(a, b), "a={:?} b={:?}", a, b);
    let mut swapped = Vec::new();
    merge_into(&mut swapped, b, a);
    assert_eq!(swapped, got, "not commutative: a={:?} b={:?}", a, b);
}

#[test]
fn merges_the_shapes_the_fast_paths_are_about() {
    let dense: Vec<u32> = (0..40).collect();
    check(&[], &[]);
    check(&[], &dense);
    check(&dense, &[]);
    check(&dense, &dense);
    check(&(0..20).collect::<Vec<_>>(), &(20..40).collect::<Vec<_>>());
    check(&(20..40).collect::<Vec<_>>(), &(0..20).collect::<Vec<_>>());
    check(&(0..21).collect::<Vec<_>>(), &(20..40).collect::<Vec<_>>());
    check(&dense, &[5, 6, 7]);
    check(
        &(0..40).filter(|v| v % 2 == 0).collect::<Vec<_>>(),
        &(0..40).filter(|v| v % 2 == 1).collect::<Vec<_>>(),
    );
    check(&dense, &[u32::MAX]);
    check(&[0], &(1..500).collect::<Vec<_>>());
}

/// Lengths either side of small strides, at every combination, because a merge's
/// bugs live in its tails.
#[test]
fn merges_every_pair_of_short_lengths() {
    for la in 0..12u32 {
        for lb in 0..12u32 {
            let a: Vec<u32> = (0..la).collect();
            let b: Vec<u32> = (la / 2..la / 2 + lb).collect();
            check(&a, &b);
        }
    }
}

struct Rng(u64);

impl Rng {
    fn next(&mut self) -> u64 {
        self.0 ^= self.0 << 13;
        self.0 ^= self.0 >> 7;
        self.0 ^= self.0 << 17;
        self.0
    }

    fn set(&mut self, n: u64, universe: u64) -> Vec<u32> {
        let mut s: Vec<u32> = (0..n).map(|_| (self.next() % universe) as u32).collect();
        s.sort_unstable();
        s.dedup();
        s
    }
}

#[test]
fn merges_random_sets() {
    let mut rng = Rng(0x9E37_79B9_7F4A_7C15);
    for _ in 0..3000 {
        let universe = if rng.next() % 2 == 0 { 32 } else { 100_000 };
        let (na, nb) = (rng.next() % 60, rng.next() % 60);
        let a = rng.set(na, universe);
        let b = rng.set(nb, universe);
        check(&a, &b);
    }
}

#[test]
fn releasing_everything_brings_live_back_to_zero() {
    let mut store = SetStore::new();
    let a = store.singleton(3);
    let b = store.singleton(9);
    let c = store.combine(&a, &b);
    let shared = store.share(&c);

    assert_eq!(store.usage().0, 1 + 1 + 2);
    // A shared handle owns no new storage, so releasing it frees nothing.
    store.release(shared);
    assert_eq!(store.usage().0, 4);

    store.release(a);
    store.release(b);
    store.release(c);
    assert_eq!(store.usage().0, 0);
    assert_eq!(store.usage().1, 4, "the high-water mark stays");
}

#[test]
fn terms_come_out_in_decreasing_order_with_coefficient_one() {
    let mut store = SetStore::new();
    let a = store.singleton(2);
    let b = store.singleton(7);
    let c = store.combine(&a, &b);
    assert_eq!(store.terms(&c), vec![(7, 1), (2, 1)]);
}

/// A union of a colour with itself, and of a colour with nothing to add, is a
/// handle on what is there: nothing is allocated.
#[test]
fn a_union_with_oneself_is_shared() {
    let mut store = SetStore::new();
    let a = store.singleton(5);
    let again = store.share(&a);
    assert!(Rc::ptr_eq(&a, &again), "a second handle, not a copy");
    let same = store.combine(&a, &again);
    assert_eq!(*same, vec![5]);
    assert!(Rc::ptr_eq(&a, &same));
    assert_eq!(store.usage().0, 1, "two handles on one allocation");

    // Equal colours in two allocations are merged into a third.
    let other = store.singleton(5);
    let third = store.combine(&a, &other);
    assert_eq!(*third, vec![5]);
    assert!(!Rc::ptr_eq(&a, &third) && !Rc::ptr_eq(&other, &third));
    assert_eq!(store.usage().0, 3);

    let scaled = store.scale(&a);
    assert_eq!(*scaled, vec![5]);
    assert!(Rc::ptr_eq(&a, &scaled));
    assert_eq!(store.usage().0, 3);
    assert_eq!(first_handles(&vec![a, other, again, third, same]), [true, true, false, true, false]);
}

#[test]
fn an_audit_counts_an_allocation_once() {
    let mut store = SetStore::new();
    let a = store.singleton(3);
    let b = store.singleton(9);
    let c = store.combine(&a, &b);
    let again = store.share(&c);
    let all = vec![a, b, c, again];
    assert_eq!(store.audit(&all), "audit: 4 live set elems, all reachable");

    let some: Vec<_> = all.into_iter().skip(2).collect();
    assert_eq!(
        store.audit(&some),
        "audit: LEAK -- 4 live set elems but only 2 reachable (2 lost)"
    );
    assert_eq!(
        store.audit_told(6),
        "audit: LEAK -- 4 live set elems but only 6 reachable (-2 lost)"
    );
    assert_eq!(store.usage_labels(), ("live set elems", "peak set elems"));
}
