use std::cmp::Ordering;

use axiom_core::{ReplicaId, VectorClock};

fn clock_of(pairs: &[(u64, u64)]) -> VectorClock {
    let mut vc = VectorClock::new();
    for &(r, n) in pairs {
        for _ in 0..n {
            vc.increment(ReplicaId(r));
        }
    }
    vc
}

#[test]
fn increment_advances_and_happens_after() {
    let a = clock_of(&[(0, 1), (1, 2)]);
    let mut b = a.clone();
    b.increment(ReplicaId(1));
    assert!(a.happens_before(&b));
    assert!(!b.happens_before(&a));
    assert!(!a.concurrent_with(&b));
}

#[test]
fn concurrent_clocks_are_detected() {
    let a = clock_of(&[(0, 1)]);
    let b = clock_of(&[(1, 1)]);
    assert!(a.concurrent_with(&b));
    assert!(b.concurrent_with(&a));
    assert!(!a.happens_before(&b));
    assert!(!b.happens_before(&a));
}

#[test]
fn equal_clocks_are_not_happens_before_nor_concurrent() {
    let a = clock_of(&[(0, 2), (1, 1)]);
    let b = clock_of(&[(1, 1), (0, 2)]);
    assert_eq!(a, b);
    assert_eq!(a.partial_cmp(&b), Some(Ordering::Equal));
    assert!(!a.happens_before(&b));
    assert!(!a.concurrent_with(&b));
}

#[test]
fn merge_is_componentwise_join() {
    let mut a = clock_of(&[(0, 3), (1, 1)]);
    let b = clock_of(&[(0, 1), (1, 4), (2, 2)]);
    a.merge(&b);
    assert_eq!(a.get(ReplicaId(0)), 3);
    assert_eq!(a.get(ReplicaId(1)), 4);
    assert_eq!(a.get(ReplicaId(2)), 2);
}

#[test]
fn iter_lists_nonzero_entries_in_replica_order() {
    let a = clock_of(&[(5, 2), (1, 1), (3, 4)]);
    assert_eq!(a.iter(), vec![(ReplicaId(1), 1), (ReplicaId(3), 4), (ReplicaId(5), 2)]);
    assert_eq!(a.len(), 3);
    assert!(!a.is_empty());
    assert!(VectorClock::new().is_empty());
    assert_eq!(VectorClock::new().get(ReplicaId(9)), 0);
}

#[test]
fn compare_orders_clocks() {
    let a = clock_of(&[(0, 1)]);
    let b = clock_of(&[(0, 2)]);
    let c = clock_of(&[(1, 1)]);
    assert_eq!(a.compare(&b), Some(Ordering::Less));
    assert_eq!(b.compare(&a), Some(Ordering::Greater));
    assert_eq!(a.compare(&c), None);
    assert!(a < b);
    assert!(a <= b);
    assert!(!(a <= c) && !(c <= a));
}

#[test]
fn merge_dominates_both_and_is_idempotent() {
    let a = clock_of(&[(0, 3), (2, 1)]);
    let b = clock_of(&[(1, 2), (2, 5)]);
    let mut j = a.clone();
    j.merge(&b);
    assert!(a <= j);
    assert!(b <= j);
    let mut jj = j.clone();
    jj.merge(&j);
    assert_eq!(jj, j);
    let mut ba = b.clone();
    ba.merge(&a);
    assert_eq!(ba, j);
}

#[test]
fn happens_before_is_transitive_and_irreflexive() {
    let a = clock_of(&[(0, 1)]);
    let b = clock_of(&[(0, 1), (1, 2)]);
    let c = clock_of(&[(0, 2), (1, 2), (2, 1)]);
    assert!(a.happens_before(&b));
    assert!(b.happens_before(&c));
    assert!(a.happens_before(&c));
    assert!(!a.happens_before(&a));
    assert!(!c.happens_before(&c));
}
