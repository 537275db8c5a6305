//! Tests of the rhizome bridge.

use refrain::rhizome::{Rhizome, RhizomeBridge};

#[test]
fn alloc_is_monotonic() {
    let mut b = RhizomeBridge::new();
    let mut last = None;
    for k in 0..20u64 {
        let id = b.alloc_eclass();
        assert_eq!(id, k);
        if let Some(prev) = last {
            assert!(id > prev);
        }
        last = Some(id);
    }
    assert_eq!(b.class_count(), 20);
}

#[test]
fn insert_then_lookup_consistent() {
    let mut b = RhizomeBridge::new();
    let e = b.alloc_eclass();
    let causals = [5u64, 9, 5, 1023, 0];
    for c in causals {
        b.insert(c, e);
    }
    for c in causals {
        assert_eq!(b.eclass_of(c), Some(e));
    }
    assert_eq!(b.causal_events_of(e), &[5, 9, 1023, 0]);
    assert_eq!(b.eclass_of(77), None);
}

#[test]
fn insert_moves_between_classes() {
    let mut b = RhizomeBridge::new();
    let e1 = b.alloc_eclass();
    let e2 = b.alloc_eclass();
    b.insert(1, e1);
    b.insert(2, e1);
    b.insert(1, e2);
    assert_eq!(b.eclass_of(1), Some(e2));
    assert_eq!(b.causal_events_of(e1), &[2]);
    assert_eq!(b.causal_events_of(e2), &[1]);
    assert_eq!(b.causal_events_of(99), &[] as &[u64]);
}

#[test]
fn merge_is_idempotent() {
    let mut b = RhizomeBridge::new();
    let a = b.alloc_eclass();
    let c = b.alloc_eclass();
    b.insert(3, a);
    b.insert(600, c);
    b.merge_classes(a, c);
    let once = (b.eclass_of(3), b.eclass_of(600));
    b.merge_classes(a, c);
    assert_eq!((b.eclass_of(3), b.eclass_of(600)), once);
    assert_eq!(once, (Some(a), Some(a)));
    assert_eq!(b.causal_events_of(a), &[3, 600]);
}

#[test]
fn merge_does_not_grow_class_count() {
    let mut b = RhizomeBridge::new();
    let a = b.alloc_eclass();
    let c = b.alloc_eclass();
    b.insert(1, a);
    b.insert(700, c);
    let before = b.class_count();
    b.merge_classes(a, c);
    assert_eq!(b.class_count(), before - 1);
    b.merge_classes(a, a);
    assert_eq!(b.class_count(), before - 1);
    b.merge_classes(42, a);
    assert_eq!(b.class_count(), before - 1);
    assert_eq!(b.eclass_of(1), Some(42));
    assert_eq!(b.eclass_of(700), Some(42));
}

#[test]
fn rhizome_placeholder_constructs() {
    let _ = Rhizome::new();
    let _ = Rhizome::default();
}
