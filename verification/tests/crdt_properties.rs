use betsync::crdt::{BoundedCounter, LwwRegister, OrSet, PNCounter};

#[test]
fn lww_register_is_commutative_associative_and_idempotent() {
    let a = LwwRegister::new("alpha".to_string(), 1, "A");
    let b = LwwRegister::new("bravo".to_string(), 2, "B");
    let c = LwwRegister::new("charlie".to_string(), 2, "C");

    assert_eq!(a.merge(&b), b.merge(&a));
    assert_eq!(a.merge(&b).merge(&c), a.merge(&b.merge(&c)));
    assert_eq!(c.merge(&c), c);
    assert_eq!(a.merge(&b).merge(&c).value, "charlie");
}

#[test]
fn or_set_is_commutative_associative_and_idempotent() {
    let alpha = "alpha".to_string();
    let beta = "beta".to_string();

    let mut a = OrSet::default();
    a.add(alpha.clone(), "A-1");

    let mut b = a.clone();
    b.remove_observed(&alpha, "B-1");

    let mut c = OrSet::default();
    c.add(beta.clone(), "C-1");

    assert_eq!(a.merge(&b), b.merge(&a));
    assert_eq!(a.merge(&b).merge(&c), a.merge(&b.merge(&c)));
    assert_eq!(c.merge(&c), c);
    assert!(!a.merge(&b).contains(&alpha));
    assert!(a.merge(&b).merge(&c).contains(&beta));
}

#[test]
fn pn_counter_is_commutative_associative_and_idempotent() {
    let mut a = PNCounter::default();
    a.increment("A", 10);
    a.decrement("A", 3);

    let mut b = PNCounter::default();
    b.increment("B", 4);
    b.decrement("B", 2);

    let mut c = PNCounter::default();
    c.increment("A", 15);

    assert_eq!(a.merge(&b), b.merge(&a));
    assert_eq!(a.merge(&b).merge(&c), a.merge(&b.merge(&c)));
    assert_eq!(c.merge(&c), c);
    assert_eq!(a.merge(&b).merge(&c).value(), 14);
}

#[test]
fn bounded_counter_merge_is_commutative_associative_and_idempotent() {
    let mut a = BoundedCounter::default();
    a.set_initial_rights("A", 60);
    a.set_initial_rights("B", 40);
    assert!(a.spend("spend-A", "A", 50));

    let mut b = BoundedCounter::default();
    b.set_initial_rights("A", 60);
    b.set_initial_rights("B", 40);
    assert!(b.spend("spend-B", "B", 30));

    let mut c = BoundedCounter::default();
    c.set_initial_rights("A", 60);
    c.set_initial_rights("B", 40);
    c.grant("payout-A", "A", 20);

    assert_eq!(a.merge(&b), b.merge(&a));
    assert_eq!(a.merge(&b).merge(&c), a.merge(&b.merge(&c)));
    assert_eq!(c.merge(&c), c);

    let merged = a.merge(&b).merge(&c);
    assert_eq!(merged.available("A"), 30);
    assert_eq!(merged.available("B"), 10);
}

#[test]
fn lww_register_breaks_timestamp_ties_by_replica_id() {
    let a = LwwRegister::new("from-a".to_string(), 5, "A");
    let b = LwwRegister::new("from-b".to_string(), 5, "B");
    assert_eq!(a.merge(&b).value, "from-b");
    assert_eq!(b.merge(&a).value, "from-b");

    let mut later = LwwRegister::new("old".to_string(), 1, "Z");
    later.assign("new".to_string(), 2, "A");
    assert_eq!(later.value, "new");
    assert_eq!(later.timestamp, 2);
}

#[test]
fn or_set_remove_only_affects_observed_tags() {
    let x = "x".to_string();
    let mut a = OrSet::default();
    a.add(x.clone(), "A-1");

    let mut b = a.clone();
    b.remove_observed(&x, "B-1");
    assert!(!b.contains(&x));

    a.add(x.clone(), "A-2");
    let merged = a.merge(&b);
    assert!(merged.contains(&x));
    assert_eq!(merged.tags_for(&x).len(), 1);
    assert_eq!(merged.elements().len(), 1);
}

#[test]
fn bounded_counter_refuses_spending_beyond_local_rights() {
    let mut counter = BoundedCounter::default();
    counter.set_initial_rights("A", 60);
    assert!(!counter.spend("s1", "A", 61));
    assert!(counter.spend("s2", "A", 60));
    assert_eq!(counter.available("A"), 0);
    assert!(counter.spend("s2", "A", 60));
    assert_eq!(counter.available("A"), 0);
    assert_eq!(counter.total_spent(), 60);

    assert!(counter.transfer("t1", "A", "B", 0));
    assert!(!counter.transfer("t2", "A", "B", 1));
    counter.grant("g1", "A", 25);
    assert!(counter.transfer("t3", "A", "B", 20));
    assert_eq!(counter.available("A"), 5);
    assert_eq!(counter.available("B"), 20);
    assert_eq!(counter.total_remaining(), 25);
    assert_eq!(counter.known_replicas().len(), 2);
}

#[test]
fn pn_counter_reports_overflowing_values_as_unreadable() {
    let mut counter = PNCounter::default();
    counter.increment("A", u64::MAX);
    counter.increment("B", 1);
    assert_eq!(counter.checked_value(), None);

    let mut small = PNCounter::default();
    small.increment("A", 7);
    small.decrement("B", 9);
    assert_eq!(small.checked_value(), Some(-2));
    assert_eq!(small.value(), -2);
}

#[test]
fn merging_another_replicas_counter_never_lowers_local_rights() {
    let mut base = BoundedCounter::default();
    base.set_initial_rights("A", 60);
    base.set_initial_rights("B", 40);
    let mut a = base.clone();
    let mut b = base;
    assert!(a.spend("a-1", "A", 50));
    assert!(b.spend("b-1", "B", 30));
    b.grant("g-1", "A", 5);
    assert!(b.transfer("t-1", "B", "A", 10));

    let merged = a.merge(&b);
    assert!(merged.available("A") >= a.available("A"));
    assert_eq!(a.available("A"), 10);
    assert_eq!(merged.available("A"), 25);
    assert_eq!(merged.available("B"), 0);
}
