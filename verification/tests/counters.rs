use axiom_core::{GCounter, GCounterOp, PNCounter, PNCounterOp, ReplicaId};

fn r(n: u64) -> ReplicaId {
    ReplicaId(n)
}

#[test]
fn increment_and_value() {
    let mut g = GCounter::new(r(0));
    assert_eq!(g.value(), 0);
    g.increment();
    g.increment();
    assert_eq!(g.value(), 2);
    assert_eq!(g.value(), g.tla_state().value());
}

#[test]
fn apply_is_max_not_sum() {
    let mut g = GCounter::new(r(0));
    let op = GCounterOp { replica: r(1), count: 3 };
    g.apply(&op);
    g.apply(&op);
    assert_eq!(g.value(), 3);
}

#[test]
fn value_can_decrease() {
    let mut c = PNCounter::new(r(0));
    c.increment();
    assert_eq!(c.value(), 1);
    c.decrement();
    c.decrement();
    assert_eq!(c.value(), -1);
    assert_eq!(c.value(), c.tla_state().value());
}

#[test]
fn gcounter_merge_takes_componentwise_max() {
    let mut a = GCounter::new(r(0));
    let mut b = GCounter::new(r(1));
    a.increment();
    a.increment();
    b.increment();
    a.merge(&b);
    assert_eq!(a.value(), 3);
    b.merge(&a);
    assert_eq!(b.value(), 3);
    assert_eq!(a.tla_state(), b.tla_state());
    let before = a.tla_state();
    let copy = a.clone();
    a.merge(&copy);
    assert_eq!(a.tla_state(), before);
}

#[test]
fn increment_returns_the_new_own_count() {
    let mut g = GCounter::new(r(7));
    assert_eq!(g.increment(), GCounterOp { replica: r(7), count: 1 });
    assert_eq!(g.increment(), GCounterOp { replica: r(7), count: 2 });
    assert_eq!(g.tla_state().counts.get(&7), Some(&2));
}

#[test]
fn pncounter_ops_and_merge() {
    let mut a = PNCounter::new(r(0));
    let mut b = PNCounter::new(r(1));
    let inc = a.increment();
    let dec = b.decrement();
    assert_eq!(inc, PNCounterOp::Inc(GCounterOp { replica: r(0), count: 1 }));
    assert_eq!(dec, PNCounterOp::Dec(GCounterOp { replica: r(1), count: 1 }));
    let mut c = PNCounter::new(r(2));
    c.apply(&inc);
    c.apply(&dec);
    c.apply(&dec);
    assert_eq!(c.value(), 0);
    a.merge(&b);
    b.merge(&a);
    assert_eq!(a.tla_state(), b.tla_state());
    assert_eq!(a.tla_state(), c.tla_state());
}

#[test]
fn pncounter_value_reads_each_side_as_signed() {
    let mut c = PNCounter::new(r(0));
    c.apply(&PNCounterOp::Inc(GCounterOp { replica: r(1), count: u64::MAX }));
    assert_eq!(c.value(), -1);
    c.apply(&PNCounterOp::Dec(GCounterOp { replica: r(1), count: 5 }));
    assert_eq!(c.value(), -6);
}

#[test]
fn gcounter_merge_is_commutative_idempotent_and_never_lowers_the_value() {
    let mut a = GCounter::new(r(0));
    a.increment();
    a.increment();
    a.apply(&GCounterOp { replica: r(2), count: 5 });
    let mut b = GCounter::new(r(1));
    b.increment();
    b.apply(&GCounterOp { replica: r(2), count: 3 });
    let mut ab = a.clone();
    ab.merge(&b);
    let mut ba = b.clone();
    ba.merge(&a);
    assert_eq!(ab.tla_state(), ba.tla_state());
    assert_eq!(ab.value(), 8);
    assert!(ab.value() >= a.value() && ab.value() >= b.value());
    let mut again = ab.clone();
    again.merge(&ab);
    assert_eq!(again.tla_state(), ab.tla_state());
}

#[test]
fn pncounter_merge_is_commutative_idempotent_and_grows_both_sides() {
    let mut a = PNCounter::new(r(0));
    a.increment();
    a.decrement();
    a.decrement();
    let mut b = PNCounter::new(r(1));
    b.increment();
    b.increment();
    let mut ab = a.clone();
    ab.merge(&b);
    let mut ba = b.clone();
    ba.merge(&a);
    assert_eq!(ab.tla_state(), ba.tla_state());
    assert_eq!(ab.value(), 1);
    let s = ab.tla_state();
    assert_eq!(s.p.counts.get(&0), Some(&1));
    assert_eq!(s.p.counts.get(&1), Some(&2));
    assert_eq!(s.n.counts.get(&0), Some(&2));
    let mut again = ab.clone();
    again.merge(&ab);
    assert_eq!(again.tla_state(), ab.tla_state());
}

#[test]
fn pncounter_ops_applied_in_either_order_or_twice_give_the_same_state() {
    let inc = PNCounterOp::Inc(GCounterOp { replica: r(1), count: 4 });
    let dec = PNCounterOp::Dec(GCounterOp { replica: r(2), count: 3 });
    let mut a = PNCounter::new(r(0));
    a.apply(&inc);
    a.apply(&dec);
    let mut b = PNCounter::new(r(0));
    b.apply(&dec);
    b.apply(&inc);
    b.apply(&inc);
    assert_eq!(a.tla_state(), b.tla_state());
    assert_eq!(a.value(), 1);
}

#[test]
fn an_op_of_count_zero_stores_no_zero_component() {
    let mut g = GCounter::new(r(0));
    g.increment();
    let before = g.tla_state();
    g.apply(&GCounterOp { replica: r(5), count: 0 });
    assert_eq!(g.tla_state(), before);
    assert!(g.tla_state().counts.get(&5).is_none());
    let mut c = PNCounter::new(r(0));
    c.apply(&PNCounterOp::Dec(GCounterOp { replica: r(3), count: 0 }));
    assert!(c.tla_state().n.counts.is_empty());
}

#[test]
fn duplicates_keep_the_state() {
    let mut g = GCounter::new(r(2));
    g.increment();
    let d = g.duplicate();
    assert_eq!(d.tla_state(), g.tla_state());
    assert_eq!(d.replica(), r(2));
    let mut c = PNCounter::new(r(1));
    c.increment();
    c.decrement();
    c.decrement();
    let e = c.duplicate();
    assert_eq!(e.tla_state(), c.tla_state());
    assert_eq!(e.value(), -1);
}
