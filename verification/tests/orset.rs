use axiom_core::{ORSet, ORSetOp};

#[test]
fn add_then_contains() {
    let mut s = ORSet::new();
    assert!(!s.contains(&7u8));
    s.add(7u8);
    assert!(s.contains(&7u8));
    assert_eq!(s.len(), 1);
}

#[test]
fn concurrent_add_beats_remove() {
    let mut a = ORSet::new();
    a.add(7u8);
    let mut b = a.clone();
    a.add(7u8);
    b.remove(&7u8);
    let mut m = a.clone();
    m.merge(&b);
    assert!(m.contains(&7u8));
}

#[test]
fn remove_wins_when_it_observed_the_add() {
    let mut a = ORSet::new();
    a.add(7u8);
    let mut b = a.clone();
    b.remove(&7u8);
    let mut m = a.clone();
    m.merge(&b);
    assert!(!m.contains(&7u8));
}

#[test]
fn iter_lists_distinct_present_elements_in_order() {
    let mut s = ORSet::new();
    s.add(3u8);
    s.add(1u8);
    s.add(3u8);
    s.add(2u8);
    s.remove(&2u8);
    let v: Vec<u8> = s.iter().into_iter().copied().collect();
    assert_eq!(v, vec![1, 3]);
    assert_eq!(s.len(), 2);
    assert!(!s.is_empty());
    assert!(ORSet::<u8>::new().is_empty());
}

#[test]
fn tags_carry_the_random_uuid_bits() {
    let mut s = ORSet::new();
    let a = s.add(1u8);
    let b = s.add(1u8);
    match (a, b) {
        (ORSetOp::Add { element: e1, tag: t1 }, ORSetOp::Add { element: e2, tag: t2 }) => {
            assert_eq!((e1, e2), (1, 1));
            let mask = 0x0000_0000_0000_f000_c000_0000_0000_0000u128;
            let bits = 0x0000_0000_0000_4000_8000_0000_0000_0000u128;
            assert_eq!(t1 & mask, bits);
            assert_eq!(t2 & mask, bits);
            assert_ne!(t1, t2);
        }
        _ => panic!("add must return an Add op"),
    }
}

#[test]
fn remove_and_apply_ship_the_observed_tags() {
    let mut a = ORSet::new();
    let add = a.add(4u8);
    let mut b = ORSet::new();
    b.apply(&add);
    assert!(b.contains(&4u8));
    let rm = a.remove(&4u8);
    match &rm {
        ORSetOp::Remove { tags } => assert_eq!(tags.len(), 1),
        _ => panic!("remove must return a Remove op"),
    }
    b.apply(&rm);
    assert!(!b.contains(&4u8));
    assert_eq!(a.tla_state(), b.tla_state());
    let st = b.tla_state();
    assert!(st.removed.iter().all(|t| st.added.iter().any(|(_, u)| u == t)));
}

#[test]
fn orset_merges_converge_in_any_order_and_are_idempotent() {
    let mut a = ORSet::new();
    a.add(1u8);
    a.add(2u8);
    let mut b = ORSet::new();
    b.add(2u8);
    b.add(3u8);
    b.remove(&2u8);
    let mut c = ORSet::new();
    c.add(4u8);
    let mut abc = a.clone();
    abc.merge(&b);
    abc.merge(&c);
    let mut cba = c.clone();
    cba.merge(&b);
    cba.merge(&a);
    assert_eq!(abc.tla_state(), cba.tla_state());
    let v: Vec<u8> = abc.iter().into_iter().copied().collect();
    assert_eq!(v, vec![1, 2, 3, 4]);
    let mut again = abc.clone();
    again.merge(&abc);
    assert_eq!(again.tla_state(), abc.tla_state());
}

#[test]
fn a_default_set_is_empty() {
    let s: ORSet<u8> = ORSet::default();
    assert!(s.is_empty());
    assert_eq!(s.tla_state(), ORSet::<u8>::new().tla_state());
}

#[test]
fn ops_applied_in_either_order_or_twice_give_the_same_state() {
    let mut src = ORSet::new();
    let add1 = src.add(1u8);
    let add2 = src.add(2u8);
    let rm1 = src.remove(&1u8);
    let mut a = ORSet::new();
    a.apply(&add1);
    a.apply(&add2);
    a.apply(&rm1);
    let mut b = ORSet::new();
    b.apply(&rm1);
    b.apply(&add2);
    b.apply(&add1);
    b.apply(&add1);
    assert_eq!(a.tla_state(), b.tla_state());
    assert_eq!(a.tla_state(), src.tla_state());
    assert!(!a.contains(&1u8));
    assert!(a.contains(&2u8));
}

#[test]
fn a_duplicate_holds_the_same_adds_and_tombstones() {
    let mut s = ORSet::new();
    s.add(1u8);
    s.add(2u8);
    s.remove(&1u8);
    let d = s.duplicate();
    assert_eq!(d.tla_state(), s.tla_state());
    assert!(d.contains(&2u8));
    assert!(!d.contains(&1u8));
}
