use axiom_core::{ElementId, Hlc, ReplicaId, Rga};

fn rid(n: u64) -> ReplicaId {
    ReplicaId(n)
}

fn seq(r: &Rga<char>) -> String {
    r.to_vec().into_iter().collect()
}

#[test]
fn insert_after_same_reference_orders_newest_first() {
    let mut r = Rga::new(rid(1));
    r.insert(0, 'a');
    r.insert(1, 'b');
    r.insert(1, 'c');
    assert_eq!(seq(&r), "acb");
}

#[test]
fn delete_tombstones_but_keeps_following_order() {
    let mut r = Rga::new(rid(1));
    r.insert(0, 'a');
    let b = r.insert(1, 'b');
    r.insert(2, 'c');
    r.delete(b);
    assert_eq!(seq(&r), "ac");
}

#[test]
fn long_linear_chain_does_not_overflow_the_stack() {
    let mut r = Rga::new(rid(1));
    let mut prev = None;
    for _ in 0..100_000u32 {
        prev = Some(r.insert_after(prev, 'x'));
    }
    assert_eq!(r.to_vec().len(), 100_000);
    assert_eq!(r.len(), 100_000);
}

fn id(counter: u32, replica: u64) -> ElementId {
    ElementId { hlc: Hlc { wall: 0, counter }, replica: rid(replica) }
}

#[test]
fn siblings_come_largest_id_first_and_subtrees_stay_together() {
    let mut r = Rga::new(rid(9));
    r.insert_after_with_id(id(1, 1), None, 'a');
    r.insert_after_with_id(id(2, 1), Some(id(1, 1)), 'b');
    r.insert_after_with_id(id(3, 1), Some(id(1, 1)), 'c');
    r.insert_after_with_id(id(4, 1), Some(id(2, 1)), 'd');
    r.insert_after_with_id(id(5, 2), None, 'e');
    assert_eq!(seq(&r), "eacbd");
    assert_eq!(r.ids(), vec![id(5, 2), id(1, 1), id(3, 1), id(2, 1), id(4, 1)]);
}

#[test]
fn merge_converges_in_either_order() {
    let mut a = Rga::new(rid(1));
    let mut b = Rga::new(rid(2));
    let x = a.insert(0, 'x');
    b.merge(&a);
    a.insert_after(Some(x), 'a');
    b.insert_after(Some(x), 'b');
    b.delete(x);
    let mut ab = a.clone();
    ab.merge(&b);
    let mut ba = b.clone();
    ba.merge(&a);
    assert_eq!(seq(&ab), seq(&ba));
    assert_eq!(ab.tla_state(), ba.tla_state());
    assert_eq!(ab.len(), 2);
    let mut again = ab.clone();
    again.merge(&ab);
    assert_eq!(again.tla_state(), ab.tla_state());
}

#[test]
fn merge_moves_the_clock_past_merged_ids() {
    let mut a = Rga::new(rid(1));
    a.insert_after_with_id(
        ElementId { hlc: Hlc { wall: u64::MAX - 1, counter: 3 }, replica: rid(7) },
        None,
        'z',
    );
    let mut b = Rga::new(rid(2));
    b.merge(&a);
    let fresh = b.insert(1, 'y');
    assert_eq!(fresh.hlc, Hlc { wall: u64::MAX - 1, counter: 5 });
    assert_eq!(seq(&b), "zy");
}

#[test]
fn insert_index_past_the_end_appends_and_delete_of_absent_id_does_nothing() {
    let mut r = Rga::new(rid(3));
    r.insert(0, 'a');
    r.insert(10, 'b');
    assert_eq!(seq(&r), "ab");
    r.delete(id(1, 42));
    assert_eq!(r.tla_state().tombstones.len(), 0);
    assert!(!r.is_empty());
    assert!(Rga::<char>::new(rid(0)).is_empty());
}

#[test]
fn merge_is_idempotent_and_the_sequence_lists_each_live_element_once() {
    let mut a = Rga::new(rid(1));
    let x = a.insert(0, 'x');
    let y = a.insert(1, 'y');
    let z = a.insert(2, 'z');
    a.delete(y);
    let before = a.tla_state();
    let copy = a.clone();
    a.merge(&copy);
    assert_eq!(a.tla_state(), before);
    assert_eq!(seq(&a), "xz");
    assert_eq!(a.len(), 2);
    assert_eq!(a.ids(), vec![x, z]);
}

#[test]
fn merging_a_duplicate_with_its_source_changes_nothing() {
    let mut a = Rga::new(rid(1));
    let x = a.insert(0, 'x');
    a.insert(1, 'y');
    a.delete(x);
    let mut aa = a.duplicate();
    assert_eq!(aa.tla_state(), a.tla_state());
    aa.merge(&a);
    assert_eq!(aa.tla_state(), a.tla_state());
    assert_eq!(aa.to_vec(), a.to_vec());
}

#[test]
fn merge_order_does_not_change_the_visible_sequence() {
    let mut a = Rga::new(rid(1));
    let mut b = Rga::new(rid(2));
    let x = a.insert(0, 'x');
    a.insert(1, 'y');
    b.insert(0, 'p');
    let q = b.insert(1, 'q');
    b.delete(q);
    a.delete(x);
    let mut ab = a.duplicate();
    ab.merge(&b);
    let mut ba = b.duplicate();
    ba.merge(&a);
    assert_eq!(ab.to_vec(), ba.to_vec());
    assert_eq!(ab.tla_state(), ba.tla_state());
}

#[test]
fn ids_issued_after_a_merge_are_newer_than_the_merged_ones() {
    let mut a = Rga::new(rid(1));
    let mut b = Rga::new(rid(2));
    for i in 0..5u32 {
        b.insert_after_with_id(
            ElementId { hlc: Hlc { wall: u64::MAX / 2, counter: i }, replica: rid(2) },
            None,
            'b',
        );
    }
    a.merge(&b);
    let id = a.insert(0, 'a');
    for k in b.tla_state().elements.keys() {
        assert!((id.hlc.wall, id.hlc.counter) > (k.0, k.1));
    }
}

#[test]
fn replicas_that_merged_different_states_agree_on_shared_order() {
    let mut a = Rga::new(rid(1));
    let x = a.insert(0, 'x');
    let y = a.insert(1, 'y');
    let mut b = Rga::new(rid(2));
    b.merge(&a);
    let z = b.insert(1, 'z');
    a.insert(0, 'w');
    b.delete(y);
    let ia = a.ids();
    let ib = b.ids();
    let pos = |v: &Vec<ElementId>, e: ElementId| v.iter().position(|&f| f == e).unwrap();
    assert!(pos(&ia, x) < pos(&ia, y));
    assert!(ib.contains(&x) && ib.contains(&z) && !ib.contains(&y));
    assert_eq!(ib, vec![x, z]);
}

#[test]
fn local_inserts_get_ids_not_yet_present() {
    let mut a = Rga::new(rid(1));
    let mut seen = Vec::new();
    for i in 0..20usize {
        let id = a.insert(i / 2, 'c');
        assert!(!seen.contains(&id));
        seen.push(id);
    }
    assert_eq!(a.len(), 20);
}

#[test]
fn an_insert_lands_at_its_index_and_keeps_the_rest_in_order() {
    let mut a = Rga::new(rid(1));
    let mut b = Rga::new(rid(2));
    b.insert(0, 'p');
    b.insert(1, 'q');
    a.merge(&b);
    a.insert(1, 'x');
    assert_eq!(seq(&a), "pxq");
    let before = a.ids();
    let id = a.insert(2, 'y');
    let after = a.ids();
    assert_eq!(seq(&a), "pxyq");
    let mut expected = before.clone();
    expected.insert(2, id);
    assert_eq!(after, expected);
    a.insert(99, 'z');
    assert_eq!(seq(&a), "pxyqz");
}
