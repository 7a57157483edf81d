use axiom_core::{join_in_order, GCounter, GCounterOp, PNCounter, ReplicaId};

fn replicas() -> Vec<GCounter> {
    (0..4u64)
        .map(|i| {
            let mut g = GCounter::new(ReplicaId(i));
            for r in 0..4u64 {
                g.apply(&GCounterOp { replica: ReplicaId(r), count: (i * 3 + r * 5) % 7 });
            }
            g
        })
        .collect()
}

fn join(x: &GCounter, y: &GCounter) -> GCounter {
    let mut z = x.clone();
    z.merge(y);
    z
}

#[test]
fn gcounter_merges_converge_in_any_order() {
    let reps = replicas();
    let a = join_in_order(&reps, &[0, 1, 2, 3], join);
    let b = join_in_order(&reps, &[3, 1, 0, 2], join);
    assert_eq!(a.tla_state(), b.tla_state());
    assert_eq!(a.value(), 6 + 5 + 6 + 4);
}

#[test]
fn single_index_gives_a_copy_of_that_replica() {
    let reps = replicas();
    let a = join_in_order(&reps, &[2], join);
    assert_eq!(a.tla_state(), reps[2].tla_state());
}

#[test]
fn pncounter_merges_converge_in_any_order() {
    let mut reps: Vec<PNCounter> = (0..3u64).map(|i| PNCounter::new(ReplicaId(i))).collect();
    reps[0].increment();
    reps[1].decrement();
    reps[2].increment();
    reps[2].increment();
    let j = |x: &PNCounter, y: &PNCounter| {
        let mut z = x.clone();
        z.merge(y);
        z
    };
    let a = join_in_order(&reps, &[0, 1, 2], j);
    let b = join_in_order(&reps, &[2, 0, 1], j);
    assert_eq!(a.tla_state(), b.tla_state());
    assert_eq!(a.value(), 2);
}
