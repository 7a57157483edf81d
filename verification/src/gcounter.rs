//! The grow-only counter. Each replica owns one component of a knowledge
//! vector and only ever raises its own; the value is the sum of all
//! components, and two replicas reconcile by the component-wise maximum.

use std::collections::BTreeMap;

use vstd::prelude::*;

use crate::maps::{count_of, join, join_into, max_nat, sum_counts, total};
use crate::vector_clock::{normalized, ReplicaId};

verus! {

broadcast use vstd::std_specs::btree::group_btree_axioms, vstd::laws_cmp::group_laws_cmp;

/// One replica's view of a grow-only counter.
#[derive(Clone, Debug, PartialEq, Eq)]
pub struct GCounter {
    id: ReplicaId,
    counts: BTreeMap<u64, u64>,
}

/// An operation to ship to other replicas: `replica` has counted `count`.
#[derive(Clone, Copy, Debug, PartialEq, Eq, Structural)]
pub struct GCounterOp {
    pub replica: ReplicaId,
    pub count: u64,
}

/// The abstract state of one replica: its knowledge vector.
#[derive(Clone, Debug, Default, PartialEq, Eq)]
pub struct TlaGCounterState {
    pub counts: BTreeMap<u64, u64>,
}

impl TlaGCounterState {
    /// The counter's value: the sum of all components.
    pub fn value(&self) -> (v: u64)
        requires
            total(self.counts@) <= u64::MAX,
        ensures
            v == total(self.counts@),
    {
        sum_counts(&self.counts)
    }
}

/// The effect of applying `op` to the knowledge vector `m`: the op's
/// component becomes the larger of the two; an op of count `0` changes
/// nothing, so no zero component is ever stored.
pub open spec fn apply_spec(m: Map<u64, u64>, replica: u64, count: u64) -> Map<u64, u64> {
    if count == 0 {
        m
    } else {
        m.insert(replica, max_nat(count_of(m, replica), count as nat) as u64)
    }
}

/// Merging two knowledge vectors that store no zero gives one that stores
/// no zero.
pub proof fn lemma_join_keeps_normalized(a: Map<u64, u64>, b: Map<u64, u64>)
    requires
        normalized(a),
        normalized(b),
    ensures
        normalized(join(a, b)),
{
    assert forall|k: u64| #[trigger] join(a, b).contains_key(k) implies join(a, b)[k] > 0 by {
        if a.contains_key(k) {
            assert(count_of(a, k) > 0);
        } else {
            assert(count_of(b, k) > 0);
        }
    }
}

impl View for GCounter {
    type V = Map<u64, u64>;

    /// The knowledge vector, keyed by replica number.
    closed spec fn view(&self) -> Map<u64, u64> {
        self.counts@
    }
}

impl GCounter {
    /// A knowledge vector has finitely many components.
    pub proof fn lemma_view_finite(&self)
        ensures
            self@.dom().finite(),
    {
    }

    /// The replica that owns this counter.
    pub closed spec fn owner(&self) -> ReplicaId {
        self.id
    }

    /// The knowledge vector stores no zero component.
    pub open spec fn wf(&self) -> bool {
        normalized(self@)
    }

    /// A counter owned by `id`, with every component zero.
    pub fn new(id: ReplicaId) -> (c: GCounter)
        ensures
            c@ == Map::<u64, u64>::empty(),
            c.owner() == id,
            c.wf(),
    {
        GCounter { id, counts: BTreeMap::new() }
    }

    /// A counter owned by `id` whose knowledge vector is `counts`.
    pub fn from_parts(id: ReplicaId, counts: BTreeMap<u64, u64>) -> (c: GCounter)
        ensures
            c@ == counts@,
            c.owner() == id,
    {
        GCounter { id, counts }
    }

    /// The replica that owns this counter.
    pub fn replica(&self) -> (r: ReplicaId)
        ensures
            r == self.owner(),
    {
        self.id
    }

    /// A copy of this counter: the same owner and knowledge vector.
    pub fn duplicate(&self) -> (c: GCounter)
        ensures
            c@ == self@,
            c.owner() == self.owner(),
    {
        GCounter { id: self.id, counts: self.counts.clone() }
    }

    /// Raise this replica's own component by one; returns the op to
    /// broadcast.
    pub fn increment(&mut self) -> (op: GCounterOp)
        requires
            count_of(old(self)@, old(self).owner().0) < u64::MAX,
        ensures
            final(self).owner() == old(self).owner(),
            final(self)@ == old(self)@.insert(old(self).owner().0, (count_of(old(self)@, old(self).owner().0) + 1) as u64),
            op == (GCounterOp { replica: old(self).owner(), count: (count_of(old(self)@, old(self).owner().0) + 1) as u64 }),
            old(self).wf() ==> final(self).wf(),
    {
        let c = match self.counts.get(&self.id.0) {
            Some(c) => *c,
            None => 0,
        };
        self.counts.insert(self.id.0, c + 1);
        GCounterOp { replica: self.id, count: c + 1 }
    }

    /// The counter's value: the sum of all components.
    pub fn value(&self) -> (v: u64)
        requires
            total(self@) <= u64::MAX,
        ensures
            v == total(self@),
    {
        sum_counts(&self.counts)
    }

    /// Apply a remote op: the op's component becomes the larger of the two.
    pub fn apply(&mut self, op: &GCounterOp)
        ensures
            final(self).owner() == old(self).owner(),
            final(self)@ == apply_spec(old(self)@, op.replica.0, op.count),
            old(self).wf() ==> final(self).wf(),
    {
        if op.count == 0 {
            return;
        }
        let mine = match self.counts.get(&op.replica.0) {
            Some(c) => *c,
            None => 0,
        };
        let larger = if mine >= op.count { mine } else { op.count };
        self.counts.insert(op.replica.0, larger);
    }

    /// Merge another replica's state by the component-wise maximum.
    pub fn merge(&mut self, other: &GCounter)
        ensures
            final(self).owner() == old(self).owner(),
            final(self)@ == join(old(self)@, other@),
            old(self).wf() && other.wf() ==> final(self).wf(),
    {
        join_into(&mut self.counts, &other.counts);
        proof {
            if old(self).wf() && other.wf() {
                lemma_join_keeps_normalized(old(self)@, other@);
            }
        }
    }

    /// The abstract state this replica stands for.
    pub fn tla_state(&self) -> (s: TlaGCounterState)
        ensures
            s.counts@ == self@,
    {
        TlaGCounterState { counts: self.counts.clone() }
    }
}

/// Applying the same op twice is applying it once.
pub proof fn lemma_apply_idempotent(m: Map<u64, u64>, replica: u64, count: u64)
    ensures
        apply_spec(apply_spec(m, replica, count), replica, count) == apply_spec(m, replica, count),
{
    assert(apply_spec(apply_spec(m, replica, count), replica, count) =~= apply_spec(m, replica, count));
}

/// Applying two ops in either order gives the same state, so out-of-order
/// delivery converges.
pub proof fn lemma_apply_commutes(m: Map<u64, u64>, r1: u64, c1: u64, r2: u64, c2: u64)
    ensures
        apply_spec(apply_spec(m, r1, c1), r2, c2) == apply_spec(apply_spec(m, r2, c2), r1, c1),
{
    assert(apply_spec(apply_spec(m, r1, c1), r2, c2) =~= apply_spec(apply_spec(m, r2, c2), r1, c1));
}

/// Applying, one after the other, the ops `(k, b[k])` for the keys `ks`.
pub open spec fn apply_entries(a: Map<u64, u64>, b: Map<u64, u64>, ks: Seq<u64>) -> Map<u64, u64>
    decreases ks.len(),
{
    if ks.len() == 0 {
        a
    } else {
        apply_spec(apply_entries(a, b, ks.drop_last()), ks.last(), b[ks.last()])
    }
}

/// Applying one op per component of another replica's state is merging
/// that state: the op-based and the state-based paths agree.
pub proof fn lemma_apply_entries_is_merge(a: Map<u64, u64>, b: Map<u64, u64>, ks: Seq<u64>)
    requires
        ks.to_set() == b.dom(),
        normalized(b),
    ensures
        apply_entries(a, b, ks) == join(a, b),
{
    lemma_apply_entries_prefix(a, b, ks);
    assert(apply_entries(a, b, ks) =~= join(a, b.restrict(ks.to_set())));
    assert(b.restrict(ks.to_set()) =~= b);
}

proof fn lemma_apply_entries_prefix(a: Map<u64, u64>, b: Map<u64, u64>, ks: Seq<u64>)
    requires
        ks.to_set().subset_of(b.dom()),
        normalized(b),
    ensures
        apply_entries(a, b, ks) == join(a, b.restrict(ks.to_set())),
    decreases ks.len(),
{
    if ks.len() == 0 {
        assert(b.restrict(ks.to_set()) =~= Map::empty());
        assert(join(a, Map::empty()) =~= a);
    } else {
        let init = ks.drop_last();
        assert(ks =~= init.push(ks.last()));
        init.lemma_push_to_set_commute(ks.last());
        assert(init.to_set().subset_of(ks.to_set()));
        lemma_apply_entries_prefix(a, b, init);
        assert(ks.to_set().contains(ks.last()));
        assert(b[ks.last()] > 0);
        assert(apply_entries(a, b, ks) =~= join(a, b.restrict(ks.to_set())));
    }
}

/// A merge never invents an increment: in a system of replicas (replica
/// number to knowledge vector), no replica believes that a replica `s` has
/// counted more than `s` itself has.
pub open spec fn no_fabrication(states: Map<u64, Map<u64, u64>>) -> bool {
    forall|r: u64, s: u64| states.contains_key(r) && states.contains_key(s)
        ==> #[trigger] count_of(states[r], s) <= count_of(#[trigger] states[s], s)
}

/// A replica counting one increment of its own keeps the system free of
/// fabricated increments.
pub proof fn lemma_increment_keeps_no_fabrication(states: Map<u64, Map<u64, u64>>, r: u64)
    requires
        no_fabrication(states),
        states.contains_key(r),
        count_of(states[r], r) < u64::MAX,
    ensures
        no_fabrication(states.insert(r, states[r].insert(r, (count_of(states[r], r) + 1) as u64))),
{
    let post = states.insert(r, states[r].insert(r, (count_of(states[r], r) + 1) as u64));
    assert forall|a: u64, s: u64| post.contains_key(a) && post.contains_key(s)
        implies #[trigger] count_of(post[a], s) <= count_of(#[trigger] post[s], s) by {
        assert(count_of(states[a], s) <= count_of(states[s], s));
    }
}

/// A replica merging another replica's state keeps the system free of
/// fabricated increments.
pub proof fn lemma_merge_keeps_no_fabrication(states: Map<u64, Map<u64, u64>>, r: u64, q: u64)
    requires
        no_fabrication(states),
        states.contains_key(r),
        states.contains_key(q),
    ensures
        no_fabrication(states.insert(r, join(states[r], states[q]))),
{
    let post = states.insert(r, join(states[r], states[q]));
    assert forall|a: u64, s: u64| post.contains_key(a) && post.contains_key(s)
        implies #[trigger] count_of(post[a], s) <= count_of(#[trigger] post[s], s) by {
        assert(count_of(states[a], s) <= count_of(states[s], s));
        assert(count_of(states[q], s) <= count_of(states[s], s));
        assert(count_of(states[r], s) <= count_of(states[s], s));
        if s == r {
            assert(count_of(post[s], s) >= count_of(states[s], s));
        }
    }
}

} // verus!
