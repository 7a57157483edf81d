//! The positive-negative counter: two grow-only counters, one counting
//! increments and one counting decrements; the value is their difference.

use vstd::prelude::*;

use crate::gcounter::{apply_spec, lemma_apply_commutes, lemma_apply_idempotent, GCounter, GCounterOp, TlaGCounterState};
use crate::maps::{
    count_of, dominated, join, join_all, lemma_join_all_order_independent, lemma_join_associative,
    lemma_join_commutative, lemma_join_idempotent, lemma_join_least_upper_bound, total,
};
use crate::vector_clock::{normalized, ReplicaId};

verus! {

/// One replica's view of a positive-negative counter.
#[derive(Clone, Debug, PartialEq, Eq)]
pub struct PNCounter {
    p: GCounter,
    n: GCounter,
}

/// An operation to ship to other replicas.
#[derive(Clone, Copy, Debug, PartialEq, Eq, Structural)]
pub enum PNCounterOp {
    Inc(GCounterOp),
    Dec(GCounterOp),
}

/// The abstract state of one replica: both knowledge vectors.
#[derive(Clone, Debug, Default, PartialEq, Eq)]
pub struct TlaPNCounterState {
    pub p: TlaGCounterState,
    pub n: TlaGCounterState,
}

/// `x` read as a two's-complement signed 64-bit integer.
pub open spec fn as_signed(x: u64) -> int {
    if x <= i64::MAX { x as int } else { x - 0x1_0000_0000_0000_0000 }
}

/// The value of a counter whose sides sum to `p` and `n`: `p - n`, each side
/// taken as a signed 64-bit integer.
pub open spec fn pn_value(p: int, n: int) -> int {
    as_signed(p as u64) - as_signed(n as u64)
}

/// The value is defined: each side's sum fits in 64 bits and the difference
/// fits in a signed 64-bit integer.
pub open spec fn pn_value_fits(p: Map<u64, u64>, n: Map<u64, u64>) -> bool {
    &&& total(p) <= u64::MAX
    &&& total(n) <= u64::MAX
    &&& i64::MIN <= pn_value(total(p), total(n)) <= i64::MAX
}

fn to_signed(x: u64) -> (r: i64)
    ensures
        r == as_signed(x),
{
    if x <= 0x7fff_ffff_ffff_ffffu64 {
        x as i64
    } else {
        let low = (x - 0x8000_0000_0000_0000u64) as i64;
        low - 0x7fff_ffff_ffff_ffffi64 - 1
    }
}

impl TlaPNCounterState {
    /// The counter's value `P - N`; it may be negative.
    pub fn value(&self) -> (v: i64)
        requires
            pn_value_fits(self.p.counts@, self.n.counts@),
        ensures
            v == pn_value(total(self.p.counts@), total(self.n.counts@)),
    {
        to_signed(self.p.value()) - to_signed(self.n.value())
    }
}

impl View for PNCounter {
    type V = (Map<u64, u64>, Map<u64, u64>);

    /// The increment vector and the decrement vector.
    closed spec fn view(&self) -> (Map<u64, u64>, Map<u64, u64>) {
        (self.p@, self.n@)
    }
}

impl PNCounter {
    /// Both knowledge vectors have finitely many components.
    pub proof fn lemma_view_finite(&self)
        ensures
            self@.0.dom().finite(),
            self@.1.dom().finite(),
    {
        self.p.lemma_view_finite();
        self.n.lemma_view_finite();
    }

    /// The replica that owns this counter.
    pub closed spec fn owner(&self) -> ReplicaId {
        self.p.owner()
    }

    /// The replica whose component a decrement raises.
    pub closed spec fn dec_owner(&self) -> ReplicaId {
        self.n.owner()
    }

    /// The increment and decrement sides are owned by the same replica, and
    /// neither side stores a zero component.
    pub open spec fn wf(&self) -> bool {
        &&& self.owner() == self.dec_owner()
        &&& normalized(self@.0)
        &&& normalized(self@.1)
    }

    /// A counter owned by `id` with value `0`.
    pub fn new(id: ReplicaId) -> (c: PNCounter)
        ensures
            c@.0 == Map::<u64, u64>::empty(),
            c@.1 == Map::<u64, u64>::empty(),
            c.owner() == id,
            c.wf(),
    {
        PNCounter { p: GCounter::new(id), n: GCounter::new(id) }
    }

    /// A counter whose increment side is `p` and decrement side is `n`.
    pub fn from_sides(p: GCounter, n: GCounter) -> (c: PNCounter)
        ensures
            c@ == (p@, n@),
            c.owner() == p.owner(),
            c.dec_owner() == n.owner(),
    {
        PNCounter { p, n }
    }

    /// A copy of this counter: the same owners and knowledge vectors.
    pub fn duplicate(&self) -> (c: PNCounter)
        ensures
            c@ == self@,
            c.owner() == self.owner(),
            c.dec_owner() == self.dec_owner(),
    {
        PNCounter { p: self.p.duplicate(), n: self.n.duplicate() }
    }

    /// The increment side and the decrement side.
    pub fn sides(&self) -> (r: (&GCounter, &GCounter))
        ensures
            r.0@ == self@.0,
            r.1@ == self@.1,
            r.0.owner() == self.owner(),
            r.1.owner() == self.dec_owner(),
    {
        (&self.p, &self.n)
    }

    /// Count one increment at this replica; returns the op to broadcast.
    pub fn increment(&mut self) -> (op: PNCounterOp)
        requires
            count_of(old(self)@.0, old(self).owner().0) < u64::MAX,
        ensures
            final(self).owner() == old(self).owner(),
            final(self).dec_owner() == old(self).dec_owner(),
            final(self)@.0 == old(self)@.0.insert(old(self).owner().0, (count_of(old(self)@.0, old(self).owner().0) + 1) as u64),
            final(self)@.1 == old(self)@.1,
            op == PNCounterOp::Inc(GCounterOp { replica: old(self).owner(), count: (count_of(old(self)@.0, old(self).owner().0) + 1) as u64 }),
            old(self).wf() ==> final(self).wf(),
    {
        PNCounterOp::Inc(self.p.increment())
    }

    /// Count one decrement at this replica; returns the op to broadcast.
    pub fn decrement(&mut self) -> (op: PNCounterOp)
        requires
            count_of(old(self)@.1, old(self).dec_owner().0) < u64::MAX,
        ensures
            final(self).owner() == old(self).owner(),
            final(self).dec_owner() == old(self).dec_owner(),
            final(self)@.0 == old(self)@.0,
            final(self)@.1 == old(self)@.1.insert(old(self).dec_owner().0, (count_of(old(self)@.1, old(self).dec_owner().0) + 1) as u64),
            op == PNCounterOp::Dec(GCounterOp { replica: old(self).dec_owner(), count: (count_of(old(self)@.1, old(self).dec_owner().0) + 1) as u64 }),
            old(self).wf() ==> final(self).wf(),
    {
        PNCounterOp::Dec(self.n.increment())
    }

    /// The counter's value `P - N`; it may be negative.
    pub fn value(&self) -> (v: i64)
        requires
            pn_value_fits(self@.0, self@.1),
        ensures
            v == pn_value(total(self@.0), total(self@.1)),
    {
        to_signed(self.p.value()) - to_signed(self.n.value())
    }

    /// Apply a remote op to the side it names.
    pub fn apply(&mut self, op: &PNCounterOp)
        ensures
            final(self).owner() == old(self).owner(),
            final(self).dec_owner() == old(self).dec_owner(),
            final(self)@ == pn_apply(old(self)@, *op),
            old(self).wf() ==> final(self).wf(),
    {
        match op {
            PNCounterOp::Inc(o) => self.p.apply(o),
            PNCounterOp::Dec(o) => self.n.apply(o),
        }
    }

    /// Merge another replica's state: both sides by the component-wise
    /// maximum.
    pub fn merge(&mut self, other: &PNCounter)
        ensures
            final(self).owner() == old(self).owner(),
            final(self).dec_owner() == old(self).dec_owner(),
            final(self)@ == (join(old(self)@.0, other@.0), join(old(self)@.1, other@.1)),
            old(self).wf() && normalized(other@.0) && normalized(other@.1) ==> final(self).wf(),
    {
        self.p.merge(&other.p);
        self.n.merge(&other.n);
    }

    /// The abstract state this replica stands for.
    pub fn tla_state(&self) -> (s: TlaPNCounterState)
        ensures
            s.p.counts@ == self@.0,
            s.n.counts@ == self@.1,
    {
        TlaPNCounterState { p: self.p.tla_state(), n: self.n.tla_state() }
    }
}

/// The state after applying `op`: the side it names takes the op.
pub open spec fn pn_apply(s: (Map<u64, u64>, Map<u64, u64>), op: PNCounterOp) -> (Map<u64, u64>, Map<u64, u64>) {
    match op {
        PNCounterOp::Inc(o) => (apply_spec(s.0, o.replica.0, o.count), s.1),
        PNCounterOp::Dec(o) => (s.0, apply_spec(s.1, o.replica.0, o.count)),
    }
}

/// Applying two ops in either order gives the same state, and applying an
/// op a second time changes nothing.
pub proof fn lemma_pn_apply_commutes(s: (Map<u64, u64>, Map<u64, u64>), a: PNCounterOp, b: PNCounterOp)
    ensures
        pn_apply(pn_apply(s, a), b) == pn_apply(pn_apply(s, b), a),
        pn_apply(pn_apply(s, a), a) == pn_apply(s, a),
{
    match (a, b) {
        (PNCounterOp::Inc(x), PNCounterOp::Inc(y)) => {
            lemma_apply_commutes(s.0, x.replica.0, x.count, y.replica.0, y.count);
        },
        (PNCounterOp::Dec(x), PNCounterOp::Dec(y)) => {
            lemma_apply_commutes(s.1, x.replica.0, x.count, y.replica.0, y.count);
        },
        _ => {},
    }
    match a {
        PNCounterOp::Inc(x) => {
            lemma_apply_idempotent(s.0, x.replica.0, x.count);
        },
        PNCounterOp::Dec(x) => {
            lemma_apply_idempotent(s.1, x.replica.0, x.count);
        },
    }
}

/// The merge of two replica states, side by side.
pub open spec fn pn_join(a: (Map<u64, u64>, Map<u64, u64>), b: (Map<u64, u64>, Map<u64, u64>)) -> (Map<u64, u64>, Map<u64, u64>) {
    (join(a.0, b.0), join(a.1, b.1))
}

/// Merging does not depend on the order of the two sides, nor on how three
/// merges are grouped; merging a state with itself changes nothing; and the
/// merge is at least each side, on both the increment and the decrement side.
pub proof fn lemma_pn_merge_laws(a: (Map<u64, u64>, Map<u64, u64>), b: (Map<u64, u64>, Map<u64, u64>), c: (Map<u64, u64>, Map<u64, u64>))
    ensures
        pn_join(a, b) == pn_join(b, a),
        pn_join(pn_join(a, b), c) == pn_join(a, pn_join(b, c)),
        pn_join(a, a) == a,
        dominated(a.0, pn_join(a, b).0) && dominated(b.0, pn_join(a, b).0),
        dominated(a.1, pn_join(a, b).1) && dominated(b.1, pn_join(a, b).1),
{
    lemma_join_commutative(a.0, b.0);
    lemma_join_commutative(a.1, b.1);
    lemma_join_associative(a.0, b.0, c.0);
    lemma_join_associative(a.1, b.1, c.1);
    lemma_join_idempotent(a.0);
    lemma_join_idempotent(a.1);
    lemma_join_least_upper_bound(a.0, b.0, a.0);
    lemma_join_least_upper_bound(a.1, b.1, a.1);
}

/// Merging a list of replica states one after the other, starting from
/// nothing.
pub open spec fn pn_join_all(ss: Seq<(Map<u64, u64>, Map<u64, u64>)>) -> (Map<u64, u64>, Map<u64, u64>) {
    (join_all(ss.map_values(|s: (Map<u64, u64>, Map<u64, u64>)| s.0)), join_all(ss.map_values(|s: (Map<u64, u64>, Map<u64, u64>)| s.1)))
}

/// Every merge order of the same replicas converges to the same state.
pub proof fn lemma_pn_join_all_order_independent(ss1: Seq<(Map<u64, u64>, Map<u64, u64>)>, ss2: Seq<(Map<u64, u64>, Map<u64, u64>)>)
    requires
        ss1.to_set() == ss2.to_set(),
    ensures
        pn_join_all(ss1) == pn_join_all(ss2),
{
    let f0 = |s: (Map<u64, u64>, Map<u64, u64>)| s.0;
    let f1 = |s: (Map<u64, u64>, Map<u64, u64>)| s.1;
    lemma_map_values_same_set(ss1, ss2, f0);
    lemma_map_values_same_set(ss1, ss2, f1);
    lemma_join_all_order_independent(ss1.map_values(f0), ss2.map_values(f0));
    lemma_join_all_order_independent(ss1.map_values(f1), ss2.map_values(f1));
}

proof fn lemma_map_values_same_set(ss1: Seq<(Map<u64, u64>, Map<u64, u64>)>, ss2: Seq<(Map<u64, u64>, Map<u64, u64>)>, f: spec_fn((Map<u64, u64>, Map<u64, u64>)) -> Map<u64, u64>)
    requires
        ss1.to_set() == ss2.to_set(),
    ensures
        ss1.map_values(f).to_set() == ss2.map_values(f).to_set(),
{
    assert forall|m: Map<u64, u64>| ss1.map_values(f).to_set().contains(m) implies ss2.map_values(f).to_set().contains(m) by {
        let i = choose|i: int| 0 <= i < ss1.len() && ss1.map_values(f)[i] == m;
        assert(ss1.to_set().contains(ss1[i]));
        let j = choose|j: int| 0 <= j < ss2.len() && ss2[j] == ss1[i];
        assert(ss2.map_values(f)[j] == m);
    }
    assert forall|m: Map<u64, u64>| ss2.map_values(f).to_set().contains(m) implies ss1.map_values(f).to_set().contains(m) by {
        let j = choose|j: int| 0 <= j < ss2.len() && ss2.map_values(f)[j] == m;
        assert(ss2.to_set().contains(ss2[j]));
        let i = choose|i: int| 0 <= i < ss1.len() && ss1[i] == ss2[j];
        assert(ss1.map_values(f)[i] == m);
    }
    assert(ss1.map_values(f).to_set() =~= ss2.map_values(f).to_set());
}

} // verus!
