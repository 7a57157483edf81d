//! Vector clocks for tracking causality between replicas.
//!
//! A [`VectorClock`] maps each [`ReplicaId`] to the number of events that
//! replica has produced, to the knowledge of this replica; a missing entry
//! means zero. It induces
//! a partial order: `a` happens-before `b` when every component of `a` is at
//! most the matching one of `b` and the clocks differ. Clocks that are neither
//! below nor above each other are concurrent. Components equal to zero are
//! never stored, so two clocks hold the same entries exactly when they record
//! the same counts.

use std::cmp::Ordering;
use std::collections::BTreeMap;

use vstd::prelude::*;

use crate::maps::{count_keys, count_of, dominated, max_nat};

verus! {

broadcast use vstd::std_specs::btree::group_btree_axioms, vstd::laws_cmp::group_laws_cmp;

/// Identifier of a replica.
#[derive(Clone, Copy, Debug, PartialEq, Eq, PartialOrd, Ord, Hash, Structural)]
pub struct ReplicaId(pub u64);

/// A vector clock: `replica -> event count`, missing entries meaning `0`.
#[derive(Clone, Debug, Default)]
pub struct VectorClock {
    entries: BTreeMap<u64, u64>,
}

/// Component-wise maximum of two clocks, where a zero component of `b` adds
/// no entry.
pub open spec fn clock_join(a: Map<u64, u64>, b: Map<u64, u64>) -> Map<u64, u64> {
    Map::new(
        |k: u64| a.contains_key(k) || (b.contains_key(k) && b[k] > 0),
        |k: u64| max_nat(count_of(a, k), count_of(b, k)) as u64,
    )
}

/// No component of the clock is stored as zero.
pub open spec fn normalized(m: Map<u64, u64>) -> bool {
    forall|k: u64| #[trigger] m.contains_key(k) ==> m[k] > 0
}

/// The vector-clock partial order as an `Option<Ordering>`: `None` when the
/// clocks are concurrent.
pub open spec fn clock_order(a: Map<u64, u64>, b: Map<u64, u64>) -> Option<Ordering> {
    if dominated(a, b) && dominated(b, a) {
        Some(Ordering::Equal)
    } else if dominated(a, b) {
        Some(Ordering::Less)
    } else if dominated(b, a) {
        Some(Ordering::Greater)
    } else {
        None
    }
}

/// `a` strictly happens-before `b`.
pub open spec fn happens_before_spec(a: Map<u64, u64>, b: Map<u64, u64>) -> bool {
    dominated(a, b) && !dominated(b, a)
}

/// Neither clock is below or equal to the other.
pub open spec fn concurrent_spec(a: Map<u64, u64>, b: Map<u64, u64>) -> bool {
    !dominated(a, b) && !dominated(b, a)
}

impl View for VectorClock {
    type V = Map<u64, u64>;

    /// The stored components, keyed by the replica's number.
    closed spec fn view(&self) -> Map<u64, u64> {
        self.entries@
    }
}

impl VectorClock {
    /// A clock records finitely many components.
    pub proof fn lemma_view_finite(&self)
        ensures
            self@.dom().finite(),
    {
    }

    /// The clock's stored components hold no zero.
    pub open spec fn wf(&self) -> bool {
        normalized(self@)
    }

    /// The empty clock (every component is `0`).
    pub fn new() -> (c: VectorClock)
        ensures
            c@ == Map::<u64, u64>::empty(),
            c.wf(),
    {
        VectorClock { entries: BTreeMap::new() }
    }

    /// A copy of this clock.
    pub fn copy_clock(&self) -> (c: VectorClock)
        ensures
            c@ == self@,
    {
        VectorClock { entries: self.entries.clone() }
    }

    /// The count this clock records for `replica` (`0` if unknown).
    pub fn get(&self, replica: ReplicaId) -> (n: u64)
        ensures
            n == count_of(self@, replica.0),
    {
        match self.entries.get(&replica.0) {
            Some(c) => *c,
            None => 0,
        }
    }

    /// Record one new event at `replica`, advancing its component by one.
    pub fn increment(&mut self, replica: ReplicaId)
        requires
            count_of(old(self)@, replica.0) < u64::MAX,
        ensures
            final(self)@ == old(self)@.insert(replica.0, (count_of(old(self)@, replica.0) + 1) as u64),
            old(self).wf() ==> final(self).wf(),
    {
        let c = self.get(replica);
        self.entries.insert(replica.0, c + 1);
    }

    /// Merge `other` into `self` by taking the component-wise maximum (the
    /// join in the vector-clock lattice).
    pub fn merge(&mut self, other: &VectorClock)
        ensures
            final(self)@ == clock_join(old(self)@, other@),
            old(self).wf() ==> final(self).wf(),
    {
        let keys = count_keys(&other.entries);
        let ghost start = self@;
        let mut i: usize = 0;
        while i < keys.len()
            invariant
                i <= keys@.len(),
                keys@.to_set() == other@.dom(),
                keys@.no_duplicates(),
                self@ == clock_join(start, other@.restrict(keys@.take(i as int).to_set())),
                normalized(start) ==> normalized(self@),
            decreases keys.len() - i,
        {
            let k = keys[i];
            assert(keys@.to_set().contains(k));
            let count = match other.entries.get(&k) {
                Some(c) => *c,
                None => 0,
            };
            let ghost before = self@;
            if count != 0 {
                let mine = match self.entries.get(&k) {
                    Some(c) => *c,
                    None => 0,
                };
                let larger = if mine >= count { mine } else { count };
                self.entries.insert(k, larger);
            }
            proof {
                let done = keys@.take(i as int).to_set();
                let next = keys@.take(i + 1).to_set();
                assert(next =~= done.insert(k)) by {
                    assert(keys@.take(i + 1) =~= keys@.take(i as int).push(k));
                    keys@.take(i as int).lemma_push_to_set_commute(k);
                }
                assert(!done.contains(k)) by {
                    if done.contains(k) {
                        let j = choose|j: int| 0 <= j < i && keys@.take(i as int)[j] == k;
                        assert(keys@[j] == keys@[i as int]);
                    }
                }
                assert(self@ =~= clock_join(start, other@.restrict(next)));
            }
            i += 1;
        }
        proof {
            assert(keys@.take(keys@.len() as int) =~= keys@);
            assert(other@.restrict(other@.dom()) =~= other@);
        }
    }

    /// `true` iff `self` strictly happens-before `other`.
    pub fn happens_before(&self, other: &VectorClock) -> (b: bool)
        ensures
            b == happens_before_spec(self@, other@),
    {
        let (self_greater, other_greater) = self.exceeds_either_way(other);
        !self_greater && other_greater
    }

    /// `true` iff `self` and `other` are concurrent: neither happens-before
    /// the other, and they are not equal.
    pub fn concurrent_with(&self, other: &VectorClock) -> (b: bool)
        ensures
            b == concurrent_spec(self@, other@),
    {
        let (self_greater, other_greater) = self.exceeds_either_way(other);
        self_greater && other_greater
    }

    /// The non-zero `(replica, count)` entries, in increasing replica order.
    pub fn iter(&self) -> (v: Vec<(ReplicaId, u64)>)
        ensures
            v@.len() == self@.dom().len(),
            forall|i: int| 0 <= i < v@.len() ==> #[trigger] self@.contains_key(v@[i].0.0)
                && self@[v@[i].0.0] == v@[i].1,
            forall|i: int, j: int| 0 <= i < j < v@.len() ==> v@[i].0.0 < v@[j].0.0,
            forall|k: u64| #[trigger] self@.contains_key(k) ==> exists|i: int| 0 <= i < v@.len() && v@[i].0.0 == k,
    {
        let keys = count_keys(&self.entries);
        let mut out: Vec<(ReplicaId, u64)> = Vec::new();
        let mut i: usize = 0;
        while i < keys.len()
            invariant
                i <= keys@.len(),
                keys@.to_set() == self@.dom(),
                forall|a: int, b: int| 0 <= a < b < keys@.len() ==> keys@[a] < keys@[b],
                out@.len() == i,
                forall|a: int| 0 <= a < i ==> #[trigger] out@[a].0.0 == keys@[a] && self@.contains_key(keys@[a])
                    && self@[keys@[a]] == out@[a].1,
            decreases keys.len() - i,
        {
            let k = keys[i];
            assert(keys@.to_set().contains(k));
            let c = match self.entries.get(&k) {
                Some(c) => *c,
                None => 0,
            };
            let ghost before = out@;
            out.push((ReplicaId(k), c));
            proof {
                assert forall|a: int| 0 <= a < i + 1 implies #[trigger] out@[a].0.0 == keys@[a] && self@.contains_key(keys@[a])
                    && self@[keys@[a]] == out@[a].1 by {
                    if a < i {
                        assert(out@[a] == before[a]);
                    }
                }
            }
            i += 1;
        }
        proof {
            assert forall|k: u64| #[trigger] self@.contains_key(k) implies exists|a: int| 0 <= a < out@.len() && out@[a].0.0 == k by {
                assert(keys@.to_set().contains(k));
                let a = choose|a: int| 0 <= a < keys@.len() && keys@[a] == k;
                assert(out@[a].0.0 == k);
            }
        }
        out
    }

    /// Number of replicas this clock has an entry for.
    pub fn len(&self) -> (n: usize)
        ensures
            n == self@.dom().len(),
    {
        self.entries.len()
    }

    /// `true` iff this clock records no event (it is the lattice bottom).
    pub fn is_empty(&self) -> (b: bool)
        ensures
            b == (self@.dom().len() == 0),
    {
        self.entries.len() == 0
    }

    /// The vector-clock partial order; `None` when the clocks are concurrent.
    pub fn compare(&self, other: &VectorClock) -> (o: Option<Ordering>)
        ensures
            o == clock_order(self@, other@),
    {
        let (self_greater, other_greater) = self.exceeds_either_way(other);
        if !self_greater && !other_greater {
            Some(Ordering::Equal)
        } else if self_greater && !other_greater {
            Some(Ordering::Greater)
        } else if !self_greater && other_greater {
            Some(Ordering::Less)
        } else {
            None
        }
    }

    /// Whether some component of `self` exceeds that of `other`, and whether
    /// some component of `other` exceeds that of `self`. The scan stops as
    /// soon as both are found.
    fn exceeds_either_way(&self, other: &VectorClock) -> (r: (bool, bool))
        ensures
            r.0 == !dominated(self@, other@),
            r.1 == !dominated(other@, self@),
    {
        let mine = count_keys(&self.entries);
        let theirs = count_keys(&other.entries);
        let mut self_greater = false;
        let mut other_greater = false;
        let mut i: usize = 0;
        while i < mine.len()
            invariant
                i <= mine@.len(),
                mine@.to_set() == self@.dom(),
                self_greater == exists|a: int| 0 <= a < i && count_of(self@, #[trigger] mine@[a]) > count_of(other@, mine@[a]),
                other_greater == exists|a: int| 0 <= a < i && count_of(self@, #[trigger] mine@[a]) < count_of(other@, mine@[a]),
            decreases mine.len() - i,
        {
            let k = ReplicaId(mine[i]);
            let a = self.get(k);
            let b = other.get(k);
            if a > b {
                self_greater = true;
            } else if a < b {
                other_greater = true;
            }
            if self_greater && other_greater {
                proof {
                    lemma_flags_witness(self@, other@, mine@.take(i + 1), Seq::empty(), true);
                    lemma_flags_witness(self@, other@, mine@.take(i + 1), Seq::empty(), false);
                    assert forall|a: int| 0 <= a <= i implies mine@.take(i + 1)[a] == mine@[a] by {}
                }
                return (true, true);
            }
            i += 1;
        }
        let mut j: usize = 0;
        while j < theirs.len()
            invariant
                j <= theirs@.len(),
                mine@.len() == i,
                mine@.to_set() == self@.dom(),
                theirs@.to_set() == other@.dom(),
                self_greater == ((exists|a: int| 0 <= a < mine@.len() && count_of(self@, #[trigger] mine@[a]) > count_of(other@, mine@[a]))
                    || (exists|a: int| 0 <= a < j && count_of(self@, #[trigger] theirs@[a]) > count_of(other@, theirs@[a]))),
                other_greater == ((exists|a: int| 0 <= a < mine@.len() && count_of(self@, #[trigger] mine@[a]) < count_of(other@, mine@[a]))
                    || (exists|a: int| 0 <= a < j && count_of(self@, #[trigger] theirs@[a]) < count_of(other@, theirs@[a]))),
            decreases theirs.len() - j,
        {
            let k = ReplicaId(theirs[j]);
            let a = self.get(k);
            let b = other.get(k);
            if a > b {
                self_greater = true;
            } else if a < b {
                other_greater = true;
            }
            if self_greater && other_greater {
                proof {
                    lemma_flags_witness(self@, other@, mine@, theirs@.take(j + 1), true);
                    lemma_flags_witness(self@, other@, mine@, theirs@.take(j + 1), false);
                    assert forall|a: int| 0 <= a <= j implies theirs@.take(j + 1)[a] == theirs@[a] by {}
                }
                return (true, true);
            }
            j += 1;
        }
        proof {
            lemma_flags_exact(self@, other@, mine@, theirs@);
        }
        (self_greater, other_greater)
    }
}

impl PartialEq for VectorClock {
    /// Two clocks are equal when they store the same entries.
    fn eq(&self, other: &VectorClock) -> (r: bool) {
        if self.entries.len() != other.entries.len() {
            return false;
        }
        let keys = count_keys(&self.entries);
        let mut i: usize = 0;
        while i < keys.len()
            invariant
                i <= keys@.len(),
                keys@.to_set() == self@.dom(),
                self@.dom().len() == other@.dom().len(),
                forall|j: int| 0 <= j < i ==> #[trigger] other@.contains_key(keys@[j]) && other@[keys@[j]] == self@[keys@[j]],
            decreases keys.len() - i,
        {
            let k = keys[i];
            assert(keys@.to_set().contains(k));
            let mine = self.entries.get(&k);
            let theirs = other.entries.get(&k);
            match (mine, theirs) {
                (Some(a), Some(b)) => {
                    if *a != *b {
                        return false;
                    }
                    proof {
                        assert(other@.contains_key(k) && other@[k] == self@[k]);
                        assert forall|j: int| 0 <= j < i + 1 implies #[trigger] other@.contains_key(keys@[j]) && other@[keys@[j]] == self@[keys@[j]] by {
                            if j == i {
                                assert(keys@[j] == k);
                            }
                        }
                    }
                },
                _ => {
                    return false;
                },
            }
            i += 1;
        }
        proof {
            assert(self@.dom().subset_of(other@.dom())) by {
                assert forall|k: u64| self@.dom().contains(k) implies other@.dom().contains(k) by {
                    assert(keys@.to_set().contains(k));
                    let j = choose|j: int| 0 <= j < keys@.len() && keys@[j] == k;
                    assert(other@.contains_key(keys@[j]));
                }
            }
            vstd::set_lib::lemma_subset_equality(self@.dom(), other@.dom());
            assert(self@ =~= other@) by {
                assert forall|k: u64| self@.contains_key(k) implies self@[k] == other@[k] by {
                    assert(keys@.to_set().contains(k));
                    let j = choose|j: int| 0 <= j < keys@.len() && keys@[j] == k;
                    assert(other@[keys@[j]] == self@[keys@[j]]);
                }
            }
        }
        true
    }
}

impl vstd::std_specs::cmp::PartialEqSpecImpl for VectorClock {
    open spec fn obeys_eq_spec() -> bool {
        true
    }

    open spec fn eq_spec(&self, other: &VectorClock) -> bool {
        self@ == other@
    }
}

impl Eq for VectorClock {
}

impl PartialOrd for VectorClock {
    /// The vector-clock partial order; `None` when the clocks are concurrent.
    fn partial_cmp(&self, other: &VectorClock) -> (o: Option<Ordering>) {
        self.compare(other)
    }
}

impl vstd::std_specs::cmp::PartialOrdSpecImpl for VectorClock {
    open spec fn obeys_partial_cmp_spec() -> bool {
        true
    }

    open spec fn partial_cmp_spec(&self, other: &VectorClock) -> Option<Ordering> {
        clock_order(self@, other@)
    }
}

/// A key at which `a` exceeds `b` (or falls below it) shows that `a` is not
/// below `b` (or not above it).
proof fn lemma_flags_witness(a: Map<u64, u64>, b: Map<u64, u64>, ka: Seq<u64>, kb: Seq<u64>, greater: bool)
    ensures
        greater && ((exists|x: int| 0 <= x < ka.len() && count_of(a, #[trigger] ka[x]) > count_of(b, ka[x]))
            || (exists|x: int| 0 <= x < kb.len() && count_of(a, #[trigger] kb[x]) > count_of(b, kb[x]))) ==> !dominated(a, b),
        !greater && ((exists|x: int| 0 <= x < ka.len() && count_of(a, #[trigger] ka[x]) < count_of(b, ka[x]))
            || (exists|x: int| 0 <= x < kb.len() && count_of(a, #[trigger] kb[x]) < count_of(b, kb[x]))) ==> !dominated(b, a),
{
    if greater {
        if exists|x: int| 0 <= x < ka.len() && count_of(a, #[trigger] ka[x]) > count_of(b, ka[x]) {
            let x = choose|x: int| 0 <= x < ka.len() && count_of(a, #[trigger] ka[x]) > count_of(b, ka[x]);
            assert(count_of(a, ka[x]) > count_of(b, ka[x]));
        }
        if exists|x: int| 0 <= x < kb.len() && count_of(a, #[trigger] kb[x]) > count_of(b, kb[x]) {
            let x = choose|x: int| 0 <= x < kb.len() && count_of(a, #[trigger] kb[x]) > count_of(b, kb[x]);
            assert(count_of(a, kb[x]) > count_of(b, kb[x]));
        }
    } else {
        if exists|x: int| 0 <= x < ka.len() && count_of(a, #[trigger] ka[x]) < count_of(b, ka[x]) {
            let x = choose|x: int| 0 <= x < ka.len() && count_of(a, #[trigger] ka[x]) < count_of(b, ka[x]);
            assert(count_of(b, ka[x]) > count_of(a, ka[x]));
        }
        if exists|x: int| 0 <= x < kb.len() && count_of(a, #[trigger] kb[x]) < count_of(b, kb[x]) {
            let x = choose|x: int| 0 <= x < kb.len() && count_of(a, #[trigger] kb[x]) < count_of(b, kb[x]);
            assert(count_of(b, kb[x]) > count_of(a, kb[x]));
        }
    }
}

/// Comparing at the keys of both clocks decides the order: every other key
/// has count zero on both sides.
proof fn lemma_flags_exact(a: Map<u64, u64>, b: Map<u64, u64>, ka: Seq<u64>, kb: Seq<u64>)
    requires
        ka.to_set() == a.dom(),
        kb.to_set() == b.dom(),
    ensures
        dominated(a, b) <==> !((exists|x: int| 0 <= x < ka.len() && count_of(a, #[trigger] ka[x]) > count_of(b, ka[x]))
            || (exists|x: int| 0 <= x < kb.len() && count_of(a, #[trigger] kb[x]) > count_of(b, kb[x]))),
        dominated(b, a) <==> !((exists|x: int| 0 <= x < ka.len() && count_of(a, #[trigger] ka[x]) < count_of(b, ka[x]))
            || (exists|x: int| 0 <= x < kb.len() && count_of(a, #[trigger] kb[x]) < count_of(b, kb[x]))),
{
    lemma_flags_witness(a, b, ka, kb, true);
    lemma_flags_witness(a, b, ka, kb, false);
    assert forall|k: u64| count_of(a, k) > count_of(b, k) implies
        (exists|x: int| 0 <= x < ka.len() && count_of(a, #[trigger] ka[x]) > count_of(b, ka[x])) by {
        assert(a.contains_key(k));
        assert(ka.to_set().contains(k));
        let x = choose|x: int| 0 <= x < ka.len() && ka[x] == k;
        assert(count_of(a, ka[x]) > count_of(b, ka[x]));
    }
    assert forall|k: u64| count_of(a, k) < count_of(b, k) implies
        (exists|x: int| 0 <= x < kb.len() && count_of(a, #[trigger] kb[x]) < count_of(b, kb[x])) by {
        assert(b.contains_key(k));
        assert(kb.to_set().contains(k));
        let x = choose|x: int| 0 <= x < kb.len() && kb[x] == k;
        assert(count_of(a, kb[x]) < count_of(b, kb[x]));
    }
}

/// No clock happens-before itself.
pub proof fn lemma_happens_before_irreflexive(a: Map<u64, u64>)
    ensures
        !happens_before_spec(a, a),
{
}

/// Happens-before is transitive.
pub proof fn lemma_happens_before_transitive(a: Map<u64, u64>, b: Map<u64, u64>, c: Map<u64, u64>)
    requires
        happens_before_spec(a, b),
        happens_before_spec(b, c),
    ensures
        happens_before_spec(a, c),
{
    assert forall|k: u64| #[trigger] count_of(a, k) <= count_of(c, k) by {
        assert(count_of(a, k) <= count_of(b, k));
        assert(count_of(b, k) <= count_of(c, k));
    }
    let k = choose|k: u64| !(#[trigger] count_of(b, k) <= count_of(a, k));
    assert(count_of(b, k) <= count_of(c, k));
}

/// Happens-before never holds both ways.
pub proof fn lemma_happens_before_asymmetric(a: Map<u64, u64>, b: Map<u64, u64>)
    ensures
        happens_before_spec(a, b) ==> !happens_before_spec(b, a),
{
}

/// Recording an event at a replica moves the clock strictly after its
/// previous value.
pub proof fn lemma_increment_happens_after(a: Map<u64, u64>, r: u64)
    requires
        count_of(a, r) < u64::MAX,
    ensures
        happens_before_spec(a, a.insert(r, (count_of(a, r) + 1) as u64)),
{
    let b = a.insert(r, (count_of(a, r) + 1) as u64);
    assert forall|k: u64| #[trigger] count_of(a, k) <= count_of(b, k) by {
        if k == r {
        }
    }
    assert(count_of(b, r) > count_of(a, r));
}

/// Merging normalized clocks does not depend on the order of the two sides.
pub proof fn lemma_clock_join_commutative(a: Map<u64, u64>, b: Map<u64, u64>)
    requires
        normalized(a),
        normalized(b),
    ensures
        clock_join(a, b) == clock_join(b, a),
{
    assert(clock_join(a, b) =~= clock_join(b, a));
}

/// Merging normalized clocks gives the same result however the merges are
/// grouped.
pub proof fn lemma_clock_join_associative(a: Map<u64, u64>, b: Map<u64, u64>, c: Map<u64, u64>)
    requires
        normalized(a),
        normalized(b),
        normalized(c),
    ensures
        clock_join(clock_join(a, b), c) == clock_join(a, clock_join(b, c)),
{
    assert(clock_join(clock_join(a, b), c) =~= clock_join(a, clock_join(b, c)));
}

/// Merging a clock with itself changes nothing.
pub proof fn lemma_clock_join_idempotent(a: Map<u64, u64>)
    ensures
        clock_join(a, a) == a,
{
    assert(clock_join(a, a) =~= a);
}

/// The merge of two clocks is an upper bound of both, and the least one.
pub proof fn lemma_clock_join_least_upper_bound(a: Map<u64, u64>, b: Map<u64, u64>, c: Map<u64, u64>)
    ensures
        dominated(a, clock_join(a, b)),
        dominated(b, clock_join(a, b)),
        dominated(a, c) && dominated(b, c) ==> dominated(clock_join(a, b), c),
{
    if dominated(a, c) && dominated(b, c) {
        assert forall|k: u64| #[trigger] count_of(clock_join(a, b), k) <= count_of(c, k) by {
            assert(count_of(a, k) <= count_of(c, k));
            assert(count_of(b, k) <= count_of(c, k));
        }
    }
}

/// For normalized clocks, being below each other is being equal: the
/// order's `Equal` coincides with equality of the stored entries.
pub proof fn lemma_normalized_equal(a: Map<u64, u64>, b: Map<u64, u64>)
    requires
        normalized(a),
        normalized(b),
    ensures
        (dominated(a, b) && dominated(b, a)) <==> a == b,
        clock_order(a, b) == Some(Ordering::Equal) <==> a == b,
{
    if dominated(a, b) && dominated(b, a) {
        assert forall|k: u64| a.contains_key(k) <==> b.contains_key(k) by {
            assert(count_of(a, k) <= count_of(b, k));
            assert(count_of(b, k) <= count_of(a, k));
        }
        assert forall|k: u64| a.contains_key(k) implies a[k] == b[k] by {
            assert(count_of(a, k) <= count_of(b, k));
            assert(count_of(b, k) <= count_of(a, k));
        }
        assert(a =~= b);
    }
}

} // verus!
