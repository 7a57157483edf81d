//! The observed-remove set (add-wins). Every add tags its element with a
//! fresh random tag; a remove tombstones exactly the tags of the element that
//! the replica has observed. An element is present while it has a tag that
//! is not tombstoned, so an add concurrent with a remove survives it.

use std::collections::BTreeSet;

use vstd::prelude::*;
use vstd::std_specs::cmp::{OrdSpec, PartialEqSpec, PartialOrdSpec};

use crate::maps::{item_less, set_items, set_refs};

verus! {

broadcast use vstd::std_specs::btree::group_btree_axioms, vstd::laws_cmp::group_laws_cmp,
    vstd::laws_eq::group_laws_eq;

/// One replica of an observed-remove set.
#[derive(Clone, Debug, PartialEq, Eq)]
pub struct ORSet<T> {
    added: BTreeSet<(T, u128)>,
    removed: BTreeSet<u128>,
}

/// An operation to ship to other replicas.
#[derive(Clone, Debug, PartialEq, Eq)]
pub enum ORSetOp<T> {
    Add { element: T, tag: u128 },
    Remove { tags: BTreeSet<u128> },
}

/// The abstract state of one replica: the observed `(element, tag)` adds and
/// the tombstoned tags.
#[derive(Clone, Debug, PartialEq, Eq)]
pub struct TlaORSetState<T> {
    pub added: BTreeSet<(T, u128)>,
    pub removed: BTreeSet<u128>,
}

/// The element type's order and equality behave as a total order and as
/// equality of values.
pub open spec fn lawful<T: Ord>() -> bool {
    &&& vstd::laws_cmp::obeys_cmp::<T>()
    &&& vstd::laws_eq::obeys_concrete_eq::<T>()
}

/// `x` has an observed tag that is not tombstoned.
pub open spec fn present<T>(added: Set<(T, u128)>, removed: Set<u128>, x: T) -> bool {
    exists|t: u128| #[trigger] added.contains((x, t)) && !removed.contains(t)
}

/// `s` holds a copy of `e` under tag `t`.
pub open spec fn has_copy<T: Clone>(s: Set<(T, u128)>, e: T, t: u128) -> bool {
    exists|y: T| s.contains((y, t)) && vstd::pervasive::cloned(e, y)
}

/// Copies made by `clone` equal the values they were made from.
pub open spec fn exact_clones<T: Clone>() -> bool {
    forall|a: T, b: T| #[trigger] vstd::pervasive::cloned(a, b) ==> a == b
}

/// The merge of two states: the union of the adds and of the tombstones.
pub open spec fn orset_join<T>(a: (Set<(T, u128)>, Set<u128>), b: (Set<(T, u128)>, Set<u128>)) -> (Set<(T, u128)>, Set<u128>) {
    (a.0.union(b.0), a.1.union(b.1))
}

/// The state after applying `op` to `s`, the added element taken as is.
pub open spec fn orset_apply<T>(s: (Set<(T, u128)>, Set<u128>), op: ORSetOp<T>) -> (Set<(T, u128)>, Set<u128>) {
    match op {
        ORSetOp::Add { element, tag } => (s.0.insert((element, tag)), s.1),
        ORSetOp::Remove { tags } => (s.0, s.1.union(tags@)),
    }
}

/// Only observed tags are tombstoned.
pub open spec fn tombstones_observed<T>(s: (Set<(T, u128)>, Set<u128>)) -> bool {
    s.1.subset_of(all_tags(s.0))
}

/// The tags observed for `x`.
pub open spec fn tags_of<T>(added: Set<(T, u128)>, x: T) -> Set<u128> {
    Set::new(|t: u128| added.contains((x, t)))
}

/// All observed tags.
pub open spec fn all_tags<T>(added: Set<(T, u128)>) -> Set<u128> {
    Set::new(|t: u128| exists|x: T| #[trigger] added.contains((x, t)))
}

/// The version and variant bits that every tag from a random (version 4)
/// UUID carries.
pub open spec fn is_v4_tag(t: u128) -> bool {
    t & 0x0000_0000_0000_f000_c000_0000_0000_0000u128 == 0x0000_0000_0000_4000_8000_0000_0000_0000u128
}

/// The version-4 tag whose 122 free bits are `k`: the version and variant
/// bits are set and the bits of `k` fill the rest, in order.
pub open spec fn v4_tag_spec(k: u128) -> u128 {
    ((k >> 74u128) << 80u128) | (((k >> 62u128) & 0xfffu128) << 64u128)
        | (k & 0x3fff_ffff_ffff_ffffu128) | 0x0000_0000_0000_4000_8000_0000_0000_0000u128
}

proof fn lemma_v4_tag_facts(a: u128, b: u128)
    by (bit_vector)
    requires
        a < 0x0400_0000_0000_0000_0000_0000_0000_0000u128,
        b < 0x0400_0000_0000_0000_0000_0000_0000_0000u128,
    ensures
        is_v4_tag(v4_tag_spec(a)),
        a != b ==> v4_tag_spec(a) != v4_tag_spec(b),
{
}

fn v4_tag(k: u128) -> (t: u128)
    ensures
        t == v4_tag_spec(k),
{
    ((k >> 74u128) << 80u128) | (((k >> 62u128) & 0xfffu128) << 64u128)
        | (k & 0x3fff_ffff_ffff_ffffu128) | 0x0000_0000_0000_4000_8000_0000_0000_0000u128
}

/// A version-4 tag that `used` does not hold.
fn unused_v4_tag(used: &BTreeSet<u128>) -> (t: u128)
    ensures
        is_v4_tag(t),
        !used@.contains(t),
{
    let items = set_items(used);
    let n: u128 = items.len() as u128;
    proof {
        vstd::seq_lib::seq_to_set_is_finite(items@);
        items@.unique_seq_to_set();
    }
    let mut k: u128 = 0;
    while k <= n
        invariant
            k <= n + 1,
            n == used@.len(),
            n <= usize::MAX,
            used@.finite(),
            forall|j: int| 0 <= j < k ==> #[trigger] used@.contains(v4_tag_spec(j as u128)),
        decreases n + 1 - k,
    {
        let t = v4_tag(k);
        proof {
            lemma_v4_tag_facts(k, k);
        }
        if !used.contains(&t) {
            return t;
        }
        k += 1;
    }
    proof {
        let cand = Seq::new((n + 1) as nat, |j: int| v4_tag_spec(j as u128));
        assert(cand.no_duplicates()) by {
            assert forall|i: int, j: int| 0 <= i < cand.len() && 0 <= j < cand.len() && i != j implies cand[i] != cand[j] by {
                lemma_v4_tag_facts(i as u128, j as u128);
            }
        }
        assert(cand.to_set().subset_of(used@)) by {
            assert forall|t: u128| cand.to_set().contains(t) implies used@.contains(t) by {
                let j = choose|j: int| 0 <= j < cand.len() && cand[j] == t;
                assert(used@.contains(v4_tag_spec(j as u128)));
            }
        }
        cand.unique_seq_to_set();
        vstd::set_lib::lemma_len_subset(cand.to_set(), used@);
        assert(false);
    }
    0
}

/// A new random tag: the 128-bit value of a fresh random UUID.
///
/// Calls `uuid::Uuid::new_v4` and reads the result with `as_u128`. The
/// contract claims only the bits the crate fixes (version 4, RFC 4122
/// variant); the other 122 bits are random, so nothing is promised of them,
/// and in particular not that the tag differs from every earlier one. The
/// crate panics when the operating system's random source fails.
#[verifier::external_body]
fn fresh_tag() -> (t: u128)
    ensures
        is_v4_tag(t),
{
    uuid::Uuid::new_v4().as_u128()
}

proof fn lemma_lawful_facts<T: Ord>()
    requires
        lawful::<T>(),
    ensures
        forall|a: T, b: T| #[trigger] a.cmp_spec(&b) is Equal <==> a == b,
        forall|a: T, b: T| #[trigger] item_less(a, b) ==> a != b,
        forall|a: T, b: T, c: T| #[trigger] item_less(a, b) && #[trigger] item_less(b, c) ==> item_less(a, c),
        T::obeys_eq_spec(),
        forall|a: T, b: T| #[trigger] a.eq_spec(&b) <==> a == b,
{
    reveal(vstd::laws_cmp::obeys_cmp_partial_ord);
    reveal(vstd::laws_cmp::obeys_cmp_ord);
    reveal(vstd::laws_cmp::obeys_partial_cmp_spec_properties);
    reveal(vstd::laws_eq::obeys_concrete_eq);
    assert forall|a: T, b: T| #[trigger] a.cmp_spec(&b) is Equal <==> a == b by {
        assert(a.partial_cmp_spec(&b) == Some(a.cmp_spec(&b)));
    }
    assert forall|a: T, b: T| #[trigger] item_less(a, b) implies a != b by {
        assert(a.partial_cmp_spec(&b) == Some(a.cmp_spec(&b)));
        if a == b {
            assert(a.eq_spec(&b));
        }
    }
    assert forall|a: T, b: T, c: T| #[trigger] item_less(a, b) && #[trigger] item_less(b, c) implies item_less(a, c) by {
        assert(a.partial_cmp_spec(&b) == Some(a.cmp_spec(&b)));
        assert(b.partial_cmp_spec(&c) == Some(b.cmp_spec(&c)));
        assert(a.partial_cmp_spec(&c) == Some(a.cmp_spec(&c)));
    }
}

/// In the order of `(element, tag)` pairs, a later pair has the same or a
/// larger element.
proof fn lemma_pair_order<T: Ord>(a: (T, u128), b: (T, u128))
    requires
        lawful::<T>(),
        item_less(a, b),
    ensures
        a.0 == b.0 || item_less(a.0, b.0),
{
    lemma_lawful_facts::<T>();
    if !(a.0.cmp_spec(&b.0) is Equal) {
        assert(item_less(a.0, b.0));
    }
}

impl<T> View for ORSet<T> {
    type V = (Set<(T, u128)>, Set<u128>);

    /// The observed adds and the tombstoned tags.
    closed spec fn view(&self) -> (Set<(T, u128)>, Set<u128>) {
        (self.added@, self.removed@)
    }
}

impl<T: Ord> Default for ORSet<T> {
    /// The set with nothing added.
    fn default() -> (s: ORSet<T>)
        ensures
            s@.0 == Set::<(T, u128)>::empty(),
            s@.1 == Set::<u128>::empty(),
            s.wf(),
    {
        proof {
            assert(Set::<u128>::empty().subset_of(all_tags(Set::<(T, u128)>::empty())));
        }
        ORSet { added: BTreeSet::new(), removed: BTreeSet::new() }
    }
}

impl<T: Ord> ORSet<T> {
    /// Only observed tags are tombstoned.
    pub open spec fn wf(&self) -> bool {
        tombstones_observed(self@)
    }

    /// The set with nothing added.
    pub fn new() -> (s: ORSet<T>)
        ensures
            s@.0 == Set::<(T, u128)>::empty(),
            s@.1 == Set::<u128>::empty(),
            s.wf(),
    {
        proof {
            assert(Set::<u128>::empty().subset_of(all_tags(Set::<(T, u128)>::empty())));
        }
        ORSet { added: BTreeSet::new(), removed: BTreeSet::new() }
    }

    /// The set whose observed adds are `added` and whose tombstoned tags are
    /// `removed`.
    pub fn from_parts(added: BTreeSet<(T, u128)>, removed: BTreeSet<u128>) -> (s: ORSet<T>)
        ensures
            s@.0 == added@,
            s@.1 == removed@,
    {
        ORSet { added, removed }
    }

    /// Is `x` present?
    pub fn contains(&self, x: &T) -> (b: bool)
        requires
            lawful::<T>(),
        ensures
            b == present(self@.0, self@.1, *x),
    {
        proof {
            lemma_lawful_facts::<T>();
            reveal(vstd::laws_eq::obeys_concrete_eq);
        }
        let pairs = set_refs(&self.added);
        let mut i: usize = 0;
        while i < pairs.len()
            invariant
                lawful::<T>(),
                i <= pairs@.len(),
                forall|j: int| 0 <= j < pairs@.len() ==> self@.0.contains(*#[trigger] pairs@[j]),
                forall|p: (T, u128)| #[trigger] self@.0.contains(p) ==> exists|j: int| 0 <= j < pairs@.len() && *pairs@[j] == p,
                forall|j: int| 0 <= j < i ==> !((*#[trigger] pairs@[j]).0 == *x && !self@.1.contains((*pairs@[j]).1)),
            decreases pairs.len() - i,
        {
            let pair = pairs[i];
            proof {
                lemma_lawful_facts::<T>();
            }
            if pair.0 == *x && !self.removed.contains(&pair.1) {
                proof {
                    assert(self@.0.contains((*x, pair.1)));
                }
                return true;
            }
            i += 1;
        }
        proof {
            assert forall|t: u128| #[trigger] self@.0.contains((*x, t)) implies self@.1.contains(t) by {
                let j = choose|j: int| 0 <= j < pairs@.len() && *pairs@[j] == (*x, t);
                assert(!((*pairs@[j]).0 == *x && !self@.1.contains((*pairs@[j]).1)));
            }
        }
        false
    }

    /// The distinct present elements, in increasing order.
    pub fn iter(&self) -> (v: Vec<&T>)
        requires
            lawful::<T>(),
        ensures
            forall|i: int| 0 <= i < v@.len() ==> present(self@.0, self@.1, *#[trigger] v@[i]),
            forall|x: T| present(self@.0, self@.1, x) ==> exists|i: int| 0 <= i < v@.len() && *v@[i] == x,
            forall|i: int, j: int| 0 <= i < j < v@.len() ==> #[trigger] item_less(*v@[i], *v@[j]),
    {
        proof {
            lemma_lawful_facts::<T>();
            reveal(vstd::laws_eq::obeys_concrete_eq);
        }
        let pairs = set_refs(&self.added);
        let mut out: Vec<&T> = Vec::new();
        let mut i: usize = 0;
        while i < pairs.len()
            invariant
                lawful::<T>(),
                i <= pairs@.len(),
                forall|j: int| 0 <= j < pairs@.len() ==> self@.0.contains(*#[trigger] pairs@[j]),
                forall|p: (T, u128)| #[trigger] self@.0.contains(p) ==> exists|j: int| 0 <= j < pairs@.len() && *pairs@[j] == p,
                forall|a: int, b: int| 0 <= a < b < pairs@.len() ==> #[trigger] item_less(*pairs@[a], *pairs@[b]),
                forall|a: int| 0 <= a < out@.len() ==> present(self@.0, self@.1, *#[trigger] out@[a]),
                forall|a: int, b: int| 0 <= a < b < out@.len() ==> #[trigger] item_less(*out@[a], *out@[b]),
                forall|j: int| 0 <= j < i && !self@.1.contains((*pairs@[j]).1) ==> exists|a: int| 0 <= a < out@.len() && *out@[a] == (*#[trigger] pairs@[j]).0,
                out@.len() > 0 ==> exists|j: int| 0 <= j < i && (*pairs@[j]).0 == *out@.last(),
            decreases pairs.len() - i,
        {
            let pair = pairs[i];
            let ghost out_before = out@;
            proof {
                lemma_lawful_facts::<T>();
            }
            if !self.removed.contains(&pair.1) {
                let same_as_last = if out.len() == 0 {
                    false
                } else {
                    let last: &T = out[out.len() - 1];
                    *last == pair.0
                };
                let fresh = !same_as_last;
                proof {
                    assert(self@.0.contains(*pair));
                    assert(present(self@.0, self@.1, pair.0));
                }
                if fresh {
                    proof {
                        if out@.len() > 0 {
                            let j = choose|j: int| 0 <= j < i && (*pairs@[j]).0 == *out@.last();
                            lemma_pair_order(*pairs@[j], *pair);
                            assert(item_less(*out@.last(), pair.0));
                            assert forall|a: int| 0 <= a < out@.len() implies #[trigger] item_less(*out@[a], pair.0) by {
                                if a < out@.len() - 1 {
                                    assert(item_less(*out@[a], *out@[out@.len() - 1]));
                                }
                            }
                        }
                    }
                    out.push(&pair.0);
                    proof {
                        assert(out@.last() == &pair.0);
                    }
                }
            }
            proof {
                assert forall|j: int| 0 <= j < i + 1 && !self@.1.contains((*pairs@[j]).1) implies exists|a: int| 0 <= a < out@.len() && *out@[a] == (*#[trigger] pairs@[j]).0 by {
                    if j == i {
                        assert(*out@[out@.len() - 1] == (*pairs@[j]).0);
                    } else {
                        let a = choose|a: int| 0 <= a < out_before.len() && *out_before[a] == (*pairs@[j]).0;
                        assert(out@[a] == out_before[a]);
                    }
                }
            }
            i += 1;
        }
        proof {
            assert forall|x: T| present(self@.0, self@.1, x) implies exists|a: int| 0 <= a < out@.len() && *out@[a] == x by {
                let t = choose|t: u128| #[trigger] self@.0.contains((x, t)) && !self@.1.contains(t);
                let j = choose|j: int| 0 <= j < pairs@.len() && *pairs@[j] == (x, t);
                assert(!self@.1.contains((*pairs@[j]).1));
            }
        }
        out
    }

    /// The number of distinct present elements.
    pub fn len(&self) -> (n: usize)
        requires
            lawful::<T>(),
        ensures
            n == Set::new(|x: T| present(self@.0, self@.1, x)).len(),
            Set::new(|x: T| present(self@.0, self@.1, x)).finite(),
    {
        let v = self.iter();
        proof {
            lemma_lawful_facts::<T>();
            let s = Set::new(|x: T| present(self@.0, self@.1, x));
            let u = v@.map_values(|r: &T| *r);
            assert(u.no_duplicates()) by {
                assert forall|i: int, j: int| 0 <= i < u.len() && 0 <= j < u.len() && i != j implies u[i] != u[j] by {
                    if i < j {
                        assert(item_less(*v@[i], *v@[j]));
                    } else {
                        assert(item_less(*v@[j], *v@[i]));
                    }
                }
            }
            assert(u.to_set() =~= s) by {
                assert forall|x: T| s.contains(x) implies u.to_set().contains(x) by {
                    let i = choose|i: int| 0 <= i < v@.len() && *v@[i] == x;
                    assert(u[i] == x);
                }
                assert forall|x: T| u.to_set().contains(x) implies s.contains(x) by {
                    let i = choose|i: int| 0 <= i < u.len() && u[i] == x;
                    assert(present(self@.0, self@.1, *v@[i]));
                }
            }
            u.unique_seq_to_set();
            vstd::seq_lib::seq_to_set_is_finite(u);
        }
        v.len()
    }

    /// `true` iff no element is present.
    pub fn is_empty(&self) -> (b: bool)
        requires
            lawful::<T>(),
        ensures
            b == !(exists|x: T| present(self@.0, self@.1, x)),
    {
        let v = self.iter();
        if v.len() == 0 {
            true
        } else {
            proof {
                assert(present(self@.0, self@.1, *v@[0]));
            }
            false
        }
    }

    /// Tombstone every observed tag of `x`; returns the op to broadcast.
    pub fn remove(&mut self, x: &T) -> (op: ORSetOp<T>)
        requires
            lawful::<T>(),
        ensures
            final(self)@.0 == old(self)@.0,
            final(self)@.1 == old(self)@.1.union(tags_of(old(self)@.0, *x)),
            op matches ORSetOp::Remove { tags } && tags@ == tags_of(old(self)@.0, *x),
            old(self).wf() ==> final(self).wf(),
    {
        proof {
            lemma_lawful_facts::<T>();
            reveal(vstd::laws_eq::obeys_concrete_eq);
        }
        let pairs = set_refs(&self.added);
        let mut tags: BTreeSet<u128> = BTreeSet::new();
        let mut i: usize = 0;
        while i < pairs.len()
            invariant
                lawful::<T>(),
                i <= pairs@.len(),
                forall|j: int| 0 <= j < pairs@.len() ==> self@.0.contains(*#[trigger] pairs@[j]),
                forall|p: (T, u128)| #[trigger] self@.0.contains(p) ==> exists|j: int| 0 <= j < pairs@.len() && *pairs@[j] == p,
                forall|t: u128| #[trigger] tags@.contains(t) ==> self@.0.contains((*x, t)),
                forall|j: int| 0 <= j < i && (*pairs@[j]).0 == *x ==> tags@.contains((*#[trigger] pairs@[j]).1),
            decreases pairs.len() - i,
        {
            let pair = pairs[i];
            proof {
                lemma_lawful_facts::<T>();
            }
            if pair.0 == *x {
                tags.insert(pair.1);
            }
            i += 1;
        }
        proof {
            assert(tags@ =~= tags_of(self@.0, *x)) by {
                assert forall|t: u128| tags_of(self@.0, *x).contains(t) implies tags@.contains(t) by {
                    let j = choose|j: int| 0 <= j < pairs@.len() && *pairs@[j] == (*x, t);
                    assert((*pairs@[j]).0 == *x);
                }
            }
        }
        let items = set_items(&tags);
        let ghost start = self.removed@;
        let mut k: usize = 0;
        while k < items.len()
            invariant
                k <= items@.len(),
                items@.to_set() == tags@,
                self.removed@ == start.union(items@.take(k as int).to_set()),
                self.added@ == old(self).added@,
                start == old(self).removed@,
            decreases items.len() - k,
        {
            let t = items[k];
            self.removed.insert(t);
            proof {
                assert(items@.take(k + 1) =~= items@.take(k as int).push(t));
                items@.take(k as int).lemma_push_to_set_commute(t);
                assert(self.removed@ =~= start.union(items@.take(k + 1).to_set()));
            }
            k += 1;
        }
        proof {
            assert(items@.take(items@.len() as int) =~= items@);
            if old(self).wf() {
                lemma_tombstones_stay_observed(old(self)@, old(self)@, *x, *x, 0);
                assert(self@ == (old(self)@.0, old(self)@.1.union(tags_of(old(self)@.0, *x))));
            }
        }
        ORSetOp::Remove { tags }
    }
}

impl<T: Ord + Clone> ORSet<T> {
    /// A copy of this replica: the same adds and tombstones.
    pub fn duplicate(&self) -> (s: ORSet<T>)
        ensures
            s@ == self@,
    {
        ORSet { added: self.added.clone(), removed: self.removed.clone() }
    }

    /// Every tag this replica has observed or tombstoned.
    fn used_tags(&self) -> (u: BTreeSet<u128>)
        requires
            lawful::<T>(),
        ensures
            u@ == self@.1.union(all_tags(self@.0)),
    {
        proof {
            lemma_lawful_facts::<T>();
        }
        let mut u = self.removed.clone();
        let pairs = set_refs(&self.added);
        let mut i: usize = 0;
        while i < pairs.len()
            invariant
                i <= pairs@.len(),
                forall|j: int| 0 <= j < pairs@.len() ==> self@.0.contains(*#[trigger] pairs@[j]),
                forall|t: u128| #[trigger] u@.contains(t) <==> (self@.1.contains(t)
                    || exists|j: int| 0 <= j < i && (*pairs@[j]).1 == t),
            decreases pairs.len() - i,
        {
            let pair = pairs[i];
            u.insert(pair.1);
            proof {
                assert forall|t: u128| #[trigger] u@.contains(t) <==> (self@.1.contains(t)
                    || exists|j: int| 0 <= j < i + 1 && (*pairs@[j]).1 == t) by {
                    if t == (*pairs@[i as int]).1 {
                        assert(0 <= i < i + 1 && (*pairs@[i as int]).1 == t);
                    }
                    if exists|j: int| 0 <= j < i + 1 && (*pairs@[j]).1 == t {
                        let j = choose|j: int| 0 <= j < i + 1 && (*pairs@[j]).1 == t;
                        if j < i {
                            assert(exists|j2: int| 0 <= j2 < i && (*pairs@[j2]).1 == t);
                        }
                    }
                }
            }
            i += 1;
        }
        proof {
            assert forall|t: u128| #[trigger] u@.contains(t) <==> self@.1.union(all_tags(self@.0)).contains(t) by {
                if exists|j: int| 0 <= j < pairs@.len() && (*pairs@[j]).1 == t {
                    let j = choose|j: int| 0 <= j < pairs@.len() && (*pairs@[j]).1 == t;
                    assert(self@.0.contains(*pairs@[j]));
                    assert(self@.0.contains(((*pairs@[j]).0, t)));
                }
                if all_tags(self@.0).contains(t) {
                    let x = choose|x: T| #[trigger] self@.0.contains((x, t));
                    let j = choose|j: int| 0 <= j < pairs@.len() && *pairs@[j] == (x, t);
                    assert((*pairs@[j]).1 == t);
                }
            }
            assert(u@ =~= self@.1.union(all_tags(self@.0)));
        }
        u
    }

    /// Add `x` under a fresh random tag, one that this replica has neither
    /// observed nor tombstoned; returns the op to broadcast. So `x` is present
    /// afterwards.
    pub fn add(&mut self, x: T) -> (op: ORSetOp<T>)
        requires
            lawful::<T>(),
        ensures
            final(self)@.1 == old(self)@.1,
            exists|y: T, t: u128| {
                &&& vstd::pervasive::cloned(x, y)
                &&& is_v4_tag(t)
                &&& !old(self)@.1.contains(t)
                &&& !all_tags(old(self)@.0).contains(t)
                &&& #[trigger] final(self)@.0 == old(self)@.0.insert((y, t))
                &&& op == ORSetOp::Add { element: x, tag: t }
            },
            old(self).wf() ==> final(self).wf(),
            exact_clones::<T>() ==> present(final(self)@.0, final(self)@.1, x),
    {
        let drawn = fresh_tag();
        let used = self.used_tags();
        let tag = if used.contains(&drawn) {
            unused_v4_tag(&used)
        } else {
            drawn
        };
        let y = x.clone();
        let ghost y0 = y;
        self.added.insert((y, tag));
        proof {
            assert(self@.0 == old(self)@.0.insert((y0, tag)));
            if old(self).wf() {
                lemma_tombstones_stay_observed(old(self)@, old(self)@, y0, y0, tag);
                assert(self@ == (old(self)@.0.insert((y0, tag)), old(self)@.1));
            }
            assert(vstd::pervasive::cloned(x, y0));
            if exact_clones::<T>() {
                assert(y0 == x);
                assert(self@.0.contains((x, tag)));
            }
        }
        ORSetOp::Add { element: x, tag }
    }

    /// Apply a remote op.
    pub fn apply(&mut self, op: &ORSetOp<T>)
        requires
            lawful::<T>(),
        ensures
            match *op {
                ORSetOp::Add { element, tag } => final(self)@.1 == old(self)@.1 && exists|y: T|
                    #[trigger] vstd::pervasive::cloned(element, y) && final(self)@.0 == old(self)@.0.insert((y, tag)),
                ORSetOp::Remove { tags } => final(self)@.0 == old(self)@.0 && final(self)@.1 == old(self)@.1.union(tags@),
            },
            exact_clones::<T>() ==> final(self)@ == orset_apply(old(self)@, *op),
            old(self).wf() && (op matches ORSetOp::Remove { tags } ==> tags@.subset_of(all_tags(old(self)@.0)))
                ==> final(self).wf(),
    {
        match op {
            ORSetOp::Add { element, tag } => {
                let y = element.clone();
                let ghost y0 = y;
                proof {
                    assert(vstd::pervasive::cloned(*element, y0));
                }
                self.added.insert((y, *tag));
                proof {
                    assert(self@.0 == old(self)@.0.insert((y0, *tag)));
                    assert(vstd::pervasive::cloned(*element, y0) && self@.0 == old(self)@.0.insert((y0, *tag)));
                    if old(self).wf() {
                        lemma_tombstones_stay_observed(old(self)@, old(self)@, y0, y0, *tag);
                        assert(self@ == (old(self)@.0.insert((y0, *tag)), old(self)@.1));
                    }
                }
            },
            ORSetOp::Remove { tags } => {
                let items = set_items(tags);
                let mut k: usize = 0;
                while k < items.len()
                    invariant
                        k <= items@.len(),
                        items@.to_set() == tags@,
                        self.removed@ == old(self).removed@.union(items@.take(k as int).to_set()),
                        self.added@ == old(self).added@,
                    decreases items.len() - k,
                {
                    let t = items[k];
                    self.removed.insert(t);
                    proof {
                        assert(items@.take(k + 1) =~= items@.take(k as int).push(t));
                        items@.take(k as int).lemma_push_to_set_commute(t);
                        assert(self.removed@ =~= old(self).removed@.union(items@.take(k + 1).to_set()));
                    }
                    k += 1;
                }
                proof {
                    assert(items@.take(items@.len() as int) =~= items@);
                    assert(self@.1 =~= old(self)@.1.union(tags@));
                }
            },
        }
    }

    /// Merge another replica's state: the union of the adds (copies of the
    /// other's elements) and the union of the tombstones.
    pub fn merge(&mut self, other: &ORSet<T>)
        requires
            lawful::<T>(),
        ensures
            final(self)@.1 == old(self)@.1.union(other@.1),
            old(self)@.0.subset_of(final(self)@.0),
            forall|p: (T, u128)| #[trigger] final(self)@.0.contains(p) ==> old(self)@.0.contains(p)
                || exists|e: T| other@.0.contains((e, p.1)) && vstd::pervasive::cloned(e, p.0),
            forall|p: (T, u128)| #[trigger] other@.0.contains(p) ==> has_copy(final(self)@.0, p.0, p.1),
            exact_clones::<T>() ==> final(self)@ == orset_join(old(self)@, other@),
            old(self).wf() && other.wf() ==> final(self).wf(),
    {
        let pairs = set_refs(&other.added);
        let mut i: usize = 0;
        while i < pairs.len()
            invariant
                lawful::<T>(),
                i <= pairs@.len(),
                forall|j: int| 0 <= j < pairs@.len() ==> other@.0.contains(*#[trigger] pairs@[j]),
                forall|p: (T, u128)| #[trigger] other@.0.contains(p) ==> exists|j: int| 0 <= j < pairs@.len() && *pairs@[j] == p,
                old(self)@.0.subset_of(self@.0),
                forall|p: (T, u128)| #[trigger] self@.0.contains(p) ==> old(self)@.0.contains(p)
                    || exists|e: T| other@.0.contains((e, p.1)) && vstd::pervasive::cloned(e, p.0),
                forall|j: int| 0 <= j < i ==> has_copy(self@.0, (*#[trigger] pairs@[j]).0, (*pairs@[j]).1),
                self.removed@ == old(self).removed@,
            decreases pairs.len() - i,
        {
            let pair = pairs[i];
            let y = pair.0.clone();
            let ghost y0 = y;
            let ghost before = self@.0;
            proof {
                assert(vstd::pervasive::cloned(pair.0, y0));
            }
            self.added.insert((y, pair.1));
            proof {
                assert(self@.0 == before.insert((y0, pair.1)));
                assert(other@.0.contains(*pair));
                assert(self@.0.contains((y0, (*pairs@[i as int]).1)));
                assert forall|p: (T, u128)| #[trigger] self@.0.contains(p) implies old(self)@.0.contains(p)
                    || exists|e: T| other@.0.contains((e, p.1)) && vstd::pervasive::cloned(e, p.0) by {
                    if p == (y0, pair.1) {
                        assert(other@.0.contains((pair.0, p.1)) && vstd::pervasive::cloned(pair.0, p.0));
                    } else {
                        assert(before.contains(p));
                    }
                }
                assert forall|j: int| 0 <= j < i + 1 implies has_copy(self@.0, (*#[trigger] pairs@[j]).0, (*pairs@[j]).1) by {
                    if j == i {
                        assert(self@.0.contains((y0, (*pairs@[j]).1)) && vstd::pervasive::cloned((*pairs@[j]).0, y0));
                    } else {
                        assert(has_copy(before, (*pairs@[j]).0, (*pairs@[j]).1));
                        let y1 = choose|y: T| before.contains((y, (*pairs@[j]).1)) && vstd::pervasive::cloned((*pairs@[j]).0, y);
                        assert(self@.0.contains((y1, (*pairs@[j]).1)));
                    }
                }
            }
            i += 1;
        }
        proof {
            assert forall|p: (T, u128)| #[trigger] other@.0.contains(p) implies has_copy(self@.0, p.0, p.1) by {
                let j = choose|j: int| 0 <= j < pairs@.len() && *pairs@[j] == p;
                assert(has_copy(self@.0, (*pairs@[j]).0, (*pairs@[j]).1));
            }
        }
        let items = set_items(&other.removed);
        let mut k: usize = 0;
        let ghost mid = self.added@;
        while k < items.len()
            invariant
                k <= items@.len(),
                items@.to_set() == other@.1,
                self.removed@ == old(self).removed@.union(items@.take(k as int).to_set()),
                self.added@ == mid,
            decreases items.len() - k,
        {
            let t = items[k];
            self.removed.insert(t);
            proof {
                assert(items@.take(k + 1) =~= items@.take(k as int).push(t));
                items@.take(k as int).lemma_push_to_set_commute(t);
                assert(self.removed@ =~= old(self).removed@.union(items@.take(k + 1).to_set()));
            }
            k += 1;
        }
        proof {
            assert(items@.take(items@.len() as int) =~= items@);
            if old(self).wf() && other.wf() {
                assert forall|u: u128| self@.1.contains(u) implies all_tags(self@.0).contains(u) by {
                    if old(self)@.1.contains(u) {
                        assert(all_tags(old(self)@.0).contains(u));
                        let z = choose|z: T| #[trigger] old(self)@.0.contains((z, u));
                        assert(self@.0.contains((z, u)));
                    } else {
                        assert(other@.1.contains(u));
                        assert(all_tags(other@.0).contains(u));
                        let z = choose|z: T| #[trigger] other@.0.contains((z, u));
                        assert(has_copy(self@.0, z, u));
                        let y = choose|y: T| self@.0.contains((y, u)) && vstd::pervasive::cloned(z, y);
                        assert(self@.0.contains((y, u)));
                    }
                }
            }
            if exact_clones::<T>() {
                assert(self@.0 =~= old(self)@.0.union(other@.0)) by {
                    assert forall|p: (T, u128)| self@.0.contains(p) implies old(self)@.0.union(other@.0).contains(p) by {
                        if !old(self)@.0.contains(p) {
                            let e = choose|e: T| other@.0.contains((e, p.1)) && vstd::pervasive::cloned(e, p.0);
                            assert(e == p.0);
                        }
                    }
                    assert forall|p: (T, u128)| other@.0.contains(p) implies self@.0.contains(p) by {
                        assert(has_copy(self@.0, p.0, p.1));
                        let y = choose|y: T| self@.0.contains((y, p.1)) && vstd::pervasive::cloned(p.0, y);
                        assert(y == p.0);
                    }
                }
            }
        }
    }

    /// The abstract state this replica stands for.
    pub fn tla_state(&self) -> (s: TlaORSetState<T>)
        ensures
            s.added@ == self@.0,
            s.removed@ == self@.1,
    {
        TlaORSetState { added: self.added.clone(), removed: self.removed.clone() }
    }
}

/// Merging does not depend on the order of the two sides, nor on how three
/// merges are grouped, and merging a state with itself changes nothing.
pub proof fn lemma_orset_join_laws<T>(a: (Set<(T, u128)>, Set<u128>), b: (Set<(T, u128)>, Set<u128>), c: (Set<(T, u128)>, Set<u128>))
    ensures
        orset_join(a, b) == orset_join(b, a),
        orset_join(orset_join(a, b), c) == orset_join(a, orset_join(b, c)),
        orset_join(a, a) == a,
{
    assert(orset_join(a, b).0 =~= orset_join(b, a).0);
    assert(orset_join(a, b).1 =~= orset_join(b, a).1);
    assert(orset_join(orset_join(a, b), c).0 =~= orset_join(a, orset_join(b, c)).0);
    assert(orset_join(orset_join(a, b), c).1 =~= orset_join(a, orset_join(b, c)).1);
    assert(orset_join(a, a).0 =~= a.0);
    assert(orset_join(a, a).1 =~= a.1);
}

/// Add wins: an element added under a tag that the other replica never
/// observed survives the merge with that replica, whatever it removed.
pub proof fn lemma_concurrent_add_wins<T>(a: (Set<(T, u128)>, Set<u128>), b: (Set<(T, u128)>, Set<u128>), x: T, t: u128)
    requires
        a.0.contains((x, t)),
        !a.1.contains(t),
        tombstones_observed(b),
        !all_tags(b.0).contains(t),
    ensures
        present(orset_join(a, b).0, orset_join(a, b).1, x),
{
    assert(orset_join(a, b).0.contains((x, t)));
}

/// A remove that observed every add of `x` wins: once the removing replica
/// has tombstoned all the tags of `x` it saw, and those include all the tags
/// of `x` at the other replica, `x` is absent after the merge.
pub proof fn lemma_observed_remove_wins<T>(a: (Set<(T, u128)>, Set<u128>), b: (Set<(T, u128)>, Set<u128>), x: T)
    requires
        tags_of(a.0, x).subset_of(tags_of(b.0, x)),
        tags_of(b.0, x).subset_of(b.1),
    ensures
        !present(orset_join(a, b).0, orset_join(a, b).1, x),
{
    assert forall|t: u128| #[trigger] orset_join(a, b).0.contains((x, t)) implies orset_join(a, b).1.contains(t) by {
        if a.0.contains((x, t)) {
            assert(tags_of(a.0, x).contains(t));
        } else {
            assert(tags_of(b.0, x).contains(t));
        }
    }
}

/// Only observed tags are ever tombstoned: removing, adding and merging
/// keep that so.
pub proof fn lemma_tombstones_stay_observed<T>(a: (Set<(T, u128)>, Set<u128>), b: (Set<(T, u128)>, Set<u128>), x: T, y: T, t: u128)
    requires
        tombstones_observed(a),
        tombstones_observed(b),
    ensures
        tombstones_observed((a.0, a.1.union(tags_of(a.0, x)))),
        tombstones_observed((a.0.insert((y, t)), a.1)),
        tombstones_observed(orset_join(a, b)),
{
    assert forall|u: u128| a.1.union(tags_of(a.0, x)).contains(u) implies all_tags(a.0).contains(u) by {
        if tags_of(a.0, x).contains(u) {
            assert(a.0.contains((x, u)));
        }
    }
    assert forall|u: u128| a.1.contains(u) implies all_tags(a.0.insert((y, t))).contains(u) by {
        assert(all_tags(a.0).contains(u));
        let z = choose|z: T| #[trigger] a.0.contains((z, u));
        assert(a.0.insert((y, t)).contains((z, u)));
    }
    assert forall|u: u128| orset_join(a, b).1.contains(u) implies all_tags(orset_join(a, b).0).contains(u) by {
        if a.1.contains(u) {
            assert(all_tags(a.0).contains(u));
            let z = choose|z: T| #[trigger] a.0.contains((z, u));
            assert(orset_join(a, b).0.contains((z, u)));
        } else {
            assert(all_tags(b.0).contains(u));
            let z = choose|z: T| #[trigger] b.0.contains((z, u));
            assert(orset_join(a, b).0.contains((z, u)));
        }
    }
}

/// Merging a list of replica states one after the other, starting from the
/// empty set.
pub open spec fn orset_join_all<T>(ss: Seq<(Set<(T, u128)>, Set<u128>)>) -> (Set<(T, u128)>, Set<u128>)
    decreases ss.len(),
{
    if ss.len() == 0 {
        (Set::empty(), Set::empty())
    } else {
        orset_join(orset_join_all(ss.drop_last()), ss.last())
    }
}

/// The merge of a list holds exactly what some state in the list holds.
pub proof fn lemma_orset_join_all_members<T>(ss: Seq<(Set<(T, u128)>, Set<u128>)>, e: (T, u128), t: u128)
    ensures
        orset_join_all(ss).0.contains(e) <==> exists|i: int| 0 <= i < ss.len() && #[trigger] ss[i].0.contains(e),
        orset_join_all(ss).1.contains(t) <==> exists|i: int| 0 <= i < ss.len() && #[trigger] ss[i].1.contains(t),
    decreases ss.len(),
{
    if ss.len() > 0 {
        let init = ss.drop_last();
        lemma_orset_join_all_members(init, e, t);
        assert forall|i: int| 0 <= i < init.len() implies #[trigger] init[i] == ss[i] by {}
        if exists|i: int| 0 <= i < ss.len() && #[trigger] ss[i].0.contains(e) {
            let i = choose|i: int| 0 <= i < ss.len() && #[trigger] ss[i].0.contains(e);
            if i < init.len() {
                assert(init[i].0.contains(e));
            }
        }
        if exists|i: int| 0 <= i < ss.len() && #[trigger] ss[i].1.contains(t) {
            let i = choose|i: int| 0 <= i < ss.len() && #[trigger] ss[i].1.contains(t);
            if i < init.len() {
                assert(init[i].1.contains(t));
            }
        }
        if orset_join_all(ss).0.contains(e) && !ss.last().0.contains(e) {
            let i = choose|i: int| 0 <= i < init.len() && #[trigger] init[i].0.contains(e);
            assert(ss[i].0.contains(e));
        }
        if orset_join_all(ss).1.contains(t) && !ss.last().1.contains(t) {
            let i = choose|i: int| 0 <= i < init.len() && #[trigger] init[i].1.contains(t);
            assert(ss[i].1.contains(t));
        }
        if orset_join_all(ss).0.contains(e) && ss.last().0.contains(e) {
            assert(ss[ss.len() - 1].0.contains(e));
        }
        if orset_join_all(ss).1.contains(t) && ss.last().1.contains(t) {
            assert(ss[ss.len() - 1].1.contains(t));
        }
    }
}

/// The merge of a list of replica states depends only on which states are
/// in it: every merge order of the same replicas converges to the same
/// state.
pub proof fn lemma_orset_join_all_order_independent<T>(ss1: Seq<(Set<(T, u128)>, Set<u128>)>, ss2: Seq<(Set<(T, u128)>, Set<u128>)>)
    requires
        ss1.to_set() == ss2.to_set(),
    ensures
        orset_join_all(ss1) == orset_join_all(ss2),
{
    assert forall|e: (T, u128)| orset_join_all(ss1).0.contains(e) <==> orset_join_all(ss2).0.contains(e) by {
        lemma_orset_join_all_members(ss1, e, 0);
        lemma_orset_join_all_members(ss2, e, 0);
        if orset_join_all(ss1).0.contains(e) {
            let i = choose|i: int| 0 <= i < ss1.len() && #[trigger] ss1[i].0.contains(e);
            assert(ss1.to_set().contains(ss1[i]));
            let j = choose|j: int| 0 <= j < ss2.len() && ss2[j] == ss1[i];
            assert(ss2[j].0.contains(e));
        }
        if orset_join_all(ss2).0.contains(e) {
            let j = choose|j: int| 0 <= j < ss2.len() && #[trigger] ss2[j].0.contains(e);
            assert(ss2.to_set().contains(ss2[j]));
            let i = choose|i: int| 0 <= i < ss1.len() && ss1[i] == ss2[j];
            assert(ss1[i].0.contains(e));
        }
    }
    assert forall|t: u128| orset_join_all(ss1).1.contains(t) <==> orset_join_all(ss2).1.contains(t) by {
        let e: (T, u128) = vstd::pervasive::arbitrary();
        lemma_orset_join_all_members(ss1, e, t);
        lemma_orset_join_all_members(ss2, e, t);
        if orset_join_all(ss1).1.contains(t) {
            let i = choose|i: int| 0 <= i < ss1.len() && #[trigger] ss1[i].1.contains(t);
            assert(ss1.to_set().contains(ss1[i]));
            let j = choose|j: int| 0 <= j < ss2.len() && ss2[j] == ss1[i];
            assert(ss2[j].1.contains(t));
        }
        if orset_join_all(ss2).1.contains(t) {
            let j = choose|j: int| 0 <= j < ss2.len() && #[trigger] ss2[j].1.contains(t);
            assert(ss2.to_set().contains(ss2[j]));
            let i = choose|i: int| 0 <= i < ss1.len() && ss1[i] == ss2[j];
            assert(ss1[i].1.contains(t));
        }
    }
    assert(orset_join_all(ss1).0 =~= orset_join_all(ss2).0);
    assert(orset_join_all(ss1).1 =~= orset_join_all(ss2).1);
}

/// Applying two ops in either order gives the same state, and applying an
/// op a second time changes nothing: replicas that received the same ops, in
/// any order and any number of times, hold the same state.
pub proof fn lemma_orset_apply_commutes<T>(s: (Set<(T, u128)>, Set<u128>), a: ORSetOp<T>, b: ORSetOp<T>)
    ensures
        orset_apply(orset_apply(s, a), b) == orset_apply(orset_apply(s, b), a),
        orset_apply(orset_apply(s, a), a) == orset_apply(s, a),
{
    assert(orset_apply(orset_apply(s, a), b).0 =~= orset_apply(orset_apply(s, b), a).0);
    assert(orset_apply(orset_apply(s, a), b).1 =~= orset_apply(orset_apply(s, b), a).1);
    assert(orset_apply(orset_apply(s, a), a).0 =~= orset_apply(s, a).0);
    assert(orset_apply(orset_apply(s, a), a).1 =~= orset_apply(s, a).1);
}

/// An add makes its element present: the element goes in under a tag the
/// replica has not tombstoned, so it is present afterwards, whatever was
/// added or removed before; in particular re-adding an element after
/// removing it brings it back.
pub proof fn lemma_add_makes_present<T: Clone>(before: (Set<(T, u128)>, Set<u128>), x: T, y: T, t: u128)
    requires
        vstd::pervasive::cloned(x, y),
        exact_clones::<T>(),
        !before.1.contains(t),
    ensures
        present(before.0.insert((y, t)), before.1, x),
        ({
            let removed = (before.0, before.1.union(tags_of(before.0, x)));
            !removed.1.contains(t) ==> present(removed.0.insert((y, t)), removed.1, x)
        }),
{
    assert(y == x);
    assert(before.0.insert((y, t)).contains((x, t)));
}

} // verus!
