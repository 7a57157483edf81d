//! Mathematical model shared by the counters and the vector clock: a finite
//! map from replica ids to counts, where a missing entry means zero.

use std::collections::{BTreeMap, BTreeSet};
use vstd::prelude::*;
use vstd::std_specs::cmp::OrdSpec;

verus! {

broadcast use vstd::std_specs::btree::group_btree_axioms, vstd::laws_cmp::group_laws_cmp;

/// The count a map records for `k`, zero when `k` is absent.
pub open spec fn count_of(m: Map<u64, u64>, k: u64) -> nat {
    if m.contains_key(k) { m[k] as nat } else { 0 }
}

/// The larger of two counts.
pub open spec fn max_nat(a: nat, b: nat) -> nat {
    if a >= b { a } else { b }
}

/// Component-wise maximum of two maps; the domain is the union of both.
pub open spec fn join(a: Map<u64, u64>, b: Map<u64, u64>) -> Map<u64, u64> {
    Map::new(
        |k: u64| a.contains_key(k) || b.contains_key(k),
        |k: u64| max_nat(count_of(a, k), count_of(b, k)) as u64,
    )
}

/// Every component of `a` is at most the matching component of `b`.
pub open spec fn dominated(a: Map<u64, u64>, b: Map<u64, u64>) -> bool {
    forall|k: u64| #[trigger] count_of(a, k) <= count_of(b, k)
}

/// Sum of `m[k]` over the keys `k` in `s`.
pub open spec fn sum_over(m: Map<u64, u64>, s: Set<u64>) -> int
    decreases s.len(),
    when s.finite()
{
    if s.len() == 0 {
        0
    } else {
        let k = s.choose();
        count_of(m, k) + sum_over(m, s.remove(k))
    }
}

/// Sum of all the counts a map records.
pub open spec fn total(m: Map<u64, u64>) -> int {
    sum_over(m, m.dom())
}

/// Removing any element of `s` takes exactly its count out of the sum.
pub proof fn lemma_sum_over_remove(m: Map<u64, u64>, s: Set<u64>, a: u64)
    requires
        s.finite(),
        s.contains(a),
    ensures
        sum_over(m, s) == count_of(m, a) + sum_over(m, s.remove(a)),
    decreases s.len(),
{
    let k = s.choose();
    if k != a {
        lemma_sum_over_remove(m, s.remove(k), a);
        lemma_sum_over_remove(m, s.remove(a), k);
        assert(s.remove(k).remove(a) =~= s.remove(a).remove(k));
    }
}

/// The sum over `s` depends only on the counts of the keys in `s`.
pub proof fn lemma_sum_over_agree(m1: Map<u64, u64>, m2: Map<u64, u64>, s: Set<u64>)
    requires
        s.finite(),
        forall|k: u64| s.contains(k) ==> count_of(m1, k) == count_of(m2, k),
    ensures
        sum_over(m1, s) == sum_over(m2, s),
    decreases s.len(),
{
    if s.len() > 0 {
        let k = s.choose();
        lemma_sum_over_agree(m1, m2, s.remove(k));
    }
}

/// Sums are monotone in the counts and in the set summed over.
pub proof fn lemma_sum_over_mono(m1: Map<u64, u64>, m2: Map<u64, u64>, s1: Set<u64>, s2: Set<u64>)
    requires
        s2.finite(),
        s1.subset_of(s2),
        forall|k: u64| s1.contains(k) ==> count_of(m1, k) <= count_of(m2, k),
    ensures
        sum_over(m1, s1) <= sum_over(m2, s2),
    decreases s2.len(),
{
    vstd::set_lib::lemma_len_subset(s1, s2);
    if s2.len() > 0 {
        let k = s2.choose();
        lemma_sum_over_nonneg(m2, s2.remove(k));
        if s1.contains(k) {
            lemma_sum_over_remove(m1, s1, k);
            lemma_sum_over_mono(m1, m2, s1.remove(k), s2.remove(k));
        } else {
            assert(s1.subset_of(s2.remove(k)));
            lemma_sum_over_mono(m1, m2, s1, s2.remove(k));
        }
    } else {
        assert(s1 =~= Set::empty());
    }
}

/// A sum of counts is never negative.
pub proof fn lemma_sum_over_nonneg(m: Map<u64, u64>, s: Set<u64>)
    requires
        s.finite(),
    ensures
        sum_over(m, s) >= 0,
    decreases s.len(),
{
    if s.len() > 0 {
        lemma_sum_over_nonneg(m, s.remove(s.choose()));
    }
}

/// Summing along a list of distinct keys gives the sum over their set.
pub open spec fn sum_seq(m: Map<u64, u64>, ks: Seq<u64>) -> int
    decreases ks.len(),
{
    if ks.len() == 0 {
        0
    } else {
        sum_seq(m, ks.drop_last()) + count_of(m, ks.last())
    }
}

pub proof fn lemma_sum_seq_is_sum_over(m: Map<u64, u64>, ks: Seq<u64>)
    requires
        ks.no_duplicates(),
    ensures
        sum_seq(m, ks) == sum_over(m, ks.to_set()),
    decreases ks.len(),
{
    if ks.len() > 0 {
        let p = ks.drop_last();
        lemma_sum_seq_is_sum_over(m, p);
        assert(p.no_duplicates());
        assert(ks.to_set().remove(ks.last()) =~= p.to_set()) by {
            assert forall|x: u64| ks.to_set().remove(ks.last()).contains(x) implies p.to_set().contains(x) by {
                let i = choose|i: int| 0 <= i < ks.len() && ks[i] == x;
                assert(i != ks.len() - 1);
                assert(p[i] == x);
            }
            assert forall|x: u64| p.to_set().contains(x) implies ks.to_set().remove(ks.last()).contains(x) by {
                let i = choose|i: int| 0 <= i < p.len() && p[i] == x;
                assert(ks[i] == x);
            }
        }
        vstd::seq_lib::seq_to_set_is_finite(ks);
        lemma_sum_over_remove(m, ks.to_set(), ks.last());
    } else {
        assert(ks.to_set() =~= Set::empty());
    }
}

/// A sequence that a B-tree hands out in increasing order is increasing in
/// the order of its item type.
proof fn lemma_increasing_items<K: Ord>(s: Seq<K>)
    requires
        vstd::std_specs::btree::increasing_seq(s),
        vstd::laws_cmp::obeys_cmp::<K>(),
    ensures
        forall|i: int, j: int| 0 <= i < j < s.len() ==> #[trigger] item_less(s[i], s[j]),
{
    vstd::std_specs::btree::axiom_increasing_seq_meaning(s);
}

/// `a` comes strictly before `b` in the order of their type.
pub open spec fn item_less<K: Ord>(a: K, b: K) -> bool {
    a.cmp_spec(&b) is Less
}

/// A sequence of references that is increasing is increasing in the order
/// of the referenced values.
proof fn lemma_increasing_refs<K: Ord>(s: Seq<&K>)
    requires
        vstd::std_specs::btree::increasing_seq(s),
        vstd::laws_cmp::obeys_cmp::<K>(),
    ensures
        forall|i: int, j: int| 0 <= i < j < s.len() ==> #[trigger] item_less(*s[i], *s[j]),
{
    broadcast use vstd::laws_cmp::lemma_ref_obeys_cmp_spec;
    assert(vstd::laws_cmp::obeys_cmp::<&K>());
    lemma_increasing_items::<&K>(s);
    assert forall|i: int, j: int| 0 <= i < j < s.len() implies #[trigger] item_less(*s[i], *s[j]) by {
        assert(item_less::<&K>(s[i], s[j]));
    }
}

/// The keys of a map, in increasing order.
pub fn keys_of<K: Copy + Ord, V>(m: &BTreeMap<K, V>) -> (r: Vec<K>)
    requires
        vstd::laws_cmp::obeys_cmp::<K>(),
    ensures
        r@.to_set() == m@.dom(),
        r@.no_duplicates(),
        r@.len() == m@.dom().len(),
        forall|i: int, j: int| 0 <= i < j < r@.len() ==> #[trigger] item_less(r@[i], r@[j]),
{
    let mut out: Vec<K> = Vec::new();
    for k in it: m.keys()
        invariant
            vstd::laws_cmp::obeys_cmp::<K>(),
            it.seq().unref().to_set() == m@.dom(),
            it.seq().unref().no_duplicates(),
            it.seq().len() == m@.dom().len(),
            vstd::std_specs::btree::increasing_seq(it.seq()),
            forall|i: int, j: int| 0 <= i < j < out@.len() ==> #[trigger] item_less(out@[i], out@[j]),
            out@ == it.seq().unref().take(it.index()),
            it.index() == it.seq().len() ==> out@ == it.seq().unref(),
    {
        let ghost i0 = it.index();
        proof {
            lemma_increasing_refs(it.seq());
        }
        out.push(*k);
        proof {
            assert(it.seq().unref().take(i0 + 1) =~= out@);
            assert(i0 + 1 == it.seq().len() ==> out@ =~= it.seq().unref());
            assert forall|i: int, j: int| 0 <= i < j < out@.len() implies #[trigger] item_less(out@[i], out@[j]) by {
                assert(out@[i] == *it.seq()[i]);
                assert(out@[j] == *it.seq()[j]);
            }
        }
    }
    out
}

/// The items of a set, in increasing order.
pub fn set_items<K: Copy + Ord>(m: &BTreeSet<K>) -> (r: Vec<K>)
    requires
        vstd::laws_cmp::obeys_cmp::<K>(),
    ensures
        r@.to_set() == m@,
        r@.no_duplicates(),
        r@.len() == m@.len(),
{
    let mut out: Vec<K> = Vec::new();
    for k in it: m.iter()
        invariant
            it.seq().unref().to_set() == m@,
            it.seq().unref().no_duplicates(),
            it.seq().len() == m@.len(),
            out@ == it.seq().unref().take(it.index()),
            it.index() == it.seq().len() ==> out@ == it.seq().unref(),
    {
        let ghost i0 = it.index();
        out.push(*k);
        proof {
            assert(it.seq().unref().take(i0 + 1) =~= out@);
            assert(i0 + 1 == it.seq().len() ==> out@ =~= it.seq().unref());
        }
    }
    out
}

/// References to the items of a set, in increasing order.
pub fn set_refs<K: Ord>(m: &BTreeSet<K>) -> (r: Vec<&K>)
    requires
        vstd::laws_cmp::obeys_cmp::<K>(),
    ensures
        forall|i: int| 0 <= i < r@.len() ==> m@.contains(*#[trigger] r@[i]),
        forall|x: K| #[trigger] m@.contains(x) ==> exists|i: int| 0 <= i < r@.len() && *r@[i] == x,
        forall|i: int, j: int| 0 <= i < j < r@.len() ==> #[trigger] item_less(*r@[i], *r@[j]),
{
    let mut out: Vec<&K> = Vec::new();
    for k in it: m.iter()
        invariant
            vstd::laws_cmp::obeys_cmp::<K>(),
            it.seq().unref().to_set() == m@,
            vstd::std_specs::btree::increasing_seq(it.seq()),
            out@ == it.seq().take(it.index()),
            forall|i: int, j: int| 0 <= i < j < out@.len() ==> #[trigger] item_less(*out@[i], *out@[j]),
            it.index() == it.seq().len() ==> out@ == it.seq(),
    {
        let ghost i0 = it.index();
        proof {
            lemma_increasing_refs(it.seq());
        }
        out.push(k);
        proof {
            assert(it.seq().take(i0 + 1) =~= out@);
            assert(i0 + 1 == it.seq().len() ==> out@ =~= it.seq());
            assert forall|i: int, j: int| 0 <= i < j < out@.len() implies #[trigger] item_less(*out@[i], *out@[j]) by {
                assert(out@[i] == it.seq()[i]);
                assert(out@[j] == it.seq()[j]);
            }
        }
    }
    proof {
        assert forall|i: int| 0 <= i < out@.len() implies m@.contains(*#[trigger] out@[i]) by {
            assert(out@.unref()[i] == *out@[i]);
            assert(out@.unref().to_set().contains(*out@[i]));
        }
        assert forall|x: K| #[trigger] m@.contains(x) implies exists|i: int| 0 <= i < out@.len() && *out@[i] == x by {
            assert(out@.unref().to_set().contains(x));
            let i = choose|i: int| 0 <= i < out@.unref().len() && out@.unref()[i] == x;
            assert(*out@[i] == x);
        }
    }
    out
}

/// The keys of a map of counts, in increasing order.
pub fn count_keys<V>(m: &BTreeMap<u64, V>) -> (r: Vec<u64>)
    ensures
        r@.to_set() == m@.dom(),
        r@.no_duplicates(),
        r@.len() == m@.dom().len(),
        forall|i: int, j: int| 0 <= i < j < r@.len() ==> r@[i] < r@[j],
{
    let r = keys_of(m);
    assert forall|i: int, j: int| 0 <= i < j < r@.len() implies r@[i] < r@[j] by {
        assert(item_less(r@[i], r@[j]));
    }
    r
}

/// Sum of all the counts a map records.
pub fn sum_counts(m: &BTreeMap<u64, u64>) -> (s: u64)
    requires
        total(m@) <= u64::MAX,
    ensures
        s == total(m@),
{
    let keys = count_keys(m);
    let mut acc: u64 = 0;
    let mut i: usize = 0;
    proof {
        assert(m@.dom().finite());
        assert(keys@.take(keys@.len() as int) =~= keys@);
    }
    while i < keys.len()
        invariant
            i <= keys@.len(),
            keys@.to_set() == m@.dom(),
            keys@.no_duplicates(),
            m@.dom().finite(),
            total(m@) <= u64::MAX,
            acc == sum_seq(m@, keys@.take(i as int)),
        decreases keys.len() - i,
    {
        let k = keys[i];
        let c = match m.get(&k) {
            Some(c) => *c,
            None => 0,
        };
        proof {
            let next = keys@.take(i + 1);
            assert(next.drop_last() =~= keys@.take(i as int));
            assert(next.no_duplicates());
            lemma_sum_seq_is_sum_over(m@, next);
            assert(next.to_set().subset_of(m@.dom())) by {
                assert forall|x: u64| next.to_set().contains(x) implies m@.dom().contains(x) by {
                    let j = choose|j: int| 0 <= j < next.len() && next[j] == x;
                    assert(keys@[j] == x);
                    assert(keys@.to_set().contains(x));
                }
            }
            lemma_sum_over_mono(m@, m@, next.to_set(), m@.dom());
        }
        acc = acc + c;
        i += 1;
    }
    proof {
        lemma_sum_seq_is_sum_over(m@, keys@);
    }
    acc
}

/// Raise every count of `dst` to at least the matching count of `src`,
/// adding the keys `dst` lacks.
pub fn join_into(dst: &mut BTreeMap<u64, u64>, src: &BTreeMap<u64, u64>)
    ensures
        final(dst)@ == join(old(dst)@, src@),
{
    let keys = count_keys(src);
    let ghost start = dst@;
    let mut i: usize = 0;
    while i < keys.len()
        invariant
            i <= keys@.len(),
            keys@.to_set() == src@.dom(),
            keys@.no_duplicates(),
            dst@ == join(start, src@.restrict(keys@.take(i as int).to_set())),
        decreases keys.len() - i,
    {
        let k = keys[i];
        assert(keys@.to_set().contains(k));
        let count = match src.get(&k) {
            Some(c) => *c,
            None => 0,
        };
        let mine = match dst.get(&k) {
            Some(c) => *c,
            None => 0,
        };
        let larger = if mine >= count { mine } else { count };
        dst.insert(k, larger);
        proof {
            let done = keys@.take(i as int).to_set();
            let next = keys@.take(i + 1).to_set();
            assert(next =~= done.insert(k)) by {
                assert(keys@.take(i + 1) =~= keys@.take(i as int).push(k));
                keys@.take(i as int).lemma_push_to_set_commute(k);
            }
            assert(!done.contains(k)) by {
                if done.contains(k) {
                    let j = choose|j: int| 0 <= j < i && keys@.take(i as int)[j] == k;
                    assert(keys@[j] == keys@[i as int]);
                }
            }
            assert(dst@ =~= join(start, src@.restrict(next)));
        }
        i += 1;
    }
    proof {
        assert(keys@.take(keys@.len() as int) =~= keys@);
        assert(src@.restrict(src@.dom()) =~= src@);
    }
}

/// Merging by the component-wise maximum does not depend on the order of
/// the two sides.
pub proof fn lemma_join_commutative(a: Map<u64, u64>, b: Map<u64, u64>)
    ensures
        join(a, b) == join(b, a),
{
    assert(join(a, b) =~= join(b, a));
}

/// Merging three states gives the same result however the merges are
/// grouped.
pub proof fn lemma_join_associative(a: Map<u64, u64>, b: Map<u64, u64>, c: Map<u64, u64>)
    ensures
        join(join(a, b), c) == join(a, join(b, c)),
{
    assert(join(join(a, b), c) =~= join(a, join(b, c)));
}

/// Merging a state with itself changes nothing.
pub proof fn lemma_join_idempotent(a: Map<u64, u64>)
    ensures
        join(a, a) == a,
{
    assert(join(a, a) =~= a);
}

/// The merge is at least each side in every component, and it is the least
/// such state: any state above both sides is above the merge.
pub proof fn lemma_join_least_upper_bound(a: Map<u64, u64>, b: Map<u64, u64>, c: Map<u64, u64>)
    ensures
        dominated(a, join(a, b)),
        dominated(b, join(a, b)),
        dominated(a, c) && dominated(b, c) ==> dominated(join(a, b), c),
{
    if dominated(a, c) && dominated(b, c) {
        assert forall|k: u64| #[trigger] count_of(join(a, b), k) <= count_of(c, k) by {
            assert(count_of(a, k) <= count_of(c, k));
            assert(count_of(b, k) <= count_of(c, k));
        }
    }
}

/// Merging never lowers the sum of the counts: the merged total is at least
/// the total of either side.
pub proof fn lemma_join_total_grows(a: Map<u64, u64>, b: Map<u64, u64>)
    requires
        a.dom().finite(),
        b.dom().finite(),
    ensures
        total(join(a, b)) >= total(a),
        total(join(a, b)) >= total(b),
{
    let j = join(a, b);
    assert(j.dom() =~= a.dom().union(b.dom()));
    lemma_sum_over_mono(a, j, a.dom(), j.dom());
    lemma_sum_over_mono(b, j, b.dom(), j.dom());
}

/// Merging a list of states one after the other, starting from nothing.
pub open spec fn join_all(ms: Seq<Map<u64, u64>>) -> Map<u64, u64>
    decreases ms.len(),
{
    if ms.len() == 0 {
        Map::empty()
    } else {
        join(join_all(ms.drop_last()), ms.last())
    }
}

/// Every component of the merge of a list is the largest matching component
/// among the list's states, and its keys are theirs.
pub proof fn lemma_join_all_is_max(ms: Seq<Map<u64, u64>>, k: u64)
    ensures
        join_all(ms).contains_key(k) <==> exists|i: int| 0 <= i < ms.len() && #[trigger] ms[i].contains_key(k),
        forall|i: int| 0 <= i < ms.len() ==> count_of(#[trigger] ms[i], k) <= count_of(join_all(ms), k),
        count_of(join_all(ms), k) == 0 || exists|i: int| 0 <= i < ms.len() && count_of(join_all(ms), k) == count_of(#[trigger] ms[i], k),
    decreases ms.len(),
{
    if ms.len() > 0 {
        let init = ms.drop_last();
        lemma_join_all_is_max(init, k);
        assert forall|i: int| 0 <= i < init.len() implies #[trigger] init[i] == ms[i] by {}
        if join_all(ms).contains_key(k) {
            if init.len() > 0 && join_all(init).contains_key(k) {
                let i = choose|i: int| 0 <= i < init.len() && #[trigger] init[i].contains_key(k);
                assert(ms[i].contains_key(k));
            } else {
                assert(ms[ms.len() - 1].contains_key(k));
            }
        }
        if exists|i: int| 0 <= i < ms.len() && #[trigger] ms[i].contains_key(k) {
            let i = choose|i: int| 0 <= i < ms.len() && #[trigger] ms[i].contains_key(k);
            if i < init.len() {
                assert(init[i].contains_key(k));
            }
        }
        assert forall|i: int| 0 <= i < ms.len() implies count_of(#[trigger] ms[i], k) <= count_of(join_all(ms), k) by {
            if i < init.len() {
                assert(count_of(init[i], k) <= count_of(join_all(init), k));
            }
        }
        if count_of(join_all(ms), k) != 0 {
            if count_of(join_all(ms), k) == count_of(ms.last(), k) {
                assert(count_of(join_all(ms), k) == count_of(ms[ms.len() - 1], k));
            } else {
                let i = choose|i: int| 0 <= i < init.len() && count_of(join_all(init), k) == count_of(#[trigger] init[i], k);
                assert(count_of(join_all(ms), k) == count_of(ms[i], k));
            }
        }
    }
}

/// The merge of a list of states depends only on which states are in it:
/// not on their order, nor on repeats. In particular every merge order of
/// the same replicas converges to the same state.
pub proof fn lemma_join_all_order_independent(ms1: Seq<Map<u64, u64>>, ms2: Seq<Map<u64, u64>>)
    requires
        ms1.to_set() == ms2.to_set(),
    ensures
        join_all(ms1) == join_all(ms2),
{
    assert forall|k: u64| #![trigger join_all(ms1).contains_key(k)] #![trigger join_all(ms2).contains_key(k)]
        (join_all(ms1).contains_key(k) <==> join_all(ms2).contains_key(k))
        && count_of(join_all(ms1), k) == count_of(join_all(ms2), k) by {
        lemma_join_all_is_max(ms1, k);
        lemma_join_all_is_max(ms2, k);
        if join_all(ms1).contains_key(k) {
            let i = choose|i: int| 0 <= i < ms1.len() && #[trigger] ms1[i].contains_key(k);
            assert(ms1.to_set().contains(ms1[i]));
            let j = choose|j: int| 0 <= j < ms2.len() && ms2[j] == ms1[i];
            assert(ms2[j].contains_key(k));
        }
        if join_all(ms2).contains_key(k) {
            let j = choose|j: int| 0 <= j < ms2.len() && #[trigger] ms2[j].contains_key(k);
            assert(ms2.to_set().contains(ms2[j]));
            let i = choose|i: int| 0 <= i < ms1.len() && ms1[i] == ms2[j];
            assert(ms1[i].contains_key(k));
        }
        if count_of(join_all(ms1), k) != 0 {
            let i = choose|i: int| 0 <= i < ms1.len() && count_of(join_all(ms1), k) == count_of(#[trigger] ms1[i], k);
            assert(ms1.to_set().contains(ms1[i]));
            let j = choose|j: int| 0 <= j < ms2.len() && ms2[j] == ms1[i];
            assert(count_of(ms2[j], k) <= count_of(join_all(ms2), k));
        }
        if count_of(join_all(ms2), k) != 0 {
            let j = choose|j: int| 0 <= j < ms2.len() && count_of(join_all(ms2), k) == count_of(#[trigger] ms2[j], k);
            assert(ms2.to_set().contains(ms2[j]));
            let i = choose|i: int| 0 <= i < ms1.len() && ms1[i] == ms2[j];
            assert(count_of(ms1[i], k) <= count_of(join_all(ms1), k));
        }
    }
    assert(join_all(ms1) =~= join_all(ms2)) by {
        assert forall|k: u64| join_all(ms1).contains_key(k) implies join_all(ms1)[k] == join_all(ms2)[k] by {
            assert(count_of(join_all(ms1), k) == count_of(join_all(ms2), k));
        }
    }
}

} // verus!
