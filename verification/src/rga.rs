//! A replicated growable array: a sequence that several replicas edit
//! concurrently and that converges without coordination.
//!
//! Every element has a unique id (a hybrid logical timestamp paired with the
//! replica that created it) and records the element it was inserted after,
//! its predecessor, or none for the front. Deleting an element leaves a
//! tombstone. The sequence is the pre-order walk of the predecessor forest,
//! siblings taken in decreasing id order, with tombstoned ids left out. An
//! element whose predecessor is absent is placed as if it had none.

use std::collections::{BTreeMap, BTreeSet};

use vstd::prelude::*;

use crate::hlc::{hlc_lt, lemma_hlc_lt_transitive, lemma_observe_passes_both, lemma_tick_increases, observe_spec, saturated, tick_spec, Hlc, HlcClock};
use crate::maps::{item_less, keys_of, set_items};
use crate::orset::exact_clones;
use crate::vector_clock::ReplicaId;

verus! {

broadcast use vstd::std_specs::btree::group_btree_axioms, vstd::laws_cmp::group_laws_cmp;

/// The id of an element: its timestamp, then the replica that created it.
/// Ids are ordered by `hlc` first and `replica` second.
#[derive(Clone, Copy, Debug, PartialEq, Eq, PartialOrd, Ord, Hash, Structural)]
pub struct ElementId {
    pub hlc: Hlc,
    pub replica: ReplicaId,
}

/// An element id as a tuple of integers: `(wall, counter, replica)`, ordered
/// lexicographically exactly as `ElementId` is.
pub type Key = (u64, u32, u64);

/// The integer form of an id.
pub open spec fn key_of(id: ElementId) -> Key {
    (id.hlc.wall, id.hlc.counter, id.replica.0)
}

/// The integer form of an optional id.
pub open spec fn opt_key(o: Option<ElementId>) -> Option<Key> {
    match o {
        Some(id) => Some(key_of(id)),
        None => None,
    }
}

/// The lexicographic order on keys.
pub open spec fn key_lt(a: Key, b: Key) -> bool {
    a.0 < b.0 || (a.0 == b.0 && (a.1 < b.1 || (a.1 == b.1 && a.2 < b.2)))
}

/// The parent an element is placed under: its predecessor when that is
/// present, and the front otherwise.
pub open spec fn eparent(m: Map<Key, Option<Key>>, k: Key) -> Option<Key> {
    match m[k] {
        Some(p) => if m.contains_key(p) { Some(p) } else { None },
        None => None,
    }
}

/// The elements of `ks` placed under `parent`, in the order of `ks`.
pub open spec fn kids_of(m: Map<Key, Option<Key>>, ks: Seq<Key>, parent: Option<Key>) -> Seq<Key>
    decreases ks.len(),
{
    if ks.len() == 0 {
        Seq::empty()
    } else {
        let rest = kids_of(m, ks.drop_last(), parent);
        if eparent(m, ks.last()) == parent {
            rest.push(ks.last())
        } else {
            rest
        }
    }
}

/// `ks` lists the set `d` in increasing key order.
pub open spec fn sorted_enum(ks: Seq<Key>, d: Set<Key>) -> bool {
    &&& ks.to_set() == d
    &&& forall|i: int, j: int| 0 <= i < j < ks.len() ==> key_lt(ks[i], ks[j])
}

/// The keys of `d` in increasing order.
pub open spec fn sorted_keys(d: Set<Key>) -> Seq<Key> {
    choose|ks: Seq<Key>| sorted_enum(ks, d)
}

/// The children of `parent`, largest id first.
pub open spec fn children(m: Map<Key, Option<Key>>, parent: Option<Key>) -> Seq<Key> {
    kids_of(m, sorted_keys(m.dom()), parent).reverse()
}

/// The pre-order walk of the subtree below `k`, at most `fuel` levels deep.
pub open spec fn subtree(m: Map<Key, Option<Key>>, k: Key, fuel: nat) -> Seq<Key>
    decreases fuel, 0nat,
{
    if fuel == 0 {
        Seq::empty()
    } else {
        seq![k] + forest(m, children(m, Some(k)), (fuel - 1) as nat)
    }
}

/// The walks of the subtrees below each of `roots`, one after the other.
pub open spec fn forest(m: Map<Key, Option<Key>>, roots: Seq<Key>, fuel: nat) -> Seq<Key>
    decreases fuel, roots.len() + 1,
{
    if roots.len() == 0 {
        Seq::empty()
    } else {
        subtree(m, roots[0], fuel) + forest(m, roots.drop_first(), fuel)
    }
}

/// Every element in the order of the sequence, tombstoned ones included.
pub open spec fn order_spec(m: Map<Key, Option<Key>>) -> Seq<Key> {
    forest(m, children(m, None), m.dom().len())
}

/// Following parents from `k` reaches the front in fewer than `fuel` steps.
pub open spec fn reaches_root(m: Map<Key, Option<Key>>, k: Key, fuel: nat) -> bool
    decreases fuel,
{
    fuel > 0 && match eparent(m, k) {
        None => true,
        Some(p) => reaches_root(m, p, (fuel - 1) as nat),
    }
}

/// The parent links hold no cycle: from every element, following parents
/// reaches the front.
pub open spec fn acyclic(m: Map<Key, Option<Key>>) -> bool {
    forall|k: Key| #[trigger] m.contains_key(k) ==> reaches_root(m, k, m.dom().len())
}

/// `k` lies exactly `d` parent links below the front.
pub open spec fn depth_is(m: Map<Key, Option<Key>>, k: Key, d: nat) -> bool
    decreases d,
{
    if d == 0 {
        eparent(m, k) is None
    } else {
        match eparent(m, k) {
            Some(p) => depth_is(m, p, (d - 1) as nat),
            None => false,
        }
    }
}

/// The ordered walk of the entries still to be emitted from a stack whose top
/// is its last entry, each entry paired with its fuel.
pub open spec fn pending(m: Map<Key, Option<Key>>, stack: Seq<Key>, fuels: Seq<nat>) -> Seq<Key>
    decreases stack.len(),
{
    if stack.len() == 0 || fuels.len() == 0 {
        Seq::empty()
    } else {
        subtree(m, stack.last(), fuels.last()) + pending(m, stack.drop_last(), fuels.drop_last())
    }
}

proof fn lemma_depth_below_fuel(m: Map<Key, Option<Key>>, k: Key, d: nat, f: nat)
    requires
        depth_is(m, k, d),
        reaches_root(m, k, f),
    ensures
        d < f,
    decreases d,
{
    if d > 0 {
        let p = eparent(m, k)->Some_0;
        lemma_depth_below_fuel(m, p, (d - 1) as nat, (f - 1) as nat);
    }
}

proof fn lemma_sorted_enum_unique(s1: Seq<Key>, s2: Seq<Key>, d: Set<Key>)
    requires
        sorted_enum(s1, d),
        sorted_enum(s2, d),
    ensures
        s1 == s2,
    decreases s1.len(),
{
    if s1.len() == 0 {
        if s2.len() > 0 {
            assert(s2.to_set().contains(s2[0]));
        }
        assert(s2.len() == 0);
    } else {
        assert(s1.to_set().contains(s1[0]));
        assert(s2.len() > 0) by {
            if s2.len() == 0 {
                assert(s2.to_set().contains(s1[0]));
            }
        }
        let m1 = s1[0];
        let m2 = s2[0];
        assert(m1 == m2) by {
            assert(s2.to_set().contains(m1));
            assert(s1.to_set().contains(m2));
            let i = choose|i: int| 0 <= i < s2.len() && s2[i] == m1;
            let j = choose|j: int| 0 <= j < s1.len() && s1[j] == m2;
            if m1 != m2 {
                assert(i > 0);
                assert(j > 0);
                assert(key_lt(m2, m1));
                assert(key_lt(m1, m2));
            }
        }
        let t1 = s1.drop_first();
        let t2 = s2.drop_first();
        let d2 = d.remove(m1);
        assert(t1.to_set() =~= d2) by {
            assert forall|x: Key| t1.to_set().contains(x) implies d2.contains(x) by {
                let i = choose|i: int| 0 <= i < t1.len() && t1[i] == x;
                assert(s1[i + 1] == x);
                assert(s1.to_set().contains(x));
                assert(key_lt(s1[0], s1[i + 1]));
            }
            assert forall|x: Key| d2.contains(x) implies t1.to_set().contains(x) by {
                assert(s1.to_set().contains(x));
                let i = choose|i: int| 0 <= i < s1.len() && s1[i] == x;
                assert(i != 0);
                assert(t1[i - 1] == x);
            }
        }
        assert(t2.to_set() =~= d2) by {
            assert forall|x: Key| t2.to_set().contains(x) implies d2.contains(x) by {
                let i = choose|i: int| 0 <= i < t2.len() && t2[i] == x;
                assert(s2[i + 1] == x);
                assert(s2.to_set().contains(x));
                assert(key_lt(s2[0], s2[i + 1]));
            }
            assert forall|x: Key| d2.contains(x) implies t2.to_set().contains(x) by {
                assert(s2.to_set().contains(x));
                let i = choose|i: int| 0 <= i < s2.len() && s2[i] == x;
                assert(i != 0);
                assert(t2[i - 1] == x);
            }
        }
        lemma_sorted_enum_unique(t1, t2, d2);
        assert(s1 =~= seq![m1] + t1);
        assert(s2 =~= seq![m2] + t2);
    }
}

/// Pushing `kids` (in increasing order, all with fuel `f`) onto the stack
/// puts the walks of the kids, largest first, in front of what was pending.
proof fn lemma_push_kids(m: Map<Key, Option<Key>>, stack: Seq<Key>, fuels: Seq<nat>, kids: Seq<Key>, f: nat)
    requires
        stack.len() == fuels.len(),
    ensures
        pending(m, stack + kids, fuels + Seq::new(kids.len(), |i: int| f))
            == forest(m, kids.reverse(), f) + pending(m, stack, fuels),
    decreases kids.len(),
{
    let fs = Seq::new(kids.len(), |i: int| f);
    if kids.len() == 0 {
        assert(stack + kids =~= stack);
        assert(fuels + fs =~= fuels);
        assert(kids.reverse() =~= Seq::<Key>::empty());
        assert(forest(m, kids.reverse(), f) =~= Seq::<Key>::empty());
        assert(Seq::<Key>::empty() + pending(m, stack, fuels) =~= pending(m, stack, fuels));
    } else {
        let init = kids.drop_last();
        let fs2 = Seq::new(init.len(), |i: int| f);
        lemma_push_kids(m, stack, fuels, init, f);
        assert((stack + kids).drop_last() =~= stack + init);
        assert((fuels + fs).drop_last() =~= fuels + fs2);
        assert((stack + kids).last() == kids.last());
        assert((fuels + fs).last() == f);
        assert(kids.reverse()[0] == kids.last());
        assert(kids.reverse().drop_first() =~= init.reverse());
        assert(subtree(m, kids.last(), f) + (forest(m, init.reverse(), f) + pending(m, stack, fuels))
            =~= (subtree(m, kids.last(), f) + forest(m, init.reverse(), f)) + pending(m, stack, fuels));
    }
}

/// Every element listed under `parent` is one of `ks` whose parent is
/// `parent`.
proof fn lemma_kids_of_members(m: Map<Key, Option<Key>>, ks: Seq<Key>, parent: Option<Key>, x: Key)
    requires
        kids_of(m, ks, parent).contains(x),
    ensures
        ks.contains(x),
        eparent(m, x) == parent,
    decreases ks.len(),
{
    if ks.len() > 0 {
        let rest = kids_of(m, ks.drop_last(), parent);
        if rest.contains(x) {
            lemma_kids_of_members(m, ks.drop_last(), parent, x);
            let i = choose|i: int| 0 <= i < ks.drop_last().len() && ks.drop_last()[i] == x;
            assert(ks[i] == x);
        } else {
            assert(x == ks.last());
        }
    }
}

/// The integer keys of a map of elements, in increasing order.
fn element_keys<V>(m: &BTreeMap<Key, V>) -> (r: Vec<Key>)
    ensures
        sorted_enum(r@, m@.dom()),
        r@.no_duplicates(),
        r@.len() == m@.dom().len(),
{
    let r = keys_of(m);
    assert forall|i: int, j: int| 0 <= i < j < r@.len() implies key_lt(r@[i], r@[j]) by {
        assert(item_less(r@[i], r@[j]));
    }
    r
}

/// What an element holds: its content and the element it was inserted after.
#[derive(Clone, Debug, PartialEq, Eq)]
struct Node<T> {
    content: T,
    predecessor: Option<Key>,
}

/// One replica of a replicated growable array.
#[derive(Clone, Debug, PartialEq, Eq)]
pub struct Rga<T> {
    replica: ReplicaId,
    clock: HlcClock,
    elements: BTreeMap<Key, Node<T>>,
    tombstones: BTreeSet<Key>,
}

/// The abstract state of one replica: each element's predecessor, and the
/// tombstoned ids, all in integer form.
#[derive(Clone, Debug, PartialEq, Eq)]
pub struct TlaRgaState {
    pub elements: BTreeMap<Key, Option<Key>>,
    pub tombstones: BTreeSet<Key>,
}

/// The element states listed by `entries` (id, predecessor, content): an id
/// listed twice keeps its first entry.
pub open spec fn entries_preds<T>(entries: Seq<(ElementId, Option<ElementId>, T)>) -> Map<Key, Option<Key>>
    decreases entries.len(),
{
    if entries.len() == 0 {
        Map::empty()
    } else {
        entries_preds(entries.drop_first()).insert(key_of(entries[0].0), opt_key(entries[0].1))
    }
}

/// The contents listed by `entries`: an id listed twice keeps its first
/// entry.
pub open spec fn entries_contents<T>(entries: Seq<(ElementId, Option<ElementId>, T)>) -> Map<Key, T>
    decreases entries.len(),
{
    if entries.len() == 0 {
        Map::empty()
    } else {
        entries_contents(entries.drop_first()).insert(key_of(entries[0].0), entries[0].2)
    }
}

/// The elements of `s` that are not tombstoned, in order.
pub open spec fn visible(s: Seq<Key>, tombs: Set<Key>) -> Seq<Key>
    decreases s.len(),
{
    if s.len() == 0 {
        Seq::empty()
    } else {
        let rest = visible(s.drop_last(), tombs);
        if tombs.contains(s.last()) {
            rest
        } else {
            rest.push(s.last())
        }
    }
}

/// The element a positional insert at `index` goes after: none for the
/// front, otherwise the element at visible position `index - 1`, or the last
/// visible element when `index` is past the end.
pub open spec fn anchor(vis: Seq<Key>, index: int) -> Option<Key> {
    if index == 0 {
        None
    } else if index - 1 < vis.len() {
        Some(vis[index - 1])
    } else if vis.len() > 0 {
        Some(vis.last())
    } else {
        None
    }
}

/// The timestamp of the largest id present.
pub open spec fn newest_hlc(d: Set<Key>) -> Hlc {
    let k = sorted_keys(d).last();
    Hlc { wall: k.0, counter: k.1 }
}

/// Every element named by a walk is present.
proof fn lemma_subtree_in_dom(m: Map<Key, Option<Key>>, k: Key, f: nat)
    requires
        m.contains_key(k),
        sorted_enum(sorted_keys(m.dom()), m.dom()),
    ensures
        forall|x: Key| subtree(m, k, f).contains(x) ==> m.contains_key(x),
    decreases f, 0nat,
{
    if f > 0 {
        let ch = children(m, Some(k));
        assert forall|c: Key| ch.contains(c) implies m.contains_key(c) by {
            let i = choose|i: int| 0 <= i < ch.len() && ch[i] == c;
            let ks = kids_of(m, sorted_keys(m.dom()), Some(k));
            assert(ks[ks.len() - 1 - i] == c);
            assert(ks.contains(c));
            lemma_kids_of_members(m, sorted_keys(m.dom()), Some(k), c);
            assert(sorted_keys(m.dom()).to_set().contains(c));
        }
        lemma_forest_in_dom(m, ch, (f - 1) as nat);
        assert forall|x: Key| subtree(m, k, f).contains(x) implies m.contains_key(x) by {
            let s = subtree(m, k, f);
            let i = choose|i: int| 0 <= i < s.len() && s[i] == x;
            if i > 0 {
                assert(forest(m, ch, (f - 1) as nat)[i - 1] == x);
            }
        }
    }
}

proof fn lemma_forest_in_dom(m: Map<Key, Option<Key>>, roots: Seq<Key>, f: nat)
    requires
        forall|r: Key| roots.contains(r) ==> m.contains_key(r),
        sorted_enum(sorted_keys(m.dom()), m.dom()),
    ensures
        forall|x: Key| forest(m, roots, f).contains(x) ==> m.contains_key(x),
    decreases f, roots.len() + 1,
{
    if roots.len() > 0 {
        assert(roots.contains(roots[0]));
        lemma_subtree_in_dom(m, roots[0], f);
        assert forall|r: Key| roots.drop_first().contains(r) implies m.contains_key(r) by {
            let i = choose|i: int| 0 <= i < roots.drop_first().len() && roots.drop_first()[i] == r;
            assert(roots[i + 1] == r);
            assert(roots.contains(r));
        }
        lemma_forest_in_dom(m, roots.drop_first(), f);
        assert forall|x: Key| forest(m, roots, f).contains(x) implies m.contains_key(x) by {
            let a = subtree(m, roots[0], f);
            let b = forest(m, roots.drop_first(), f);
            let i = choose|i: int| 0 <= i < (a + b).len() && (a + b)[i] == x;
            if i < a.len() {
                assert(a[i] == x);
            } else {
                assert(b[i - a.len()] == x);
            }
        }
    }
}

/// Every element of the sequence is present.
pub proof fn lemma_order_in_dom(m: Map<Key, Option<Key>>)
    requires
        m.dom().finite(),
    ensures
        forall|x: Key| #[trigger] order_spec(m).contains(x) ==> m.contains_key(x),
{
    lemma_sorted_keys_exist(m.dom());
    let ch = children(m, None);
    assert forall|c: Key| ch.contains(c) implies m.contains_key(c) by {
        let i = choose|i: int| 0 <= i < ch.len() && ch[i] == c;
        let ks = kids_of(m, sorted_keys(m.dom()), None);
        assert(ks[ks.len() - 1 - i] == c);
        assert(ks.contains(c));
        lemma_kids_of_members(m, sorted_keys(m.dom()), None, c);
        assert(sorted_keys(m.dom()).to_set().contains(c));
    }
    lemma_forest_in_dom(m, ch, m.dom().len());
}

/// A finite set of keys can be listed in increasing order.
pub proof fn lemma_sorted_keys_exist(d: Set<Key>)
    requires
        d.finite(),
    ensures
        sorted_enum(sorted_keys(d), d),
    decreases d.len(),
{
    if d.len() == 0 {
        assert(d =~= Set::empty());
        assert(Seq::<Key>::empty().to_set() =~= d);
        assert(sorted_enum(Seq::<Key>::empty(), d));
    } else {
        let x = d.choose();
        let d2 = d.remove(x);
        lemma_sorted_keys_exist(d2);
        let s2 = sorted_keys(d2);
        // insert x at its place
        assert(!s2.contains(x)) by {
            if s2.contains(x) {
                assert(s2.to_set().contains(x));
            }
        }
        lemma_insertion_point(s2, x);
        let pos = choose|p: int| #[trigger] splits_at(s2, x, p);
        let s = s2.insert(pos, x);
        assert(s.to_set() =~= d) by {
            assert forall|y: Key| s.to_set().contains(y) implies d.contains(y) by {
                let i = choose|i: int| 0 <= i < s.len() && s[i] == y;
                if i < pos {
                    assert(s2[i] == y);
                    assert(s2.to_set().contains(y));
                } else if i > pos {
                    assert(s2[i - 1] == y);
                    assert(s2.to_set().contains(y));
                }
            }
            assert forall|y: Key| d.contains(y) implies s.to_set().contains(y) by {
                if y == x {
                    assert(s[pos] == x);
                } else {
                    assert(s2.to_set().contains(y));
                    let i = choose|i: int| 0 <= i < s2.len() && s2[i] == y;
                    if i < pos {
                        assert(s[i] == y);
                    } else {
                        assert(s[i + 1] == y);
                    }
                }
            }
        }
        assert(sorted_enum(s, d));
    }
}

/// `x` fits between positions `p - 1` and `p` of the increasing `s`.
pub open spec fn splits_at(s: Seq<Key>, x: Key, p: int) -> bool {
    &&& 0 <= p <= s.len()
    &&& forall|i: int| 0 <= i < p ==> key_lt(s[i], x)
    &&& forall|i: int| p <= i < s.len() ==> key_lt(x, s[i])
}

proof fn lemma_insertion_point(s: Seq<Key>, x: Key)
    requires
        forall|i: int, j: int| 0 <= i < j < s.len() ==> key_lt(s[i], s[j]),
        !s.contains(x),
    ensures
        exists|p: int| #[trigger] splits_at(s, x, p),
    decreases s.len(),
{
    if s.len() == 0 {
        assert(splits_at(s, x, 0));
    } else {
        let init = s.drop_last();
        assert(!init.contains(x)) by {
            if init.contains(x) {
                let i = choose|i: int| 0 <= i < init.len() && init[i] == x;
                assert(s[i] == x);
            }
        }
        lemma_insertion_point(init, x);
        let p = choose|p: int| #[trigger] splits_at(init, x, p);
        assert(s[s.len() - 1] != x);
        if key_lt(s.last(), x) {
            assert forall|i: int| 0 <= i < s.len() implies key_lt(s[i], x) by {
                if i < s.len() - 1 {
                    assert(key_lt(s[i], s[s.len() - 1]));
                }
            }
            assert(splits_at(s, x, s.len() as int));
        } else {
            assert(key_lt(x, s.last()));
            assert forall|i: int| 0 <= i < p implies key_lt(s[i], x) by {
                assert(init[i] == s[i]);
            }
            assert forall|i: int| p <= i < s.len() implies key_lt(x, s[i]) by {
                if i < s.len() - 1 {
                    assert(init[i] == s[i]);
                }
            }
            assert(splits_at(s, x, p));
        }
    }
}

/// The visible elements of `s` are elements of `s` that are not tombstoned.
proof fn lemma_visible_members(s: Seq<Key>, tombs: Set<Key>)
    ensures
        forall|x: Key| #[trigger] visible(s, tombs).contains(x) ==> s.contains(x) && !tombs.contains(x),
    decreases s.len(),
{
    if s.len() > 0 {
        lemma_visible_members(s.drop_last(), tombs);
        assert forall|x: Key| #[trigger] visible(s, tombs).contains(x) implies s.contains(x) && !tombs.contains(x) by {
            let v = visible(s, tombs);
            let rest = visible(s.drop_last(), tombs);
            let i = choose|i: int| 0 <= i < v.len() && v[i] == x;
            if i < rest.len() {
                assert(rest[i] == x);
                assert(rest.contains(x));
                let j = choose|j: int| 0 <= j < s.drop_last().len() && s.drop_last()[j] == x;
                assert(s[j] == x);
            } else {
                assert(x == s.last());
            }
        }
    }
}

/// The children lists kept while building the walk: absent means empty.
pub open spec fn kid_list(c: Map<Key, Vec<Key>>, p: Key) -> Seq<Key> {
    if c.contains_key(p) { c[p]@ } else { Seq::empty() }
}

impl<T> Rga<T> {
    /// Each element's predecessor, by integer key.
    pub closed spec fn preds(&self) -> Map<Key, Option<Key>> {
        self.elements@.map_values(|n: Node<T>| n.predecessor)
    }

    /// Each element's content, by integer key.
    pub closed spec fn contents(&self) -> Map<Key, T> {
        self.elements@.map_values(|n: Node<T>| n.content)
    }

    /// The tombstoned keys.
    pub closed spec fn tombs(&self) -> Set<Key> {
        self.tombstones@
    }

    /// An array holds finitely many elements, and each has a content.
    pub proof fn lemma_view_finite(&self)
        ensures
            self.preds().dom().finite(),
            self.contents().dom() == self.preds().dom(),
    {
        assert(self.preds().dom() =~= self.elements@.dom());
        assert(self.contents().dom() =~= self.elements@.dom());
    }

    /// The replica that owns this array.
    pub closed spec fn owner(&self) -> ReplicaId {
        self.replica
    }

    /// The last timestamp this replica's clock issued.
    pub closed spec fn clock_last(&self) -> Hlc {
        self.clock@
    }

    /// Every recorded predecessor is present, and only present elements are
    /// tombstoned.
    pub open spec fn wf(&self) -> bool {
        &&& wellformed(self.preds())
        &&& self.tombs().subset_of(self.preds().dom())
    }

    /// The state a replica keeps by its local operations and by merging
    /// replicas that agree with it: well formed, without cycles, and with a
    /// clock at or past the timestamp of every id present.
    pub open spec fn valid(&self) -> bool {
        &&& self.wf()
        &&& acyclic(self.preds())
        &&& covers_all(self.preds(), self.clock_last())
    }

    /// The visible sequence, as keys.
    pub open spec fn visible_keys(&self) -> Seq<Key> {
        visible(order_spec(self.preds()), self.tombs())
    }

    /// The number of present elements that are not tombstoned.
    pub open spec fn visible_count(&self) -> nat {
        self.preds().dom().difference(self.tombs()).len()
    }

    /// An empty array owned by `replica`.
    pub fn new(replica: ReplicaId) -> (r: Rga<T>)
        ensures
            r.preds() == Map::<Key, Option<Key>>::empty(),
            r.contents() == Map::<Key, T>::empty(),
            r.tombs() == Set::<Key>::empty(),
            r.owner() == replica,
            r.clock_last() == (Hlc { wall: 0, counter: 0 }),
            r.wf(),
            r.valid(),
    {
        let r = Rga { replica, clock: HlcClock::new(), elements: BTreeMap::new(), tombstones: BTreeSet::new() };
        proof {
            assert(r.preds() =~= Map::<Key, Option<Key>>::empty());
            assert(r.contents() =~= Map::<Key, T>::empty());
        }
        r
    }

    /// The ids of the visible sequence, in order.
    pub fn ids(&self) -> (v: Vec<ElementId>)
        requires
            acyclic(self.preds()),
        ensures
            v@.len() == self.visible_keys().len(),
            forall|i: int| 0 <= i < v@.len() ==> key_of(#[trigger] v@[i]) == self.visible_keys()[i],
    {
        let all = self.order();
        let mut out: Vec<ElementId> = Vec::new();
        let mut i: usize = 0;
        while i < all.len()
            invariant
                i <= all@.len(),
                all@ == order_spec(self.preds()),
                out@.len() == visible(all@.take(i as int), self.tombs()).len(),
                forall|j: int| 0 <= j < out@.len() ==> key_of(#[trigger] out@[j]) == visible(all@.take(i as int), self.tombs())[j],
            decreases all.len() - i,
        {
            let k = all[i];
            proof {
                assert(all@.take(i + 1).drop_last() =~= all@.take(i as int));
                assert(all@.take(i + 1).last() == k);
            }
            if !self.tombstones.contains(&k) {
                out.push(ElementId { hlc: Hlc { wall: k.0, counter: k.1 }, replica: ReplicaId(k.2) });
            }
            i += 1;
        }
        proof {
            assert(all@.take(all@.len() as int) =~= all@);
        }
        out
    }

    /// The contents of the visible sequence, in order.
    pub fn to_vec(&self) -> (v: Vec<&T>)
        requires
            acyclic(self.preds()),
        ensures
            v@.len() == self.visible_keys().len(),
            forall|i: int| 0 <= i < v@.len() ==> *v@[i] == self.contents()[self.visible_keys()[i]],
    {
        let ids = self.ids();
        let mut out: Vec<&T> = Vec::new();
        let mut i: usize = 0;
        proof {
            assert(self.preds().dom() =~= self.elements@.dom());
            lemma_order_in_dom(self.preds());
            lemma_visible_members(order_spec(self.preds()), self.tombs());
        }
        while i < ids.len()
            invariant
                i <= ids@.len(),
                ids@.len() == self.visible_keys().len(),
                forall|j: int| 0 <= j < ids@.len() ==> key_of(#[trigger] ids@[j]) == self.visible_keys()[j],
                forall|x: Key| #[trigger] self.visible_keys().contains(x) ==> self.preds().contains_key(x),
                out@.len() == i,
                forall|j: int| 0 <= j < i ==> *out@[j] == self.contents()[self.visible_keys()[j]],
            decreases ids.len() - i,
        {
            let id = ids[i];
            let k: Key = (id.hlc.wall, id.hlc.counter, id.replica.0);
            assert(self.visible_keys().contains(k)) by {
                assert(self.visible_keys()[i as int] == k);
            }
            assert(self.elements@.contains_key(k));
            let node = self.elements.get(&k).unwrap();
            out.push(&node.content);
            i += 1;
        }
        out
    }

    /// The number of present elements that are not tombstoned.
    pub fn len(&self) -> (n: usize)
        ensures
            n == self.visible_count(),
    {
        let keys = element_keys(&self.elements);
        let mut count: usize = 0;
        let mut i: usize = 0;
        proof {
            assert(self.preds().dom() =~= self.elements@.dom());
            assert(keys@.take(0).to_set() =~= Set::<Key>::empty());
            assert(Set::<Key>::empty().difference(self.tombs()) =~= Set::<Key>::empty());
        }
        while i < keys.len()
            invariant
                i <= keys@.len(),
                keys@.no_duplicates(),
                sorted_enum(keys@, self.preds().dom()),
                count <= i,
                count == keys@.take(i as int).to_set().difference(self.tombs()).len(),
            decreases keys.len() - i,
        {
            let k = keys[i];
            let ghost done = keys@.take(i as int).to_set();
            proof {
                assert(keys@.take(i + 1) =~= keys@.take(i as int).push(k));
                keys@.take(i as int).lemma_push_to_set_commute(k);
                vstd::seq_lib::seq_to_set_is_finite(keys@.take(i as int));
                assert(!done.contains(k)) by {
                    if done.contains(k) {
                        let j = choose|j: int| 0 <= j < i && keys@.take(i as int)[j] == k;
                        assert(keys@[j] == keys@[i as int]);
                    }
                }
            }
            if !self.tombstones.contains(&k) {
                proof {
                    assert(done.insert(k).difference(self.tombs()) =~= done.difference(self.tombs()).insert(k));
                }
                count = count + 1;
            } else {
                proof {
                    assert(done.insert(k).difference(self.tombs()) =~= done.difference(self.tombs()));
                }
            }
            i += 1;
        }
        proof {
            assert(keys@.take(keys@.len() as int) =~= keys@);
        }
        count
    }

    /// `true` iff no present element is visible.
    pub fn is_empty(&self) -> (b: bool)
        ensures
            b == (self.visible_count() == 0),
    {
        self.len() == 0
    }

    /// Insert `content` right after the element `after` (at the front for
    /// `None`), under a fresh id from this replica's clock.
    pub fn insert_after(&mut self, after: Option<ElementId>, content: T) -> (id: ElementId)
        requires
            after matches Some(a) ==> old(self).preds().contains_key(key_of(a)),
        ensures
            exists|now: u64| final(self).clock_last() == tick_spec(old(self).clock_last(), now),
            id == (ElementId { hlc: final(self).clock_last(), replica: old(self).owner() }),
            final(self).preds() == old(self).preds().insert(key_of(id), opt_key(after)),
            final(self).contents() == old(self).contents().insert(key_of(id), content),
            final(self).tombs() == old(self).tombs(),
            final(self).owner() == old(self).owner(),
            old(self).wf() ==> final(self).wf(),
            old(self).valid() && !saturated(old(self).clock_last()) ==> !old(self).preds().contains_key(key_of(id))
                && final(self).valid(),
    {
        let ghost start = self.clock@;
        let hlc = self.clock.tick();
        let ghost now = choose|now: u64| hlc == tick_spec(start, now);
        let id = ElementId { hlc, replica: self.replica };
        self.put(id, after, content);
        assert(self.clock_last() == tick_spec(old(self).clock_last(), now));
        proof {
            if old(self).wf() {
                lemma_wellformed_preserved(old(self).preds(), old(self).preds(), key_of(id), opt_key(after));
            }
            if old(self).valid() && !saturated(old(self).clock_last()) {
                old(self).lemma_view_finite();
                lemma_tick_insert_valid(old(self).preds(), old(self).clock_last(), now, old(self).owner().0, opt_key(after));
            }
        }
        id
    }

    /// Insert `content` under the given `id`, right after the element
    /// `after` (at the front for `None`).
    pub fn insert_after_with_id(&mut self, id: ElementId, after: Option<ElementId>, content: T)
        requires
            after matches Some(a) ==> old(self).preds().contains_key(key_of(a)),
        ensures
            final(self).preds() == old(self).preds().insert(key_of(id), opt_key(after)),
            final(self).contents() == old(self).contents().insert(key_of(id), content),
            final(self).tombs() == old(self).tombs(),
            final(self).owner() == old(self).owner(),
            final(self).clock_last() == old(self).clock_last(),
            old(self).wf() ==> final(self).wf(),
    {
        self.put(id, after, content);
        proof {
            if old(self).wf() {
                lemma_wellformed_preserved(old(self).preds(), old(self).preds(), key_of(id), opt_key(after));
            }
        }
    }

    fn put(&mut self, id: ElementId, after: Option<ElementId>, content: T)
        ensures
            final(self).preds() == old(self).preds().insert(key_of(id), opt_key(after)),
            final(self).contents() == old(self).contents().insert(key_of(id), content),
            final(self).tombs() == old(self).tombs(),
            final(self).owner() == old(self).owner(),
            final(self).clock_last() == old(self).clock_last(),
    {
        let predecessor: Option<Key> = match after {
            Some(a) => Some((a.hlc.wall, a.hlc.counter, a.replica.0)),
            None => None,
        };
        let ghost before = self.elements@;
        self.elements.insert((id.hlc.wall, id.hlc.counter, id.replica.0), Node { content, predecessor });
        proof {
            assert(self.preds() =~= before.map_values(|n: Node<T>| n.predecessor).insert(key_of(id), opt_key(after)));
            assert(self.contents() =~= before.map_values(|n: Node<T>| n.content).insert(key_of(id), content));
        }
    }

    /// Insert `content` at visible position `index` (clamped to the end):
    /// right after the element now at position `index - 1`.
    pub fn insert(&mut self, index: usize, content: T) -> (id: ElementId)
        requires
            acyclic(old(self).preds()),
        ensures
            exists|now: u64| final(self).clock_last() == tick_spec(old(self).clock_last(), now),
            id == (ElementId { hlc: final(self).clock_last(), replica: old(self).owner() }),
            final(self).preds() == old(self).preds().insert(key_of(id), anchor(old(self).visible_keys(), index as int)),
            old(self).wf() ==> final(self).wf(),
            old(self).valid() && !saturated(old(self).clock_last()) ==> !old(self).preds().contains_key(key_of(id))
                && final(self).valid(),
            final(self).contents() == old(self).contents().insert(key_of(id), content),
            final(self).tombs() == old(self).tombs(),
            final(self).owner() == old(self).owner(),
            old(self).valid() && !saturated(old(self).clock_last()) ==> final(self).visible_keys()
                == old(self).visible_keys().insert(
                    if index <= old(self).visible_keys().len() { index as int } else { old(self).visible_keys().len() as int },
                    key_of(id),
                ),
    {
        let visible = self.ids();
        proof {
            assert(self.preds().dom() =~= self.elements@.dom());
            lemma_order_in_dom(self.preds());
            lemma_visible_members(order_spec(self.preds()), self.tombs());
        }
        let after = if index == 0 {
            None
        } else if index - 1 < visible.len() {
            assert(self.visible_keys().contains(self.visible_keys()[index - 1]));
            Some(visible[index - 1])
        } else if visible.len() > 0 {
            assert(self.visible_keys().contains(self.visible_keys()[visible.len() - 1]));
            Some(visible[visible.len() - 1])
        } else {
            None
        };
        assert(opt_key(after) == anchor(self.visible_keys(), index as int));
        let id = self.insert_after(after, content);
        proof {
            if old(self).valid() && !saturated(old(self).clock_last()) {
                let now = choose|now: u64| self.clock_last() == tick_spec(old(self).clock_last(), now);
                old(self).lemma_view_finite();
                lemma_insert_lands(old(self).preds(), old(self).tombs(), old(self).clock_last(), now, old(self).owner().0, index as int);
            }
        }
        id
    }

    /// Tombstone `id` if it is present; otherwise nothing changes.
    pub fn delete(&mut self, id: ElementId)
        ensures
            old(self).wf() ==> final(self).wf(),
            old(self).valid() ==> final(self).valid(),
            final(self).preds() == old(self).preds(),
            final(self).contents() == old(self).contents(),
            final(self).tombs() == if old(self).preds().contains_key(key_of(id)) {
                old(self).tombs().insert(key_of(id))
            } else {
                old(self).tombs()
            },
            final(self).owner() == old(self).owner(),
            final(self).clock_last() == old(self).clock_last(),
    {
        let k: Key = (id.hlc.wall, id.hlc.counter, id.replica.0);
        if self.elements.contains_key(&k) {
            self.tombstones.insert(k);
        }
    }

    /// The replica owning this array, with the last timestamp of its clock,
    /// the elements listed by `entries` and the tombstoned ids `tombstones`.
    pub fn from_parts(replica: ReplicaId, last: Hlc, entries: Vec<(ElementId, Option<ElementId>, T)>, tombstones: Vec<ElementId>) -> (r: Rga<T>)
        ensures
            r.owner() == replica,
            r.clock_last() == last,
            r.preds() == entries_preds(entries@),
            r.contents() == entries_contents(entries@),
            r.tombs() == tombstones@.map_values(|id: ElementId| key_of(id)).to_set(),
    {
        let mut r = Rga { replica, clock: HlcClock::resume(last), elements: BTreeMap::new(), tombstones: BTreeSet::new() };
        proof {
            assert(r.preds() =~= Map::<Key, Option<Key>>::empty());
            assert(r.contents() =~= Map::<Key, T>::empty());
        }
        let ghost all = entries@;
        let mut rest = entries;
        while rest.len() > 0
            invariant
                rest@.len() <= all.len(),
                rest@ == all.subrange(0, rest@.len() as int),
                r.owner() == replica,
                r.clock_last() == last,
                r.tombs() == Set::<Key>::empty(),
                r.preds() == entries_preds(all.subrange(rest@.len() as int, all.len() as int)),
                r.contents() == entries_contents(all.subrange(rest@.len() as int, all.len() as int)),
            decreases rest@.len(),
        {
            let ghost n = rest@.len() as int;
            let (id, after, content) = rest.pop().unwrap();
            proof {
                let tail = all.subrange(n - 1, all.len() as int);
                assert(tail.drop_first() =~= all.subrange(n, all.len() as int));
                assert(tail[0] == all[n - 1]);
            }
            r.put(id, after, content);
        }
        proof {
            assert(all.subrange(0, all.len() as int) =~= all);
        }
        let ghost ts = tombstones@;
        let mut i: usize = 0;
        while i < tombstones.len()
            invariant
                i <= tombstones@.len(),
                ts == tombstones@,
                r.owner() == replica,
                r.clock_last() == last,
                r.preds() == entries_preds(all),
                r.contents() == entries_contents(all),
                r.tombs() == ts.take(i as int).map_values(|id: ElementId| key_of(id)).to_set(),
            decreases tombstones.len() - i,
        {
            let id = tombstones[i];
            r.tombstones.insert((id.hlc.wall, id.hlc.counter, id.replica.0));
            proof {
                let f = |id: ElementId| key_of(id);
                assert(ts.take(i + 1).map_values(f) =~= ts.take(i as int).map_values(f).push(key_of(id)));
                ts.take(i as int).map_values(f).lemma_push_to_set_commute(key_of(id));
            }
            i += 1;
        }
        proof {
            assert(ts.take(ts.len() as int) =~= ts);
        }
        r
    }

    /// The replica that owns this array.
    pub fn replica(&self) -> (id: ReplicaId)
        ensures
            id == self.owner(),
    {
        self.replica
    }

    /// The last timestamp this replica's clock issued.
    pub fn last_timestamp(&self) -> (h: Hlc)
        ensures
            h == self.clock_last(),
    {
        self.clock.last()
    }

    /// The content of the element `id`, tombstoned or not; `None` if it is
    /// not present.
    pub fn content_of(&self, id: ElementId) -> (c: Option<&T>)
        ensures
            c is Some <==> self.contents().contains_key(key_of(id)),
            c matches Some(x) ==> *x == self.contents()[key_of(id)],
    {
        match self.elements.get(&(id.hlc.wall, id.hlc.counter, id.replica.0)) {
            Some(node) => Some(&node.content),
            None => None,
        }
    }

    /// Whether every element reaches the front by following predecessor
    /// links: the state has no cycle.
    pub fn is_acyclic(&self) -> (b: bool)
        ensures
            b == acyclic(self.preds()),
    {
        let keys = element_keys(&self.elements);
        proof {
            assert(self.preds().dom() =~= self.elements@.dom());
        }
        let n = keys.len();
        let mut i: usize = 0;
        while i < n
            invariant
                i <= n,
                n == keys@.len(),
                n == self.preds().dom().len(),
                sorted_enum(keys@, self.preds().dom()),
                forall|j: int| 0 <= j < i ==> reaches_root(self.preds(), #[trigger] keys@[j], n as nat),
            decreases n - i,
        {
            assert(keys@.to_set().contains(keys@[i as int]));
            if !self.reaches_front(keys[i], n) {
                return false;
            }
            i += 1;
        }
        proof {
            assert forall|k: Key| #[trigger] self.preds().contains_key(k) implies reaches_root(self.preds(), k, self.preds().dom().len()) by {
                assert(keys@.to_set().contains(k));
                let j = choose|j: int| 0 <= j < keys@.len() && keys@[j] == k;
                assert(reaches_root(self.preds(), keys@[j], n as nat));
            }
        }
        true
    }

    fn reaches_front(&self, k: Key, fuel: usize) -> (b: bool)
        requires
            self.preds().contains_key(k),
        ensures
            b == reaches_root(self.preds(), k, fuel as nat),
    {
        let mut cur = k;
        let mut f = fuel;
        loop
            invariant
                f <= fuel,
                self.preds().contains_key(cur),
                reaches_root(self.preds(), k, fuel as nat) == reaches_root(self.preds(), cur, f as nat),
            decreases f,
        {
            if f == 0 {
                return false;
            }
            let node = self.elements.get(&cur).unwrap();
            assert(self.preds()[cur] == node.predecessor);
            match node.predecessor {
                None => {
                    return true;
                },
                Some(p) => {
                    if self.elements.contains_key(&p) {
                        assert(self.preds().contains_key(p));
                        cur = p;
                        f = f - 1;
                    } else {
                        return true;
                    }
                },
            }
        }
    }

    /// The abstract state this replica stands for.
    pub fn tla_state(&self) -> (s: TlaRgaState)
        ensures
            s.elements@ == self.preds(),
            s.tombstones@ == self.tombs(),
    {
        let keys = element_keys(&self.elements);
        let mut elements: BTreeMap<Key, Option<Key>> = BTreeMap::new();
        let mut i: usize = 0;
        while i < keys.len()
            invariant
                i <= keys@.len(),
                sorted_enum(keys@, self.elements@.dom()),
                elements@ == self.preds().restrict(keys@.take(i as int).to_set()),
            decreases keys.len() - i,
        {
            let k = keys[i];
            assert(keys@.to_set().contains(k));
            let node = self.elements.get(&k).unwrap();
            elements.insert(k, node.predecessor);
            proof {
                assert(keys@.take(i + 1) =~= keys@.take(i as int).push(k));
                keys@.take(i as int).lemma_push_to_set_commute(k);
                assert(elements@ =~= self.preds().restrict(keys@.take(i + 1).to_set()));
            }
            i += 1;
        }
        proof {
            assert(keys@.take(keys@.len() as int) =~= keys@);
            assert(self.preds().restrict(self.elements@.dom()) =~= self.preds());
        }
        TlaRgaState { elements, tombstones: self.tombstones.clone() }
    }

    /// Every element, tombstoned ones included, in sequence order.
    fn order(&self) -> (out: Vec<Key>)
        requires
            acyclic(self.preds()),
        ensures
            out@ == order_spec(self.preds()),
    {
        let ghost m = self.preds();
        let keys = element_keys(&self.elements);
        proof {
            assert(m.dom() =~= self.elements@.dom());
            assert(sorted_enum(keys@, m.dom()));
            assert(sorted_enum(sorted_keys(m.dom()), m.dom()));
            lemma_sorted_enum_unique(keys@, sorted_keys(m.dom()), m.dom());
        }
        let mut roots: Vec<Key> = Vec::new();
        let mut kids: BTreeMap<Key, Vec<Key>> = BTreeMap::new();
        let mut i: usize = 0;
        while i < keys.len()
            invariant
                i <= keys@.len(),
                m == self.preds(),
                keys@ == sorted_keys(m.dom()),
                sorted_enum(keys@, m.dom()),
                roots@ == kids_of(m, keys@.take(i as int), None),
                forall|p: Key| #[trigger] kid_list(kids@, p) == kids_of(m, keys@.take(i as int), Some(p)),
            decreases keys.len() - i,
        {
            let k = keys[i];
            assert(keys@.to_set().contains(k));
            let parent = match self.elements.get(&k) {
                Some(node) => match node.predecessor {
                    Some(p) => if self.elements.contains_key(&p) { Some(p) } else { None },
                    None => None,
                },
                None => None,
            };
            assert(parent == eparent(m, k));
            let ghost before = kids@;
            match parent {
                None => roots.push(k),
                Some(p) => {
                    let mut list = match kids.remove(&p) {
                        Some(v) => v,
                        None => Vec::new(),
                    };
                    list.push(k);
                    kids.insert(p, list);
                },
            }
            proof {
                assert(keys@.take(i + 1).drop_last() =~= keys@.take(i as int));
                assert(keys@.take(i + 1).last() == k);
                assert forall|p: Key| #[trigger] kid_list(kids@, p) == kids_of(m, keys@.take(i + 1), Some(p)) by {
                    assert(kid_list(before, p) == kids_of(m, keys@.take(i as int), Some(p)));
                }
            }
            i += 1;
        }
        proof {
            assert(keys@.take(keys@.len() as int) =~= keys@);
        }
        let ghost n = m.dom().len();
        let mut out: Vec<Key> = Vec::new();
        let mut stack: Vec<Key> = Vec::new();
        let ghost mut fuels: Seq<nat> = Seq::empty();
        let mut r: usize = 0;
        while r < roots.len()
            invariant
                r <= roots@.len(),
                stack@ == roots@.take(r as int),
                fuels == Seq::new(r as nat, |j: int| n),
            decreases roots.len() - r,
        {
            stack.push(roots[r]);
            proof {
                fuels = fuels.push(n);
                assert(stack@ =~= roots@.take(r + 1));
                assert(fuels =~= Seq::new((r + 1) as nat, |j: int| n));
            }
            r += 1;
        }
        proof {
            assert(roots@.take(roots@.len() as int) =~= roots@);
            lemma_push_kids(m, Seq::empty(), Seq::empty(), roots@, n);
            assert(Seq::<Key>::empty() + roots@ =~= roots@);
            assert(Seq::<nat>::empty() + Seq::new(roots@.len(), |j: int| n) =~= fuels);
            assert(forest(m, roots@.reverse(), n) + pending(m, Seq::empty(), Seq::empty())
                =~= order_spec(m));
            assert forall|j: int| 0 <= j < stack@.len() implies depth_is(m, #[trigger] stack@[j], (n - fuels[j]) as nat) && fuels[j] >= 1 && fuels[j] <= n && m.contains_key(stack@[j]) by {
                lemma_kids_of_members(m, keys@, None, stack@[j]);
                assert(roots@.contains(stack@[j])) by {
                    assert(roots@[j] == stack@[j]);
                }
                assert(m.contains_key(stack@[j])) by {
                    assert(keys@.to_set().contains(stack@[j]));
                }
                assert(reaches_root(m, stack@[j], n));
            }
        }
        while stack.len() > 0
            invariant
                m == self.preds(),
                acyclic(m),
                n == m.dom().len(),
                stack@.len() == fuels.len(),
                out@ + pending(m, stack@, fuels) == order_spec(m),
                forall|j: int| 0 <= j < stack@.len() ==> depth_is(m, #[trigger] stack@[j], (n - fuels[j]) as nat) && fuels[j] >= 1 && fuels[j] <= n && m.contains_key(stack@[j]),
                forall|p: Key| #[trigger] kid_list(kids@, p) == kids_of(m, sorted_keys(m.dom()), Some(p)),
                sorted_enum(sorted_keys(m.dom()), m.dom()),
            decreases order_spec(m).len() - out@.len(),
        {
            let ghost f = fuels.last();
            let ghost rest_stack = stack@.drop_last();
            let ghost rest_fuels = fuels.drop_last();
            let ghost old_stack = stack@;
            let ghost old_fuels = fuels;
            let k = stack.pop().unwrap();
            proof {
                fuels = rest_fuels;
                assert(depth_is(m, k, (n - f) as nat) && f >= 1);
                assert(pending(m, rest_stack.push(k), rest_fuels.push(f)) == subtree(m, k, f) + pending(m, rest_stack, rest_fuels)) by {
                    assert(rest_stack.push(k).drop_last() =~= rest_stack);
                    assert(rest_fuels.push(f).drop_last() =~= rest_fuels);
                }
                assert(old_stack =~= rest_stack.push(k));
                assert(old_fuels =~= rest_fuels.push(f));
            }
            out.push(k);
            let ghost out_before = out@;
            let ghost list_view = kid_list(kids@, k);
            let ghost base_stack = stack@;
            let ghost base_fuels = fuels;
            match kids.get(&k) {
                Some(list) => {
                    let mut c: usize = 0;
                    while c < list.len()
                        invariant
                            c <= list@.len(),
                            list@ == list_view,
                            stack@ == base_stack + list@.take(c as int),
                            fuels == base_fuels + Seq::new(c as nat, |j: int| (f - 1) as nat),
                        decreases list.len() - c,
                    {
                        stack.push(list[c]);
                        proof {
                            fuels = fuels.push((f - 1) as nat);
                            assert(stack@ =~= base_stack + list@.take(c + 1));
                            assert(fuels =~= base_fuels + Seq::new((c + 1) as nat, |j: int| (f - 1) as nat));
                        }
                        c += 1;
                    }
                    proof {
                        assert(list@.take(list@.len() as int) =~= list@);
                    }
                },
                None => {
                    proof {
                        assert(base_stack + list_view =~= base_stack);
                        assert(base_fuels + Seq::new(list_view.len(), |j: int| (f - 1) as nat) =~= base_fuels);
                    }
                },
            }
            proof {
                lemma_push_kids(m, base_stack, base_fuels, list_view, (f - 1) as nat);
                assert(list_view.reverse() == children(m, Some(k)));
                assert(subtree(m, k, f) == seq![k] + forest(m, children(m, Some(k)), (f - 1) as nat));
                assert(out_before.drop_last() + pending(m, old_stack, old_fuels) == order_spec(m));
                assert(out@ + pending(m, stack@, fuels) =~= out_before.drop_last() + (subtree(m, k, f) + pending(m, base_stack, base_fuels)));
                assert forall|j: int| 0 <= j < stack@.len() implies depth_is(m, #[trigger] stack@[j], (n - fuels[j]) as nat) && fuels[j] >= 1 && fuels[j] <= n && m.contains_key(stack@[j]) by {
                    if j >= base_stack.len() {
                        let c = stack@[j];
                        assert(list_view.contains(c)) by {
                            assert(list_view[j - base_stack.len()] == c);
                        }
                        lemma_kids_of_members(m, sorted_keys(m.dom()), Some(k), c);
                        assert(sorted_enum(sorted_keys(m.dom()), m.dom()));
                        assert(sorted_keys(m.dom()).to_set().contains(c));
                        assert(m.contains_key(c));
                        assert(depth_is(m, c, (n - f + 1) as nat));
                        lemma_depth_below_fuel(m, c, (n - f + 1) as nat, n);
                    }
                }
            }
        }
        proof {
            assert(out@ + pending(m, stack@, fuels) =~= out@);
        }
        out
    }
}

impl<T: Clone> Rga<T> {
    /// A copy of this replica: the same owner, clock, elements, contents
    /// and tombstones.
    pub fn duplicate(&self) -> (r: Rga<T>)
        ensures
            r.owner() == self.owner(),
            r.clock_last() == self.clock_last(),
            r.preds() == self.preds(),
            r.contents() == self.contents(),
            r.tombs() == self.tombs(),
    {
        Rga {
            replica: self.replica,
            clock: HlcClock::resume(self.clock.last()),
            elements: self.elements.clone(),
            tombstones: self.tombstones.clone(),
        }
    }

    /// Merge another replica's state: add the elements this replica lacks
    /// (copies of the other's), take the union of the tombstones, and move
    /// this replica's clock past the newest timestamp of the other's ids.
    pub fn merge(&mut self, other: &Rga<T>)
        ensures
            merged(*old(self), *other, *final(self)),
            final(self).owner() == old(self).owner(),
            other.preds().dom().len() == 0 ==> final(self).clock_last() == old(self).clock_last(),
            old(self).wf() && other.wf() ==> final(self).wf(),
            old(self).valid() && other.valid() && compatible(old(self).preds(), other.preds())
                && !saturated(old(self).clock_last())
                && (other.preds().dom().len() > 0 ==> !saturated(newest_hlc(other.preds().dom())))
                ==> final(self).valid(),
            other.preds().dom().len() > 0 ==> exists|now: u64|
                final(self).clock_last() == observe_spec(old(self).clock_last(), now, newest_hlc(other.preds().dom())),
    {
        let keys = element_keys(&other.elements);
        let ghost start = self.elements@;
        proof {
            assert(other.preds().dom() =~= other.elements@.dom());
            assert(other.contents().dom() =~= other.elements@.dom());
            assert(self.preds().dom() =~= self.elements@.dom());
            assert(self.contents().dom() =~= self.elements@.dom());
        }
        let mut i: usize = 0;
        while i < keys.len()
            invariant
                i <= keys@.len(),
                sorted_enum(keys@, other.elements@.dom()),
                keys@.no_duplicates(),
                self.elements@.dom() == start.dom().union(keys@.take(i as int).to_set()),
                forall|k: Key| #[trigger] start.contains_key(k) ==> self.elements@[k] == start[k],
                forall|k: Key| #[trigger] self.elements@.contains_key(k) && !start.contains_key(k)
                    ==> self.elements@[k].predecessor == other.elements@[k].predecessor
                        && vstd::pervasive::cloned(other.elements@[k].content, self.elements@[k].content),
                self.tombstones == old(self).tombstones,
                self.clock == old(self).clock,
                self.replica == old(self).replica,
                start == old(self).elements@,
            decreases keys.len() - i,
        {
            let k = keys[i];
            assert(keys@.to_set().contains(k));
            if !self.elements.contains_key(&k) {
                let node = other.elements.get(&k).unwrap();
                let content = node.content.clone();
                self.elements.insert(k, Node { content, predecessor: node.predecessor });
            }
            proof {
                assert(keys@.take(i + 1) =~= keys@.take(i as int).push(k));
                keys@.take(i as int).lemma_push_to_set_commute(k);
            }
            i += 1;
        }
        proof {
            assert(keys@.take(keys@.len() as int) =~= keys@);
            assert(self.preds() =~= other.preds().union_prefer_right(old(self).preds()));
        }
        let ghost mid = self.elements@;
        let dead = set_items(&other.tombstones);
        let mut j: usize = 0;
        while j < dead.len()
            invariant
                j <= dead@.len(),
                dead@.to_set() == other.tombstones@,
                self.tombstones@ == old(self).tombstones@.union(dead@.take(j as int).to_set()),
                self.clock == old(self).clock,
                self.elements@ == mid,
                self.replica == old(self).replica,
            decreases dead.len() - j,
        {
            let t = dead[j];
            self.tombstones.insert(t);
            proof {
                assert(dead@.take(j + 1) =~= dead@.take(j as int).push(t));
                dead@.take(j as int).lemma_push_to_set_commute(t);
                assert(self.tombstones@ =~= old(self).tombstones@.union(dead@.take(j + 1).to_set()));
            }
            j += 1;
        }
        proof {
            assert(dead@.take(dead@.len() as int) =~= dead@);
            assert(self.tombs() =~= old(self).tombs().union(other.tombs()));
            if old(self).wf() && other.wf() {
                lemma_wellformed_preserved(old(self).preds(), other.preds(), vstd::pervasive::arbitrary(), None);
            }
        }
        if keys.len() > 0 {
            let newest = keys[keys.len() - 1];
            proof {
                assert(sorted_enum(sorted_keys(other.preds().dom()), other.preds().dom()));
                lemma_sorted_enum_unique(keys@, sorted_keys(other.preds().dom()), other.preds().dom());
            }
            let ghost before = self.clock@;
            let h = self.clock.observe(Hlc { wall: newest.0, counter: newest.1 });
            let ghost now = choose|now: u64| h == observe_spec(before, now, newest_hlc(other.preds().dom()));
            assert(self.clock_last() == observe_spec(old(self).clock_last(), now, newest_hlc(other.preds().dom())));
            proof {
                if old(self).valid() && other.valid() && compatible(old(self).preds(), other.preds())
                    && !saturated(old(self).clock_last()) && !saturated(newest_hlc(other.preds().dom())) {
                    old(self).lemma_view_finite();
                    other.lemma_view_finite();
                    lemma_merge_valid(old(self).preds(), other.preds(), old(self).clock_last(), now);
                }
            }
        } else {
            proof {
                if old(self).valid() && other.valid() && compatible(old(self).preds(), other.preds()) {
                    old(self).lemma_view_finite();
                    other.lemma_view_finite();
                    lemma_merge_acyclic(old(self).preds(), other.preds());
                    assert(self.preds() =~= old(self).preds());
                }
            }
        }
    }
}

/// `after` is `before` having merged `other`: the other's elements that
/// `before` lacks join its own (their contents copied by `clone`), and the
/// tombstones are the union.
pub open spec fn merged<T: Clone>(before: Rga<T>, other: Rga<T>, after: Rga<T>) -> bool {
    &&& after.preds() == merge_preds(before.preds(), other.preds())
    &&& after.contents().dom() == after.preds().dom()
    &&& forall|k: Key| #[trigger] before.contents().contains_key(k)
        ==> after.contents()[k] == before.contents()[k]
    &&& forall|k: Key| other.contents().contains_key(k) && !before.contents().contains_key(k)
        ==> vstd::pervasive::cloned(other.contents()[k], #[trigger] after.contents()[k])
    &&& after.tombs() == before.tombs().union(other.tombs())
}

/// Merging in either order gives the same elements, tombstones and visible
/// sequence, for replicas that agree on the elements they share; and the
/// same contents too, when copies made by `clone` equal their sources and the
/// replicas agree on the contents they share.
pub proof fn lemma_merge_order_independent<T: Clone>(a: Rga<T>, b: Rga<T>, ab: Rga<T>, ba: Rga<T>)
    requires
        compatible(a.preds(), b.preds()),
        merged(a, b, ab),
        merged(b, a, ba),
    ensures
        ab.preds() == ba.preds(),
        ab.tombs() == ba.tombs(),
        ab.visible_keys() == ba.visible_keys(),
        exact_clones::<T>() && (forall|k: Key| a.contents().contains_key(k) && b.contents().contains_key(k)
            ==> #[trigger] a.contents()[k] == b.contents()[k]) ==> ab.contents() == ba.contents(),
{
    a.lemma_view_finite();
    b.lemma_view_finite();
    assert(ab.preds() =~= ba.preds());
    assert(ab.tombs() =~= ba.tombs());
    if exact_clones::<T>() && (forall|k: Key| a.contents().contains_key(k) && b.contents().contains_key(k)
        ==> #[trigger] a.contents()[k] == b.contents()[k]) {
        assert forall|k: Key| #[trigger] ab.contents().contains_key(k) implies ab.contents()[k] == ba.contents()[k] by {
            if a.contents().contains_key(k) {
                if !b.contents().contains_key(k) {
                    assert(vstd::pervasive::cloned(a.contents()[k], ba.contents()[k]));
                }
            } else {
                assert(vstd::pervasive::cloned(b.contents()[k], ab.contents()[k]));
            }
        }
        assert(ab.contents() =~= ba.contents());
    }
}

/// Merging a replica into a copy of itself changes nothing: the same
/// elements, contents, tombstones and visible sequence.
pub proof fn lemma_merge_idempotent<T: Clone>(a: Rga<T>, copy: Rga<T>, after: Rga<T>)
    requires
        copy.preds() == a.preds(),
        copy.contents() == a.contents(),
        copy.tombs() == a.tombs(),
        merged(copy, a, after),
    ensures
        after.preds() == a.preds(),
        after.contents() == a.contents(),
        after.tombs() == a.tombs(),
        after.visible_keys() == a.visible_keys(),
{
    a.lemma_view_finite();
    assert(after.preds() =~= a.preds());
    assert(after.tombs() =~= a.tombs());
    assert(after.contents() =~= a.contents());
}

/// Every predecessor recorded is a present element.
pub open spec fn wellformed(m: Map<Key, Option<Key>>) -> bool {
    forall|k: Key| #[trigger] m.contains_key(k) ==> match m[k] {
        Some(p) => m.contains_key(p),
        None => true,
    }
}

/// Two replicas agree on every element they both hold.
pub open spec fn compatible(a: Map<Key, Option<Key>>, b: Map<Key, Option<Key>>) -> bool {
    forall|k: Key| a.contains_key(k) && b.contains_key(k) ==> #[trigger] a[k] == #[trigger] b[k]
}

/// The element state after `self` merges `other`: the other's elements
/// that `self` lacks join `self`'s own.
pub open spec fn merge_preds(mine: Map<Key, Option<Key>>, other: Map<Key, Option<Key>>) -> Map<Key, Option<Key>> {
    other.union_prefer_right(mine)
}

/// Merging replicas that agree on their common elements does not depend on
/// the order of the two sides, nor on how three merges are grouped, and
/// merging a replica with itself changes nothing; the tombstones merge by
/// union. Replicas that merged the same states therefore hold the same
/// elements and tombstones, and so show the same sequence.
pub proof fn lemma_merge_converges(a: Map<Key, Option<Key>>, b: Map<Key, Option<Key>>, c: Map<Key, Option<Key>>, ta: Set<Key>, tb: Set<Key>, tc: Set<Key>)
    requires
        compatible(a, b),
        compatible(b, c),
        compatible(a, c),
    ensures
        merge_preds(a, b) == merge_preds(b, a),
        merge_preds(merge_preds(a, b), c) == merge_preds(a, merge_preds(b, c)),
        merge_preds(a, a) == a,
        ta.union(tb) == tb.union(ta),
        ta.union(tb).union(tc) == ta.union(tb.union(tc)),
        ta.union(ta) == ta,
        visible(order_spec(merge_preds(a, b)), ta.union(tb)) == visible(order_spec(merge_preds(b, a)), tb.union(ta)),
{
    assert(merge_preds(a, b) =~= merge_preds(b, a));
    assert(merge_preds(merge_preds(a, b), c) =~= merge_preds(a, merge_preds(b, c)));
    assert(merge_preds(a, a) =~= a);
    assert(ta.union(tb) =~= tb.union(ta));
    assert(ta.union(tb).union(tc) =~= ta.union(tb.union(tc)));
    assert(ta.union(ta) =~= ta);
}

/// Inserting after a present element (or at the front), merging, and
/// tombstoning keep every predecessor present.
pub proof fn lemma_wellformed_preserved(a: Map<Key, Option<Key>>, b: Map<Key, Option<Key>>, k: Key, p: Option<Key>)
    requires
        wellformed(a),
        wellformed(b),
        p matches Some(q) ==> a.contains_key(q),
    ensures
        wellformed(a.insert(k, p)),
        wellformed(merge_preds(a, b)),
{
    assert forall|x: Key| #[trigger] a.insert(k, p).contains_key(x) implies match a.insert(k, p)[x] {
        Some(q) => a.insert(k, p).contains_key(q),
        None => true,
    } by {
        if x != k {
            assert(a.contains_key(x));
        }
    }
    let u = merge_preds(a, b);
    assert forall|x: Key| #[trigger] u.contains_key(x) implies match u[x] {
        Some(q) => u.contains_key(q),
        None => true,
    } by {
        if a.contains_key(x) {
            assert(a.contains_key(x));
        } else {
            assert(b.contains_key(x));
        }
    }
}

/// More fuel never hurts reaching the front.
pub proof fn lemma_reaches_root_more_fuel(m: Map<Key, Option<Key>>, k: Key, f1: nat, f2: nat)
    requires
        reaches_root(m, k, f1),
        f1 <= f2,
    ensures
        reaches_root(m, k, f2),
    decreases f1,
{
    if let Some(p) = eparent(m, k) {
        lemma_reaches_root_more_fuel(m, p, (f1 - 1) as nat, (f2 - 1) as nat);
    }
}

/// A larger replica that places each of `m`'s elements under the same
/// parent reaches the front from them in the same number of steps.
proof fn lemma_reaches_root_extend(m: Map<Key, Option<Key>>, m2: Map<Key, Option<Key>>, k: Key, f: nat)
    requires
        reaches_root(m, k, f),
        m.contains_key(k),
        forall|x: Key| #[trigger] m.contains_key(x) ==> m2.contains_key(x) && eparent(m2, x) == eparent(m, x),
    ensures
        reaches_root(m2, k, f),
    decreases f,
{
    if let Some(p) = eparent(m, k) {
        lemma_reaches_root_extend(m, m2, p, (f - 1) as nat);
    }
}

/// Inserting a new element after a present one (or at the front) keeps the
/// parent links free of cycles, in a replica whose predecessors are all
/// present.
pub proof fn lemma_fresh_insert_acyclic(m: Map<Key, Option<Key>>, k: Key, p: Option<Key>)
    requires
        m.dom().finite(),
        wellformed(m),
        acyclic(m),
        !m.contains_key(k),
        p matches Some(q) ==> m.contains_key(q),
    ensures
        acyclic(m.insert(k, p)),
{
    let m2 = m.insert(k, p);
    assert(m2.dom() =~= m.dom().insert(k));
    assert forall|x: Key| #[trigger] m.contains_key(x) implies m2.contains_key(x) && eparent(m2, x) == eparent(m, x) by {
        if let Some(q) = m[x] {
            assert(m.contains_key(q));
        }
    }
    assert forall|x: Key| #[trigger] m2.contains_key(x) implies reaches_root(m2, x, m2.dom().len()) by {
        if x == k {
            match p {
                Some(q) => {
                    assert(eparent(m2, k) == Some(q));
                    lemma_reaches_root_extend(m, m2, q, m.dom().len());
                },
                None => {},
            }
        } else {
            lemma_reaches_root_extend(m, m2, x, m.dom().len());
            lemma_reaches_root_more_fuel(m2, x, m.dom().len(), m2.dom().len());
        }
    }
}

/// Merging replicas that agree on their common elements and whose
/// predecessors are present keeps the parent links free of cycles.
pub proof fn lemma_merge_acyclic(a: Map<Key, Option<Key>>, b: Map<Key, Option<Key>>)
    requires
        a.dom().finite(),
        b.dom().finite(),
        wellformed(a),
        wellformed(b),
        compatible(a, b),
        acyclic(a),
        acyclic(b),
    ensures
        acyclic(merge_preds(a, b)),
{
    let u = merge_preds(a, b);
    assert(u.dom() =~= a.dom().union(b.dom()));
    vstd::set_lib::lemma_len_subset(a.dom(), u.dom());
    vstd::set_lib::lemma_len_subset(b.dom(), u.dom());
    assert forall|x: Key| #[trigger] a.contains_key(x) implies u.contains_key(x) && eparent(u, x) == eparent(a, x) by {
        if let Some(q) = a[x] {
            assert(a.contains_key(q));
        }
    }
    assert forall|x: Key| #[trigger] b.contains_key(x) implies u.contains_key(x) && eparent(u, x) == eparent(b, x) by {
        if a.contains_key(x) {
            assert(a[x] == b[x]);
        }
        if let Some(q) = b[x] {
            assert(b.contains_key(q));
        }
    }
    assert forall|x: Key| #[trigger] u.contains_key(x) implies reaches_root(u, x, u.dom().len()) by {
        if a.contains_key(x) {
            lemma_reaches_root_extend(a, u, x, a.dom().len());
            lemma_reaches_root_more_fuel(u, x, a.dom().len(), u.dom().len());
        } else {
            lemma_reaches_root_extend(b, u, x, b.dom().len());
            lemma_reaches_root_more_fuel(u, x, b.dom().len(), u.dom().len());
        }
    }
}

/// No element created by `owner` has a timestamp later than `last`.
pub open spec fn covers_own(m: Map<Key, Option<Key>>, owner: u64, last: Hlc) -> bool {
    forall|k: Key| #[trigger] m.contains_key(k) && k.2 == owner ==> !hlc_lt(last, Hlc { wall: k.0, counter: k.1 })
}

/// A local insert gets an id that no present element has, as long as the
/// clock covers this replica's own ids and is not at the largest timestamp;
/// afterwards the clock covers the new id too.
pub proof fn lemma_local_insert_fresh(m: Map<Key, Option<Key>>, owner: u64, last: Hlc, now: u64, p: Option<Key>)
    requires
        covers_own(m, owner, last),
        !saturated(last),
    ensures
        !m.contains_key((tick_spec(last, now).wall, tick_spec(last, now).counter, owner)),
        covers_own(m.insert((tick_spec(last, now).wall, tick_spec(last, now).counter, owner), p), owner, tick_spec(last, now)),
{
    let h = tick_spec(last, now);
    lemma_tick_increases(last, now);
    let m2 = m.insert((h.wall, h.counter, owner), p);
    assert forall|k: Key| #[trigger] m2.contains_key(k) && k.2 == owner implies !hlc_lt(h, Hlc { wall: k.0, counter: k.1 }) by {
        if k != (h.wall, h.counter, owner) {
            assert(!hlc_lt(last, Hlc { wall: k.0, counter: k.1 }));
        }
    }
}

/// Every id of a replica has a timestamp no later than the newest one.
proof fn lemma_newest_hlc_is_max(d: Set<Key>, k: Key)
    requires
        d.finite(),
        d.contains(k),
    ensures
        !hlc_lt(newest_hlc(d), Hlc { wall: k.0, counter: k.1 }),
{
    lemma_sorted_keys_exist(d);
    let s = sorted_keys(d);
    assert(s.to_set().contains(k));
    let i = choose|i: int| 0 <= i < s.len() && s[i] == k;
    if i < s.len() - 1 {
        assert(key_lt(s[i], s[s.len() - 1]));
    }
}

/// Merging moves the clock past the merged ids, so the clock keeps covering
/// this replica's own ids.
pub proof fn lemma_merge_covers(m: Map<Key, Option<Key>>, o: Map<Key, Option<Key>>, owner: u64, last: Hlc, now: u64)
    requires
        covers_own(m, owner, last),
        o.dom().finite(),
        o.dom().len() > 0,
        !saturated(last),
        !saturated(newest_hlc(o.dom())),
    ensures
        covers_own(merge_preds(m, o), owner, observe_spec(last, now, newest_hlc(o.dom()))),
{
    let h = observe_spec(last, now, newest_hlc(o.dom()));
    lemma_observe_passes_both(last, now, newest_hlc(o.dom()));
    let u = merge_preds(m, o);
    assert forall|k: Key| #[trigger] u.contains_key(k) && k.2 == owner implies !hlc_lt(h, Hlc { wall: k.0, counter: k.1 }) by {
        if m.contains_key(k) {
            assert(!hlc_lt(last, Hlc { wall: k.0, counter: k.1 }));
        } else {
            lemma_newest_hlc_is_max(o.dom(), k);
        }
    }
}

/// After merging a replica that holds elements, every later local id is
/// newer than every id of that replica: the merge moves the clock to
/// `observe_spec(last, now, newest)`, and the next local insert takes the
/// timestamp `tick_spec` of that, at whatever physical time `later`. This
/// holds away from the largest timestamp, where a tick cannot move on.
pub proof fn lemma_later_ids_pass_merged(o: Map<Key, Option<Key>>, last: Hlc, now: u64, later: u64)
    requires
        o.dom().finite(),
        o.dom().len() > 0,
        !saturated(last),
        !saturated(newest_hlc(o.dom())),
        !saturated(observe_spec(last, now, newest_hlc(o.dom()))),
    ensures
        forall|k: Key| #[trigger] o.contains_key(k) ==> hlc_lt(
            Hlc { wall: k.0, counter: k.1 },
            tick_spec(observe_spec(last, now, newest_hlc(o.dom())), later),
        ),
{
    let newest = newest_hlc(o.dom());
    let h = observe_spec(last, now, newest);
    let t = tick_spec(h, later);
    lemma_observe_passes_both(last, now, newest);
    lemma_tick_increases(h, later);
    assert forall|k: Key| #[trigger] o.contains_key(k) implies hlc_lt(Hlc { wall: k.0, counter: k.1 }, t) by {
        lemma_newest_hlc_is_max(o.dom(), k);
        let kh = Hlc { wall: k.0, counter: k.1 };
        if kh != newest {
            assert(hlc_lt(kh, newest));
        }
        lemma_hlc_lt_transitive(newest, h, t);
    }
}

/// The ancestor `j` parent links above `x`, if the chain is that long.
pub open spec fn anc(m: Map<Key, Option<Key>>, x: Key, j: nat) -> Option<Key>
    decreases j,
{
    if j == 0 {
        Some(x)
    } else {
        match anc(m, x, (j - 1) as nat) {
            Some(y) => eparent(m, y),
            None => None,
        }
    }
}

/// `k` is `x` or one of its ancestors, fewer than `f` links up.
pub open spec fn below(m: Map<Key, Option<Key>>, x: Key, k: Key, f: nat) -> bool {
    exists|j: nat| j < f && #[trigger] anc(m, x, j) == Some(k)
}

proof fn lemma_anc_compose(m: Map<Key, Option<Key>>, x: Key, a: nat, b: nat)
    ensures
        anc(m, x, a + b) == match anc(m, x, a) {
            Some(y) => anc(m, y, b),
            None => None,
        },
    decreases b,
{
    if b > 0 {
        lemma_anc_compose(m, x, a, (b - 1) as nat);
        assert((a + b - 1) as nat == a + (b - 1) as nat);
    }
}

proof fn lemma_anc_in_dom(m: Map<Key, Option<Key>>, x: Key, j: nat)
    requires
        m.contains_key(x),
    ensures
        anc(m, x, j) matches Some(y) ==> m.contains_key(y),
    decreases j,
{
    if j > 0 {
        lemma_anc_in_dom(m, x, (j - 1) as nat);
    }
}

proof fn lemma_reaches_root_ends_chain(m: Map<Key, Option<Key>>, x: Key, f: nat)
    requires
        reaches_root(m, x, f),
    ensures
        anc(m, x, f) is None,
    decreases f,
{
    lemma_anc_compose(m, x, 1, (f - 1) as nat);
    assert(anc(m, x, 0) == Some(x));
    assert(anc(m, x, 1) == eparent(m, x));
    match eparent(m, x) {
        Some(p) => {
            lemma_reaches_root_ends_chain(m, p, (f - 1) as nat);
        },
        None => {
            lemma_anc_none_stays(m, x, 1, (f - 1) as nat);
        },
    }
}

proof fn lemma_anc_none_stays(m: Map<Key, Option<Key>>, x: Key, a: nat, b: nat)
    requires
        anc(m, x, a) is None,
    ensures
        anc(m, x, a + b) is None,
{
    lemma_anc_compose(m, x, a, b);
}

/// In a replica without cycles, no element is its own proper ancestor.
proof fn lemma_no_self_ancestor(m: Map<Key, Option<Key>>, k: Key, j: nat)
    requires
        acyclic(m),
        m.contains_key(k),
        j >= 1,
    ensures
        anc(m, k, j) != Some(k),
{
    if anc(m, k, j) == Some(k) {
        lemma_reaches_root_ends_chain(m, k, m.dom().len());
        lemma_periodic_chain_never_ends(m, k, j, m.dom().len());
    }
}

proof fn lemma_periodic_chain_never_ends(m: Map<Key, Option<Key>>, k: Key, j: nat, n: nat)
    requires
        j >= 1,
        anc(m, k, j) == Some(k),
    ensures
        anc(m, k, n) is Some,
    decreases n,
{
    if n < j {
        if anc(m, k, n) is None {
            lemma_anc_none_stays(m, k, n, (j - n) as nat);
        }
    } else {
        lemma_periodic_chain_never_ends(m, k, j, (n - j) as nat);
        lemma_anc_compose(m, k, j, (n - j) as nat);
    }
}

proof fn lemma_kids_of_complete(m: Map<Key, Option<Key>>, ks: Seq<Key>, parent: Option<Key>, x: Key)
    requires
        ks.contains(x),
        eparent(m, x) == parent,
    ensures
        kids_of(m, ks, parent).contains(x),
    decreases ks.len(),
{
    if ks.last() != x {
        let i = choose|i: int| 0 <= i < ks.len() && ks[i] == x;
        assert(ks.drop_last()[i] == x);
        lemma_kids_of_complete(m, ks.drop_last(), parent, x);
        let rest = kids_of(m, ks.drop_last(), parent);
        let j = choose|j: int| 0 <= j < rest.len() && rest[j] == x;
        if eparent(m, ks.last()) == parent {
            assert(rest.push(ks.last())[j] == x);
        }
    } else {
        let rest = kids_of(m, ks.drop_last(), parent);
        assert(rest.push(ks.last())[rest.len() as int] == x);
    }
}

proof fn lemma_kids_of_no_dup(m: Map<Key, Option<Key>>, ks: Seq<Key>, parent: Option<Key>)
    requires
        ks.no_duplicates(),
    ensures
        kids_of(m, ks, parent).no_duplicates(),
    decreases ks.len(),
{
    if ks.len() > 0 {
        let init = ks.drop_last();
        assert(init.no_duplicates());
        lemma_kids_of_no_dup(m, init, parent);
        let rest = kids_of(m, init, parent);
        if eparent(m, ks.last()) == parent {
            assert(!rest.contains(ks.last())) by {
                if rest.contains(ks.last()) {
                    lemma_kids_of_members(m, init, parent, ks.last());
                    let i = choose|i: int| 0 <= i < init.len() && init[i] == ks.last();
                    assert(ks[i] == ks[ks.len() - 1]);
                }
            }
            let r2 = rest.push(ks.last());
            assert forall|i: int, j: int| 0 <= i < r2.len() && 0 <= j < r2.len() && i != j implies r2[i] != r2[j] by {
                if i < rest.len() && j < rest.len() {
                } else if i < rest.len() {
                    assert(rest.contains(r2[i]));
                } else {
                    assert(rest.contains(r2[j]));
                }
            }
        }
    }
}

/// The children of `parent`: present elements placed under it, each once.
proof fn lemma_children_props(m: Map<Key, Option<Key>>, parent: Option<Key>)
    requires
        m.dom().finite(),
    ensures
        children(m, parent).no_duplicates(),
        forall|c: Key| #[trigger] children(m, parent).contains(c) <==> (m.contains_key(c) && eparent(m, c) == parent),
{
    lemma_sorted_keys_exist(m.dom());
    let ks = sorted_keys(m.dom());
    assert(ks.no_duplicates()) by {
        assert forall|i: int, j: int| 0 <= i < ks.len() && 0 <= j < ks.len() && i != j implies ks[i] != ks[j] by {
            if i < j {
                assert(key_lt(ks[i], ks[j]));
            } else {
                assert(key_lt(ks[j], ks[i]));
            }
        }
    }
    lemma_kids_of_no_dup(m, ks, parent);
    let kd = kids_of(m, ks, parent);
    let ch = kd.reverse();
    assert forall|i: int, j: int| 0 <= i < ch.len() && 0 <= j < ch.len() && i != j implies ch[i] != ch[j] by {
        assert(ch[i] == kd[kd.len() - 1 - i]);
        assert(ch[j] == kd[kd.len() - 1 - j]);
    }
    assert forall|c: Key| #[trigger] children(m, parent).contains(c) <==> (m.contains_key(c) && eparent(m, c) == parent) by {
        if ch.contains(c) {
            let i = choose|i: int| 0 <= i < ch.len() && ch[i] == c;
            assert(kd[kd.len() - 1 - i] == c);
            lemma_kids_of_members(m, ks, parent, c);
            assert(ks.to_set().contains(c));
        }
        if m.contains_key(c) && eparent(m, c) == parent {
            assert(ks.to_set().contains(c));
            lemma_kids_of_complete(m, ks, parent, c);
            let i = choose|i: int| 0 <= i < kd.len() && kd[i] == c;
            assert(ch[kd.len() - 1 - i] == c);
        }
    }
}

/// Everything in the walk below `k` has `k` as itself or an ancestor.
proof fn lemma_subtree_below(m: Map<Key, Option<Key>>, k: Key, f: nat, x: Key)
    requires
        m.dom().finite(),
        subtree(m, k, f).contains(x),
    ensures
        below(m, x, k, f),
    decreases f, 0nat,
{
    let ch = children(m, Some(k));
    let rest = forest(m, ch, (f - 1) as nat);
    let i = choose|i: int| 0 <= i < subtree(m, k, f).len() && subtree(m, k, f)[i] == x;
    if i == 0 {
        assert(anc(m, x, 0) == Some(k));
    } else {
        assert(rest[i - 1] == x);
        lemma_forest_below(m, ch, (f - 1) as nat, x);
        let c = choose|c: Key| ch.contains(c) && #[trigger] below(m, x, c, (f - 1) as nat);
        let j = choose|j: nat| j < (f - 1) as nat && #[trigger] anc(m, x, j) == Some(c);
        lemma_children_props(m, Some(k));
        assert(eparent(m, c) == Some(k));
        assert(anc(m, x, j + 1) == Some(k));
    }
}

proof fn lemma_forest_below(m: Map<Key, Option<Key>>, roots: Seq<Key>, f: nat, x: Key)
    requires
        m.dom().finite(),
        forest(m, roots, f).contains(x),
    ensures
        exists|r: Key| roots.contains(r) && #[trigger] below(m, x, r, f),
    decreases f, roots.len() + 1,
{
    let a = subtree(m, roots[0], f);
    let b = forest(m, roots.drop_first(), f);
    let i = choose|i: int| 0 <= i < (a + b).len() && (a + b)[i] == x;
    if i < a.len() {
        assert(a[i] == x);
        lemma_subtree_below(m, roots[0], f, x);
        assert(roots.contains(roots[0]));
    } else {
        assert(b[i - a.len()] == x);
        lemma_forest_below(m, roots.drop_first(), f, x);
        let r = choose|r: Key| roots.drop_first().contains(r) && #[trigger] below(m, x, r, f);
        let k = choose|k: int| 0 <= k < roots.drop_first().len() && roots.drop_first()[k] == r;
        assert(roots[k + 1] == r);
    }
}

proof fn lemma_forest_includes(m: Map<Key, Option<Key>>, roots: Seq<Key>, f: nat, r: Key, x: Key)
    requires
        roots.contains(r),
        subtree(m, r, f).contains(x),
    ensures
        forest(m, roots, f).contains(x),
    decreases roots.len(),
{
    let a = subtree(m, roots[0], f);
    let b = forest(m, roots.drop_first(), f);
    if roots[0] == r {
        let i = choose|i: int| 0 <= i < a.len() && a[i] == x;
        assert((a + b)[i] == x);
    } else {
        let k = choose|k: int| 0 <= k < roots.len() && roots[k] == r;
        assert(roots.drop_first()[k - 1] == r);
        lemma_forest_includes(m, roots.drop_first(), f, r, x);
        let i = choose|i: int| 0 <= i < b.len() && b[i] == x;
        assert((a + b)[a.len() + i] == x);
    }
}

/// Everything `j < f` links below `k` is in the walk below `k`.
proof fn lemma_subtree_complete(m: Map<Key, Option<Key>>, k: Key, f: nat, x: Key, j: nat)
    requires
        m.dom().finite(),
        m.contains_key(x),
        j < f,
        anc(m, x, j) == Some(k),
    ensures
        subtree(m, k, f).contains(x),
    decreases j,
{
    if j == 0 {
        assert(subtree(m, k, f)[0] == x);
    } else {
        let c = anc(m, x, (j - 1) as nat)->Some_0;
        assert(eparent(m, c) == Some(k));
        lemma_anc_in_dom(m, x, (j - 1) as nat);
        lemma_subtree_complete(m, c, (f - 1) as nat, x, (j - 1) as nat);
        lemma_children_props(m, Some(k));
        assert(children(m, Some(k)).contains(c));
        lemma_forest_includes(m, children(m, Some(k)), (f - 1) as nat, c, x);
        let rest = forest(m, children(m, Some(k)), (f - 1) as nat);
        let i = choose|i: int| 0 <= i < rest.len() && rest[i] == x;
        assert(subtree(m, k, f)[i + 1] == x);
    }
}

/// Two different elements with the same parent have no common element below
/// them.
proof fn lemma_siblings_disjoint(m: Map<Key, Option<Key>>, x: Key, r1: Key, r2: Key, j1: nat, j2: nat)
    requires
        acyclic(m),
        m.contains_key(r1),
        m.contains_key(r2),
        r1 != r2,
        eparent(m, r1) == eparent(m, r2),
        j1 <= j2,
    ensures
        !(anc(m, x, j1) == Some(r1) && anc(m, x, j2) == Some(r2)),
{
    if anc(m, x, j1) == Some(r1) && anc(m, x, j2) == Some(r2) && j1 < j2 {
        let d = (j2 - j1) as nat;
        lemma_anc_compose(m, x, j1, d);
        assert(anc(m, r1, d) == Some(r2));
        lemma_anc_compose(m, r1, 1, (d - 1) as nat);
        assert(anc(m, r1, 0) == Some(r1));
        assert(anc(m, r1, 1) == eparent(m, r1));
        match eparent(m, r1) {
            None => {
                lemma_anc_none_stays(m, r1, 1, (d - 1) as nat);
            },
            Some(p) => {
                lemma_anc_compose(m, r1, d, 1);
                assert(anc(m, r2, 0) == Some(r2));
                assert(anc(m, r2, 1) == eparent(m, r2));
                assert(anc(m, r1, d + 1) == Some(p));
                lemma_anc_compose(m, r1, 1, d);
                assert(anc(m, p, d) == Some(p));
                lemma_anc_in_dom(m, r1, 1);
                lemma_no_self_ancestor(m, p, d);
            },
        }
    }
}

proof fn lemma_concat_no_dup(a: Seq<Key>, b: Seq<Key>)
    requires
        a.no_duplicates(),
        b.no_duplicates(),
        forall|x: Key| a.contains(x) ==> !b.contains(x),
    ensures
        (a + b).no_duplicates(),
{
    let c = a + b;
    assert forall|i: int, j: int| 0 <= i < c.len() && 0 <= j < c.len() && i != j implies c[i] != c[j] by {
        if i < a.len() && j >= a.len() {
            assert(a.contains(c[i]));
            assert(b[j - a.len()] == c[j]);
        } else if j < a.len() && i >= a.len() {
            assert(a.contains(c[j]));
            assert(b[i - a.len()] == c[i]);
        } else if i >= a.len() && j >= a.len() {
            assert(b[i - a.len()] == c[i]);
            assert(b[j - a.len()] == c[j]);
        }
    }
}

/// The walk below `k` lists nothing twice.
proof fn lemma_subtree_no_dup(m: Map<Key, Option<Key>>, k: Key, f: nat)
    requires
        m.dom().finite(),
        acyclic(m),
        m.contains_key(k),
    ensures
        subtree(m, k, f).no_duplicates(),
    decreases f, 0nat,
{
    if f > 0 {
        let ch = children(m, Some(k));
        lemma_children_props(m, Some(k));
        lemma_forest_no_dup(m, ch, (f - 1) as nat, Some(k));
        let rest = forest(m, ch, (f - 1) as nat);
        assert(!rest.contains(k)) by {
            if rest.contains(k) {
                lemma_forest_below(m, ch, (f - 1) as nat, k);
                let c = choose|c: Key| ch.contains(c) && #[trigger] below(m, k, c, (f - 1) as nat);
                let j = choose|j: nat| j < (f - 1) as nat && #[trigger] anc(m, k, j) == Some(c);
                assert(eparent(m, c) == Some(k));
                assert(anc(m, k, j + 1) == Some(k));
                lemma_no_self_ancestor(m, k, j + 1);
            }
        }
        lemma_concat_no_dup(seq![k], rest);
    }
}

/// The walks below elements with a common parent, one after the other, list
/// nothing twice.
proof fn lemma_forest_no_dup(m: Map<Key, Option<Key>>, roots: Seq<Key>, f: nat, parent: Option<Key>)
    requires
        m.dom().finite(),
        acyclic(m),
        roots.no_duplicates(),
        forall|r: Key| #[trigger] roots.contains(r) ==> m.contains_key(r) && eparent(m, r) == parent,
    ensures
        forest(m, roots, f).no_duplicates(),
    decreases f, roots.len() + 1,
{
    if roots.len() > 0 {
        let r0 = roots[0];
        assert(roots.contains(r0));
        let tail = roots.drop_first();
        assert forall|r: Key| #[trigger] tail.contains(r) implies roots.contains(r) && r != r0 by {
            let i = choose|i: int| 0 <= i < tail.len() && tail[i] == r;
            assert(roots[i + 1] == r);
        }
        assert(tail.no_duplicates());
        lemma_subtree_no_dup(m, r0, f);
        lemma_forest_no_dup(m, tail, f, parent);
        let a = subtree(m, r0, f);
        let b = forest(m, tail, f);
        assert forall|x: Key| a.contains(x) implies !b.contains(x) by {
            if b.contains(x) {
                lemma_subtree_below(m, r0, f, x);
                lemma_forest_below(m, tail, f, x);
                let r = choose|r: Key| tail.contains(r) && #[trigger] below(m, x, r, f);
                let j1 = choose|j: nat| j < f && #[trigger] anc(m, x, j) == Some(r0);
                let j2 = choose|j: nat| j < f && #[trigger] anc(m, x, j) == Some(r);
                if j1 <= j2 {
                    lemma_siblings_disjoint(m, x, r0, r, j1, j2);
                } else {
                    lemma_siblings_disjoint(m, x, r, r0, j2, j1);
                }
            }
        }
        lemma_concat_no_dup(a, b);
    }
}

/// The ancestor `d` links above `x` is at the front.
pub open spec fn root_at(m: Map<Key, Option<Key>>, x: Key, d: nat) -> bool {
    match anc(m, x, d) {
        Some(r) => eparent(m, r) is None,
        None => false,
    }
}

proof fn lemma_chain_has_root(m: Map<Key, Option<Key>>, x: Key, n: nat)
    requires
        anc(m, x, n) is None,
    ensures
        exists|d: nat| d < n && #[trigger] root_at(m, x, d),
    decreases n,
{
    if n == 0 {
    } else if anc(m, x, (n - 1) as nat) is None {
        lemma_chain_has_root(m, x, (n - 1) as nat);
        let d = choose|d: nat| d < (n - 1) as nat && #[trigger] root_at(m, x, d);
        assert(d < n);
    } else {
        assert(root_at(m, x, (n - 1) as nat));
    }
}

/// LinearizationOK: in a replica without cycles the sequence lists every
/// element exactly once, and the visible sequence lists every element that
/// is not tombstoned exactly once; so its length is the number of such
/// elements.
pub proof fn lemma_linearization(m: Map<Key, Option<Key>>, tombs: Set<Key>)
    requires
        m.dom().finite(),
        acyclic(m),
    ensures
        order_spec(m).no_duplicates(),
        order_spec(m).to_set() == m.dom(),
        visible(order_spec(m), tombs).no_duplicates(),
        visible(order_spec(m), tombs).to_set() == m.dom().difference(tombs),
        visible(order_spec(m), tombs).len() == m.dom().difference(tombs).len(),
{
    let n = m.dom().len();
    let roots = children(m, None);
    lemma_children_props(m, None);
    lemma_forest_no_dup(m, roots, n, None);
    lemma_order_in_dom(m);
    assert(order_spec(m).to_set() =~= m.dom()) by {
        assert forall|x: Key| m.contains_key(x) implies order_spec(m).to_set().contains(x) by {
            lemma_reaches_root_ends_chain(m, x, n);
            lemma_chain_has_root(m, x, n);
            let d = choose|d: nat| d < n && #[trigger] root_at(m, x, d);
            let r = anc(m, x, d)->Some_0;
            lemma_anc_in_dom(m, x, d);
            assert(roots.contains(r));
            lemma_subtree_complete(m, r, n, x, d);
            lemma_forest_includes(m, roots, n, r, x);
        }
        assert forall|x: Key| order_spec(m).to_set().contains(x) implies m.contains_key(x) by {
            assert(order_spec(m).contains(x));
        }
    }
    lemma_visible_exact(order_spec(m), tombs);
    let v = visible(order_spec(m), tombs);
    assert(v.to_set() =~= m.dom().difference(tombs)) by {
        assert forall|x: Key| v.to_set().contains(x) <==> m.dom().difference(tombs).contains(x) by {
            if m.dom().difference(tombs).contains(x) {
                assert(order_spec(m).to_set().contains(x));
            }
        }
    }
    v.unique_seq_to_set();
}

proof fn lemma_visible_exact(s: Seq<Key>, tombs: Set<Key>)
    requires
        s.no_duplicates(),
    ensures
        visible(s, tombs).no_duplicates(),
        forall|x: Key| #[trigger] visible(s, tombs).contains(x) <==> (s.contains(x) && !tombs.contains(x)),
    decreases s.len(),
{
    lemma_visible_members(s, tombs);
    if s.len() > 0 {
        let init = s.drop_last();
        assert(init.no_duplicates());
        lemma_visible_exact(init, tombs);
        let rest = visible(init, tombs);
        assert forall|x: Key| #[trigger] visible(s, tombs).contains(x) <==> (s.contains(x) && !tombs.contains(x)) by {
            if s.contains(x) && !tombs.contains(x) {
                let i = choose|i: int| 0 <= i < s.len() && s[i] == x;
                if i < s.len() - 1 {
                    assert(init[i] == x);
                    assert(rest.contains(x));
                    let j = choose|j: int| 0 <= j < rest.len() && rest[j] == x;
                    if !tombs.contains(s.last()) {
                        assert(rest.push(s.last())[j] == x);
                    }
                } else {
                    assert(rest.push(s.last())[rest.len() as int] == x);
                }
            }
        }
        if !tombs.contains(s.last()) {
            assert(!rest.contains(s.last())) by {
                if rest.contains(s.last()) {
                    let i = choose|i: int| 0 <= i < init.len() && init[i] == s.last();
                    assert(s[i] == s[s.len() - 1]);
                }
            }
            lemma_concat_no_dup(rest, seq![s.last()]);
            assert(rest + seq![s.last()] =~= rest.push(s.last()));
        }
    }
}

/// Merging a list of replicas' element states one after the other, starting
/// from nothing.
pub open spec fn merge_all(ms: Seq<Map<Key, Option<Key>>>) -> Map<Key, Option<Key>>
    decreases ms.len(),
{
    if ms.len() == 0 {
        Map::empty()
    } else {
        merge_preds(merge_all(ms.drop_last()), ms.last())
    }
}

/// The union of a list of replicas' tombstones.
pub open spec fn tombs_all(ts: Seq<Set<Key>>) -> Set<Key>
    decreases ts.len(),
{
    if ts.len() == 0 {
        Set::empty()
    } else {
        tombs_all(ts.drop_last()).union(ts.last())
    }
}

/// Replicas that agree, two by two, on the elements they share.
pub open spec fn pairwise_compatible(ms: Set<Map<Key, Option<Key>>>) -> bool {
    forall|a: Map<Key, Option<Key>>, b: Map<Key, Option<Key>>| ms.contains(a) && ms.contains(b) ==> #[trigger] compatible(a, b)
}

proof fn lemma_merge_all_members(ms: Seq<Map<Key, Option<Key>>>, k: Key)
    requires
        pairwise_compatible(ms.to_set()),
    ensures
        merge_all(ms).contains_key(k) <==> exists|i: int| 0 <= i < ms.len() && #[trigger] ms[i].contains_key(k),
        forall|i: int| 0 <= i < ms.len() && #[trigger] ms[i].contains_key(k) ==> merge_all(ms)[k] == ms[i][k],
    decreases ms.len(),
{
    if ms.len() > 0 {
        let init = ms.drop_last();
        assert forall|i: int| 0 <= i < init.len() implies #[trigger] init[i] == ms[i] by {}
        assert(pairwise_compatible(init.to_set())) by {
            assert forall|a: Map<Key, Option<Key>>, b: Map<Key, Option<Key>>| init.to_set().contains(a) && init.to_set().contains(b) implies #[trigger] compatible(a, b) by {
                let i = choose|i: int| 0 <= i < init.len() && init[i] == a;
                let j = choose|j: int| 0 <= j < init.len() && init[j] == b;
                assert(ms.to_set().contains(ms[i]));
                assert(ms.to_set().contains(ms[j]));
            }
        }
        lemma_merge_all_members(init, k);
        let last = ms[ms.len() - 1];
        if exists|i: int| 0 <= i < ms.len() && #[trigger] ms[i].contains_key(k) {
            let i = choose|i: int| 0 <= i < ms.len() && #[trigger] ms[i].contains_key(k);
            if i < init.len() {
                assert(init[i].contains_key(k));
            }
        }
        if merge_all(ms).contains_key(k) && !last.contains_key(k) {
            let i = choose|i: int| 0 <= i < init.len() && #[trigger] init[i].contains_key(k);
            assert(ms[i].contains_key(k));
        }
        assert forall|i: int| 0 <= i < ms.len() && #[trigger] ms[i].contains_key(k) implies merge_all(ms)[k] == ms[i][k] by {
            assert(ms.to_set().contains(ms[i]));
            assert(ms.to_set().contains(last));
            assert(compatible(ms[i], last));
            if i < init.len() {
                assert(init[i].contains_key(k));
                if last.contains_key(k) {
                    assert(merge_all(init).contains_key(k));
                }
            } else {
                if merge_all(init).contains_key(k) {
                    let j = choose|j: int| 0 <= j < init.len() && #[trigger] init[j].contains_key(k);
                    assert(ms.to_set().contains(ms[j]));
                    assert(compatible(ms[j], last));
                }
            }
        }
    }
}

proof fn lemma_tombs_all_members(ts: Seq<Set<Key>>, k: Key)
    ensures
        tombs_all(ts).contains(k) <==> exists|i: int| 0 <= i < ts.len() && #[trigger] ts[i].contains(k),
    decreases ts.len(),
{
    if ts.len() > 0 {
        let init = ts.drop_last();
        lemma_tombs_all_members(init, k);
        assert forall|i: int| 0 <= i < init.len() implies #[trigger] init[i] == ts[i] by {}
        if exists|i: int| 0 <= i < ts.len() && #[trigger] ts[i].contains(k) {
            let i = choose|i: int| 0 <= i < ts.len() && #[trigger] ts[i].contains(k);
            if i < init.len() {
                assert(init[i].contains(k));
            }
        }
        if tombs_all(ts).contains(k) {
            if ts.last().contains(k) {
                assert(ts[ts.len() - 1].contains(k));
            } else {
                let i = choose|i: int| 0 <= i < init.len() && #[trigger] init[i].contains(k);
                assert(ts[i].contains(k));
            }
        }
    }
}

/// Merging replicas that agree on their common elements, in any order,
/// gives the same elements and tombstones, and so the same sequence.
pub proof fn lemma_merge_all_order_independent(ms1: Seq<Map<Key, Option<Key>>>, ms2: Seq<Map<Key, Option<Key>>>, ts1: Seq<Set<Key>>, ts2: Seq<Set<Key>>)
    requires
        pairwise_compatible(ms1.to_set()),
        ms1.to_set() == ms2.to_set(),
        ts1.to_set() == ts2.to_set(),
    ensures
        merge_all(ms1) == merge_all(ms2),
        tombs_all(ts1) == tombs_all(ts2),
        visible(order_spec(merge_all(ms1)), tombs_all(ts1)) == visible(order_spec(merge_all(ms2)), tombs_all(ts2)),
{
    assert forall|k: Key| #![trigger merge_all(ms1).contains_key(k)] #![trigger merge_all(ms2).contains_key(k)]
        (merge_all(ms1).contains_key(k) <==> merge_all(ms2).contains_key(k))
        && (merge_all(ms1).contains_key(k) ==> merge_all(ms1)[k] == merge_all(ms2)[k]) by {
        lemma_merge_all_members(ms1, k);
        lemma_merge_all_members(ms2, k);
        if merge_all(ms1).contains_key(k) {
            let i = choose|i: int| 0 <= i < ms1.len() && #[trigger] ms1[i].contains_key(k);
            assert(ms1.to_set().contains(ms1[i]));
            let j = choose|j: int| 0 <= j < ms2.len() && ms2[j] == ms1[i];
            assert(ms2[j].contains_key(k));
        }
        if merge_all(ms2).contains_key(k) {
            let j = choose|j: int| 0 <= j < ms2.len() && #[trigger] ms2[j].contains_key(k);
            assert(ms2.to_set().contains(ms2[j]));
            let i = choose|i: int| 0 <= i < ms1.len() && ms1[i] == ms2[j];
            assert(ms1[i].contains_key(k));
        }
    }
    assert(merge_all(ms1) =~= merge_all(ms2));
    assert forall|k: Key| tombs_all(ts1).contains(k) <==> tombs_all(ts2).contains(k) by {
        lemma_tombs_all_members(ts1, k);
        lemma_tombs_all_members(ts2, k);
        if tombs_all(ts1).contains(k) {
            let i = choose|i: int| 0 <= i < ts1.len() && #[trigger] ts1[i].contains(k);
            assert(ts1.to_set().contains(ts1[i]));
            let j = choose|j: int| 0 <= j < ts2.len() && ts2[j] == ts1[i];
            assert(ts2[j].contains(k));
        }
        if tombs_all(ts2).contains(k) {
            let j = choose|j: int| 0 <= j < ts2.len() && #[trigger] ts2[j].contains(k);
            assert(ts2.to_set().contains(ts2[j]));
            let i = choose|i: int| 0 <= i < ts1.len() && ts1[i] == ts2[j];
            assert(ts1[i].contains(k));
        }
    }
    assert(tombs_all(ts1) =~= tombs_all(ts2));
}

/// `x` stands before `y` in `s`.
pub open spec fn before(s: Seq<Key>, x: Key, y: Key) -> bool {
    exists|i: int, j: int| 0 <= i < j < s.len() && #[trigger] s[i] == x && #[trigger] s[j] == y
}

proof fn lemma_before_push(s: Seq<Key>, l: Key, x: Key, y: Key)
    ensures
        before(s.push(l), x, y) <==> (before(s, x, y) || (y == l && s.contains(x))),
{
    let t = s.push(l);
    if before(t, x, y) {
        let (i, j) = choose|i: int, j: int| 0 <= i < j < t.len() && #[trigger] t[i] == x && #[trigger] t[j] == y;
        if j < s.len() {
            assert(s[i] == x && s[j] == y);
        } else {
            assert(s[i] == x);
        }
    }
    if before(s, x, y) {
        let (i, j) = choose|i: int, j: int| 0 <= i < j < s.len() && #[trigger] s[i] == x && #[trigger] s[j] == y;
        assert(t[i] == x && t[j] == y);
    }
    if y == l && s.contains(x) {
        let i = choose|i: int| 0 <= i < s.len() && s[i] == x;
        assert(t[i] == x && t[s.len() as int] == y);
    }
}

proof fn lemma_visible_contains(s: Seq<Key>, t: Set<Key>, x: Key)
    ensures
        visible(s, t).contains(x) <==> (s.contains(x) && !t.contains(x)),
    decreases s.len(),
{
    lemma_visible_members(s, t);
    if s.len() > 0 {
        let init = s.drop_last();
        lemma_visible_contains(init, t, x);
        if s.contains(x) && !t.contains(x) {
            let i = choose|i: int| 0 <= i < s.len() && s[i] == x;
            if i < s.len() - 1 {
                assert(init[i] == x);
                let v = visible(init, t);
                let j = choose|j: int| 0 <= j < v.len() && v[j] == x;
                if !t.contains(s.last()) {
                    assert(v.push(s.last())[j] == x);
                }
            } else {
                let v = visible(init, t);
                assert(v.push(s.last())[v.len() as int] == x);
            }
        }
    }
}

/// Dropping the elements of `t` keeps the order of the others.
proof fn lemma_visible_keeps_before(s: Seq<Key>, t: Set<Key>, x: Key, y: Key)
    requires
        !t.contains(x),
        !t.contains(y),
    ensures
        before(visible(s, t), x, y) <==> before(s, x, y),
    decreases s.len(),
{
    if s.len() > 0 {
        let init = s.drop_last();
        let l = s.last();
        assert(s == init.push(l));
        lemma_visible_keeps_before(init, t, x, y);
        lemma_before_push(init, l, x, y);
        lemma_visible_contains(init, t, x);
        if !t.contains(l) {
            lemma_before_push(visible(init, t), l, x, y);
        }
    } else {
        assert(visible(s, t) =~= Seq::<Key>::empty());
    }
}

proof fn lemma_visible_concat(a: Seq<Key>, b: Seq<Key>, t: Set<Key>)
    ensures
        visible(a + b, t) == visible(a, t) + visible(b, t),
    decreases b.len(),
{
    if b.len() == 0 {
        assert(a + b =~= a);
        assert(visible(b, t) =~= Seq::<Key>::empty());
        assert(visible(a, t) + visible(b, t) =~= visible(a, t));
    } else {
        let bi = b.drop_last();
        assert((a + b).drop_last() =~= a + bi);
        assert((a + b).last() == b.last());
        lemma_visible_concat(a, bi, t);
        if !t.contains(b.last()) {
            assert(visible(a, t) + visible(bi, t).push(b.last()) =~= (visible(a, t) + visible(bi, t)).push(b.last()));
        }
    }
}

proof fn lemma_visible_reverse(s: Seq<Key>, t: Set<Key>)
    ensures
        visible(s.reverse(), t) == visible(s, t).reverse(),
    decreases s.len(),
{
    if s.len() == 0 {
        assert(s.reverse() =~= s);
        assert(visible(s, t).reverse() =~= visible(s, t));
    } else {
        let init = s.drop_last();
        let l = s.last();
        lemma_visible_reverse(init, t);
        assert(s.reverse() =~= seq![l] + init.reverse());
        lemma_visible_concat(seq![l], init.reverse(), t);
        assert(seq![l].drop_last() =~= Seq::<Key>::empty());
        assert(visible(Seq::<Key>::empty(), t) =~= Seq::<Key>::empty());
        let v = visible(init, t);
        if t.contains(l) {
            assert(visible(seq![l], t) =~= Seq::<Key>::empty());
            assert(visible(seq![l], t) + v.reverse() =~= v.reverse());
        } else {
            assert(visible(seq![l], t) =~= seq![l]);
            assert(v.push(l).reverse() =~= seq![l] + v.reverse());
        }
    }
}

/// A sequence whose every element is in `t` leaves nothing visible.
proof fn lemma_visible_none(s: Seq<Key>, t: Set<Key>)
    requires
        forall|x: Key| #[trigger] s.contains(x) ==> t.contains(x),
    ensures
        visible(s, t) == Seq::<Key>::empty(),
    decreases s.len(),
{
    if s.len() > 0 {
        assert(s.contains(s[s.len() - 1]));
        let init = s.drop_last();
        assert forall|x: Key| #[trigger] init.contains(x) implies t.contains(x) by {
            let i = choose|i: int| 0 <= i < init.len() && init[i] == x;
            assert(s[i] == x);
            assert(s.contains(s[i]));
        }
        lemma_visible_none(init, t);
    } else {
        assert(visible(s, t) =~= Seq::<Key>::empty());
    }
}

/// `c` is the part of `m` on the ids `s`, and `s` is closed upwards: an
/// element of `s` has the same parent in `c` as in `m`, and that parent is
/// in `s` too.
spec fn closed_part(m: Map<Key, Option<Key>>, s: Set<Key>, c: Map<Key, Option<Key>>) -> bool {
    &&& s.subset_of(m.dom())
    &&& c == m.restrict(s)
    &&& forall|x: Key| #[trigger] s.contains(x) ==> eparent(m, x) == eparent(c, x)
    &&& forall|x: Key| #[trigger] s.contains(x) ==> (eparent(m, x) matches Some(p) ==> s.contains(p))
}

proof fn lemma_anc_in_part(m: Map<Key, Option<Key>>, s: Set<Key>, c: Map<Key, Option<Key>>, x: Key, j: nat)
    requires
        closed_part(m, s, c),
        s.contains(x),
    ensures
        anc(m, x, j) == anc(c, x, j),
        anc(m, x, j) matches Some(y) ==> s.contains(y),
    decreases j,
{
    if j > 0 {
        lemma_anc_in_part(m, s, c, x, (j - 1) as nat);
    }
}

proof fn lemma_kids_of_part(m: Map<Key, Option<Key>>, s: Set<Key>, c: Map<Key, Option<Key>>, ks: Seq<Key>, p: Option<Key>)
    requires
        closed_part(m, s, c),
    ensures
        kids_of(c, visible(ks, s.complement()), p) == visible(kids_of(m, ks, p), s.complement()),
    decreases ks.len(),
{
    let t = s.complement();
    if ks.len() == 0 {
        assert(visible(ks, t) =~= Seq::<Key>::empty());
        assert(kids_of(m, ks, p) =~= Seq::<Key>::empty());
        assert(visible(kids_of(m, ks, p), t) =~= Seq::<Key>::empty());
    } else {
        let init = ks.drop_last();
        let l = ks.last();
        lemma_kids_of_part(m, s, c, init, p);
        let vi = visible(init, t);
        let ki = kids_of(m, init, p);
        assert(vi.push(l).drop_last() =~= vi);
        assert(ki.push(l).drop_last() =~= ki);
        assert(vi.push(l).last() == l);
        assert(ki.push(l).last() == l);
    }
}

proof fn lemma_visible_sorted(s: Seq<Key>, t: Set<Key>)
    requires
        forall|i: int, j: int| 0 <= i < j < s.len() ==> key_lt(s[i], s[j]),
    ensures
        forall|i: int, j: int| 0 <= i < j < visible(s, t).len() ==> key_lt(visible(s, t)[i], visible(s, t)[j]),
    decreases s.len(),
{
    if s.len() > 0 {
        let init = s.drop_last();
        let l = s.last();
        lemma_visible_sorted(init, t);
        lemma_visible_members(init, t);
        let v = visible(init, t);
        if !t.contains(l) {
            let w = v.push(l);
            assert forall|i: int, j: int| 0 <= i < j < w.len() implies key_lt(w[i], w[j]) by {
                if j == w.len() - 1 {
                    assert(v.contains(v[i]));
                    let k = choose|k: int| 0 <= k < init.len() && init[k] == v[i];
                    assert(s[k] == init[k]);
                } else {
                    assert(w[i] == v[i] && w[j] == v[j]);
                }
            }
        }
    }
}

proof fn lemma_children_part(m: Map<Key, Option<Key>>, s: Set<Key>, c: Map<Key, Option<Key>>, p: Option<Key>)
    requires
        m.dom().finite(),
        closed_part(m, s, c),
    ensures
        children(c, p) == visible(children(m, p), s.complement()),
{
    let t = s.complement();
    lemma_sorted_keys_exist(m.dom());
    let sk = sorted_keys(m.dom());
    let v = visible(sk, t);
    assert(c.dom() =~= s);
    vstd::set_lib::lemma_set_subset_finite(m.dom(), s);
    lemma_visible_sorted(sk, t);
    assert(v.to_set() =~= s) by {
        assert forall|x: Key| v.to_set().contains(x) <==> s.contains(x) by {
            lemma_visible_contains(sk, t, x);
            if s.contains(x) {
                assert(sk.to_set().contains(x));
            }
        }
    }
    lemma_sorted_keys_exist(s);
    lemma_sorted_enum_unique(v, sorted_keys(s), s);
    lemma_kids_of_part(m, s, c, sk, p);
    lemma_visible_reverse(kids_of(m, sk, p), t);
}

proof fn lemma_visible_single(k: Key, t: Set<Key>)
    ensures
        visible(seq![k], t) == if t.contains(k) { Seq::<Key>::empty() } else { seq![k] },
{
    assert(seq![k].drop_last() =~= Seq::<Key>::empty());
    assert(visible(Seq::<Key>::empty(), t) =~= Seq::<Key>::empty());
    assert(Seq::<Key>::empty().push(k) =~= seq![k]);
}

/// Keeping only the ids of a closed part of a replica from its walk below
/// `k` gives the part's own walk below `k`.
proof fn lemma_subtree_part(m: Map<Key, Option<Key>>, s: Set<Key>, c: Map<Key, Option<Key>>, k: Key, f: nat)
    requires
        m.dom().finite(),
        closed_part(m, s, c),
    ensures
        visible(subtree(m, k, f), s.complement()) == if s.contains(k) { subtree(c, k, f) } else { Seq::<Key>::empty() },
    decreases f, 0nat,
{
    let t = s.complement();
    if f > 0 {
        let chm = children(m, Some(k));
        let rest = forest(m, chm, (f - 1) as nat);
        lemma_children_part(m, s, c, Some(k));
        lemma_forest_part(m, s, c, chm, (f - 1) as nat);
        lemma_visible_concat(seq![k], rest, t);
        lemma_visible_single(k, t);
        if !s.contains(k) {
            lemma_children_props(m, Some(k));
            assert forall|x: Key| #[trigger] chm.contains(x) implies t.contains(x) by {
                if s.contains(x) {
                    assert(eparent(m, x) == Some(k));
                }
            }
            lemma_visible_none(chm, t);
            assert(forest(c, Seq::<Key>::empty(), (f - 1) as nat) =~= Seq::<Key>::empty());
            assert(Seq::<Key>::empty() + Seq::<Key>::empty() =~= Seq::<Key>::empty());
        }
    } else {
        assert(visible(Seq::<Key>::empty(), t) =~= Seq::<Key>::empty());
    }
}

proof fn lemma_forest_part(m: Map<Key, Option<Key>>, s: Set<Key>, c: Map<Key, Option<Key>>, roots: Seq<Key>, f: nat)
    requires
        m.dom().finite(),
        closed_part(m, s, c),
    ensures
        visible(forest(m, roots, f), s.complement()) == forest(c, visible(roots, s.complement()), f),
    decreases f, roots.len() + 1,
{
    let t = s.complement();
    if roots.len() == 0 {
        assert(visible(roots, t) =~= Seq::<Key>::empty());
        assert(visible(Seq::<Key>::empty(), t) =~= Seq::<Key>::empty());
    } else {
        let r0 = roots[0];
        let rest = roots.drop_first();
        lemma_subtree_part(m, s, c, r0, f);
        lemma_forest_part(m, s, c, rest, f);
        lemma_visible_concat(subtree(m, r0, f), forest(m, rest, f), t);
        assert(roots =~= seq![r0] + rest);
        lemma_visible_concat(seq![r0], rest, t);
        lemma_visible_single(r0, t);
        let vr = visible(rest, t);
        if s.contains(r0) {
            let w = seq![r0] + vr;
            assert(w[0] == r0);
            assert(w.drop_first() =~= vr);
        } else {
            assert(Seq::<Key>::empty() + vr =~= vr);
            assert(Seq::<Key>::empty() + forest(c, vr, f) =~= forest(c, vr, f));
        }
    }
}

/// No element lies `g` parent links below `k`.
spec fn nothing_deep(c: Map<Key, Option<Key>>, k: Key, g: nat) -> bool {
    forall|x: Key| #[trigger] c.contains_key(x) ==> anc(c, x, g) != Some(k)
}

proof fn lemma_subtree_fuel(c: Map<Key, Option<Key>>, k: Key, g: nat, f: nat)
    requires
        c.dom().finite(),
        c.contains_key(k),
        nothing_deep(c, k, g),
        g <= f,
    ensures
        subtree(c, k, f) == subtree(c, k, g),
    decreases g, 0nat,
{
    assert(anc(c, k, 0) == Some(k));
    if g > 0 {
        let ch = children(c, Some(k));
        lemma_children_props(c, Some(k));
        assert forall|r: Key| #[trigger] ch.contains(r) implies c.contains_key(r) && nothing_deep(c, r, (g - 1) as nat) by {
            assert forall|x: Key| #[trigger] c.contains_key(x) implies anc(c, x, (g - 1) as nat) != Some(r) by {
                if anc(c, x, (g - 1) as nat) == Some(r) {
                    lemma_anc_compose(c, x, (g - 1) as nat, 1);
                    assert(anc(c, r, 0) == Some(r));
                    assert(anc(c, r, 1) == eparent(c, r));
                    assert((g - 1) as nat + 1 == g);
                }
            }
        }
        lemma_forest_fuel(c, ch, (g - 1) as nat, (f - 1) as nat);
    }
}

proof fn lemma_forest_fuel(c: Map<Key, Option<Key>>, roots: Seq<Key>, g: nat, f: nat)
    requires
        c.dom().finite(),
        forall|r: Key| #[trigger] roots.contains(r) ==> c.contains_key(r) && nothing_deep(c, r, g),
        g <= f,
    ensures
        forest(c, roots, f) == forest(c, roots, g),
    decreases g, roots.len() + 1,
{
    if roots.len() > 0 {
        let rest = roots.drop_first();
        assert(roots.contains(roots[0]));
        assert forall|r: Key| #[trigger] rest.contains(r) implies c.contains_key(r) && nothing_deep(c, r, g) by {
            let i = choose|i: int| 0 <= i < rest.len() && rest[i] == r;
            assert(roots[i + 1] == r);
            assert(roots.contains(roots[i + 1]));
        }
        lemma_subtree_fuel(c, roots[0], g, f);
        lemma_forest_fuel(c, rest, g, f);
    }
}

proof fn lemma_common_part(a: Map<Key, Option<Key>>, b: Map<Key, Option<Key>>)
    requires
        wellformed(a),
        wellformed(b),
        compatible(a, b),
    ensures
        closed_part(a, a.dom().intersect(b.dom()), a.restrict(a.dom().intersect(b.dom()))),
        closed_part(b, a.dom().intersect(b.dom()), a.restrict(a.dom().intersect(b.dom()))),
        a.restrict(a.dom().intersect(b.dom())) == b.restrict(a.dom().intersect(b.dom())),
{
    let s = a.dom().intersect(b.dom());
    let c = a.restrict(s);
    assert(c =~= b.restrict(s)) by {
        assert forall|x: Key| #[trigger] s.contains(x) implies a[x] == b[x] by {
            assert(a.contains_key(x) && b.contains_key(x));
        }
    }
    assert forall|x: Key| #[trigger] s.contains(x) implies eparent(a, x) == eparent(c, x)
        && eparent(b, x) == eparent(c, x) && (eparent(a, x) matches Some(p) ==> s.contains(p))
        && (eparent(b, x) matches Some(p) ==> s.contains(p)) by {
        assert(a.contains_key(x) && b.contains_key(x));
        assert(a[x] == b[x]);
        if let Some(p) = a[x] {
            assert(a.contains_key(p));
            assert(b.contains_key(p));
            assert(s.contains(p));
        }
    }
}

/// Convergence of the sequence order: two replicas without cycles, whose
/// recorded predecessors are present and which agree on the predecessor of
/// every element they share, list the elements they both show in the same
/// relative order, whatever else each holds and whichever elements each has
/// tombstoned. They need not have merged the same states.
pub proof fn lemma_convergent(a: Map<Key, Option<Key>>, b: Map<Key, Option<Key>>, ta: Set<Key>, tb: Set<Key>)
    requires
        a.dom().finite(),
        b.dom().finite(),
        wellformed(a),
        wellformed(b),
        acyclic(a),
        acyclic(b),
        compatible(a, b),
    ensures
        forall|x: Key, y: Key|
            #![trigger before(visible(order_spec(a), ta), x, y)]
            #![trigger before(visible(order_spec(b), tb), x, y)]
            visible(order_spec(a), ta).contains(x) && visible(order_spec(a), ta).contains(y)
            && visible(order_spec(b), tb).contains(x) && visible(order_spec(b), tb).contains(y)
            ==> (before(visible(order_spec(a), ta), x, y) <==> before(visible(order_spec(b), tb), x, y)),
{
    let s = a.dom().intersect(b.dom());
    let c = a.restrict(s);
    let t = s.complement();
    lemma_common_part(a, b);
    let na = a.dom().len();
    let nb = b.dom().len();
    lemma_forest_part(a, s, c, children(a, None), na);
    lemma_children_part(a, s, c, None);
    lemma_forest_part(b, s, c, children(b, None), nb);
    lemma_children_part(b, s, c, None);
    let roots = children(c, None);
    assert(c.dom() =~= s);
    vstd::set_lib::lemma_set_subset_finite(a.dom(), s);
    lemma_children_props(c, None);
    assert forall|x: Key| #[trigger] c.contains_key(x) implies anc(c, x, na) is None && anc(c, x, nb) is None by {
        lemma_anc_in_part(a, s, c, x, na);
        lemma_anc_in_part(b, s, c, x, nb);
        assert(a.contains_key(x) && b.contains_key(x));
        lemma_reaches_root_ends_chain(a, x, na);
        lemma_reaches_root_ends_chain(b, x, nb);
    }
    if na <= nb {
        assert forall|r: Key| #[trigger] roots.contains(r) implies c.contains_key(r) && nothing_deep(c, r, na) by {}
        lemma_forest_fuel(c, roots, na, nb);
    } else {
        assert forall|r: Key| #[trigger] roots.contains(r) implies c.contains_key(r) && nothing_deep(c, r, nb) by {}
        lemma_forest_fuel(c, roots, nb, na);
    }
    assert(visible(order_spec(a), t) == visible(order_spec(b), t));
    lemma_order_in_dom(a);
    lemma_order_in_dom(b);
    assert forall|x: Key, y: Key|
        visible(order_spec(a), ta).contains(x) && visible(order_spec(a), ta).contains(y)
        && visible(order_spec(b), tb).contains(x) && visible(order_spec(b), tb).contains(y)
        implies (before(visible(order_spec(a), ta), x, y) <==> before(visible(order_spec(b), tb), x, y)) by {
        lemma_visible_contains(order_spec(a), ta, x);
        lemma_visible_contains(order_spec(a), ta, y);
        lemma_visible_contains(order_spec(b), tb, x);
        lemma_visible_contains(order_spec(b), tb, y);
        assert(s.contains(x) && s.contains(y));
        lemma_visible_keeps_before(order_spec(a), ta, x, y);
        lemma_visible_keeps_before(order_spec(a), t, x, y);
        lemma_visible_keeps_before(order_spec(b), tb, x, y);
        lemma_visible_keeps_before(order_spec(b), t, x, y);
    }
}

/// Every id present has a timestamp at or before `last`.
pub open spec fn covers_all(m: Map<Key, Option<Key>>, last: Hlc) -> bool {
    forall|k: Key| #[trigger] m.contains_key(k) ==> !hlc_lt(last, Hlc { wall: k.0, counter: k.1 })
}

/// A local insert under the next tick of a clock that covers every id
/// present gets an id that is not present, and keeps the state without
/// cycles and covered by the clock.
proof fn lemma_tick_insert_valid(m: Map<Key, Option<Key>>, last: Hlc, now: u64, owner: u64, p: Option<Key>)
    requires
        m.dom().finite(),
        wellformed(m),
        acyclic(m),
        covers_all(m, last),
        !saturated(last),
        p matches Some(q) ==> m.contains_key(q),
    ensures
        !m.contains_key((tick_spec(last, now).wall, tick_spec(last, now).counter, owner)),
        acyclic(m.insert((tick_spec(last, now).wall, tick_spec(last, now).counter, owner), p)),
        covers_all(m.insert((tick_spec(last, now).wall, tick_spec(last, now).counter, owner), p), tick_spec(last, now)),
{
    let h = tick_spec(last, now);
    let k = (h.wall, h.counter, owner);
    lemma_tick_increases(last, now);
    if m.contains_key(k) {
        assert(!hlc_lt(last, Hlc { wall: k.0, counter: k.1 }));
    }
    lemma_fresh_insert_acyclic(m, k, p);
    let m2 = m.insert(k, p);
    assert forall|x: Key| #[trigger] m2.contains_key(x) implies !hlc_lt(h, Hlc { wall: x.0, counter: x.1 }) by {
        if x != k {
            assert(!hlc_lt(last, Hlc { wall: x.0, counter: x.1 }));
            if hlc_lt(h, Hlc { wall: x.0, counter: x.1 }) {
                lemma_hlc_lt_transitive(last, h, Hlc { wall: x.0, counter: x.1 });
            }
        }
    }
}

/// Merging a replica that agrees on shared elements keeps the state without
/// cycles, and the clock after the merge covers every id of both sides.
proof fn lemma_merge_valid(m: Map<Key, Option<Key>>, o: Map<Key, Option<Key>>, last: Hlc, now: u64)
    requires
        m.dom().finite(),
        o.dom().finite(),
        o.dom().len() > 0,
        wellformed(m),
        wellformed(o),
        acyclic(m),
        acyclic(o),
        compatible(m, o),
        covers_all(m, last),
        !saturated(last),
        !saturated(newest_hlc(o.dom())),
    ensures
        acyclic(merge_preds(m, o)),
        covers_all(merge_preds(m, o), observe_spec(last, now, newest_hlc(o.dom()))),
{
    lemma_merge_acyclic(m, o);
    let newest = newest_hlc(o.dom());
    let h = observe_spec(last, now, newest);
    lemma_observe_passes_both(last, now, newest);
    let u = merge_preds(m, o);
    assert forall|x: Key| #[trigger] u.contains_key(x) implies !hlc_lt(h, Hlc { wall: x.0, counter: x.1 }) by {
        let xh = Hlc { wall: x.0, counter: x.1 };
        if m.contains_key(x) {
            assert(!hlc_lt(last, xh));
            if hlc_lt(h, xh) {
                lemma_hlc_lt_transitive(last, h, xh);
            }
        } else {
            lemma_newest_hlc_is_max(o.dom(), x);
            if hlc_lt(h, xh) {
                lemma_hlc_lt_transitive(newest, h, xh);
            }
        }
    }
}

/// `k` is a new element newer than every present one, placed under `p`,
/// which is absent or present.
spec fn newest_insert(m: Map<Key, Option<Key>>, k: Key, p: Option<Key>) -> bool {
    &&& m.dom().finite()
    &&& wellformed(m)
    &&& !m.contains_key(k)
    &&& forall|x: Key| #[trigger] m.contains_key(x) ==> key_lt(x, k)
    &&& (p matches Some(r) ==> m.contains_key(r))
}

proof fn lemma_kids_of_same(m1: Map<Key, Option<Key>>, m2: Map<Key, Option<Key>>, ks: Seq<Key>, q: Option<Key>)
    requires
        forall|x: Key| #[trigger] ks.contains(x) ==> eparent(m1, x) == eparent(m2, x),
    ensures
        kids_of(m1, ks, q) == kids_of(m2, ks, q),
    decreases ks.len(),
{
    if ks.len() > 0 {
        let init = ks.drop_last();
        assert forall|x: Key| #[trigger] init.contains(x) implies eparent(m1, x) == eparent(m2, x) by {
            let i = choose|i: int| 0 <= i < init.len() && init[i] == x;
            assert(ks[i] == x);
            assert(ks.contains(ks[i]));
        }
        assert(ks.contains(ks[ks.len() - 1]));
        lemma_kids_of_same(m1, m2, init, q);
    }
}

proof fn lemma_eparent_after_insert(m: Map<Key, Option<Key>>, k: Key, p: Option<Key>, x: Key)
    requires
        newest_insert(m, k, p),
        m.contains_key(x),
    ensures
        eparent(m.insert(k, p), x) == eparent(m, x),
        eparent(m, x) != Some(k),
{
}

/// After inserting the newest element `k` under `p`, it is the first child
/// of `p`, and no other element's children change.
proof fn lemma_children_after_insert(m: Map<Key, Option<Key>>, k: Key, p: Option<Key>, q: Option<Key>)
    requires
        newest_insert(m, k, p),
    ensures
        children(m.insert(k, p), q) == if q == p { seq![k] + children(m, q) } else { children(m, q) },
{
    let m2 = m.insert(k, p);
    lemma_sorted_keys_exist(m.dom());
    let sk = sorted_keys(m.dom());
    let sk2 = sk.push(k);
    assert(m2.dom() =~= m.dom().insert(k));
    assert(sorted_enum(sk2, m2.dom())) by {
        assert(sk2.to_set() =~= m2.dom()) by {
            sk.lemma_push_to_set_commute(k);
        }
        assert forall|i: int, j: int| 0 <= i < j < sk2.len() implies key_lt(sk2[i], sk2[j]) by {
            if j == sk2.len() - 1 {
                assert(sk.to_set().contains(sk[i]));
            }
        }
    }
    lemma_sorted_keys_exist(m2.dom());
    lemma_sorted_enum_unique(sk2, sorted_keys(m2.dom()), m2.dom());
    assert forall|x: Key| #[trigger] sk.contains(x) implies eparent(m2, x) == eparent(m, x) by {
        assert(sk.to_set().contains(x));
        lemma_eparent_after_insert(m, k, p, x);
    }
    lemma_kids_of_same(m2, m, sk, q);
    assert(sk2.drop_last() =~= sk);
    assert(eparent(m2, k) == p);
    let kd = kids_of(m, sk, q);
    if q == p {
        assert(kd.push(k).reverse() =~= seq![k] + kd.reverse());
    }
}

/// Every chain from `x` up to `r` is shorter than `f - 1` links.
spec fn fuel_ok(m: Map<Key, Option<Key>>, x: Key, r: Key, f: nat) -> bool {
    forall|j: nat| #[trigger] anc(m, x, j) == Some(r) ==> j + 1 < f
}

proof fn lemma_fuel_ok_child(m: Map<Key, Option<Key>>, x: Key, r: Key, c: Key, f: nat)
    requires
        fuel_ok(m, x, r, f),
        eparent(m, c) == Some(r),
        f > 0,
    ensures
        fuel_ok(m, x, c, (f - 1) as nat),
{
    assert forall|j: nat| #[trigger] anc(m, x, j) == Some(c) implies j + 1 < (f - 1) as nat by {
        lemma_anc_compose(m, x, j, 1);
        assert(anc(m, c, 0) == Some(c));
        assert(anc(m, c, 1) == eparent(m, c));
        assert(anc(m, x, j + 1) == Some(r));
    }
}

/// In the walk below `r`, an element with children is directly followed by
/// its first child.
proof fn lemma_next_is_first_child(m: Map<Key, Option<Key>>, x: Key, r: Key, f: nat, i: int)
    requires
        m.dom().finite(),
        children(m, Some(x)).len() > 0,
        fuel_ok(m, x, r, f),
        0 <= i < subtree(m, r, f).len(),
        subtree(m, r, f)[i] == x,
    ensures
        i + 1 < subtree(m, r, f).len(),
        subtree(m, r, f)[i + 1] == children(m, Some(x))[0],
    decreases f, 0nat,
{
    let ch = children(m, Some(r));
    let rest = forest(m, ch, (f - 1) as nat);
    assert(subtree(m, r, f) == seq![r] + rest);
    if i == 0 {
        assert(anc(m, x, 0) == Some(x));
        let c0 = ch[0];
        let a = subtree(m, c0, (f - 1) as nat);
        assert(rest == a + forest(m, ch.drop_first(), (f - 1) as nat));
        assert(a[0] == c0);
    } else {
        assert(rest[i - 1] == x);
        lemma_children_props(m, Some(r));
        assert forall|c: Key| #[trigger] ch.contains(c) implies fuel_ok(m, x, c, (f - 1) as nat) by {
            lemma_fuel_ok_child(m, x, r, c, f);
        }
        lemma_next_is_first_child_forest(m, x, ch, (f - 1) as nat, i - 1);
    }
}

proof fn lemma_next_is_first_child_forest(m: Map<Key, Option<Key>>, x: Key, roots: Seq<Key>, f: nat, i: int)
    requires
        m.dom().finite(),
        children(m, Some(x)).len() > 0,
        forall|c: Key| #[trigger] roots.contains(c) ==> fuel_ok(m, x, c, f),
        0 <= i < forest(m, roots, f).len(),
        forest(m, roots, f)[i] == x,
    ensures
        i + 1 < forest(m, roots, f).len(),
        forest(m, roots, f)[i + 1] == children(m, Some(x))[0],
    decreases f, roots.len() + 1,
{
    let a = subtree(m, roots[0], f);
    let rest = roots.drop_first();
    let b = forest(m, rest, f);
    assert(forest(m, roots, f) == a + b);
    if i < a.len() {
        assert(roots.contains(roots[0]));
        assert(a[i] == x);
        lemma_next_is_first_child(m, x, roots[0], f, i);
    } else {
        assert(b[i - a.len()] == x);
        assert forall|c: Key| #[trigger] rest.contains(c) implies fuel_ok(m, x, c, f) by {
            let j = choose|j: int| 0 <= j < rest.len() && rest[j] == c;
            assert(roots[j + 1] == c);
            assert(roots.contains(roots[j + 1]));
        }
        lemma_next_is_first_child_forest(m, x, rest, f, i - a.len());
    }
}

proof fn lemma_visible_all(s: Seq<Key>, t: Set<Key>)
    requires
        forall|x: Key| #[trigger] s.contains(x) ==> !t.contains(x),
    ensures
        visible(s, t) == s,
    decreases s.len(),
{
    if s.len() > 0 {
        assert(s.contains(s[s.len() - 1]));
        let init = s.drop_last();
        assert forall|x: Key| #[trigger] init.contains(x) implies !t.contains(x) by {
            let i = choose|i: int| 0 <= i < init.len() && init[i] == x;
            assert(s[i] == x);
            assert(s.contains(s[i]));
        }
        lemma_visible_all(init, t);
        assert(init.push(s.last()) =~= s);
    } else {
        assert(visible(s, t) =~= s);
    }
}

/// Showing a sequence with one more element placed at `i` shows the old
/// sequence with that element placed after the shown elements before `i`.
proof fn lemma_visible_insert(s: Seq<Key>, i: int, k: Key, t: Set<Key>)
    requires
        0 <= i <= s.len(),
        !t.contains(k),
    ensures
        visible(s.insert(i, k), t) == visible(s, t).insert(visible(s.take(i), t).len() as int, k),
{
    let a = s.take(i);
    let b = s.skip(i);
    assert(s =~= a + b);
    assert(s.insert(i, k) =~= a + (seq![k] + b));
    lemma_visible_concat(a, b, t);
    lemma_visible_concat(a, seq![k] + b, t);
    lemma_visible_concat(seq![k], b, t);
    lemma_visible_single(k, t);
    let va = visible(a, t);
    let vb = visible(b, t);
    assert(va + (seq![k] + vb) =~= (va + vb).insert(va.len() as int, k));
}

/// The walk of a replica with the newest element `k` added under `p`: `k`
/// comes first when `p` is the front, and right after `p` otherwise; every
/// other element keeps its place.
proof fn lemma_order_after_insert(m: Map<Key, Option<Key>>, k: Key, p: Option<Key>) -> (ik: int)
    requires
        newest_insert(m, k, p),
        acyclic(m),
    ensures
        0 <= ik <= order_spec(m).len(),
        order_spec(m.insert(k, p)) == order_spec(m).insert(ik, k),
        p is None ==> ik == 0,
        p matches Some(q) ==> ik > 0 && order_spec(m)[ik - 1] == q,
{
    let m2 = m.insert(k, p);
    let sd = m.dom();
    let t = sd.complement();
    let n = sd.len();
    assert(m2.dom() =~= sd.insert(k));
    let n2 = m2.dom().len();
    assert(n2 == n + 1);
    lemma_fresh_insert_acyclic(m, k, p);
    // Without `k`, the new walk is the old one.
    assert(m2.restrict(sd) =~= m);
    assert forall|x: Key| #[trigger] sd.contains(x) implies eparent(m2, x) == eparent(m, x)
        && (eparent(m2, x) matches Some(y) ==> sd.contains(y)) by {
        lemma_eparent_after_insert(m, k, p, x);
    }
    assert(closed_part(m2, sd, m));
    lemma_forest_part(m2, sd, m, children(m2, None), n2);
    lemma_children_part(m2, sd, m, None);
    let roots = children(m, None);
    lemma_children_props(m, None);
    assert forall|r: Key| #[trigger] roots.contains(r) implies m.contains_key(r) && nothing_deep(m, r, n) by {
        assert forall|x: Key| #[trigger] m.contains_key(x) implies anc(m, x, n) != Some(r) by {
            lemma_reaches_root_ends_chain(m, x, n);
        }
    }
    lemma_forest_fuel(m, roots, n, n2);
    let s2 = order_spec(m2);
    let s1 = order_spec(m);
    assert(visible(s2, t) == s1);
    // Where `k` stands in the new walk.
    lemma_linearization(m2, Set::empty());
    lemma_linearization(m, Set::empty());
    assert(s2.to_set().contains(k));
    let ik = choose|ik: int| 0 <= ik < s2.len() && s2[ik] == k;
    // Removing `k` from the new walk.
    let a = s2.take(ik);
    let b = s2.skip(ik + 1);
    assert(s2 =~= a + (seq![k] + b));
    assert forall|x: Key| #[trigger] a.contains(x) implies !t.contains(x) by {
        let j = choose|j: int| 0 <= j < a.len() && a[j] == x;
        assert(s2[j] == x);
        assert(s2.to_set().contains(x));
    }
    assert forall|x: Key| #[trigger] b.contains(x) implies !t.contains(x) by {
        let j = choose|j: int| 0 <= j < b.len() && b[j] == x;
        assert(s2[ik + 1 + j] == x);
        assert(s2.to_set().contains(x));
    }
    lemma_visible_all(a, t);
    lemma_visible_all(b, t);
    lemma_visible_concat(a, seq![k] + b, t);
    lemma_visible_concat(seq![k], b, t);
    lemma_visible_single(k, t);
    assert(a + (Seq::<Key>::empty() + b) =~= a + b);
    assert(s1 == a + b);
    assert(s2 =~= s1.insert(ik, k));
    lemma_children_after_insert(m, k, p, p);
    match p {
        None => {
            let ch2 = children(m2, None);
            assert(ch2[0] == k);
            assert(s2 == subtree(m2, k, n2) + forest(m2, ch2.drop_first(), n2));
            assert(subtree(m2, k, n2)[0] == k);
            assert(s2[0] == k);
        },
        Some(q) => {
            assert(s2.to_set().contains(q));
            let iq = choose|iq: int| 0 <= iq < s2.len() && s2[iq] == q;
            let roots2 = children(m2, None);
            lemma_children_props(m2, None);
            assert forall|c: Key| #[trigger] roots2.contains(c) implies fuel_ok(m2, q, c, n2) by {
                assert forall|j: nat| #[trigger] anc(m2, q, j) == Some(c) implies j + 1 < n2 by {
                    lemma_anc_compose(m2, k, 1, j);
                    assert(anc(m2, k, 0) == Some(k));
                    assert(anc(m2, k, 1) == eparent(m2, k));
                    assert(m2.contains_key(k));
                    lemma_reaches_root_ends_chain(m2, k, n2);
                    if j + 1 >= n2 {
                        lemma_anc_none_stays(m2, k, n2, (j + 1 - n2) as nat);
                    }
                }
            }
            lemma_next_is_first_child_forest(m2, q, roots2, n2, iq);
            assert(s2[iq + 1] == k);
            assert(iq + 1 == ik);
            assert(s1[ik - 1] == a[ik - 1]);
        },
    }
    ik
}

/// A local insert at visible position `index`, under the next tick of a
/// clock that covers every present id, shows up at that position (or at the
/// end, when `index` is past it), and the other shown elements keep their
/// order.
pub proof fn lemma_insert_lands(m: Map<Key, Option<Key>>, tombs: Set<Key>, last: Hlc, now: u64, owner: u64, index: int)
    requires
        m.dom().finite(),
        wellformed(m),
        acyclic(m),
        covers_all(m, last),
        !saturated(last),
        tombs.subset_of(m.dom()),
        index >= 0,
    ensures
        ({
            let k = (tick_spec(last, now).wall, tick_spec(last, now).counter, owner);
            let vis = visible(order_spec(m), tombs);
            visible(order_spec(m.insert(k, anchor(vis, index))), tombs)
                == vis.insert(if index <= vis.len() { index } else { vis.len() as int }, k)
        }),
{
    let h = tick_spec(last, now);
    let k = (h.wall, h.counter, owner);
    let s1 = order_spec(m);
    let vis = visible(s1, tombs);
    let p = anchor(vis, index);
    lemma_tick_increases(last, now);
    assert forall|x: Key| #[trigger] m.contains_key(x) implies key_lt(x, k) by {
        assert(!hlc_lt(last, Hlc { wall: x.0, counter: x.1 }));
    }
    lemma_order_in_dom(m);
    lemma_linearization(m, tombs);
    lemma_visible_exact(s1, tombs);
    if let Some(q) = p {
        assert(vis.contains(q));
        lemma_visible_contains(s1, tombs, q);
    }
    assert(newest_insert(m, k, p));
    let ik = lemma_order_after_insert(m, k, p);
    assert(!tombs.contains(k));
    lemma_visible_insert(s1, ik, k, tombs);
    let a = s1.take(ik);
    let va = visible(a, tombs);
    assert(s1 =~= a + s1.skip(ik));
    lemma_visible_concat(a, s1.skip(ik), tombs);
    match p {
        None => {
            assert(a =~= Seq::<Key>::empty());
            assert(visible(a, tombs) =~= Seq::<Key>::empty());
        },
        Some(q) => {
            let j = if index - 1 < vis.len() { index - 1 } else { vis.len() - 1 };
            assert(vis[j] == q);
            assert(a.drop_last() =~= s1.take(ik - 1));
            assert(a.last() == q);
            assert(va == visible(s1.take(ik - 1), tombs).push(q));
            assert(vis[va.len() - 1] == q);
            assert(va.len() - 1 == j);
        },
    }
}

} // verus!
