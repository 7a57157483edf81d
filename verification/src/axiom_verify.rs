//! Convergence checking across replicas: fold several replicas together with
//! a join, in a chosen order. For a state-based replicated type the result
//! does not depend on the order.

use vstd::prelude::*;

verus! {

/// `accs` is the run of folding the replicas picked by `order` with `join`:
/// the first is a copy of `replicas[order[0]]`, and each next one is the join
/// of the previous one with the next picked replica.
pub open spec fn is_fold<C: Clone, F: Fn(&C, &C) -> C>(replicas: Seq<C>, order: Seq<usize>, join: F, accs: Seq<C>) -> bool {
    &&& accs.len() == order.len()
    &&& order.len() > 0
    &&& vstd::pervasive::cloned(replicas[order[0] as int], accs[0])
    &&& forall|k: int| 0 <= k < accs.len() - 1 ==> join.ensures((&accs[k], &replicas[order[k + 1] as int]), #[trigger] accs[k + 1])
}

/// Fold the replicas selected by `order` (indices into `replicas`) into a
/// single joined value, joining in that order. `order` must be non-empty.
pub fn join_in_order<C: Clone, F: Fn(&C, &C) -> C>(replicas: &[C], order: &[usize], join: F) -> (r: C)
    requires
        order@.len() > 0,
        forall|i: int| 0 <= i < order@.len() ==> order@[i] < replicas@.len(),
        forall|a: C, b: C| join.requires((&a, &b)),
    ensures
        exists|accs: Seq<C>| is_fold(replicas@, order@, join, accs) && r == accs.last(),
{
    let mut acc = replicas[order[0]].clone();
    let ghost mut accs: Seq<C> = seq![acc];
    let mut i: usize = 1;
    while i < order.len()
        invariant
            1 <= i <= order@.len(),
            forall|j: int| 0 <= j < order@.len() ==> order@[j] < replicas@.len(),
            forall|a: C, b: C| join.requires((&a, &b)),
            accs.len() == i,
            vstd::pervasive::cloned(replicas@[order@[0] as int], accs[0]),
            forall|k: int| 0 <= k < accs.len() - 1 ==> join.ensures((&accs[k], &replicas@[order@[k + 1] as int]), #[trigger] accs[k + 1]),
            acc == accs.last(),
        decreases order.len() - i,
    {
        let next = join(&acc, &replicas[order[i]]);
        proof {
            accs = accs.push(next);
        }
        acc = next;
        i += 1;
    }
    proof {
        assert(is_fold(replicas@, order@, join, accs));
    }
    acc
}

} // verus!
