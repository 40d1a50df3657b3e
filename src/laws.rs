//! Algebraic laws of version vectors, stated over the model that the
//! contracts of `merge`, `merged` and `cmp` speak of.
use vstd::prelude::*;

use crate::model::{causal_order, counter, join, lemma_sorted_counters_determine};
use crate::ordering::Ordering;
use crate::version_vec::VersionVec;

verus! {

/// Two well-formed vectors with the same counters store the same entries, in
/// the same order; so each law below over counters holds of the entries too.
pub proof fn lemma_entries_determined(a: VersionVec, b: VersionVec)
    requires
        a.wf(),
        b.wf(),
        a@ == b@,
    ensures
        a.entries() == b.entries(),
{
    lemma_sorted_counters_determine(a.entries(), b.entries());
}

/// Merging is commutative: `merge(a, b)` and `merge(b, a)` hold the same
/// `(id, counter)` pairs.
pub proof fn lemma_merge_commutative(a: VersionVec, b: VersionVec)
    requires
        a.wf(),
        b.wf(),
    ensures
        join(a@, b@) == join(b@, a@),
{
    assert(join(a@, b@) =~= join(b@, a@));
}

/// Merging is idempotent: `merge(a, a)` is `a`.
pub proof fn lemma_merge_idempotent(a: VersionVec)
    requires
        a.wf(),
    ensures
        join(a@, a@) == a@,
{
    assert(join(a@, a@) =~= a@);
}

/// Merging is associative: `merge(merge(a, b), c)` is `merge(a, merge(b, c))`.
pub proof fn lemma_merge_associative(a: VersionVec, b: VersionVec, c: VersionVec)
    requires
        a.wf(),
        b.wf(),
        c.wf(),
    ensures
        join(join(a@, b@), c@) == join(a@, join(b@, c@)),
{
    assert(join(join(a@, b@), c@) =~= join(a@, join(b@, c@)));
}

/// An absent id counts as zero: against a vector that holds the same ids as
/// `a`, each with counter zero, merging and comparing give what they give
/// against the empty vector.
pub proof fn lemma_absent_is_zero(a: VersionVec, z: VersionVec)
    requires
        a.wf(),
        z.wf(),
        z@.dom() == a@.dom(),
        forall|id: usize| #[trigger] z@.contains_key(id) ==> z@[id] == 0,
    ensures
        join(a@, z@) == join(a@, Map::<usize, usize>::empty()),
        join(z@, a@) == join(Map::<usize, usize>::empty(), a@),
        causal_order(a@, z@) == causal_order(a@, Map::<usize, usize>::empty()),
        causal_order(z@, a@) == causal_order(Map::<usize, usize>::empty(), a@),
{
    let e = Map::<usize, usize>::empty();
    assert forall|id: usize| #[trigger] counter(z@, id) == counter(e, id) by {
        if z@.contains_key(id) {
            assert(z@[id] == 0);
        }
    }
    assert(join(a@, z@) =~= join(a@, e)) by {
        assert forall|id: usize| #[trigger] join(a@, z@).contains_key(id) == join(a@, e).contains_key(id) by {
            if z@.contains_key(id) {
                assert(a@.dom().contains(id));
            }
        }
    }
    assert(join(z@, a@) =~= join(e, a@)) by {
        assert forall|id: usize| #[trigger] join(z@, a@).contains_key(id) == join(e, a@).contains_key(id) by {
            if z@.contains_key(id) {
                assert(a@.dom().contains(id));
            }
        }
    }
}

/// Comparison is antisymmetric: `Greater` one way is `Less` the other way,
/// `Equal` is `Equal` both ways, and `Concurrent` is `Concurrent` both ways.
pub proof fn lemma_compare_antisymmetric(a: VersionVec, b: VersionVec)
    requires
        a.wf(),
        b.wf(),
    ensures
        causal_order(a@, b@) == Ordering::Greater <==> causal_order(b@, a@) == Ordering::Less,
        causal_order(a@, b@) == Ordering::Less <==> causal_order(b@, a@) == Ordering::Greater,
        causal_order(a@, b@) == Ordering::Equal <==> causal_order(b@, a@) == Ordering::Equal,
        causal_order(a@, b@) == Ordering::Concurrent <==> causal_order(b@, a@) == Ordering::Concurrent,
{
}

} // verus!
