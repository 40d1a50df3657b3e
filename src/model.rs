//! The mathematical model of a version vector: a map from replica id to
//! counter, in which an absent id stands for a zero counter.
use vstd::prelude::*;

use crate::ordering::{absorb, Ordering};

verus! {

/// Ids increase strictly along `s`, so that no id occurs twice.
pub open spec fn strictly_sorted(s: Seq<(usize, usize)>) -> bool {
    forall|i: int, j: int| 0 <= i < j < s.len() ==> s[i].0 < s[j].0
}

/// The counters recorded by a sequence of `(id, counter)` pairs. Where an id
/// occurs more than once, its last pair wins.
pub open spec fn counters_of(s: Seq<(usize, usize)>) -> Map<usize, usize>
    decreases s.len(),
{
    if s.len() == 0 {
        Map::empty()
    } else {
        counters_of(s.drop_last()).insert(s.last().0, s.last().1)
    }
}

/// The counter of `id` in `m`; zero where `m` holds no entry for `id`.
pub open spec fn counter(m: Map<usize, usize>, id: usize) -> usize {
    if m.contains_key(id) {
        m[id]
    } else {
        0
    }
}

/// The larger of two counters.
pub open spec fn max_of(x: usize, y: usize) -> usize {
    if x >= y {
        x
    } else {
        y
    }
}

/// A counter after one increment; it saturates at `usize::MAX`.
pub open spec fn bumped(c: usize) -> usize {
    if c < usize::MAX {
        (c + 1) as usize
    } else {
        c
    }
}

/// The join of two vectors: every id of either, with the larger of its two
/// counters.
pub open spec fn join(a: Map<usize, usize>, b: Map<usize, usize>) -> Map<usize, usize> {
    Map::new(
        |id: usize| a.contains_key(id) || b.contains_key(id),
        |id: usize| max_of(counter(a, id), counter(b, id)),
    )
}

/// Every counter of `a` is at most the counter of the same id in `b`.
pub open spec fn dominated_by(a: Map<usize, usize>, b: Map<usize, usize>) -> bool {
    forall|id: usize| #[trigger] counter(a, id) <= counter(b, id)
}

/// The causal relation of `a` to `b`.
pub open spec fn causal_order(a: Map<usize, usize>, b: Map<usize, usize>) -> Ordering {
    if dominated_by(a, b) && dominated_by(b, a) {
        Ordering::Equal
    } else if dominated_by(b, a) {
        Ordering::Greater
    } else if dominated_by(a, b) {
        Ordering::Less
    } else {
        Ordering::Concurrent
    }
}

/// How two counters compare.
pub open spec fn order_of(x: usize, y: usize) -> std::cmp::Ordering {
    if x < y {
        std::cmp::Ordering::Less
    } else if x > y {
        std::cmp::Ordering::Greater
    } else {
        std::cmp::Ordering::Equal
    }
}

/// The relation of `a` to `b` as far as the ids in `seen` show it.
pub open spec fn evidence(a: Map<usize, usize>, b: Map<usize, usize>, seen: Set<usize>) -> Ordering {
    let gt = exists|id: usize| seen.contains(id) && #[trigger] counter(a, id) > counter(b, id);
    let lt = exists|id: usize| seen.contains(id) && #[trigger] counter(a, id) < counter(b, id);
    if gt && lt {
        Ordering::Concurrent
    } else if gt {
        Ordering::Greater
    } else if lt {
        Ordering::Less
    } else {
        Ordering::Equal
    }
}

/// Every key of `counters_of(s)` is the id of a pair of `s`, and back.
pub proof fn lemma_counters_of_keys(s: Seq<(usize, usize)>)
    ensures
        forall|id: usize| #[trigger]
            counters_of(s).contains_key(id) <==> exists|i: int| 0 <= i < s.len() && s[i].0 == id,
    decreases s.len(),
{
    if s.len() > 0 {
        let d = s.drop_last();
        lemma_counters_of_keys(d);
        assert forall|id: usize| #[trigger]
            counters_of(s).contains_key(id) <==> exists|i: int| 0 <= i < s.len() && s[i].0 == id by {
            if counters_of(s).contains_key(id) {
                if id == s.last().0 {
                    assert(s[s.len() - 1].0 == id);
                } else {
                    assert(counters_of(d).contains_key(id));
                    let i = choose|i: int| 0 <= i < d.len() && d[i].0 == id;
                    assert(s[i].0 == id);
                }
            }
            if exists|i: int| 0 <= i < s.len() && s[i].0 == id {
                let i = choose|i: int| 0 <= i < s.len() && s[i].0 == id;
                if i < s.len() - 1 {
                    assert(d[i].0 == id);
                    assert(counters_of(d).contains_key(id));
                }
            }
        }
    }
}

/// In a strictly sorted sequence each pair is what the counters record.
pub proof fn lemma_counters_of_at(s: Seq<(usize, usize)>, i: int)
    requires
        strictly_sorted(s),
        0 <= i < s.len(),
    ensures
        counters_of(s).contains_key(s[i].0),
        counters_of(s)[s[i].0] == s[i].1,
    decreases s.len(),
{
    if i < s.len() - 1 {
        let d = s.drop_last();
        assert(strictly_sorted(d));
        lemma_counters_of_at(d, i);
        assert(d[i] == s[i]);
    }
}

/// `lemma_counters_of_at` for every index at once.
pub proof fn lemma_counters_of_sorted(s: Seq<(usize, usize)>)
    requires
        strictly_sorted(s),
    ensures
        forall|i: int|
            0 <= i < s.len() ==> counters_of(s).contains_key(#[trigger] s[i].0) && counters_of(s)[s[i].0]
                == s[i].1,
        forall|id: usize| #[trigger]
            counters_of(s).contains_key(id) ==> exists|i: int| 0 <= i < s.len() && s[i].0 == id,
{
    lemma_counters_of_keys(s);
    assert forall|i: int| 0 <= i < s.len() implies counters_of(s).contains_key(#[trigger] s[i].0)
        && counters_of(s)[s[i].0] == s[i].1 by {
        lemma_counters_of_at(s, i);
    }
}

/// Appending a pair records its counter.
pub proof fn lemma_counters_of_push(s: Seq<(usize, usize)>, p: (usize, usize))
    ensures
        counters_of(s.push(p)) == counters_of(s).insert(p.0, p.1),
{
    assert(s.push(p).drop_last() =~= s);
}

/// Taking one more pair of a prefix records its counter.
pub proof fn lemma_counters_of_prefix(s: Seq<(usize, usize)>, n: int)
    requires
        0 <= n < s.len(),
    ensures
        counters_of(s.subrange(0, n + 1)) == counters_of(s.subrange(0, n)).insert(s[n].0, s[n].1),
{
    assert(s.subrange(0, n + 1) =~= s.subrange(0, n).push(s[n]));
    lemma_counters_of_push(s.subrange(0, n), s[n]);
}

/// Two strictly sorted sequences that record the same counters are equal.
pub proof fn lemma_sorted_counters_determine(s: Seq<(usize, usize)>, t: Seq<(usize, usize)>)
    requires
        strictly_sorted(s),
        strictly_sorted(t),
        counters_of(s) == counters_of(t),
    ensures
        s == t,
    decreases s.len(),
{
    lemma_counters_of_sorted(s);
    lemma_counters_of_sorted(t);
    if s.len() == 0 {
        if t.len() > 0 {
            assert(counters_of(t).contains_key(t[0].0));
        }
        assert(s =~= t);
    } else {
        assert(counters_of(s).contains_key(s.last().0));
        assert(t.len() > 0);
        let m = counters_of(s);
        let i = choose|i: int| 0 <= i < t.len() && t[i].0 == s.last().0;
        let k = choose|k: int| 0 <= k < s.len() && s[k].0 == t.last().0;
        assert(m.contains_key(t[t.len() - 1].0));
        assert(s.last().0 == t.last().0) by {
            if s.last().0 < t.last().0 {
                assert(s[k].0 <= s.last().0);
            } else if s.last().0 > t.last().0 {
                assert(t[i].0 <= t.last().0);
            }
        }
        assert(s.last() == t.last()) by {
            assert(m[s[s.len() - 1].0] == s[s.len() - 1].1);
            assert(m[t[t.len() - 1].0] == t[t.len() - 1].1);
        }
        let ds = s.drop_last();
        let dt = t.drop_last();
        assert(strictly_sorted(ds));
        assert(strictly_sorted(dt));
        lemma_counters_of_keys(ds);
        lemma_counters_of_keys(dt);
        assert(!counters_of(ds).contains_key(s.last().0));
        assert(!counters_of(dt).contains_key(t.last().0));
        assert(counters_of(ds) =~= m.remove(s.last().0));
        assert(counters_of(dt) =~= m.remove(s.last().0));
        lemma_sorted_counters_determine(ds, dt);
        assert(s =~= ds.push(s.last()));
        assert(t =~= dt.push(t.last()));
    }
}

/// Evidence from one more id folds into the relation seen so far.
pub proof fn lemma_evidence_insert(a: Map<usize, usize>, b: Map<usize, usize>, seen: Set<usize>, x: usize)
    ensures
        evidence(a, b, seen.insert(x)) == absorb(evidence(a, b, seen), order_of(counter(a, x), counter(b, x))),
{
    let s2 = seen.insert(x);
    if counter(a, x) > counter(b, x) {
        assert(s2.contains(x));
    } else if counter(a, x) < counter(b, x) {
        assert(s2.contains(x));
    }
    if exists|id: usize| s2.contains(id) && #[trigger] counter(a, id) > counter(b, id) {
        let id = choose|id: usize| s2.contains(id) && #[trigger] counter(a, id) > counter(b, id);
        if id != x {
            assert(seen.contains(id));
        }
    }
    if exists|id: usize| s2.contains(id) && #[trigger] counter(a, id) < counter(b, id) {
        let id = choose|id: usize| s2.contains(id) && #[trigger] counter(a, id) < counter(b, id);
        if id != x {
            assert(seen.contains(id));
        }
    }
    if exists|id: usize| seen.contains(id) && #[trigger] counter(a, id) > counter(b, id) {
        let id = choose|id: usize| seen.contains(id) && #[trigger] counter(a, id) > counter(b, id);
        assert(s2.contains(id));
    }
    if exists|id: usize| seen.contains(id) && #[trigger] counter(a, id) < counter(b, id) {
        let id = choose|id: usize| seen.contains(id) && #[trigger] counter(a, id) < counter(b, id);
        assert(s2.contains(id));
    }
}

/// Once the evidence is `Concurrent`, so is the relation.
pub proof fn lemma_evidence_concurrent(a: Map<usize, usize>, b: Map<usize, usize>, seen: Set<usize>)
    requires
        evidence(a, b, seen) == Ordering::Concurrent,
    ensures
        causal_order(a, b) == Ordering::Concurrent,
{
    let g = choose|id: usize| seen.contains(id) && #[trigger] counter(a, id) > counter(b, id);
    let l = choose|id: usize| seen.contains(id) && #[trigger] counter(a, id) < counter(b, id);
    assert(!dominated_by(a, b)) by {
        assert(counter(a, g) > counter(b, g));
    }
    assert(!dominated_by(b, a)) by {
        assert(counter(b, l) > counter(a, l));
    }
}

/// Evidence from every id of either vector is the relation.
pub proof fn lemma_evidence_complete(a: Map<usize, usize>, b: Map<usize, usize>, seen: Set<usize>)
    requires
        forall|id: usize| a.contains_key(id) ==> seen.contains(id),
        forall|id: usize| b.contains_key(id) ==> seen.contains(id),
    ensures
        evidence(a, b, seen) == causal_order(a, b),
{
    if !dominated_by(a, b) {
        let id = choose|id: usize| !(#[trigger] counter(a, id) <= counter(b, id));
        assert(a.contains_key(id));
        assert(seen.contains(id));
    }
    if !dominated_by(b, a) {
        let id = choose|id: usize| !(#[trigger] counter(b, id) <= counter(a, id));
        assert(b.contains_key(id));
        assert(seen.contains(id));
    }
}

} // verus!
