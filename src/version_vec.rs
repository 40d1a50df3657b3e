use vstd::prelude::*;

use crate::model::{
    bumped, causal_order, counter, counters_of, evidence, join, lemma_counters_of_keys,
    lemma_counters_of_prefix, lemma_counters_of_push, lemma_counters_of_sorted,
    lemma_evidence_complete, lemma_evidence_concurrent, lemma_evidence_insert, strictly_sorted,
};
use crate::ordering::Ordering;

verus! {

/// A version vector: one counter per replica id.
///
/// The entries are kept as a vector of `(id, counter)` pairs sorted strictly
/// by id.
#[derive(Clone, Debug, PartialEq, Eq)]
pub struct VersionVec {
    inner: Vec<(usize, usize)>,
}

impl View for VersionVec {
    type V = Map<usize, usize>;

    /// The counter of each id that has an entry.
    open spec fn view(&self) -> Map<usize, usize> {
        counters_of(self.entries())
    }
}

/// The position of the first entry whose id is not below `id`.
fn lower_bound(entries: &Vec<(usize, usize)>, id: usize) -> (idx: usize)
    requires
        strictly_sorted(entries@),
    ensures
        idx <= entries@.len(),
        forall|i: int| 0 <= i < idx ==> entries@[i].0 < id,
        forall|i: int| idx <= i < entries@.len() ==> entries@[i].0 >= id,
{
    let mut idx: usize = 0;
    while idx < entries.len() && entries[idx].0 < id
        invariant
            idx <= entries@.len(),
            forall|i: int| 0 <= i < idx ==> entries@[i].0 < id,
        decreases entries@.len() - idx,
    {
        idx = idx + 1;
    }
    idx
}

/// Records `value` for `id` at `idx`, the position that `lower_bound` gives:
/// the entry there is overwritten where it holds `id`, else a new entry is
/// inserted there.
fn put_at(entries: &mut Vec<(usize, usize)>, idx: usize, id: usize, value: usize)
    requires
        strictly_sorted(old(entries)@),
        idx <= old(entries)@.len(),
        forall|i: int| 0 <= i < idx ==> old(entries)@[i].0 < id,
        forall|i: int| idx <= i < old(entries)@.len() ==> old(entries)@[i].0 >= id,
    ensures
        strictly_sorted(final(entries)@),
        counters_of(final(entries)@) == counters_of(old(entries)@).insert(id, value),
{
    let ghost s = entries@;
    proof {
        lemma_counters_of_sorted(s);
    }
    if idx < entries.len() && entries[idx].0 == id {
        entries[idx] = (id, value);
    } else {
        entries.insert(idx, (id, value));
    }
    let ghost t = entries@;
    assert(strictly_sorted(t));
    proof {
        lemma_counters_of_sorted(t);
        let m = counters_of(s).insert(id, value);
        assert forall|k: usize| #[trigger] counters_of(t).contains_key(k) == m.contains_key(k) by {
            if counters_of(t).contains_key(k) {
                let i = choose|i: int| 0 <= i < t.len() && t[i].0 == k;
                if k != id {
                    if t.len() == s.len() {
                        assert(s[i].0 == k);
                    } else if i < idx {
                        assert(s[i].0 == k);
                    } else {
                        assert(s[i - 1].0 == k);
                    }
                }
            }
            if m.contains_key(k) {
                if k == id {
                    assert(t[idx as int].0 == k);
                } else {
                    let i = choose|i: int| 0 <= i < s.len() && s[i].0 == k;
                    if t.len() == s.len() || i < idx {
                        assert(t[i].0 == k);
                    } else {
                        assert(t[i + 1].0 == k);
                    }
                }
            }
        }
        assert forall|k: usize| #[trigger] counters_of(t).contains_key(k) implies counters_of(t)[k]
            == m[k] by {
            let i = choose|i: int| 0 <= i < t.len() && t[i].0 == k;
            if k != id {
                if t.len() == s.len() || i < idx {
                    assert(s[i] == t[i]);
                } else {
                    assert(s[i - 1] == t[i]);
                }
            }
        }
        assert(counters_of(t) =~= m);
    }
}

/// The co-sorted walk of `merge`: the join of two sorted entry vectors.
fn join_entries(a: &Vec<(usize, usize)>, b: &Vec<(usize, usize)>) -> (out: Vec<(usize, usize)>)
    requires
        strictly_sorted(a@),
        strictly_sorted(b@),
    ensures
        strictly_sorted(out@),
        counters_of(out@) == join(counters_of(a@), counters_of(b@)),
{
    let mut out: Vec<(usize, usize)> = Vec::new();
    let mut i: usize = 0;
    let mut j: usize = 0;
    while i < a.len() || j < b.len()
        invariant
            i <= a@.len(),
            j <= b@.len(),
            strictly_sorted(a@),
            strictly_sorted(b@),
            strictly_sorted(out@),
            counters_of(out@) == join(
                counters_of(a@.subrange(0, i as int)),
                counters_of(b@.subrange(0, j as int)),
            ),
            forall|k: int|
                0 <= k < out@.len() ==> (i < a@.len() ==> out@[k].0 < a@[i as int].0) && (j < b@.len()
                    ==> out@[k].0 < b@[j as int].0),
        decreases a@.len() + b@.len() - i - j,
    {
        let ghost ma = counters_of(a@.subrange(0, i as int));
        let ghost mb = counters_of(b@.subrange(0, j as int));
        let ghost before = out@;
        proof {
            lemma_counters_of_keys(before);
        }
        if j >= b.len() || (i < a.len() && a[i].0 < b[j].0) {
            let x = a[i];
            out.push(x);
            proof {
                lemma_counters_of_prefix(a@, i as int);
                lemma_counters_of_push(before, x);
                assert(!mb.contains_key(x.0)) by {
                    if mb.contains_key(x.0) {
                        assert(join(ma, mb).contains_key(x.0));
                    }
                }
                assert(join(ma.insert(x.0, x.1), mb) =~= join(ma, mb).insert(x.0, x.1));
            }
            i = i + 1;
        } else if i >= a.len() || b[j].0 < a[i].0 {
            let x = b[j];
            out.push(x);
            proof {
                lemma_counters_of_prefix(b@, j as int);
                lemma_counters_of_push(before, x);
                assert(!ma.contains_key(x.0)) by {
                    if ma.contains_key(x.0) {
                        assert(join(ma, mb).contains_key(x.0));
                    }
                }
                assert(join(ma, mb.insert(x.0, x.1)) =~= join(ma, mb).insert(x.0, x.1));
            }
            j = j + 1;
        } else {
            let (id, left) = a[i];
            let right = b[j].1;
            let x = (id, if left >= right { left } else { right });
            out.push(x);
            proof {
                lemma_counters_of_prefix(a@, i as int);
                lemma_counters_of_prefix(b@, j as int);
                lemma_counters_of_push(before, x);
                assert(join(ma.insert(id, left), mb.insert(id, right)) =~= join(ma, mb).insert(id, x.1));
            }
            i = i + 1;
            j = j + 1;
        }
    }
    assert(a@.subrange(0, a@.len() as int) =~= a@);
    assert(b@.subrange(0, b@.len() as int) =~= b@);
    out
}

impl VersionVec {
    /// The stored `(id, counter)` pairs, in order.
    pub closed spec fn entries(&self) -> Seq<(usize, usize)> {
        self.inner@
    }

    /// The entries are sorted strictly by id.
    pub open spec fn wf(&self) -> bool {
        strictly_sorted(self.entries())
    }

    /// Creates a new empty version vector.
    pub fn new() -> (r: VersionVec)
        ensures
            r.wf(),
            r.entries() == Seq::<(usize, usize)>::empty(),
            r@ == Map::<usize, usize>::empty(),
    {
        VersionVec { inner: Vec::new() }
    }

    /// Constructs a version vector from `(id, counter)` pairs in any order.
    /// Where an id occurs more than once, its last pair wins.
    pub fn from_vec(v: Vec<(usize, usize)>) -> (r: VersionVec)
        ensures
            r.wf(),
            r@ == counters_of(v@),
    {
        let mut inner: Vec<(usize, usize)> = Vec::new();
        let mut k: usize = 0;
        while k < v.len()
            invariant
                k <= v@.len(),
                strictly_sorted(inner@),
                counters_of(inner@) == counters_of(v@.subrange(0, k as int)),
            decreases v@.len() - k,
        {
            let (id, value) = v[k];
            let idx = lower_bound(&inner, id);
            put_at(&mut inner, idx, id, value);
            proof {
                lemma_counters_of_prefix(v@, k as int);
            }
            k = k + 1;
        }
        assert(v@.subrange(0, v@.len() as int) =~= v@);
        VersionVec { inner }
    }

    /// Increases the counter of `id` by one; an id without an entry gets one
    /// with counter 1, in its sorted place. A counter at `usize::MAX` stays
    /// there.
    pub fn bump_for(&mut self, id: usize)
        requires
            old(self).wf(),
        ensures
            final(self).wf(),
            final(self)@ == old(self)@.insert(id, bumped(counter(old(self)@, id))),
            counter(old(self)@, id) < usize::MAX ==> counter(final(self)@, id) == counter(old(self)@, id) + 1,
            forall|k: usize| k != id ==> #[trigger] counter(final(self)@, k) == counter(old(self)@, k),
    {
        let idx = lower_bound(&self.inner, id);
        let current: usize = if idx < self.inner.len() && self.inner[idx].0 == id {
            proof {
                lemma_counters_of_sorted(self.inner@);
            }
            self.inner[idx].1
        } else {
            proof {
                lemma_counters_of_sorted(self.inner@);
                if self@.contains_key(id) {
                    let i = choose|i: int| 0 <= i < self.inner@.len() && self.inner@[i].0 == id;
                    assert(self.inner@[idx as int].0 < self.inner@[i].0 || i == idx);
                }
            }
            0
        };
        let next: usize = if current < usize::MAX {
            current + 1
        } else {
            current
        };
        put_at(&mut self.inner, idx, id, next);
    }

    /// Returns the join of `self` and `other`, leaving both as they are.
    pub fn merged(&self, other: &VersionVec) -> (r: VersionVec)
        requires
            self.wf(),
            other.wf(),
        ensures
            r.wf(),
            r@ == join(self@, other@),
    {
        VersionVec { inner: join_entries(&self.inner, &other.inner) }
    }

    /// Merges `other` into `self`: every id of either ends with the larger
    /// of its two counters.
    pub fn merge(&mut self, other: &VersionVec)
        requires
            old(self).wf(),
            other.wf(),
        ensures
            final(self).wf(),
            final(self)@ == join(old(self)@, other@),
    {
        self.inner = join_entries(&self.inner, &other.inner);
    }

    /// Compares two version vectors causally; an absent id counts as zero.
    pub fn cmp(&self, other: &VersionVec) -> (r: Ordering)
        requires
            self.wf(),
            other.wf(),
        ensures
            r == causal_order(self@, other@),
    {
        let a = &self.inner;
        let b = &other.inner;
        let mut i: usize = 0;
        let mut j: usize = 0;
        let mut result = Ordering::Equal;
        let ghost mut seen: Set<usize> = Set::empty();
        proof {
            lemma_counters_of_sorted(a@);
            lemma_counters_of_sorted(b@);
        }
        while i < a.len() || j < b.len()
            invariant
                a == &self.inner,
                b == &other.inner,
                i <= a@.len(),
                j <= b@.len(),
                strictly_sorted(a@),
                strictly_sorted(b@),
                forall|k: int| 0 <= k < i ==> seen.contains(#[trigger] a@[k].0),
                forall|k: int| 0 <= k < j ==> seen.contains(#[trigger] b@[k].0),
                forall|k: int| 0 <= k < i ==> (j < b@.len() ==> #[trigger] a@[k].0 < b@[j as int].0),
                forall|k: int| 0 <= k < j ==> (i < a@.len() ==> #[trigger] b@[k].0 < a@[i as int].0),
                forall|k: int|
                    0 <= k < a@.len() ==> counters_of(a@).contains_key(#[trigger] a@[k].0)
                        && counters_of(a@)[a@[k].0] == a@[k].1,
                forall|k: int|
                    0 <= k < b@.len() ==> counters_of(b@).contains_key(#[trigger] b@[k].0)
                        && counters_of(b@)[b@[k].0] == b@[k].1,
                forall|id: usize| #[trigger]
                    counters_of(a@).contains_key(id) ==> exists|k: int| 0 <= k < a@.len() && a@[k].0 == id,
                forall|id: usize| #[trigger]
                    counters_of(b@).contains_key(id) ==> exists|k: int| 0 <= k < b@.len() && b@[k].0 == id,
                result == evidence(self@, other@, seen),
                result != Ordering::Concurrent,
            decreases a@.len() + b@.len() - i - j,
        {
            let ghost before = seen;
            let ev: std::cmp::Ordering;
            if j >= b.len() || (i < a.len() && a[i].0 < b[j].0) {
                let x = a[i].0;
                ev = if a[i].1 != 0 {
                    std::cmp::Ordering::Greater
                } else {
                    std::cmp::Ordering::Equal
                };
                proof {
                    assert(!other@.contains_key(x)) by {
                        if other@.contains_key(x) {
                            let k = choose|k: int| 0 <= k < b@.len() && b@[k].0 == x;
                            if k >= j {
                                assert(b@[j as int].0 <= b@[k].0);
                            }
                        }
                    }
                    seen = seen.insert(x);
                    lemma_evidence_insert(self@, other@, before, x);
                }
                i = i + 1;
            } else if i >= a.len() || b[j].0 < a[i].0 {
                let x = b[j].0;
                ev = if b[j].1 != 0 {
                    std::cmp::Ordering::Less
                } else {
                    std::cmp::Ordering::Equal
                };
                proof {
                    assert(!self@.contains_key(x)) by {
                        if self@.contains_key(x) {
                            let k = choose|k: int| 0 <= k < a@.len() && a@[k].0 == x;
                            if k >= i {
                                assert(a@[i as int].0 <= a@[k].0);
                            }
                        }
                    }
                    seen = seen.insert(x);
                    lemma_evidence_insert(self@, other@, before, x);
                }
                j = j + 1;
            } else {
                let x = a[i].0;
                let left = a[i].1;
                let right = b[j].1;
                ev = if left < right {
                    std::cmp::Ordering::Less
                } else if left > right {
                    std::cmp::Ordering::Greater
                } else {
                    std::cmp::Ordering::Equal
                };
                proof {
                    assert(b@[j as int].0 == x);
                    seen = seen.insert(x);
                    lemma_evidence_insert(self@, other@, before, x);
                }
                i = i + 1;
                j = j + 1;
            }
            result.eat(ev);
            if result == Ordering::Concurrent {
                proof {
                    lemma_evidence_concurrent(self@, other@, seen);
                }
                return result;
            }
        }
        proof {
            lemma_evidence_complete(self@, other@, seen);
        }
        result
    }

    /// The stored `(id, counter)` pairs, sorted by id.
    pub fn as_slice(&self) -> (r: &[(usize, usize)])
        ensures
            r@ == self.entries(),
    {
        self.inner.as_slice()
    }

    /// Returns the counter of `id`, or `None` where `id` has no entry.
    pub fn get(&self, id: usize) -> (r: Option<usize>)
        requires
            self.wf(),
        ensures
            r == (if self@.contains_key(id) {
                Some(self@[id])
            } else {
                None::<usize>
            }),
    {
        proof {
            lemma_counters_of_sorted(self.inner@);
        }
        let idx = lower_bound(&self.inner, id);
        if idx < self.inner.len() && self.inner[idx].0 == id {
            Some(self.inner[idx].1)
        } else {
            proof {
                if self@.contains_key(id) {
                    let i = choose|i: int| 0 <= i < self.inner@.len() && self.inner@[i].0 == id;
                    assert(i >= idx);
                    assert(self.inner@[idx as int].0 < self.inner@[i].0 || i == idx);
                }
            }
            None
        }
    }
}

} // verus!
