//! Counting the entries of a finite map whose values satisfy a predicate.
use vstd::prelude::*;

verus! {

/// How many keys of `m` map to a value satisfying `p`.
pub open spec fn count_where<K, V>(m: Map<K, V>, p: spec_fn(V) -> bool) -> nat {
    m.dom().filter(|k: K| p(m[k])).len()
}

/// Storing `v` under `k` changes the count by what `v` and the replaced value contribute.
pub proof fn lemma_count_insert<K, V>(m: Map<K, V>, k: K, v: V, p: spec_fn(V) -> bool)
    requires
        m.dom().finite(),
    ensures
        m.insert(k, v).dom().finite(),
        count_where(m.insert(k, v), p) + (if m.dom().contains(k) && p(m[k]) { 1nat } else { 0nat })
            == count_where(m, p) + (if p(v) { 1nat } else { 0nat }),
{
    let s = m.dom().filter(|x: K| p(m[x]));
    let m2 = m.insert(k, v);
    let s2 = m2.dom().filter(|x: K| p(m2[x]));
    m.dom().lemma_len_filter(|x: K| p(m[x]));
    assert(s.remove(k).finite());
    if p(v) {
        assert(s2 =~= s.remove(k).insert(k));
    } else {
        assert(s2 =~= s.remove(k));
    }
    if s.contains(k) {
        assert(s.remove(k).len() + 1 == s.len());
    } else {
        assert(s.remove(k) =~= s);
    }
}

/// Removing `k` takes away what its value contributed to the count.
pub proof fn lemma_count_remove<K, V>(m: Map<K, V>, k: K, p: spec_fn(V) -> bool)
    requires
        m.dom().finite(),
    ensures
        m.remove(k).dom().finite(),
        count_where(m.remove(k), p) + (if m.dom().contains(k) && p(m[k]) { 1nat } else { 0nat })
            == count_where(m, p),
{
    let s = m.dom().filter(|x: K| p(m[x]));
    let m2 = m.remove(k);
    let s2 = m2.dom().filter(|x: K| p(m2[x]));
    m.dom().lemma_len_filter(|x: K| p(m[x]));
    assert(s2 =~= s.remove(k));
    if s.contains(k) {
        assert(s.remove(k).len() + 1 == s.len());
    } else {
        assert(s.remove(k) =~= s);
    }
}

/// A count never exceeds the size of the map.
pub proof fn lemma_count_le_len<K, V>(m: Map<K, V>, p: spec_fn(V) -> bool)
    requires
        m.dom().finite(),
    ensures
        count_where(m, p) <= m.len(),
{
    m.dom().lemma_len_filter(|x: K| p(m[x]));
}

/// Counts of the same predicate agree on maps with the same values on their (equal) domains.
pub proof fn lemma_count_same<K, V>(m1: Map<K, V>, m2: Map<K, V>, p: spec_fn(V) -> bool)
    requires
        m1.dom() == m2.dom(),
        forall|k: K| m1.dom().contains(k) ==> p(m1[k]) == p(m2[k]),
    ensures
        count_where(m1, p) == count_where(m2, p),
{
    assert(m1.dom().filter(|x: K| p(m1[x])) =~= m2.dom().filter(|x: K| p(m2[x])));
}

/// A finite map with an entry satisfying `p` has a positive count.
pub proof fn lemma_count_pos<K, V>(m: Map<K, V>, k: K, p: spec_fn(V) -> bool)
    requires
        m.dom().finite(),
        m.dom().contains(k),
        p(m[k]),
    ensures
        count_where(m, p) > 0,
{
    let s = m.dom().filter(|x: K| p(m[x]));
    m.dom().lemma_len_filter(|x: K| p(m[x]));
    assert(s.contains(k));
}

/// A finite map with no entry satisfying `p` has a count of zero.
pub proof fn lemma_count_zero<K, V>(m: Map<K, V>, p: spec_fn(V) -> bool)
    requires
        m.dom().finite(),
        forall|k: K| m.dom().contains(k) ==> !p(m[k]),
    ensures
        count_where(m, p) == 0,
{
    let s = m.dom().filter(|x: K| p(m[x]));
    assert(s =~= Set::<K>::empty());
}

} // verus!
