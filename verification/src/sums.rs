//! Sums of a function over all entries of a finite map, with the lemmas the
//! engine's conservation invariants rest on.

use vstd::prelude::*;

verus! {

/// Sum of `f` over all entries of `m`. Zero for maps without a finite domain.
pub open spec fn map_sum<K, V>(m: Map<K, V>, f: spec_fn(K, V) -> int) -> int
    decreases m.dom().len(),
{
    if m.dom().finite() && m.dom().len() > 0 {
        let k = m.dom().choose();
        f(k, m[k]) + map_sum(m.remove(k), f)
    } else {
        0
    }
}

/// Any one entry can be split off the sum, not only the chosen one.
pub proof fn lemma_map_sum_remove<K, V>(m: Map<K, V>, f: spec_fn(K, V) -> int, k: K)
    requires
        m.dom().finite(),
        m.dom().contains(k),
    ensures
        map_sum(m, f) == f(k, m[k]) + map_sum(m.remove(k), f),
    decreases m.dom().len(),
{
    let k0 = m.dom().choose();
    assert(m.dom().len() > 0);
    if k0 == k {
    } else {
        lemma_map_sum_remove(m.remove(k0), f, k);
        lemma_map_sum_remove(m.remove(k), f, k0);
        assert(m.remove(k0).remove(k) =~= m.remove(k).remove(k0));
    }
}

/// Inserting a fresh key adds its contribution to the sum.
pub proof fn lemma_map_sum_insert<K, V>(m: Map<K, V>, f: spec_fn(K, V) -> int, k: K, v: V)
    requires
        m.dom().finite(),
        !m.dom().contains(k),
    ensures
        map_sum(m.insert(k, v), f) == map_sum(m, f) + f(k, v),
{
    lemma_map_sum_remove(m.insert(k, v), f, k);
    assert(m.insert(k, v).remove(k) =~= m);
}

/// Overwriting a present key exchanges its contribution in the sum.
pub proof fn lemma_map_sum_update<K, V>(m: Map<K, V>, f: spec_fn(K, V) -> int, k: K, v: V)
    requires
        m.dom().finite(),
        m.dom().contains(k),
    ensures
        map_sum(m.insert(k, v), f) == map_sum(m, f) - f(k, m[k]) + f(k, v),
{
    lemma_map_sum_remove(m, f, k);
    lemma_map_sum_remove(m.insert(k, v), f, k);
    assert(m.insert(k, v).remove(k) =~= m.remove(k));
}

/// A sum of nonnegative contributions is nonnegative.
pub proof fn lemma_map_sum_nonneg<K, V>(m: Map<K, V>, f: spec_fn(K, V) -> int)
    requires
        m.dom().finite(),
        forall|k: K| m.dom().contains(k) ==> #[trigger] f(k, m[k]) >= 0,
    ensures
        map_sum(m, f) >= 0,
    decreases m.dom().len(),
{
    if m.dom().len() > 0 {
        let k = m.dom().choose();
        assert(forall|k2: K|
            m.remove(k).dom().contains(k2) ==> #[trigger] f(k2, m.remove(k)[k2]) == f(k2, m[k2]));
        lemma_map_sum_nonneg(m.remove(k), f);
    }
}

/// With nonnegative contributions, the sum is at least any one entry's.
pub proof fn lemma_map_sum_ge_entry<K, V>(m: Map<K, V>, f: spec_fn(K, V) -> int, k: K)
    requires
        m.dom().finite(),
        m.dom().contains(k),
        forall|k2: K| m.dom().contains(k2) ==> #[trigger] f(k2, m[k2]) >= 0,
    ensures
        map_sum(m, f) >= f(k, m[k]),
{
    lemma_map_sum_remove(m, f, k);
    assert(forall|k2: K|
        m.remove(k).dom().contains(k2) ==> #[trigger] f(k2, m.remove(k)[k2]) == f(k2, m[k2]));
    lemma_map_sum_nonneg(m.remove(k), f);
}

/// A sum of all-zero contributions is zero.
pub proof fn lemma_map_sum_zero<K, V>(m: Map<K, V>, f: spec_fn(K, V) -> int)
    requires
        forall|k: K| m.dom().contains(k) ==> #[trigger] f(k, m[k]) == 0,
    ensures
        map_sum(m, f) == 0,
    decreases m.dom().len(),
{
    if m.dom().finite() && m.dom().len() > 0 {
        let k = m.dom().choose();
        assert(forall|k2: K|
            m.remove(k).dom().contains(k2) ==> #[trigger] f(k2, m.remove(k)[k2]) == f(k2, m[k2]));
        lemma_map_sum_zero(m.remove(k), f);
    }
}

} // verus!
