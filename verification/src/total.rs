//! The sum of the values of a finite map.

use vstd::prelude::*;

verus! {

/// The sum of the values of `m`, which has finitely many keys.
pub open spec fn total<K>(m: Map<K, nat>) -> nat
    decreases m.dom().len(),
    when m.dom().finite()
{
    if m.dom().len() == 0 {
        0
    } else {
        let k = m.dom().choose();
        m[k] + total(m.remove(k))
    }
}

/// The sum of the values that `m` holds under the keys listed.
pub open spec fn sum_over<K>(m: Map<K, nat>, keys: Seq<K>) -> nat
    decreases keys.len(),
{
    if keys.len() == 0 {
        0
    } else {
        sum_over(m, keys.drop_last()) + m[keys.last()]
    }
}

/// The total is the value under any one key and the total of the rest.
pub proof fn lemma_total_remove<K>(m: Map<K, nat>, k: K)
    requires
        m.dom().finite(),
        m.contains_key(k),
    ensures
        total(m) == m[k] + total(m.remove(k)),
    decreases m.dom().len(),
{
    let c = m.dom().choose();
    assert(m.dom().len() != 0) by {
        if m.dom().len() == 0 {
            assert(m.dom() =~= Set::empty());
        }
    }
    if c != k {
        assert(m.dom().contains(c)) by {
            vstd::set_lib::axiom_is_empty(m.dom());
        }
        lemma_total_remove(m.remove(c), k);
        lemma_total_remove(m.remove(k), c);
        assert(m.remove(c).remove(k) =~= m.remove(k).remove(c));
    }
}

/// The total after a key's value is set.
pub proof fn lemma_total_insert<K>(m: Map<K, nat>, k: K, v: nat)
    requires
        m.dom().finite(),
    ensures
        total(m.insert(k, v)) + (if m.contains_key(k) {
            m[k]
        } else {
            0
        }) == total(m) + v,
{
    lemma_total_remove(m.insert(k, v), k);
    if m.contains_key(k) {
        lemma_total_remove(m, k);
        assert(m.insert(k, v).remove(k) =~= m.remove(k));
    } else {
        assert(m.insert(k, v).remove(k) =~= m);
    }
}

/// A sum over listed keys depends only on the values under those keys.
pub proof fn lemma_sum_over_agrees<K>(m: Map<K, nat>, other: Map<K, nat>, keys: Seq<K>)
    requires
        forall|i: int| 0 <= i < keys.len() ==> m[#[trigger] keys[i]] == other[keys[i]],
    ensures
        sum_over(m, keys) == sum_over(other, keys),
    decreases keys.len(),
{
    if keys.len() > 0 {
        let rest = keys.drop_last();
        assert forall|i: int| 0 <= i < rest.len() implies m[#[trigger] rest[i]] == other[rest[i]] by {
            assert(rest[i] == keys[i]);
        }
        lemma_sum_over_agrees(m, other, rest);
    }
}

/// A sum over the first keys of a list is at most the sum over all of them.
pub proof fn lemma_sum_over_prefix<K>(m: Map<K, nat>, keys: Seq<K>, n: int)
    requires
        0 <= n <= keys.len(),
    ensures
        sum_over(m, keys.take(n)) <= sum_over(m, keys),
    decreases keys.len(),
{
    if n == keys.len() {
        assert(keys.take(n) =~= keys);
    } else {
        lemma_sum_over_prefix(m, keys.drop_last(), n);
        assert(keys.drop_last().take(n) =~= keys.take(n));
    }
}

/// The sum over a list that names each key of the map once is the total.
pub proof fn lemma_sum_over_all<K>(m: Map<K, nat>, keys: Seq<K>)
    requires
        keys.no_duplicates(),
        forall|k: K| m.contains_key(k) <==> keys.contains(k),
    ensures
        m.dom().finite(),
        sum_over(m, keys) == total(m),
    decreases keys.len(),
{
    if keys.len() == 0 {
        assert(m.dom() =~= Set::empty()) by {
            assert forall|k: K| !m.dom().contains(k) by {
                if m.contains_key(k) {
                    assert(keys.contains(k));
                }
            }
        }
    } else {
        let k = keys.last();
        let rest = keys.drop_last();
        let less = m.remove(k);
        assert(keys.contains(k)) by {
            assert(keys[keys.len() - 1] == k);
        }
        assert(rest.no_duplicates()) by {
            assert forall|i: int, j: int| 0 <= i < rest.len() && 0 <= j < rest.len() && i != j implies rest[i] != rest[j] by {
                assert(rest[i] == keys[i] && rest[j] == keys[j]);
            }
        }
        assert forall|c: K| less.contains_key(c) <==> rest.contains(c) by {
            if less.contains_key(c) {
                assert(keys.contains(c));
                let i = choose|i: int| 0 <= i < keys.len() && keys[i] == c;
                assert(rest[i] == c);
            }
            if rest.contains(c) {
                let i = choose|i: int| 0 <= i < rest.len() && rest[i] == c;
                assert(keys[i] == c);
                assert(keys.contains(c));
            }
        }
        lemma_sum_over_all(less, rest);
        assert(m.dom() =~= less.dom().insert(k));
        assert forall|i: int| 0 <= i < rest.len() implies m[#[trigger] rest[i]] == less[rest[i]] by {
            assert(rest[i] == keys[i]);
        }
        lemma_sum_over_agrees(m, less, rest);
        lemma_total_remove(m, k);
    }
}

} // verus!
