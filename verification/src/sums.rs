//! Sums over finite maps and lists.

use vstd::prelude::*;

verus! {

/// The sum of the values of a finite map.
pub open spec fn total_of<K>(m: Map<K, nat>) -> nat
    decreases m.dom().len(),
{
    if m.dom().finite() && m.dom().len() > 0 {
        let k = m.dom().choose();
        proof {
            assert(m.remove(k).dom() =~= m.dom().remove(k));
        }
        m[k] + total_of(m.remove(k))
    } else {
        0
    }
}

/// The sum of a list.
pub open spec fn sum_of(s: Seq<nat>) -> nat
    decreases s.len(),
{
    if s.len() == 0 {
        0
    } else {
        sum_of(s.drop_last()) + s.last()
    }
}

/// Any key may be taken out first.
pub proof fn lemma_total_remove<K>(m: Map<K, nat>, k: K)
    requires
        m.dom().finite(),
        m.contains_key(k),
    ensures
        total_of(m) == m[k] + total_of(m.remove(k)),
    decreases m.dom().len(),
{
    let c = m.dom().choose();
    assert(m.dom().contains(k));
    assert(m.dom().len() > 0) by {
        if m.dom().len() == 0 {
            m.dom().lemma_len0_is_empty();
        }
    }
    assert(m.remove(c).dom() =~= m.dom().remove(c));
    assert(m.remove(k).dom() =~= m.dom().remove(k));
    if c != k {
        lemma_total_remove(m.remove(c), k);
        lemma_total_remove(m.remove(k), c);
        assert(m.remove(c).remove(k) =~= m.remove(k).remove(c));
    }
}

/// Writing a key replaces what it held before.
pub proof fn lemma_total_insert<K>(m: Map<K, nat>, k: K, v: nat)
    requires
        m.dom().finite(),
    ensures
        total_of(m.insert(k, v)) == total_of(m.remove(k)) + v,
        m.contains_key(k) ==> total_of(m) == m[k] + total_of(m.remove(k)),
        !m.contains_key(k) ==> total_of(m) == total_of(m.remove(k)),
{
    let w = m.insert(k, v);
    assert(w.dom() =~= m.dom().insert(k));
    lemma_total_remove(w, k);
    assert(w.remove(k) =~= m.remove(k));
    if m.contains_key(k) {
        lemma_total_remove(m, k);
    } else {
        assert(m.remove(k) =~= m);
    }
}

/// The sum over a list of all keys is the sum of the map.
pub proof fn lemma_total_listed<K>(keys: Seq<K>, m: Map<K, nat>)
    requires
        m.dom().finite(),
        keys.no_duplicates(),
        forall|i: int| 0 <= i < keys.len() ==> m.contains_key(#[trigger] keys[i]),
        forall|k: K| #[trigger] m.contains_key(k) ==> keys.contains(k),
    ensures
        sum_of(keys.map_values(|k: K| m[k])) == total_of(m),
    decreases keys.len(),
{
    let amounts = keys.map_values(|k: K| m[k]);
    if keys.len() == 0 {
        if m.dom().len() > 0 {
            let k = m.dom().choose();
            assert(m.dom().contains(k));
            assert(m.contains_key(k));
            assert(keys.contains(k));
        }
    } else {
        let k = keys.last();
        let rest = keys.drop_last();
        let n = m.remove(k);
        assert(n.dom() =~= m.dom().remove(k));
        assert forall|i: int| 0 <= i < rest.len() implies n.contains_key(#[trigger] rest[i]) by {
            assert(rest[i] == keys[i]);
            assert(keys[i] != keys[keys.len() - 1]);
        }
        assert forall|x: K| #[trigger] n.contains_key(x) implies rest.contains(x) by {
            assert(m.contains_key(x));
            let i = choose|i: int| 0 <= i < keys.len() && keys[i] == x;
            assert(rest[i] == x);
        }
        lemma_total_listed(rest, n);
        assert(rest.map_values(|x: K| n[x]) =~= amounts.drop_last()) by {
            assert forall|i: int| 0 <= i < rest.len() implies n[#[trigger] rest[i]]
                == m[keys[i]] by {
                assert(keys[i] != keys[keys.len() - 1]);
            }
        }
        assert(m.contains_key(keys[keys.len() - 1]));
        lemma_total_remove(m, k);
    }
}

/// Taking one more element adds it to the sum.
pub proof fn lemma_sum_take(s: Seq<nat>, i: int)
    requires
        0 <= i < s.len(),
    ensures
        sum_of(s.take(i + 1)) == sum_of(s.take(i)) + s[i],
{
    assert(s.take(i + 1).drop_last() =~= s.take(i));
}

} // verus!
