//! Sums over finite maps.

use vstd::prelude::*;

verus! {

/// The sum of the values of a finite map.
pub open spec fn total<K>(m: Map<K, nat>) -> nat
    decreases m.dom().len(),
    when m.dom().finite()
{
    if m.dom().len() == 0 {
        0
    } else {
        let k = m.dom().choose();
        m[k] + total(m.remove(k))
    }
}

pub proof fn lemma_total_remove<K>(m: Map<K, nat>, k: K)
    requires
        m.dom().finite(),
        m.contains_key(k),
    ensures
        total(m) == m[k] + total(m.remove(k)),
    decreases m.dom().len(),
{
    let c = m.dom().choose();
    if c != k {
        lemma_total_remove(m.remove(c), k);
        lemma_total_remove(m.remove(k), c);
        assert(m.remove(c).remove(k) =~= m.remove(k).remove(c));
    }
}

pub proof fn lemma_total_insert<K>(m: Map<K, nat>, k: K, v: nat)
    requires
        m.dom().finite(),
    ensures
        m.insert(k, v).dom().finite(),
        total(m.insert(k, v)) == total(m) + v - (if m.contains_key(k) {
            m[k]
        } else {
            0
        }),
{
    let n = m.insert(k, v);
    lemma_total_remove(n, k);
    if m.contains_key(k) {
        lemma_total_remove(m, k);
        assert(n.remove(k) =~= m.remove(k));
    } else {
        assert(n.remove(k) =~= m);
    }
}

pub proof fn lemma_total_zero<K>(m: Map<K, nat>)
    requires
        m.dom().finite(),
        forall|k: K| #[trigger] m.contains_key(k) ==> m[k] == 0,
    ensures
        total(m) == 0,
    decreases m.dom().len(),
{
    if m.dom().len() != 0 {
        let k = m.dom().choose();
        assert(m.contains_key(k));
        lemma_total_zero(m.remove(k));
    }
}

/// A sum is at least each sum with smaller values.
pub proof fn lemma_total_le<K>(a: Map<K, nat>, b: Map<K, nat>)
    requires
        a.dom().finite(),
        a.dom() == b.dom(),
        forall|k: K| #[trigger] a.contains_key(k) ==> a[k] <= b[k],
    ensures
        total(a) <= total(b),
    decreases a.dom().len(),
{
    if a.dom().len() != 0 {
        let k = a.dom().choose();
        assert(a.contains_key(k));
        assert(a.remove(k).dom() =~= b.remove(k).dom());
        lemma_total_le(a.remove(k), b.remove(k));
        lemma_total_remove(b, k);
    }
}

/// Leaving out rows that count nothing leaves a sum as it is.
pub proof fn lemma_total_same<K>(a: Map<K, nat>, b: Map<K, nat>)
    requires
        b.dom().finite(),
        a.dom().finite(),
        forall|k: K| #[trigger] a.contains_key(k) ==> b.contains_key(k) && a[k] == b[k],
        forall|k: K| #[trigger] b.contains_key(k) && !a.contains_key(k) ==> b[k] == 0,
    ensures
        total(a) == total(b),
    decreases a.dom().len(),
{
    if a.dom().len() != 0 {
        let k = a.dom().choose();
        assert(a.contains_key(k));
        lemma_total_remove(b, k);
        lemma_total_same(a.remove(k), b.remove(k));
    } else {
        assert(a.dom() =~= Set::empty());
        assert forall|k: K| #[trigger] b.contains_key(k) implies b[k] == 0 by {
            assert(!a.dom().contains(k));
        }
        lemma_total_zero(b);
    }
}

} // verus!
