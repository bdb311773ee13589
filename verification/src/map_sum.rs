//! The sum of the values of a finite map.
use vstd::prelude::*;

verus! {

/// The sum of the values of `m`.
pub open spec fn map_sum(m: Map<u64, nat>) -> nat
    decreases m.dom().len(),
    when m.dom().finite()
{
    if m.dom().len() == 0 {
        0
    } else {
        let k = m.dom().choose();
        m[k] + map_sum(m.remove(k))
    }
}

/// The sum of an empty map is 0.
pub proof fn lemma_sum_empty()
    ensures
        map_sum(Map::<u64, nat>::empty()) == 0,
{
}

/// The sum is the value of any one key plus the sum of the others.
pub proof fn lemma_sum_remove(m: Map<u64, nat>, k: u64)
    requires
        m.dom().finite(),
        m.contains_key(k),
    ensures
        map_sum(m) == m[k] + map_sum(m.remove(k)),
    decreases m.dom().len(),
{
    let c = m.dom().choose();
    assert(m.dom().len() > 0) by {
        if m.dom().len() == 0 {
            assert(m.dom() =~= Set::empty());
        }
    }
    if c != k {
        let mc = m.remove(c);
        let mk = m.remove(k);
        lemma_sum_remove(mc, k);
        lemma_sum_remove(mk, c);
        assert(mc.remove(k) =~= mk.remove(c));
    }
}

/// Setting the value of one key: the sum of the others stays.
pub proof fn lemma_sum_insert(m: Map<u64, nat>, k: u64, v: nat)
    requires
        m.dom().finite(),
    ensures
        map_sum(m.insert(k, v)) == v + map_sum(m.remove(k)),
{
    lemma_sum_remove(m.insert(k, v), k);
    assert(m.insert(k, v).remove(k) =~= m.remove(k));
}

} // verus!
