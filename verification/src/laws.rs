//! The store's algebraic laws, stated over the mathematical content that
//! the operations' contracts speak about.

use vstd::prelude::*;

verus! {

/// Round trip: after `insert(k, v)` the store's content maps `k` to `v`,
/// so by `get`'s contract a lookup of `k` returns a value with the view
/// of `v`.
pub proof fn lemma_insert_get_round_trip<K, V>(m: Map<K, V>, k: K, v: V)
    ensures
        m.insert(k, v).contains_key(k),
        m.insert(k, v)[k] == v,
{
}

/// Overwrite: a second insert under the same key replaces the first value
/// outright, and the entry count stays what it was after the first insert.
pub proof fn lemma_insert_overwrite<K, V>(m: Map<K, V>, k: K, v1: V, v2: V)
    ensures
        m.insert(k, v1).insert(k, v2) == m.insert(k, v2),
        m.insert(k, v1).insert(k, v2).dom().len() == m.insert(k, v1).dom().len(),
{
    assert(m.insert(k, v1).insert(k, v2) =~= m.insert(k, v2));
    assert(m.insert(k, v1).insert(k, v2).dom() =~= m.insert(k, v1).dom());
}

/// Counting for the threshold transition: a fresh key grows the content by
/// exactly one entry, so by `insert`'s contract a store that already holds
/// as many entries as its threshold allows flips to disk when one more
/// distinct key arrives.
pub proof fn lemma_distinct_insert_grows<K, V>(m: Map<K, V>, k: K, v: V)
    requires
        m.dom().finite(),
        !m.contains_key(k),
    ensures
        m.insert(k, v).dom().len() == m.dom().len() + 1,
{
    assert(m.insert(k, v).dom() =~= m.dom().insert(k));
    vstd::set::axiom_set_insert_len(m.dom(), k);
}

} // verus!
