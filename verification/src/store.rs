//! Helpers over the hash maps that back a graph.

use std::collections::hash_map::Entry;
use std::collections::HashMap;
use vstd::prelude::*;
use vstd::std_specs::hash::spec_hash_map_iter;
use vstd::std_specs::iter::IteratorSpec;

verus! {

broadcast use vstd::std_specs::hash::group_hash_axioms;

/// A map keyed by machine integers, read as a map keyed by natural numbers.
pub open spec fn lift<V>(m: Map<usize, V>) -> Map<nat, V> {
    Map::new(|k: nat| k <= usize::MAX && m.contains_key(k as usize), |k: nat| m[k as usize])
}

/// Reading a map that way commutes with inserting into it.
pub proof fn lemma_lift_insert<V>(m: Map<usize, V>, k: usize, v: V)
    ensures
        lift(m.insert(k, v)) == lift(m).insert(k as nat, v),
{
}

/// Reading a map that way commutes with removing from it.
pub proof fn lemma_lift_remove<V>(m: Map<usize, V>, k: usize)
    ensures
        lift(m.remove(k)) == lift(m).remove(k as nat),
{
}

/// Reading a map that way keeps its size.
pub proof fn lemma_lift_len<V>(m: Map<usize, V>)
    requires
        m.dom().finite(),
    ensures
        lift(m).dom().finite(),
        lift(m).len() == m.len(),
{
    let widen = |k: usize| k as nat;
    let image = m.dom().map(widen);
    assert(lift(m).dom() =~= image);
    vstd::set_lib::lemma_map_size(m.dom(), image, widen);
}

/// What walking a hash map yields: every entry exactly once, in some order.
pub open spec fn walks<V>(m: Map<usize, V>, seq: Seq<(&usize, &V)>) -> bool {
    &&& forall|i: int|
        0 <= i < seq.len() ==> m.contains_key(*(#[trigger] seq[i]).0) && m[*seq[i].0] == *seq[i].1
    &&& forall|i: int, j: int|
        0 <= i < j < seq.len() ==> *(#[trigger] seq[i]).0 != *(#[trigger] seq[j]).0
    &&& forall|k: usize|
        m.contains_key(k) ==> exists|i: int| 0 <= i < seq.len() && *(#[trigger] seq[i]).0 == k
}

/// The entries that a hash map's iterator will yield walk the map.
pub proof fn lemma_iter_walks<V>(m: &HashMap<usize, V>, seq: Seq<(&usize, &V)>)
    requires
        seq == spec_hash_map_iter(m).remaining(),
        seq.no_duplicates(),
    ensures
        walks(m@, seq),
{
    assert forall|i: int, j: int| 0 <= i < j < seq.len() implies *(#[trigger] seq[i]).0 != *(
    #[trigger] seq[j]).0 by {
        if *seq[i].0 == *seq[j].0 {
            assert(m@.contains_key(*seq[j].0) && m@[*seq[j].0] == *seq[j].1);
        }
    }
}

/// The keys of `m`, each once, in the order the map is walked.
pub fn keys_of<V>(m: &HashMap<usize, V>) -> (keys: Vec<usize>)
    ensures
        keys@.no_duplicates(),
        forall|k: usize| keys@.contains(k) <==> m@.contains_key(k),
{
    let mut keys: Vec<usize> = Vec::new();
    let ghost all = spec_hash_map_iter(m).remaining();
    let ghost mut seen: int = 0;
    for (key, _value) in it: m.iter()
        invariant
            all.no_duplicates(),
            all == spec_hash_map_iter(m).remaining(),
            it.seq() == all,
            seen == it.index(),
            keys.len() == seen,
            forall|a: int| 0 <= a < seen ==> keys[a] == *(#[trigger] all[a]).0,
    {
        keys.push(*key);
        proof {
            seen = seen + 1;
        }
    }
    proof {
        lemma_iter_walks(m, all);
        assert forall|k: usize| keys@.contains(k) implies m@.contains_key(k) by {
            let i = choose|i: int| 0 <= i < keys.len() && keys[i] == k;
            assert(*all[i].0 == k);
        }
        assert forall|i: int, j: int| 0 <= i < keys.len() && 0 <= j < keys.len() && i
            != j implies keys[i] != keys[j] by {
            assert(*all[i].0 == keys[i] && *all[j].0 == keys[j]);
        }
    }
    keys
}

/// Mutable access to the value stored under `k`.
pub fn slot_mut<V>(m: &mut HashMap<usize, V>, k: usize) -> (slot: &mut V)
    requires
        old(m)@.contains_key(k),
    ensures
        *slot == old(m)@[k],
        final(m)@ == old(m)@.insert(k, *final(slot)),
{
    match m.entry(k) {
        Entry::Occupied(found) => found.into_mut(),
        Entry::Vacant(_) => unreached(),
    }
}

/// Mutable access to the values stored under two different keys at once,
/// each as far as the map holds the key.
///
/// Rests on `HashMap::get_disjoint_mut`, which hands out one result per
/// requested key, `None` for a key that the map does not hold, and panics
/// only when two requested keys are equal. The contract claims that each
/// reference reaches the value stored under its key, and that whatever is
/// written through the references is what the map holds under those keys
/// afterwards, everything else staying as it was.
#[verifier::external_body]
pub(crate) fn pair_mut<V>(m: &mut HashMap<usize, V>, k1: usize, k2: usize) -> (pair: (
    Option<&mut V>,
    Option<&mut V>,
))
    requires
        k1 != k2,
    ensures
        pair.0 is Some <==> old(m)@.contains_key(k1),
        pair.1 is Some <==> old(m)@.contains_key(k2),
        pair.0 matches Some(first) ==> *first == old(m)@[k1],
        pair.1 matches Some(second) ==> *second == old(m)@[k2],
        final(m)@ == (match pair {
            (Some(first), Some(second)) => old(m)@.insert(k1, *final(first)).insert(
                k2,
                *final(second),
            ),
            (Some(first), None) => old(m)@.insert(k1, *final(first)),
            (None, Some(second)) => old(m)@.insert(k2, *final(second)),
            (None, None) => old(m)@,
        }),
{
    let [first, second] = m.get_disjoint_mut([&k1, &k2]);
    (first, second)
}

} // verus!
