//! Counting the images of a duplicate-free sequence.

use vstd::prelude::*;

verus! {

/// The members of `keys` that `f` sends to `b`.
pub open spec fn fibre<A, B>(keys: Set<A>, f: spec_fn(A) -> B, b: B) -> Set<A> {
    keys.filter(|a: A| f(a) == b)
}

/// When a sequence without repetitions is mapped through `f`, a value occurs
/// in the result as often as there are elements that `f` sends to it.
pub proof fn lemma_image_counts<A, B>(keys: Seq<A>, f: spec_fn(A) -> B, b: B)
    requires
        keys.no_duplicates(),
    ensures
        keys.to_set().finite(),
        keys.map_values(f).to_multiset().count(b) == fibre(keys.to_set(), f, b).len(),
    decreases keys.len(),
{
    broadcast use vstd::seq_lib::group_to_multiset_ensures;
    broadcast use vstd::seq_lib::group_seq_properties;

    if keys.len() == 0 {
        assert(fibre(keys.to_set(), f, b) =~= Set::empty());
    } else {
        let rest = keys.drop_last();
        let last = keys.last();
        lemma_image_counts(rest, f, b);
        assert(keys.map_values(f) =~= rest.map_values(f).push(f(last)));
        if f(last) == b {
            assert(fibre(keys.to_set(), f, b) =~= fibre(rest.to_set(), f, b).insert(last));
        } else {
            assert(fibre(keys.to_set(), f, b) =~= fibre(rest.to_set(), f, b));
        }
    }
}

} // verus!
