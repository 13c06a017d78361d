//! The random choices the ranker makes: orders and picks drawn from the
//! thread-local generator of `rand`.
use rand::seq::IteratorRandom;
use rand::seq::SliceRandom;
use vstd::prelude::*;

verus! {

/// Calls `rand::seq::SliceRandom::shuffle` on the vector with `rand::rng()`.
/// Claimed: the elements are only rearranged, none is added or lost (the
/// Fisher-Yates swaps of the crate's source). Which order comes out is left open.
#[verifier::external_body]
pub(crate) fn shuffle_in_place<T>(v: &mut Vec<T>)
    ensures
        final(v)@.to_multiset() == old(v)@.to_multiset(),
{
    v.shuffle(&mut rand::rng());
}

/// Calls `rand::seq::IteratorRandom::choose` on an iterator over `v` with `rand::rng()`.
/// Claimed: `None` exactly when `v` is empty, and otherwise one of its elements.
/// Which one is left open.
#[verifier::external_body]
pub(crate) fn choose_from(v: &Vec<u16>) -> (picked: Option<u16>)
    ensures
        v@.len() == 0 <==> picked is None,
        picked matches Some(x) ==> v@.contains(x),
{
    v.iter().choose(&mut rand::rng()).copied()
}

/// Two sequences with the same multiset have the same length and the same elements.
pub proof fn lemma_same_elements<T>(a: Seq<T>, b: Seq<T>)
    requires
        a.to_multiset() == b.to_multiset(),
    ensures
        a.len() == b.len(),
        forall|x: T| #[trigger] a.contains(x) <==> b.contains(x),
{
    a.to_multiset_ensures();
    b.to_multiset_ensures();
    assert forall|x: T| #[trigger] a.contains(x) <==> b.contains(x) by {
        assert(a.contains(x) <==> a.to_multiset().count(x) > 0);
        assert(b.contains(x) <==> b.to_multiset().count(x) > 0);
    }
}

/// A copy of `arr` in a random order.
pub fn shuffle<T: Copy>(arr: &[T]) -> (shuffled: Vec<T>)
    ensures
        shuffled@.to_multiset() == arr@.to_multiset(),
{
    let mut v: Vec<T> = Vec::new();
    let mut i: usize = 0;
    while i < arr.len()
        invariant
            i <= arr@.len(),
            v@ == arr@.take(i as int),
        decreases arr@.len() - i,
    {
        v.push(arr[i]);
        i = i + 1;
        assert(v@ =~= arr@.take(i as int));
    }
    assert(v@ =~= arr@);
    shuffle_in_place(&mut v);
    v
}

} // verus!
