use std::collections::hash_map::RandomState;
use std::collections::HashMap;
use std::hash::Hash;
use vstd::prelude::*;
use vstd::std_specs::hash::{builds_valid_hashers, obeys_key_model};

verus! {

/// The map that inserting the pairs of `s` in order gives: a later pair
/// replaces an earlier one with the same key.
pub open spec fn map_of_pairs<K, V>(s: Seq<(K, V)>) -> Map<K, V>
    decreases s.len(),
{
    if s.len() == 0 {
        Map::empty()
    } else {
        map_of_pairs(s.drop_last()).insert(s.last().0, s.last().1)
    }
}

/// The range that holds the one index `idx`.
pub fn at_idx(idx: usize) -> (r: std::ops::RangeInclusive<usize>)
    ensures
        r@.start == idx,
        r@.end == idx,
        !r@.exhausted,
{
    std::ops::RangeInclusive::new(idx, idx)
}

/// A map from the pairs of `arr`, a later pair replacing an earlier one with
/// the same key. What the map holds is known where the key type follows the
/// hash-table key model.
pub fn new_h_map<'a, K: Eq + Hash + ?Sized, const L: usize>(arr: [(&'a K, i32); L]) -> (r: HashMap<
    &'a K,
    i32,
>)
    ensures
        obeys_key_model::<&'a K>() && builds_valid_hashers::<RandomState>() ==> r@ == map_of_pairs(
            arr@,
        ),
{
    let mut m: HashMap<&'a K, i32> = HashMap::new();
    let mut i: usize = 0;
    while i < L
        invariant
            0 <= i <= L,
            arr@.len() == L,
            obeys_key_model::<&'a K>() && builds_valid_hashers::<RandomState>() ==> m@
                == map_of_pairs(arr@.take(i as int)),
        decreases L - i,
    {
        let (k, v) = arr[i];
        m.insert(k, v);
        assert(arr@.take(i + 1).drop_last() =~= arr@.take(i as int));
        i = i + 1;
    }
    assert(arr@.take(L as int) =~= arr@);
    m
}

} // verus!
