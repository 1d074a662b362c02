//! Choosing the surface a ray meets first.
//!
//! A distance is carried as its IEEE-754 binary64 bit pattern. For
//! non-negative values, including positive infinity, the patterns order as
//! the numbers do; a negative value or a NaN has a pattern above that of
//! positive infinity. So the comparisons below on patterns are the
//! comparisons on distances, and a negative or NaN distance is never chosen.
use vstd::prelude::*;

verus! {

/// Bit pattern of 0.01: hits at or nearer than this to the ray's origin are
/// the ray's own surface and are ignored.
pub const NEAR_LIMIT_KEY: u64 = 0x3F84_7AE1_47AE_147B;

/// Bit pattern of positive infinity: the starting "closest" distance, which
/// no hit can equal or exceed and still be chosen.
pub const FAR_LIMIT_KEY: u64 = 0x7FF0_0000_0000_0000;

/// A hit at this distance can be chosen.
pub open spec fn eligible(key: u64) -> bool {
    NEAR_LIMIT_KEY < key < FAR_LIMIT_KEY
}

/// The `i`-th surface reports a hit that can be chosen.
pub open spec fn eligible_at(keys: Seq<Option<u64>>, i: int) -> bool {
    keys[i] matches Some(k) && eligible(k)
}

/// The key of the `i`-th surface's hit (meaningful where it reports one).
pub open spec fn key_at(keys: Seq<Option<u64>>, i: int) -> u64 {
    keys[i].unwrap()
}

/// `i` is the surface hit first: its hit can be chosen, no surface is
/// strictly nearer, and every earlier surface is strictly farther (the first
/// of equally near surfaces wins).
pub open spec fn is_nearest(keys: Seq<Option<u64>>, i: int) -> bool {
    &&& 0 <= i < keys.len()
    &&& eligible_at(keys, i)
    &&& forall|j: int|
        0 <= j < keys.len() && eligible_at(keys, j) ==> key_at(keys, i) <= key_at(keys, j)
    &&& forall|j: int|
        0 <= j < i && eligible_at(keys, j) ==> key_at(keys, i) < key_at(keys, j)
}

/// No surface reports a hit that can be chosen: the ray sees the sky.
pub open spec fn all_miss(keys: Seq<Option<u64>>) -> bool {
    forall|i: int| 0 <= i < keys.len() ==> !eligible_at(keys, i)
}

/// Given, for each surface of the scene in order, the distance key of its hit
/// or `None` where the ray misses it, returns the index of the surface met
/// first, or `None` where the ray meets none and sees the sky.
pub fn closest_hit(keys: &Vec<Option<u64>>) -> (r: Option<usize>)
    ensures
        r is None <==> all_miss(keys@),
        r matches Some(i) ==> is_nearest(keys@, i as int),
{
    let mut best: Option<usize> = None;
    let mut best_key: u64 = FAR_LIMIT_KEY;
    let mut i: usize = 0;
    while i < keys.len()
        invariant
            i <= keys@.len(),
            best is None <==> forall|j: int| 0 <= j < i ==> !eligible_at(keys@, j),
            best is None ==> best_key == FAR_LIMIT_KEY,
            best matches Some(b) ==> {
                &&& b < i
                &&& eligible_at(keys@, b as int)
                &&& best_key == key_at(keys@, b as int)
                &&& forall|j: int|
                    0 <= j < i && eligible_at(keys@, j) ==> best_key <= key_at(keys@, j)
                &&& forall|j: int|
                    0 <= j < b && eligible_at(keys@, j) ==> best_key < key_at(keys@, j)
            },
        decreases keys@.len() - i,
    {
        if let Some(k) = keys[i] {
            if k < best_key && k > NEAR_LIMIT_KEY {
                best = Some(i);
                best_key = k;
            }
        }
        i = i + 1;
        proof {
            if let Some(b) = best {
                assert(eligible_at(keys@, b as int));
            }
        }
    }
    best
}

} // verus!
