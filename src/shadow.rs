//! Shadow rays: whether a light reaches a surface point.
use vstd::prelude::*;

verus! {

/// Some surface lies on the shadow ray: `hits[s]` says whether surface `s`
/// of the scene meets the ray cast from the point toward the light. Any hit
/// at all blocks the light; its distance does not matter.
pub open spec fn blocked(hits: Seq<bool>) -> bool {
    exists|s: int| 0 <= s < hits.len() && #[trigger] hits[s]
}

/// Whether the light is blocked, scanning the scene in order and stopping at
/// the first surface that meets the shadow ray.
pub fn is_blocked(hits: &Vec<bool>) -> (r: bool)
    ensures
        r == blocked(hits@),
{
    let mut s: usize = 0;
    while s < hits.len()
        invariant
            s <= hits@.len(),
            forall|t: int| 0 <= t < s ==> !(#[trigger] hits@[t]),
        decreases hits@.len() - s,
    {
        if hits[s] {
            return true;
        }
        s = s + 1;
    }
    false
}

/// For each light, whether it reaches the point: `shadow_hits[l][s]` says
/// whether surface `s` meets the shadow ray toward light `l`. A light that
/// reaches the point contributes its full brightness, one that does not
/// contributes nothing.
pub fn visible_lights(shadow_hits: &Vec<Vec<bool>>) -> (r: Vec<bool>)
    ensures
        r@.len() == shadow_hits@.len(),
        forall|l: int| 0 <= l < r@.len() ==> #[trigger] r@[l] == !blocked(shadow_hits@[l]@),
{
    let mut out: Vec<bool> = Vec::with_capacity(shadow_hits.len());
    let mut l: usize = 0;
    while l < shadow_hits.len()
        invariant
            l <= shadow_hits@.len(),
            out@.len() == l,
            forall|m: int| 0 <= m < l ==> #[trigger] out@[m] == !blocked(shadow_hits@[m]@),
        decreases shadow_hits@.len() - l,
    {
        let b = is_blocked(&shadow_hits[l]);
        out.push(!b);
        l = l + 1;
    }
    out
}

/// Shadowing is monotonic. Adding a surface to the scene, at any place in
/// its order, never lets through a light that was blocked; and where the
/// added surface is opaque and lies between the point and the light (its
/// shadow-ray test hits), the light is blocked and contributes nothing.
pub proof fn lemma_shadow_monotonic(hits: Seq<bool>, at: int, added_hits: bool)
    requires
        0 <= at <= hits.len(),
    ensures
        blocked(hits) ==> blocked(hits.insert(at, added_hits)),
        added_hits ==> blocked(hits.insert(at, added_hits)),
{
    let grown = hits.insert(at, added_hits);
    assert(grown[at] == added_hits);
    if blocked(hits) {
        let s = choose|s: int| 0 <= s < hits.len() && #[trigger] hits[s];
        if s < at {
            assert(grown[s] == hits[s]);
        } else {
            assert(grown[s + 1] == hits[s]);
        }
    }
}

} // verus!
