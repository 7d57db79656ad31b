//! The integer decisions of k-means clustering: which entries start the
//! centres, and which centre each entry joins. The distances themselves are
//! `f32` values measured by the caller and handed in by their bit patterns.

use vstd::prelude::*;

use crate::float_bits::{f32_less, float_less, order_key};

verus! {

/// The bit pattern of `f32::MAX`, the distance an assignment starts from.
pub const F32_MAX_BITS: u32 = 0x7f7f_ffffu32;

/// A distance that can win an assignment: below `f32::MAX` as an `f32`.
pub open spec fn eligible(d: u32) -> bool {
    float_less(d, F32_MAX_BITS)
}

/// `c` is the centre an entry joins, given its distance to each centre:
/// the first centre of smallest distance among those below `f32::MAX`, or
/// centre 0 when there is none.
pub open spec fn nearest_center_is(d: Seq<u32>, c: usize) -> bool {
    if forall|j: int| 0 <= j < d.len() ==> !eligible(#[trigger] d[j]) {
        c == 0
    } else {
        &&& c < d.len()
        &&& eligible(d[c as int])
        &&& forall|j: int| 0 <= j < d.len() && eligible(#[trigger] d[j]) ==> order_key(d[c as int]) <= order_key(d[j])
        &&& forall|j: int| 0 <= j < c && eligible(#[trigger] d[j]) ==> order_key(d[j]) > order_key(d[c as int])
    }
}

/// The centre an entry joins: see [`nearest_center_is`].
pub fn nearest_center(center_distances: &[u32]) -> (c: usize)
    ensures
        nearest_center_is(center_distances@, c),
{
    let d = center_distances;
    let mut best: usize = 0;
    let mut min = F32_MAX_BITS;
    let mut found = false;
    let mut j: usize = 0;
    while j < d.len()
        invariant
            j <= d@.len(),
            found == exists|t: int| 0 <= t < j && eligible(#[trigger] d@[t]),
            !found ==> best == 0 && min == F32_MAX_BITS,
            found ==> {
                &&& best < j
                &&& min == d@[best as int]
                &&& eligible(min)
                &&& forall|t: int| 0 <= t < j && eligible(#[trigger] d@[t]) ==> order_key(min) <= order_key(d@[t])
                &&& forall|t: int| 0 <= t < best && eligible(#[trigger] d@[t]) ==> order_key(d@[t]) > order_key(min)
            },
        decreases d@.len() - j,
    {
        if f32_less(d[j], min) {
            proof {
                assert(eligible(d@[j as int])) by {
                    if found {
                        assert(order_key(min) < order_key(F32_MAX_BITS));
                    }
                }
            }
            best = j;
            min = d[j];
            found = true;
        } else {
            proof {
                if eligible(d@[j as int]) {
                    assert(found);
                }
            }
        }
        j += 1;
    }
    best
}

/// The centre each entry joins, from each entry's distances to the
/// centres: see [`nearest_center_is`].
pub fn assign_nearest(distances: &[Vec<u32>]) -> (assignments: Vec<usize>)
    ensures
        assignments@.len() == distances@.len(),
        forall|i: int| 0 <= i < distances@.len() ==> nearest_center_is(distances@[i]@, #[trigger] assignments@[i]),
{
    let mut assignments: Vec<usize> = Vec::with_capacity(distances.len());
    let mut i: usize = 0;
    while i < distances.len()
        invariant
            i <= distances@.len(),
            assignments@.len() == i,
            forall|t: int| 0 <= t < i ==> nearest_center_is(distances@[t]@, #[trigger] assignments@[t]),
        decreases distances@.len() - i,
    {
        let c = nearest_center(distances[i].as_slice());
        assignments.push(c);
        i += 1;
    }
    assignments
}

/// Adds a drawn position to the chosen ones unless it was chosen already;
/// tells whether it was added.
pub fn choose_draw(chosen: &mut Vec<usize>, draw: usize) -> (added: bool)
    ensures
        added == !old(chosen)@.contains(draw),
        final(chosen)@ == (if added {
            old(chosen)@.push(draw)
        } else {
            old(chosen)@
        }),
        old(chosen)@.no_duplicates() ==> final(chosen)@.no_duplicates(),
{
    let mut i: usize = 0;
    while i < chosen.len()
        invariant
            i <= chosen@.len(),
            chosen@ == old(chosen)@,
            forall|t: int| 0 <= t < i ==> chosen@[t] != draw,
        decreases chosen@.len() - i,
    {
        if chosen[i] == draw {
            return false;
        }
        i += 1;
    }
    chosen.push(draw);
    proof {
        assert(!old(chosen)@.contains(draw));
        if old(chosen)@.no_duplicates() {
            assert forall|a: int, b: int| 0 <= a < chosen@.len() && 0 <= b < chosen@.len() && a != b implies chosen@[a]
                != chosen@[b] by {
                if a < old(chosen)@.len() && b < old(chosen)@.len() {
                    assert(chosen@[a] == old(chosen)@[a] && chosen@[b] == old(chosen)@[b]);
                } else if a < old(chosen)@.len() {
                    assert(chosen@[a] == old(chosen)@[a]);
                } else {
                    assert(chosen@[b] == old(chosen)@[b]);
                }
            }
        }
    }
    true
}

} // verus!
