//! Keeping a bounded window of samples.

use vstd::prelude::*;

verus! {

/// Drops items from the front until at most `max` remain.
pub fn retain_last<T>(points: &mut Vec<T>, max: usize)
    ensures
        final(points)@ == (if old(points)@.len() > max {
            old(points)@.skip(old(points)@.len() - max)
        } else {
            old(points)@
        }),
{
    let ghost orig = points@;
    while points.len() > max
        invariant
            points@.len() <= orig.len(),
            points@ == orig.skip(orig.len() - points@.len()),
            orig.len() <= max ==> points@ == orig,
            orig.len() > max ==> points@.len() >= max,
        decreases points@.len(),
    {
        points.remove(0);
        assert(points@ =~= orig.skip(orig.len() - points@.len()));
    }
    proof {
        if orig.len() <= max {
            assert(points@ == orig);
        } else {
            assert(points@.len() == max);
        }
    }
}

} // verus!
