//! Turning a vector over, so that its elements can be moved out front first.

use vstd::prelude::*;

verus! {

/// Moves the elements of `v` into a new vector in the opposite order: what
/// `pop` then hands out is the front of `v`.
pub fn reversed<T>(v: Vec<T>) -> (r: Vec<T>)
    ensures
        r@ == v@.reverse(),
{
    let ghost orig = v@;
    let mut v = v;
    let mut r: Vec<T> = Vec::new();
    while v.len() > 0
        invariant
            v@.len() <= orig.len(),
            v@ == orig.subrange(0, v@.len() as int),
            r@.len() == orig.len() - v@.len(),
            forall|t: int| 0 <= t < r@.len() ==> r@[t] == orig[orig.len() - 1 - t],
        decreases v@.len(),
    {
        let x = v.pop().unwrap();
        r.push(x);
    }
    assert(r@ =~= orig.reverse());
    r
}

} // verus!
