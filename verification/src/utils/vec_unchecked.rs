//! Removal from a vector by swapping with the last element.

use vstd::prelude::*;

verus! {

/// Removes the element at `index` by moving the last element into its place,
/// and returns the removed element.
pub fn swap_remove_unchecked<T>(vec: &mut Vec<T>, index: usize) -> (r: T)
    requires
        index < old(vec).len(),
    ensures
        r == old(vec)@[index as int],
        final(vec)@ == old(vec)@.update(index as int, old(vec)@.last()).drop_last(),
{
    vec.swap_remove(index)
}

} // verus!
