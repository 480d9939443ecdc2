use vstd::prelude::*;

verus! {

/// Removes the item at `index`, keeping the order of the others.
/// An index past the end leaves the ensemble as it is.
pub fn remove_particle<T>(items: &mut Vec<T>, index: usize)
    ensures
        index < old(items)@.len() ==> final(items)@ == old(items)@.remove(index as int),
        index >= old(items)@.len() ==> final(items)@ == old(items)@,
{
    if index < items.len() {
        items.remove(index);
    }
}

} // verus!
