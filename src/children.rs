//! Bookkeeping on a node's ordered list of children.
use crate::worker::LayoutError;
use vstd::prelude::*;

verus! {

/// Removes and returns the child at `index`; the others keep their order.
pub fn take_child<T>(children: &mut Vec<T>, index: usize) -> (r: Result<T, LayoutError>)
    ensures
        index >= old(children).len() ==> r == Err::<T, LayoutError>(LayoutError::IndexOutOfRange)
            && final(children)@ == old(children)@,
        index < old(children).len() ==> r == Ok::<T, LayoutError>(old(children)@[index as int])
            && final(children)@ == old(children)@.remove(index as int),
{
    if index >= children.len() {
        return Err(LayoutError::IndexOutOfRange);
    }
    Ok(children.remove(index))
}

} // verus!
