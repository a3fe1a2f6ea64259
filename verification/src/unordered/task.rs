use vstd::prelude::*;

verus! {

/// A pending future of an unordered stream.
pub struct Task<T> {
    pub item: T,
}

impl<T> Task<T> {
    pub fn new(item: T) -> (r: Self)
        ensures
            r.item == item,
    {
        Self { item }
    }
}

} // verus!
