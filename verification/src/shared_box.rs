use vstd::prelude::*;

verus! {

/// The owning cell for one heap allocation. It manages the allocation's
/// memory while its contents are handed out by shared reference, so a reader
/// never needs to own the cell to look inside it.
pub struct SharedBox<T> {
    pub(crate) data: Box<T>,
}

impl<T> SharedBox<T> {
    /// The value stored in the cell.
    pub closed spec fn value(&self) -> T {
        *self.data
    }

    /// Allocates a cell holding `x`.
    pub fn new(x: T) -> (b: SharedBox<T>)
        ensures
            b.value() == x,
    {
        SharedBox { data: Box::new(x) }
    }

    /// A shared borrow of the cell's contents.
    pub fn as_ptr(this: &Self) -> (r: &T)
        ensures
            *r == this.value(),
    {
        &this.data
    }
}

} // verus!
