use vstd::prelude::*;

verus! {

/// A copyable, non-dereferenceable handle to a graph node.
///
/// `addr` is the node's stable identifier inside its arena; it stays the same
/// across sweeps for as long as the node is alive. `session` is the tag of the
/// anchor that issued the handle: an operation under a different session
/// refuses the handle instead of touching the wrong node.
///
/// Two pointers are compared by address only: the session tag takes no part
/// in equality or hashing, so a handle re-issued for the same node in a later
/// session still names the same node. `same_node` is that relation as a spec
/// function.
#[derive(Clone, Copy, Debug)]
pub struct GraphPtr {
    pub addr: usize,
    pub session: u64,
}

impl GraphPtr {
    /// Whether two pointers name the same node: their addresses agree, while
    /// their session tags are free to differ.
    pub open spec fn same_node(self, other: GraphPtr) -> bool {
        self.addr == other.addr
    }

    /// The raw node identifier. It can be cached across sessions and sweeps
    /// and handed back to a later anchor through `from_raw`.
    pub fn as_ptr(self) -> (r: usize)
        ensures
            r == self.addr,
    {
        self.addr
    }
}

impl PartialEq for GraphPtr {
    fn eq(&self, other: &GraphPtr) -> (r: bool) {
        self.addr == other.addr
    }
}

impl Eq for GraphPtr {
}

impl vstd::std_specs::cmp::PartialEqSpecImpl for GraphPtr {
    open spec fn obeys_eq_spec() -> bool {
        true
    }

    open spec fn eq_spec(&self, other: &GraphPtr) -> bool {
        self.addr == other.addr
    }
}

/// Relies on the standard library's `usize::hash`, which feeds the integer to
/// the hasher; nothing is promised of the hasher's opaque state.
pub assume_specification<H>[ <usize as core::hash::Hash>::hash ](this: &usize, state: &mut H)
    where
        H: core::hash::Hasher,
;

impl core::hash::Hash for GraphPtr {
    fn hash<H: core::hash::Hasher>(&self, state: &mut H) {
        self.addr.hash(state);
    }
}

/// The ways an operation can refuse a pointer instead of dereferencing it.
#[derive(Clone, Copy, PartialEq, Eq, Debug, Structural)]
pub enum GraphError {
    /// The pointer carries a session tag other than the current anchor's.
    ForeignPointer,
    /// The pointer's session matches, but the node it names is no longer
    /// stored: it was killed or swept away earlier in this session.
    StalePointer,
}

} // verus!
