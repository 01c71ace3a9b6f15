use vstd::prelude::*;

verus! {

/// Handle of a location inside a [`crate::SpaceNetwork`].
///
/// A handle is the position of its location in the network's storage. It is
/// issued by `add_location`, never changes, and stays valid for the life of
/// the network. Callers should treat it as opaque: two handles are the same
/// exactly when their indices are.
#[derive(Clone, Copy, Debug, PartialEq, Eq, Hash, Structural)]
pub struct LocationId(pub(crate) usize);

impl LocationId {
    /// The index behind the handle, in contracts.
    pub open(crate) spec fn slot(self) -> usize {
        self.0
    }

    /// The raw index behind the handle, for diagnostics.
    #[verifier::when_used_as_spec(slot)]
    pub fn index(self) -> (r: usize)
        ensures
            r == self.slot(),
    {
        self.0
    }

    /// Handles with the same index are the same handle.
    pub proof fn lemma_same_index(self, other: LocationId)
        ensures
            self.index() == other.index() <==> self == other,
    {
    }
}

} // verus!
