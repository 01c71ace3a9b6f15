use vstd::prelude::*;
use crate::handle::LocationId;

verus! {

/// An ordered sequence of locations, start to goal inclusive, with the cost
/// key of the distance travelled along it.
///
/// A route is a value of its own: later changes to the network that produced
/// it do not reach it.
#[derive(Clone, Debug)]
pub struct Route {
    pub locations: Vec<LocationId>,
    pub total_distance: u64,
}

impl Route {
    pub fn new(locations: Vec<LocationId>, total_distance: u64) -> (r: Self)
        ensures
            r.locations == locations,
            r.total_distance == total_distance,
    {
        Self { locations, total_distance }
    }

    /// The route that stays at one location: that location alone, at
    /// distance zero.
    pub fn singleton(id: LocationId) -> (r: Self)
        ensures
            r.locations@ == seq![id],
            r.total_distance == 0,
    {
        let mut locations: Vec<LocationId> = Vec::new();
        locations.push(id);
        Self { locations, total_distance: 0 }
    }

    pub fn len(&self) -> (n: usize)
        ensures
            n == self.locations@.len(),
    {
        self.locations.len()
    }

    pub fn is_empty(&self) -> (b: bool)
        ensures
            b == (self.locations@.len() == 0),
    {
        self.locations.len() == 0
    }
}

} // verus!
