use vstd::prelude::*;
use crate::geometry::Point3;
use crate::handle::LocationId;

verus! {

/// A fixed location in space: its handle and its current position.
#[derive(Clone, Debug)]
pub struct Location {
    pub id: LocationId,
    pub position: Point3,
}

/// What a change to the network answers when a handle does not name one of
/// its locations.
pub open spec fn invalid_handle() -> Seq<char> {
    "invalid LocationId"@
}

/// A network of locations joined by one-way links.
///
/// The cost of a link is never stored: it derives from the positions of its
/// two ends at the time of a search. Locations and links are only ever
/// added, so a handle that is valid once stays valid.
#[derive(Clone, Debug)]
pub struct SpaceNetwork {
    locations: Vec<Location>,
    adjacency: Vec<Vec<LocationId>>,
}

impl SpaceNetwork {
    /// The position of every location, by handle index.
    pub closed spec fn positions(&self) -> Seq<Point3> {
        Seq::new(self.locations@.len(), |i: int| self.locations@[i].position)
    }

    /// The outgoing links of every location, by handle index, each list in
    /// the order in which its links were made.
    pub closed spec fn links(&self) -> Seq<Seq<LocationId>> {
        Seq::new(self.locations@.len(), |i: int| self.adjacency@[i]@)
    }

    /// The storage is consistent: one link list per location, each location
    /// filed under its own handle.
    pub closed spec fn stored_in_order(&self) -> bool {
        &&& self.adjacency@.len() == self.locations@.len()
        &&& forall|i: int|
            0 <= i < self.locations@.len() ==> (#[trigger] self.locations@[i]).id.index() == i
    }

    /// Well-formedness: consistent storage, and every link leads from a
    /// location to a different location of this network.
    pub open spec fn wf(&self) -> bool {
        &&& self.stored_in_order()
        &&& self.links().len() == self.positions().len()
        &&& forall|i: int, k: int|
            0 <= i < self.links().len() && 0 <= k < self.links()[i].len() ==> {
                &&& (#[trigger] self.links()[i][k]).index() < self.positions().len()
                &&& self.links()[i][k].index() != i
            }
    }

    /// Whether `id` names a location of this network.
    pub open spec fn contains(&self, id: LocationId) -> bool {
        id.index() < self.positions().len()
    }

    /// Every handle of `earlier` is a handle of this network too.
    pub open spec fn keeps_handles_of(&self, earlier: &SpaceNetwork) -> bool {
        forall|id: LocationId| earlier.contains(id) ==> #[trigger] self.contains(id)
    }

    /// Whether a link leads from `from` to `to`.
    pub open spec fn linked(&self, from: LocationId, to: LocationId) -> bool {
        &&& self.contains(from)
        &&& self.contains(to)
        &&& self.links()[from.index() as int].contains(to)
    }

    /// Create an empty network.
    pub fn new() -> (net: Self)
        ensures
            net.wf(),
            net.positions() == Seq::<Point3>::empty(),
            net.links() == Seq::<Seq<LocationId>>::empty(),
    {
        let net = Self { locations: Vec::new(), adjacency: Vec::new() };
        assert(net.positions() =~= Seq::<Point3>::empty());
        assert(net.links() =~= Seq::<Seq<LocationId>>::empty());
        net
    }

    /// Number of locations in the network.
    pub fn location_count(&self) -> (n: usize)
        ensures
            n == self.positions().len(),
    {
        self.locations.len()
    }

    /// Whether `id` names a location of this network.
    pub fn is_valid(&self, id: LocationId) -> (b: bool)
        ensures
            b == self.contains(id),
    {
        id.index() < self.locations.len()
    }

    /// Add a new location at the given position, with no links yet. The new
    /// handle is the number of locations there were before.
    pub fn add_location(&mut self, position: Point3) -> (id: LocationId)
        requires
            old(self).wf(),
        ensures
            final(self).wf(),
            final(self).keeps_handles_of(old(self)),
            id.index() == old(self).positions().len(),
            final(self).positions() == old(self).positions().push(position),
            final(self).links() == old(self).links().push(Seq::<LocationId>::empty()),
    {
        let id = LocationId(self.locations.len());
        self.locations.push(Location { id, position });
        self.adjacency.push(Vec::new());
        assert(self.positions() =~= old(self).positions().push(position));
        assert(self.links() =~= old(self).links().push(Seq::<LocationId>::empty()));
        id
    }

    /// Move an existing location to a new position. Links are untouched;
    /// every later search sees the new position.
    pub fn move_location(&mut self, id: LocationId, new_position: Point3) -> (r: Result<(), &'static str>)
        requires
            old(self).wf(),
        ensures
            final(self).wf(),
            final(self).keeps_handles_of(old(self)),
            r is Err <==> !old(self).contains(id),
            r matches Err(why) ==> why@ == invalid_handle(),
            r is Err ==> final(self).positions() == old(self).positions(),
            r is Ok ==> final(self).positions() == old(self).positions().update(
                id.index() as int,
                new_position,
            ),
            final(self).links() == old(self).links(),
    {
        if !self.is_valid(id) {
            return Err("invalid LocationId");
        }
        self.locations[id.index()] = Location { id, position: new_position };
        assert(self.positions() =~= old(self).positions().update(id.index() as int, new_position));
        assert(self.links() =~= old(self).links());
        Ok(())
    }

    /// The stored location behind a handle, if the handle is valid.
    pub fn location(&self, id: LocationId) -> (r: Option<&Location>)
        requires
            self.wf(),
        ensures
            r is Some <==> self.contains(id),
            r matches Some(loc) ==> loc.id == id && loc.position == self.positions()[id.index() as int],
    {
        if id.index() < self.locations.len() {
            Some(&self.locations[id.index()])
        } else {
            None
        }
    }

    /// The position of a valid handle.
    pub fn position_of(&self, id: LocationId) -> (p: Point3)
        requires
            self.wf(),
            self.contains(id),
        ensures
            p == self.positions()[id.index() as int],
    {
        self.locations[id.index()].position
    }

    /// The outgoing links of a valid handle, borrowed.
    pub fn outgoing(&self, id: LocationId) -> (out: &Vec<LocationId>)
        requires
            self.wf(),
            self.contains(id),
        ensures
            out@ == self.links()[id.index() as int],
    {
        &self.adjacency[id.index()]
    }

    /// Link `from` to `to`, one way. A link from a location to itself is
    /// not stored. Repeating a link stores it again.
    pub fn connect_directed(&mut self, from: LocationId, to: LocationId) -> (r: Result<(), &'static str>)
        requires
            old(self).wf(),
        ensures
            final(self).wf(),
            final(self).keeps_handles_of(old(self)),
            final(self).positions() == old(self).positions(),
            r is Err <==> !old(self).contains(from) || !old(self).contains(to),
            r matches Err(why) ==> why@ == invalid_handle(),
            r is Err || from == to ==> final(self).links() == old(self).links(),
            r is Ok && from != to ==> final(self).links() == old(self).links().update(
                from.index() as int,
                old(self).links()[from.index() as int].push(to),
            ),
    {
        if !self.is_valid(from) || !self.is_valid(to) {
            return Err("invalid LocationId");
        }
        if from == to {
            return Ok(());
        }
        self.append_link(from, to);
        Ok(())
    }

    /// Link `a` and `b` in both directions, as one operation: first `a` to
    /// `b`, then `b` to `a`.
    pub fn connect_bidirectional(&mut self, a: LocationId, b: LocationId) -> (r: Result<(), &'static str>)
        requires
            old(self).wf(),
        ensures
            final(self).wf(),
            final(self).keeps_handles_of(old(self)),
            final(self).positions() == old(self).positions(),
            r is Err <==> !old(self).contains(a) || !old(self).contains(b),
            r matches Err(why) ==> why@ == invalid_handle(),
            r is Err || a == b ==> final(self).links() == old(self).links(),
            r is Ok && a != b ==> final(self).links() == old(self).links().update(
                a.index() as int,
                old(self).links()[a.index() as int].push(b),
            ).update(b.index() as int, old(self).links()[b.index() as int].push(a)),
    {
        if !self.is_valid(a) || !self.is_valid(b) {
            return Err("invalid LocationId");
        }
        if a == b {
            return Ok(());
        }
        self.append_link(a, b);
        self.append_link(b, a);
        Ok(())
    }

    /// Append `to` to the link list of `from`.
    fn append_link(&mut self, from: LocationId, to: LocationId)
        requires
            old(self).wf(),
            old(self).contains(from),
            old(self).contains(to),
            from != to,
        ensures
            final(self).wf(),
            final(self).positions() == old(self).positions(),
            final(self).links() == old(self).links().update(
                from.index() as int,
                old(self).links()[from.index() as int].push(to),
            ),
    {
        self.adjacency[from.index()].push(to);
        assert(self.positions() =~= old(self).positions());
        assert(self.links() =~= old(self).links().update(
            from.index() as int,
            old(self).links()[from.index() as int].push(to),
        ));
    }

    /// The neighbours that `id` links to, in the order in which the links
    /// were made, if the handle is valid.
    pub fn neighbors(&self, id: LocationId) -> (r: Option<Vec<LocationId>>)
        requires
            self.wf(),
        ensures
            r is Some <==> self.contains(id),
            r matches Some(list) ==> list@ == self.links()[id.index() as int],
    {
        if !self.is_valid(id) {
            return None;
        }
        let out = &self.adjacency[id.index()];
        let mut list: Vec<LocationId> = Vec::new();
        let mut k: usize = 0;
        while k < out.len()
            invariant
                k <= out@.len(),
                list@ == out@.subrange(0, k as int),
            decreases out@.len() - k,
        {
            list.push(out[k]);
            k += 1;
            assert(list@ =~= out@.subrange(0, k as int));
        }
        assert(list@ =~= out@);
        Some(list)
    }
}

} // verus!
