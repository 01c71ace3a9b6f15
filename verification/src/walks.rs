//! The vocabulary of the search's contract: walks through a network, the
//! cost accumulated along a walk, and what is asked of the function that
//! lengthens a cost by one leg.

use vstd::prelude::*;
use crate::geometry::{Point3, UNREACHED};
use crate::handle::LocationId;
use crate::network::SpaceNetwork;

verus! {

/// `path` is a walk in `net`: at least one location, every one of them in
/// the network, each linked to the next.
pub open spec fn is_walk(net: &SpaceNetwork, path: Seq<LocationId>) -> bool {
    &&& path.len() >= 1
    &&& forall|i: int| 0 <= i < path.len() ==> net.contains(#[trigger] path[i])
    &&& forall|i: int| 0 <= i < path.len() - 1 ==> net.linked(#[trigger] path[i], path[i + 1])
}

/// `path` is a walk in `net` that begins at `start` and ends at `goal`.
pub open spec fn leads(
    net: &SpaceNetwork,
    start: LocationId,
    goal: LocationId,
    path: Seq<LocationId>,
) -> bool {
    &&& is_walk(net, path)
    &&& path[0] == start
    &&& path.last() == goal
}

/// Some walk leads from `start` to `goal`.
pub open spec fn reachable(net: &SpaceNetwork, start: LocationId, goal: LocationId) -> bool {
    exists|path: Seq<LocationId>| leads(net, start, goal, path)
}

/// `costs` are the distances accumulated along `path`: zero at its first
/// location, and at each further one what `extend` made of the cost before
/// it and the current positions of the two ends of that leg.
pub open spec fn accumulates<F: Fn(u64, Point3, Point3) -> u64>(
    net: &SpaceNetwork,
    extend: F,
    path: Seq<LocationId>,
    costs: Seq<u64>,
) -> bool {
    &&& costs.len() == path.len()
    &&& costs.len() >= 1
    &&& costs[0] == 0
    &&& forall|i: int|
        0 <= i < path.len() - 1 ==> extend.ensures(
            (
                #[trigger] costs[i],
                net.positions()[path[i].index() as int],
                net.positions()[path[i + 1].index() as int],
            ),
            costs[i + 1],
        )
}

/// Every cost of the table is the key of a finite distance.
pub open spec fn finite(costs: Seq<u64>) -> bool {
    forall|i: int| 0 <= i < costs.len() ==> #[trigger] costs[i] < UNREACHED
}

/// `total` is the distance accumulated over the whole of `path`, and every
/// distance accumulated on the way is finite.
pub open spec fn measures<F: Fn(u64, Point3, Point3) -> u64>(
    net: &SpaceNetwork,
    extend: F,
    path: Seq<LocationId>,
    total: u64,
) -> bool {
    exists|costs: Seq<u64>|
        #[trigger] accumulates(net, extend, path, costs) && finite(costs) && costs.last() == total
}

/// Some walk leads from `start` to `goal` at a finite cost.
pub open spec fn within_reach<F: Fn(u64, Point3, Point3) -> u64>(
    net: &SpaceNetwork,
    extend: F,
    start: LocationId,
    goal: LocationId,
) -> bool {
    exists|path: Seq<LocationId>, costs: Seq<u64>|
        leads(net, start, goal, path) && #[trigger] accumulates(net, extend, path, costs) && finite(
            costs,
        )
}

/// No walk from `start` to `goal` costs less than `total`.
pub open spec fn optimal<F: Fn(u64, Point3, Point3) -> u64>(
    net: &SpaceNetwork,
    extend: F,
    start: LocationId,
    goal: LocationId,
    total: u64,
) -> bool {
    forall|path: Seq<LocationId>, costs: Seq<u64>|
        leads(net, start, goal, path) && #[trigger] accumulates(net, extend, path, costs) && finite(
            costs,
        ) ==> total <= costs.last()
}

/// `extend` keeps the order of finite costs: over one leg, the lower cost
/// comes out no higher. In particular one cost over one leg has one outcome.
pub open spec fn order_preserving<F: Fn(u64, Point3, Point3) -> u64>(extend: F) -> bool {
    forall|c1: u64, c2: u64, p: Point3, q: Point3, d1: u64, d2: u64|
        c1 <= c2 && c2 < UNREACHED && #[trigger] extend.ensures((c1, p, q), d1)
            && #[trigger] extend.ensures((c2, p, q), d2) ==> d1 <= d2
}

/// `extend` never shortens: lengthening a finite cost by a leg gives at
/// least that cost. This is what non-negative leg lengths amount to.
pub open spec fn never_shortens<F: Fn(u64, Point3, Point3) -> u64>(extend: F) -> bool {
    forall|c: u64, p: Point3, q: Point3, d: u64|
        c < UNREACHED && #[trigger] extend.ensures((c, p, q), d) ==> c <= d
}

/// `extend` accepts every cost and every pair of positions.
pub open spec fn always_callable<F: Fn(u64, Point3, Point3) -> u64>(extend: F) -> bool {
    forall|c: u64, p: Point3, q: Point3| #[trigger] extend.requires((c, p, q))
}

} // verus!
