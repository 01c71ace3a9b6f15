//! Laws that relate walks, costs and changes to the network.

use vstd::prelude::*;
use crate::handle::LocationId;
use crate::network::SpaceNetwork;
use crate::geometry::{Point3, UNREACHED};
use crate::walks::{accumulates, finite, is_walk, leads, order_preserving, reachable};

verus! {

/// Moving locations about changes no walk. Between two networks with the
/// same locations and the same links, whatever their positions, a sequence of
/// handles is a walk in one exactly when it is a walk in the other. So a
/// route found before a relocation is still a walk afterwards; only its cost
/// is measured anew.
pub proof fn lemma_relocation_keeps_walks(
    before: &SpaceNetwork,
    after: &SpaceNetwork,
    path: Seq<LocationId>,
)
    requires
        after.links() == before.links(),
        after.positions().len() == before.positions().len(),
    ensures
        is_walk(before, path) == is_walk(after, path),
{
    if is_walk(before, path) {
        assert forall|i: int| 0 <= i < path.len() - 1 implies after.linked(
            #[trigger] path[i],
            path[i + 1],
        ) by {
            assert(before.linked(path[i], path[i + 1]));
        }
    }
    if is_walk(after, path) {
        assert forall|i: int| 0 <= i < path.len() - 1 implies before.linked(
            #[trigger] path[i],
            path[i + 1],
        ) by {
            assert(after.linked(path[i], path[i + 1]));
        }
    }
}

/// A relocation is local. Where two networks differ in the position of one
/// location at most, a walk that avoids that location accumulates the same
/// costs in both.
pub proof fn lemma_relocation_is_local<F: Fn(u64, Point3, Point3) -> u64>(
    before: &SpaceNetwork,
    after: &SpaceNetwork,
    extend: F,
    moved: LocationId,
    path: Seq<LocationId>,
    costs: Seq<u64>,
)
    requires
        after.positions().len() == before.positions().len(),
        forall|i: int|
            0 <= i < before.positions().len() && i != moved.index() ==> after.positions()[i]
                == before.positions()[i],
        is_walk(before, path),
        forall|i: int| 0 <= i < path.len() ==> #[trigger] path[i] != moved,
    ensures
        accumulates(before, extend, path, costs) == accumulates(after, extend, path, costs),
{
    assert forall|i: int| 0 <= i < path.len() implies after.positions()[path[i].index() as int]
        == before.positions()[path[i].index() as int] by {
        assert(before.contains(path[i]));
        path[i].lemma_same_index(moved);
    }
    if accumulates(before, extend, path, costs) {
        assert forall|i: int| 0 <= i < path.len() - 1 implies extend.ensures(
            (
                #[trigger] costs[i],
                after.positions()[path[i].index() as int],
                after.positions()[path[i + 1].index() as int],
            ),
            costs[i + 1],
        ) by {
            assert(extend.ensures(
                (
                    costs[i],
                    before.positions()[path[i].index() as int],
                    before.positions()[path[i + 1].index() as int],
                ),
                costs[i + 1],
            ));
        }
    }
    if accumulates(after, extend, path, costs) {
        assert forall|i: int| 0 <= i < path.len() - 1 implies extend.ensures(
            (
                #[trigger] costs[i],
                before.positions()[path[i].index() as int],
                before.positions()[path[i + 1].index() as int],
            ),
            costs[i + 1],
        ) by {
            assert(extend.ensures(
                (
                    costs[i],
                    after.positions()[path[i].index() as int],
                    after.positions()[path[i + 1].index() as int],
                ),
                costs[i + 1],
            ));
        }
    }
}

/// Links are one-way. From a location that no link leaves, no other
/// location can be reached, whatever links arrive at it.
pub proof fn lemma_dead_end(net: &SpaceNetwork, from: LocationId, to: LocationId)
    requires
        net.contains(from),
        net.links()[from.index() as int].len() == 0,
        from != to,
    ensures
        !reachable(net, from, to),
{
    assert forall|path: Seq<LocationId>| !leads(net, from, to, path) by {
        if leads(net, from, to, path) {
            if path.len() >= 2 {
                assert(net.linked(path[0], path[0int + 1]));
            }
        }
    }
}

/// A link is a walk of one leg: what a location links to can be reached
/// from it.
pub proof fn lemma_link_is_walk(net: &SpaceNetwork, from: LocationId, to: LocationId)
    requires
        net.linked(from, to),
    ensures
        reachable(net, from, to),
{
    let path = seq![from, to];
    assert(net.linked(path[0], path[0int + 1]));
    assert(leads(net, from, to, path));
}

/// The cost of a walk is one number. Where `extend` keeps the order of
/// costs, two tables of costs accumulated along the same walk, one of them
/// finite, agree entry by entry. So whoever adds up the legs of a returned
/// route anew arrives at the route's total.
pub proof fn lemma_cost_of_walk_is_unique<F: Fn(u64, Point3, Point3) -> u64>(
    net: &SpaceNetwork,
    extend: F,
    path: Seq<LocationId>,
    costs: Seq<u64>,
    again: Seq<u64>,
)
    requires
        order_preserving(extend),
        accumulates(net, extend, path, costs),
        accumulates(net, extend, path, again),
        finite(costs),
    ensures
        again == costs,
{
    assert forall|i: int| 0 <= i < costs.len() implies again[i] == costs[i] by {
        lemma_costs_agree_up_to(net, extend, path, costs, again, i);
    }
    assert(again =~= costs);
}

/// Two tables of costs along one walk agree at entry `i`.
proof fn lemma_costs_agree_up_to<F: Fn(u64, Point3, Point3) -> u64>(
    net: &SpaceNetwork,
    extend: F,
    path: Seq<LocationId>,
    costs: Seq<u64>,
    again: Seq<u64>,
    i: int,
)
    requires
        order_preserving(extend),
        accumulates(net, extend, path, costs),
        accumulates(net, extend, path, again),
        finite(costs),
        0 <= i < costs.len(),
    ensures
        again[i] == costs[i],
    decreases i,
{
    if i > 0 {
        lemma_costs_agree_up_to(net, extend, path, costs, again, i - 1);
        let from = net.positions()[path[i - 1].index() as int];
        let to = net.positions()[path[i - 1 + 1].index() as int];
        assert(costs[i - 1] < UNREACHED);
        assert(extend.ensures((costs[i - 1], from, to), costs[i - 1 + 1]));
        assert(extend.ensures((again[i - 1], from, to), again[i - 1 + 1]));
    }
}

} // verus!
