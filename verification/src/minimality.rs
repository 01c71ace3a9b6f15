//! Why the cost that the search records at the goal is minimal.
//!
//! The argument is Dijkstra's: a walk from the start to a location that is
//! not finalized must leave the finalized locations somewhere, and where it
//! does, the location it steps to waits in the frontier at no more than the
//! walk's cost. The entry that comes out first is therefore no dearer than
//! any walk to its location.

use vstd::prelude::*;
use crate::frontier::{comes_first, Entry};
use crate::geometry::{Point3, UNREACHED};
use crate::handle::LocationId;
use crate::network::SpaceNetwork;
use crate::progress::finalize;
use crate::walks::{accumulates, finite, is_walk, leads, never_shortens, optimal, order_preserving, within_reach};

verus! {

/// The link from `x` to `y` has been tried: the cost recorded at `y` is no
/// higher than what the link makes of the cost recorded at `x`.
pub(crate) open spec fn relaxed<F: Fn(u64, Point3, Point3) -> u64>(
    net: &SpaceNetwork,
    extend: F,
    dist: Seq<u64>,
    x: int,
    y: int,
) -> bool {
    exists|d: u64|
        #[trigger] extend.ensures((dist[x], net.positions()[x], net.positions()[y]), d) && dist[y]
            <= d
}

/// The frontier holds `v` under its recorded cost.
pub(crate) open spec fn waiting_for(frontier: Seq<Entry>, dist: Seq<u64>, v: int) -> bool {
    exists|k: int|
        0 <= k < frontier.len() && (#[trigger] frontier[k]).position.index() == v && frontier[k].cost
            == dist[v]
}

/// What makes the recorded costs minimal. Every link out of a finalized
/// location has been tried (of `cur`, the one being expanded, the first
/// `upto`); the cost of a finalized location is minimal; every other reached
/// location waits in the frontier under its cost; the goal is never
/// finalized, because the search stops when it comes out.
pub(crate) open spec fn opt_inv<F: Fn(u64, Point3, Point3) -> u64>(
    net: &SpaceNetwork,
    extend: F,
    start: LocationId,
    goal: LocationId,
    dist: Seq<u64>,
    rank: Seq<int>,
    frontier: Seq<Entry>,
    cur: int,
    upto: int,
) -> bool {
    let n = net.positions().len();
    &&& rank[goal.index() as int] < 0
    &&& forall|x: int, k: int|
        0 <= x < n && rank[x] >= 0 && 0 <= k < net.links()[x].len() && (x != cur || k < upto)
            ==> relaxed(net, extend, dist, x, (#[trigger] net.links()[x][k]).index() as int)
    &&& forall|u: int|
        0 <= u < n && #[trigger] rank[u] >= 0 ==> optimal(net, extend, start, LocationId(u as usize), dist[u])
    &&& forall|v: int|
        0 <= v < n && #[trigger] rank[v] < 0 && dist[v] < UNREACHED ==> waiting_for(frontier, dist, v)
}

/// Along a walk of finite costs the accumulated cost never falls.
pub(crate) proof fn lemma_chain_rises<F: Fn(u64, Point3, Point3) -> u64>(
    net: &SpaceNetwork,
    extend: F,
    path: Seq<LocationId>,
    costs: Seq<u64>,
    i: int,
)
    requires
        never_shortens(extend),
        accumulates(net, extend, path, costs),
        finite(costs),
        0 <= i < costs.len(),
    ensures
        costs[i] <= costs.last(),
    decreases costs.len() - i,
{
    if i < costs.len() - 1 {
        assert(extend.ensures(
            (costs[i], net.positions()[path[i].index() as int], net.positions()[path[i + 1].index() as int]),
            costs[i + 1],
        ));
        lemma_chain_rises(net, extend, path, costs, i + 1);
    }
}

/// A walk from the start that ends at a location not yet finalized passes
/// through one such location whose recorded cost is no higher than the
/// walk's cost there.
pub(crate) proof fn lemma_crossing<F: Fn(u64, Point3, Point3) -> u64>(
    net: &SpaceNetwork,
    extend: F,
    start: LocationId,
    goal: LocationId,
    dist: Seq<u64>,
    rank: Seq<int>,
    frontier: Seq<Entry>,
    path: Seq<LocationId>,
    costs: Seq<u64>,
) -> (i: int)
    requires
        net.wf(),
        order_preserving(extend),
        dist.len() == net.positions().len(),
        rank.len() == net.positions().len(),
        dist[start.index() as int] == 0,
        opt_inv(net, extend, start, goal, dist, rank, frontier, -1, 0),
        is_walk(net, path),
        path[0] == start,
        accumulates(net, extend, path, costs),
        finite(costs),
        rank[path.last().index() as int] < 0,
    ensures
        0 <= i < path.len(),
        rank[path[i].index() as int] < 0,
        dist[path[i].index() as int] <= costs[i],
    decreases path.len(),
{
    let m = path.len() as int;
    if m == 1 {
        0
    } else {
        let x = path[m - 2];
        let y = path[m - 1];
        let pre = path.drop_last();
        let pre_costs = costs.drop_last();
        assert(is_walk(net, pre)) by {
            assert forall|i: int| 0 <= i < pre.len() implies net.contains(#[trigger] pre[i]) by {
                assert(pre[i] == path[i]);
            }
            assert forall|i: int| 0 <= i < pre.len() - 1 implies net.linked(
                #[trigger] pre[i],
                pre[i + 1],
            ) by {
                assert(net.linked(path[i], path[i + 1]));
            }
        }
        assert(accumulates(net, extend, pre, pre_costs)) by {
            assert forall|i: int| 0 <= i < pre.len() - 1 implies extend.ensures(
                (
                    #[trigger] pre_costs[i],
                    net.positions()[pre[i].index() as int],
                    net.positions()[pre[i + 1].index() as int],
                ),
                pre_costs[i + 1],
            ) by {
                assert(extend.ensures(
                    (
                        costs[i],
                        net.positions()[path[i].index() as int],
                        net.positions()[path[i + 1].index() as int],
                    ),
                    costs[i + 1],
                ));
            }
        }
        assert(finite(pre_costs)) by {
            assert forall|i: int| 0 <= i < pre_costs.len() implies #[trigger] pre_costs[i]
                < UNREACHED by {
                assert(costs[i] < UNREACHED);
            }
        }
        assert(net.contains(x));
        if rank[x.index() as int] < 0 {
            lemma_crossing(net, extend, start, goal, dist, rank, frontier, pre, pre_costs)
        } else {
            assert(leads(net, start, x, pre));
            assert(LocationId(x.index() as int as usize) == x);
            assert(optimal(net, extend, start, x, dist[x.index() as int]));
            assert(dist[x.index() as int] <= pre_costs.last());
            assert(net.linked(path[m - 2], path[m - 2 + 1]));
            let out = net.links()[x.index() as int];
            let k = choose|k: int| 0 <= k < out.len() && out[k] == y;
            assert(relaxed(net, extend, dist, x.index() as int, net.links()[x.index() as int][k].index() as int));
            let d = choose|d: u64|
                #[trigger] extend.ensures(
                    (dist[x.index() as int], net.positions()[x.index() as int], net.positions()[y.index() as int]),
                    d,
                ) && dist[y.index() as int] <= d;
            assert(costs[m - 2] < UNREACHED);
            assert(extend.ensures(
                (
                    costs[m - 2],
                    net.positions()[path[m - 2].index() as int],
                    net.positions()[path[m - 2 + 1].index() as int],
                ),
                costs[m - 2 + 1],
            ));
            assert(d <= costs[m - 1]);
            m - 1
        }
    }
}

/// The entry that leaves the frontier first, if it is up to date, carries
/// the minimal cost of its location.
pub(crate) proof fn lemma_first_out_is_optimal<F: Fn(u64, Point3, Point3) -> u64>(
    net: &SpaceNetwork,
    extend: F,
    start: LocationId,
    goal: LocationId,
    dist: Seq<u64>,
    rank: Seq<int>,
    waiting: Seq<Entry>,
    e: Entry,
)
    requires
        net.wf(),
        never_shortens(extend),
        order_preserving(extend),
        dist.len() == net.positions().len(),
        rank.len() == net.positions().len(),
        dist[start.index() as int] == 0,
        opt_inv(net, extend, start, goal, dist, rank, waiting, -1, 0),
        net.contains(e.position),
        dist[e.position.index() as int] == e.cost,
        forall|j: int| 0 <= j < waiting.len() ==> comes_first(e, #[trigger] waiting[j]),
    ensures
        optimal(net, extend, start, e.position, e.cost),
{
    assert forall|path: Seq<LocationId>, costs: Seq<u64>|
        leads(net, start, e.position, path) && #[trigger] accumulates(net, extend, path, costs)
            && finite(costs) implies e.cost <= costs.last() by {
        if rank[e.position.index() as int] >= 0 {
            assert(LocationId(e.position.index() as int as usize) == e.position);
            assert(optimal(net, extend, start, e.position, dist[e.position.index() as int]));
        } else {
            let i = lemma_crossing(net, extend, start, goal, dist, rank, waiting, path, costs);
            lemma_chain_rises(net, extend, path, costs, i);
            let y = path[i].index() as int;
            assert(costs[i] < UNREACHED);
            assert(waiting_for(waiting, dist, y));
            let k = choose|k: int|
                0 <= k < waiting.len() && (#[trigger] waiting[k]).position.index() == y
                    && waiting[k].cost == dist[y];
            assert(comes_first(e, waiting[k]));
        }
    }
}

/// Once the frontier is empty, no walk of finite cost leads to the goal.
pub(crate) proof fn lemma_empty_frontier<F: Fn(u64, Point3, Point3) -> u64>(
    net: &SpaceNetwork,
    extend: F,
    start: LocationId,
    goal: LocationId,
    dist: Seq<u64>,
    rank: Seq<int>,
    waiting: Seq<Entry>,
)
    requires
        net.wf(),
        never_shortens(extend),
        order_preserving(extend),
        dist.len() == net.positions().len(),
        rank.len() == net.positions().len(),
        dist[start.index() as int] == 0,
        opt_inv(net, extend, start, goal, dist, rank, waiting, -1, 0),
        waiting.len() == 0,
    ensures
        !within_reach(net, extend, start, goal),
{
    assert forall|path: Seq<LocationId>, costs: Seq<u64>|
        leads(net, start, goal, path) && #[trigger] accumulates(net, extend, path, costs)
            && finite(costs) implies false by {
        let i = lemma_crossing(net, extend, start, goal, dist, rank, waiting, path, costs);
        assert(costs[i] < UNREACHED);
        assert(waiting_for(waiting, dist, path[i].index() as int));
    }
}

/// Taking an entry out keeps every location waiting that is neither the
/// entry's own nor recorded at another cost than the entry's.
pub(crate) proof fn lemma_still_waiting(waiting: Seq<Entry>, i: int, dist: Seq<u64>, v: int)
    requires
        0 <= i < waiting.len(),
        waiting_for(waiting, dist, v),
        waiting[i].position.index() != v || waiting[i].cost != dist[v],
    ensures
        waiting_for(waiting.remove(i), dist, v),
{
    let k = choose|k: int|
        0 <= k < waiting.len() && (#[trigger] waiting[k]).position.index() == v && waiting[k].cost
            == dist[v];
    let rest = waiting.remove(i);
    if k < i {
        assert(rest[k] == waiting[k]);
    } else {
        assert(rest[k - 1] == waiting[k]);
    }
}

/// Passing over an outdated entry keeps the costs minimal.
pub(crate) proof fn lemma_passed_over<F: Fn(u64, Point3, Point3) -> u64>(
    net: &SpaceNetwork,
    extend: F,
    start: LocationId,
    goal: LocationId,
    dist: Seq<u64>,
    rank: Seq<int>,
    waiting: Seq<Entry>,
    i: int,
)
    requires
        net.wf(),
        dist.len() == net.positions().len(),
        opt_inv(net, extend, start, goal, dist, rank, waiting, -1, 0),
        0 <= i < waiting.len(),
        waiting[i].position.index() < dist.len(),
        waiting[i].cost > dist[waiting[i].position.index() as int],
    ensures
        opt_inv(net, extend, start, goal, dist, rank, waiting.remove(i), -1, 0),
{
    let n = net.positions().len();
    assert forall|v: int|
        0 <= v < n && #[trigger] rank[v] < 0 && dist[v] < UNREACHED implies waiting_for(
        waiting.remove(i),
        dist,
        v,
    ) by {
        lemma_still_waiting(waiting, i, dist, v);
    }
}

/// Finalizing the location of an up-to-date entry, at its minimal cost and
/// with none of its links tried yet, keeps the costs minimal.
pub(crate) proof fn lemma_finalized<F: Fn(u64, Point3, Point3) -> u64>(
    net: &SpaceNetwork,
    extend: F,
    start: LocationId,
    goal: LocationId,
    dist: Seq<u64>,
    rank: Seq<int>,
    clock: int,
    waiting: Seq<Entry>,
    i: int,
)
    requires
        net.wf(),
        dist.len() == net.positions().len(),
        rank.len() == net.positions().len(),
        clock >= 0,
        opt_inv(net, extend, start, goal, dist, rank, waiting, -1, 0),
        0 <= i < waiting.len(),
        net.contains(waiting[i].position),
        net.contains(goal),
        waiting[i].position != goal,
        optimal(net, extend, start, waiting[i].position, dist[waiting[i].position.index() as int]),
    ensures
        opt_inv(
            net,
            extend,
            start,
            goal,
            dist,
            finalize(rank, waiting[i].position.index() as int, clock),
            waiting.remove(i),
            waiting[i].position.index() as int,
            0,
        ),
{
    let n = net.positions().len();
    let u = waiting[i].position.index() as int;
    let ranked = finalize(rank, u, clock);
    assert(LocationId(u as usize) == waiting[i].position);
    assert(goal.index() != u) by {
        if goal.index() == u {
            assert(LocationId(goal.index()) == goal);
        }
    }
    assert(ranked[goal.index() as int] < 0);
    assert forall|v: int|
        0 <= v < n && #[trigger] ranked[v] < 0 && dist[v] < UNREACHED implies waiting_for(
        waiting.remove(i),
        dist,
        v,
    ) by {
        assert(rank[v] < 0);
        lemma_still_waiting(waiting, i, dist, v);
    }
    assert forall|x: int, k: int|
        0 <= x < n && ranked[x] >= 0 && 0 <= k < net.links()[x].len() && (x != u || k < 0)
            implies relaxed(net, extend, dist, x, (#[trigger] net.links()[x][k]).index() as int) by {
        assert(rank[x] >= 0);
    }
    assert forall|x: int| 0 <= x < n && #[trigger] ranked[x] >= 0 implies optimal(
        net,
        extend,
        start,
        LocationId(x as usize),
        dist[x],
    ) by {
        if x != u {
            assert(rank[x] >= 0);
        }
    }
}

/// A link that was tried without lowering the cost at its far end counts
/// as tried.
pub(crate) proof fn lemma_tried<F: Fn(u64, Point3, Point3) -> u64>(
    net: &SpaceNetwork,
    extend: F,
    start: LocationId,
    goal: LocationId,
    dist: Seq<u64>,
    rank: Seq<int>,
    frontier: Seq<Entry>,
    u: int,
    k: int,
    made: u64,
)
    requires
        net.wf(),
        dist.len() == net.positions().len(),
        opt_inv(net, extend, start, goal, dist, rank, frontier, u, k),
        0 <= u < net.positions().len(),
        0 <= k < net.links()[u].len(),
        extend.ensures((dist[u], net.positions()[u], net.positions()[net.links()[u][k].index() as int]), made),
        dist[net.links()[u][k].index() as int] <= made,
    ensures
        opt_inv(net, extend, start, goal, dist, rank, frontier, u, k + 1),
{
    let n = net.positions().len();
    assert forall|x: int, j: int|
        0 <= x < n && rank[x] >= 0 && 0 <= j < net.links()[x].len() && (x != u || j < k + 1)
            implies relaxed(net, extend, dist, x, (#[trigger] net.links()[x][j]).index() as int) by {
        if x == u && j == k {
        }
    }
}

/// Lowering the cost of a location that is not finalized, over a link out
/// of the location being expanded, and entering it in the frontier, keeps the
/// costs minimal.
pub(crate) proof fn lemma_lowered<F: Fn(u64, Point3, Point3) -> u64>(
    net: &SpaceNetwork,
    extend: F,
    start: LocationId,
    goal: LocationId,
    dist: Seq<u64>,
    rank: Seq<int>,
    frontier: Seq<Entry>,
    u: int,
    k: int,
    made: u64,
)
    requires
        net.wf(),
        dist.len() == net.positions().len(),
        rank.len() == net.positions().len(),
        opt_inv(net, extend, start, goal, dist, rank, frontier, u, k),
        0 <= u < net.positions().len(),
        0 <= k < net.links()[u].len(),
        rank[u] >= 0,
        rank[net.links()[u][k].index() as int] < 0,
        extend.ensures((dist[u], net.positions()[u], net.positions()[net.links()[u][k].index() as int]), made),
        made < dist[net.links()[u][k].index() as int],
    ensures
        opt_inv(
            net,
            extend,
            start,
            goal,
            dist.update(net.links()[u][k].index() as int, made),
            rank,
            frontier.push(Entry { cost: made, position: net.links()[u][k] }),
            u,
            k + 1,
        ),
{
    let n = net.positions().len();
    let to = net.links()[u][k];
    let v = to.index() as int;
    let lower = dist.update(v, made);
    let grown = frontier.push(Entry { cost: made, position: to });
    assert(net.contains(to));
    assert forall|x: int, j: int|
        0 <= x < n && rank[x] >= 0 && 0 <= j < net.links()[x].len() && (x != u || j < k + 1)
            implies relaxed(net, extend, lower, x, (#[trigger] net.links()[x][j]).index() as int) by {
        let y = net.links()[x][j].index() as int;
        assert(net.contains(net.links()[x][j]));
        if x == u && j == k {
            assert(extend.ensures((lower[u], net.positions()[u], net.positions()[v]), made));
        } else {
            assert(relaxed(net, extend, dist, x, y));
            let d = choose|d: u64|
                #[trigger] extend.ensures((dist[x], net.positions()[x], net.positions()[y]), d)
                    && dist[y] <= d;
            assert(extend.ensures((lower[x], net.positions()[x], net.positions()[y]), d));
            assert(lower[y] <= d);
        }
    }
    assert forall|x: int| 0 <= x < n && #[trigger] rank[x] >= 0 implies optimal(
        net,
        extend,
        start,
        LocationId(x as usize),
        lower[x],
    ) by {
        assert(lower[x] == dist[x]);
    }
    assert forall|w: int|
        0 <= w < n && #[trigger] rank[w] < 0 && lower[w] < UNREACHED implies waiting_for(grown, lower, w) by {
        if w == v {
            assert(grown[frontier.len() as int].position.index() == v);
        } else {
            assert(waiting_for(frontier, dist, w));
            let j = choose|j: int|
                0 <= j < frontier.len() && (#[trigger] frontier[j]).position.index() == w
                    && frontier[j].cost == dist[w];
            assert(grown[j] == frontier[j]);
        }
    }
}

} // verus!
